//! Content fingerprinting: every rendered file is hashed with SHA-1 (the
//! hosting provider's required checksum algorithm for deduplication) and
//! keyed by its site-relative logical path. A site without an index page
//! cannot be fingerprinted at all.
use vstd::prelude::*;
use crate::netlify::distinct_paths;
use crate::netlify::Netlify;
use crate::text::views_of;

verus! {

/// The 40-character hex rendering of the SHA-1 digest of some bytes. The
/// digest depends on the bytes alone.
pub uninterp spec fn sha1_hex_of(data: Seq<u8>) -> Seq<char>;

/// Relies on `sha1_smol::Sha1` (`from`, `digest`) and the `Display` of its
/// `Digest`, which formats the five digest words as exactly 40 lowercase hex
/// digits, a pure function of the input bytes.
#[verifier::external_body]
fn sha1_hex(data: &[u8]) -> (r: String)
    ensures
        r@ == sha1_hex_of(data@),
        r@.len() == 40,
{
    sha1_smol::Sha1::from(data).digest().to_string()
}

/// One fingerprinted file: its site-relative path and its digest string.
pub struct FileHash {
    pub path: String,
    pub hash: String,
}

pub struct FileHashView {
    pub path: Seq<char>,
    pub hash: Seq<char>,
}

impl View for FileHash {
    type V = FileHashView;

    open spec fn view(&self) -> FileHashView {
        FileHashView { path: self.path@, hash: self.hash@ }
    }
}

/// The content fingerprint map of one site: a digest for the index page and
/// for every rendered post file.
pub struct FileHashes {
    pub files: Vec<FileHash>,
}

impl View for FileHashes {
    type V = Seq<FileHashView>;

    open spec fn view(&self) -> Seq<FileHashView> {
        views_of(self.files@)
    }
}

/// One file of the rendered-posts directory, as bytes.
pub struct PostFile {
    pub name: String,
    pub bytes: Vec<u8>,
}

pub struct PostFileView {
    pub name: Seq<char>,
    pub bytes: Seq<u8>,
}

impl View for PostFile {
    type V = PostFileView;

    open spec fn view(&self) -> PostFileView {
        PostFileView { name: self.name@, bytes: self.bytes@ }
    }
}

/// Why fingerprinting failed: the site has no index page, or its posts
/// directory could not be enumerated at all.
#[derive(Debug, PartialEq, Eq)]
pub enum ChecksumError {
    MissingIndex,
    PostsDirUnreadable,
}

/// The fingerprint entries of the post files, in input order, each keyed by
/// its `/posts/` logical path.
pub open spec fn post_fingerprints_spec(posts: Seq<PostFileView>) -> Seq<FileHashView>
    decreases posts.len(),
{
    if posts.len() == 0 {
        Seq::<FileHashView>::empty()
    } else {
        post_fingerprints_spec(posts.drop_last()).push(
            FileHashView {
                path: "/posts/"@ + posts.last().name,
                hash: sha1_hex_of(posts.last().bytes),
            },
        )
    }
}

/// The whole fingerprint map: the index page first, then every post file.
pub open spec fn fingerprints_spec(index: Seq<u8>, posts: Seq<PostFileView>) -> Seq<
    FileHashView,
> {
    seq![FileHashView { path: "/index.html"@, hash: sha1_hex_of(index) }]
        + post_fingerprints_spec(posts)
}

impl Netlify {
    /// Fingerprint a site's rendered output: the index page (which must
    /// exist — a site always has an index before it can be fingerprinted)
    /// and every file of the posts directory. Without an index page no hash
    /// is computed and `ChecksumError::MissingIndex` comes back.
    pub fn generate_sha1_for_posts(index_html: Option<Vec<u8>>, posts: Vec<PostFile>) -> (r:
        Result<FileHashes, ChecksumError>)
        ensures
            match r {
                Ok(fh) => index_html is Some && fh@ == fingerprints_spec(
                    index_html->0@,
                    views_of(posts@),
                ),
                Err(e) => index_html is None && e == ChecksumError::MissingIndex,
            },
    {
        let index_bytes = match index_html {
            Some(b) => b,
            None => {
                return Err(ChecksumError::MissingIndex);
            },
        };
        let ghost pv = views_of(posts@);
        let mut files: Vec<FileHash> = Vec::new();
        let index_digest = sha1_hex(index_bytes.as_slice());
        files.push(FileHash { path: String::from_str("/index.html"), hash: index_digest });
        proof {
            assert(views_of(files@) =~= seq![
                FileHashView { path: "/index.html"@, hash: sha1_hex_of(index_bytes@) },
            ]);
            assert(pv.take(0) =~= Seq::<PostFileView>::empty());
            assert(views_of(files@) =~= fingerprints_spec(index_bytes@, pv.take(0)));
        }
        let n = posts.len();
        let mut i: usize = 0;
        while i < n
            invariant
                0 <= i <= n == posts@.len(),
                pv == views_of(posts@),
                views_of(files@) == fingerprints_spec(index_bytes@, pv.take(i as int)),
            decreases n - i,
        {
            let ghost old_files = files@;
            let p = &posts[i];
            let digest = sha1_hex(p.bytes.as_slice());
            let mut path = String::from_str("/posts/");
            path.append(p.name.as_str());
            files.push(FileHash { path, hash: digest });
            proof {
                assert(pv[i as int] == posts@[i as int]@);
                assert(pv.take(i + 1).drop_last() =~= pv.take(i as int));
                assert(pv.take(i + 1).last() == pv[i as int]);
                assert(views_of(files@) =~= views_of(old_files).push(
                    FileHashView {
                        path: "/posts/"@ + pv[i as int].name,
                        hash: sha1_hex_of(pv[i as int].bytes),
                    },
                ));
                assert(seq![FileHashView { path: "/index.html"@, hash: sha1_hex_of(index_bytes@) }]
                    + post_fingerprints_spec(pv.take(i as int)).push(
                    FileHashView {
                        path: "/posts/"@ + pv[i as int].name,
                        hash: sha1_hex_of(pv[i as int].bytes),
                    },
                ) =~= views_of(files@));
            }
            i = i + 1;
        }
        proof {
            assert(pv.take(n as int) =~= pv);
        }
        Ok(FileHashes { files })
    }
}

/// Hashing the same bytes twice yields the same digest string.
pub proof fn lemma_fingerprint_stable(data: Seq<u8>, h1: Seq<char>, h2: Seq<char>)
    requires
        h1 == sha1_hex_of(data),
        h2 == sha1_hex_of(data),
    ensures
        h1 == h2,
{
}

/// No two distinct post names collide under the `/posts/` prefix.
proof fn lemma_posts_prefix_injective(a: Seq<char>, b: Seq<char>)
    requires
        a != b,
    ensures
        "/posts/"@ + a != "/posts/"@ + b,
{
    let pa = "/posts/"@ + a;
    let pb = "/posts/"@ + b;
    let k = "/posts/"@.len() as int;
    if pa == pb {
        assert(a.len() == pa.len() - k);
        assert(b.len() == pb.len() - k);
        assert forall|q: int| 0 <= q < a.len() implies a[q] == b[q] by {
            assert(pa[k + q] == a[q]);
            assert(pb[k + q] == b[q]);
        }
        assert(a =~= b);
    }
}

/// A post path never collides with the index path.
proof fn lemma_index_path_distinct(name: Seq<char>)
    ensures
        "/index.html"@ != "/posts/"@ + name,
{
    reveal_strlit("/index.html");
    reveal_strlit("/posts/");
    let p = "/posts/"@ + name;
    if "/index.html"@ == p {
        assert("/index.html"@[1] == 'i');
        assert(p[1] == "/posts/"@[1]);
        assert("/posts/"@[1] == 'p');
    }
}

/// With the post files carrying distinct names — as files of one directory
/// do — every path of the fingerprint map is distinct.
pub proof fn lemma_fingerprints_distinct(index: Seq<u8>, posts: Seq<PostFileView>)
    requires
        forall|i: int, j: int| 0 <= i < j < posts.len() ==> posts[i].name != posts[j].name,
    ensures
        distinct_paths(fingerprints_spec(index, posts)),
{
    let fs = fingerprints_spec(index, posts);
    lemma_post_fingerprint_paths(posts);
    assert forall|i: int, j: int| 0 <= i < j < fs.len() implies fs[i].path != fs[j].path by {
        if i == 0 {
            assert(fs[j] == post_fingerprints_spec(posts)[j - 1]);
            assert(fs[j].path == "/posts/"@ + posts[j - 1].name);
            lemma_index_path_distinct(posts[j - 1].name);
        } else {
            assert(fs[i].path == "/posts/"@ + posts[i - 1].name);
            assert(fs[j].path == "/posts/"@ + posts[j - 1].name);
            lemma_posts_prefix_injective(posts[i - 1].name, posts[j - 1].name);
        }
    }
}

proof fn lemma_post_fingerprint_paths(posts: Seq<PostFileView>)
    ensures
        post_fingerprints_spec(posts).len() == posts.len(),
        forall|k: int|
            0 <= k < posts.len() ==> #[trigger] post_fingerprints_spec(posts)[k].path == "/posts/"@
                + posts[k].name,
    decreases posts.len(),
{
    if posts.len() > 0 {
        lemma_post_fingerprint_paths(posts.drop_last());
        assert(forall|k: int|
            0 <= k < posts.len() - 1 ==> posts.drop_last()[k].name == posts[k].name);
    }
}

} // verus!
