//! The publisher's side of the pipeline: connection details for the hosting
//! provider's REST API, the request URLs its calls are sent to, the
//! classification of its responses (a 422 means the site name is taken), and
//! the selection of which fingerprinted files must be uploaded.
use vstd::prelude::*;
use vstd::string::StrSliceExecFns;
use vstd::string::StringExecFns;
use crate::checksum::FileHashes;
use crate::checksum::FileHashView;
use crate::text::str_eq;
use crate::text::views_of;

verus! {

/// Connection details for the hosting provider's API: user agent, bearer
/// token, and base URL, handed in explicitly at construction time.
pub struct Netlify {
    pub user_agent: String,
    pub token: String,
    pub url: String,
}

/// The details of an SSL certificate, as the provisioning call wants them.
#[allow(non_camel_case_types)]
pub struct Ssl_Cert {
    pub cert: Option<String>,
    pub key: Option<String>,
    pub ca_cert: Option<String>,
}

/// How the publisher reports a failed call: a distinguished name conflict
/// (HTTP 422: the requested site name collides with an existing one), any
/// other non-success status, or a transport failure before any status came.
#[derive(Debug, PartialEq, Eq)]
pub enum PublisherError {
    NameConflict,
    ApiFailure(u16),
    Network,
}

impl Netlify {
    /// Bundle the connection details; no field is altered.
    pub fn new(user_agent: String, token: String, url: String) -> (n: Netlify)
        ensures
            n.user_agent@ == user_agent@,
            n.token@ == token@,
            n.url@ == url@,
    {
        Netlify { user_agent, token, url }
    }

    /// The URL that lists all sites, and that a new site is posted to.
    pub fn sites_url(&self) -> (r: String)
        ensures
            r@ == self.url@ + "sites"@,
    {
        let mut r = self.url.clone();
        r.append("sites");
        r
    }

    /// The URL of one site's record.
    pub fn site_details_url(&self, id: &str) -> (r: String)
        ensures
            r@ == self.url@ + "sites/"@ + id@,
    {
        let mut r = self.url.clone();
        r.append("sites/");
        r.append(id);
        r
    }

    /// The URL a site's fingerprint map is posted to as a deploy request.
    pub fn deploys_url(&self, site_id: &str) -> (r: String)
        ensures
            r@ == self.url@ + "sites/"@ + site_id@ + "/deploys"@,
    {
        let mut r = self.url.clone();
        r.append("sites/");
        r.append(site_id);
        r.append("/deploys");
        r
    }

    /// The URL one required file is put to, with the deploy id embedded in
    /// the path and the site-relative logical path appended.
    pub fn upload_url(&self, deploy_id: &str, logical_path: &str) -> (r: String)
        ensures
            r@ == self.url@ + "deploys/"@ + deploy_id@ + "/files"@ + logical_path@,
    {
        let mut r = self.url.clone();
        r.append("deploys/");
        r.append(deploy_id);
        r.append("/files");
        r.append(logical_path);
        r
    }

    /// The URL that provisions an SSL certificate for a site. The query
    /// embeds all three certificate parts, so they must all be present.
    pub fn provision_ssl_url(&self, site_id: &str, ssl: &Ssl_Cert) -> (r: String)
        requires
            ssl.cert is Some,
            ssl.key is Some,
            ssl.ca_cert is Some,
        ensures
            r@ == self.url@ + "sites/"@ + site_id@ + "/ssl?certificate="@ + ssl.cert->0@
                + "&key="@ + ssl.key->0@ + "&ca_certificates="@ + ssl.ca_cert->0@,
    {
        let mut r = self.url.clone();
        r.append("sites/");
        r.append(site_id);
        r.append("/ssl?certificate=");
        match &ssl.cert {
            Some(c) => r.append(c.as_str()),
            None => {},
        }
        r.append("&key=");
        match &ssl.key {
            Some(k) => r.append(k.as_str()),
            None => {},
        }
        r.append("&ca_certificates=");
        match &ssl.ca_cert {
            Some(a) => r.append(a.as_str()),
            None => {},
        }
        r
    }
}

/// The local file that a site-relative logical path names: every logical
/// path lives under the site's directory, the root index file in particular.
pub open spec fn local_path_spec(name: Seq<char>, id: Seq<char>, logical: Seq<char>) -> Seq<char> {
    site_dir_spec(name, id) + logical
}

/// The directory a site's files live in, derived from its name and its
/// provider-assigned identifier.
pub open spec fn site_dir_spec(name: Seq<char>, id: Seq<char>) -> Seq<char> {
    "sites/"@ + name + "_"@ + id
}

/// Derive a site's local directory path.
pub fn site_dir_path(name: &str, id: &str) -> (r: String)
    ensures
        r@ == site_dir_spec(name@, id@),
{
    let mut r = String::from_str("sites/");
    r.append(name);
    r.append("_");
    r.append(id);
    r
}

/// Resolve a logical path back to the local file it names, with the root
/// index file mapped into the site directory explicitly.
pub fn local_path_for(name: &str, id: &str, logical_path: &str) -> (r: String)
    ensures
        r@ == local_path_spec(name@, id@, logical_path@),
{
    let mut r = site_dir_path(name, id);
    if str_eq(logical_path, "/index.html") {
        r.append("/index.html");
    } else {
        r.append(logical_path);
    }
    r
}

/// A site name as the index page shows it: dashes and underscores give way
/// to blanks.
pub open spec fn display_name_spec(s: Seq<char>) -> Seq<char> {
    Seq::new(
        s.len(),
        |i: int|
            if s[i] == '-' || s[i] == '_' {
                ' '
            } else {
                s[i]
            },
    )
}

/// Clean a site name for display: every dash and underscore becomes a blank.
pub fn display_site_name(name: &str) -> (r: String)
    ensures
        r@ == display_name_spec(name@),
{
    let n = name.unicode_len();
    let mut r = String::new();
    let mut i: usize = 0;
    proof {
        assert(r@ =~= display_name_spec(name@.take(0)));
    }
    while i < n
        invariant
            0 <= i <= n == name@.len(),
            r@ == display_name_spec(name@.take(i as int)),
        decreases n - i,
    {
        let c = name.get_char(i);
        if c == '-' || c == '_' {
            r.append(" ");
            proof {
                reveal_strlit(" ");
                assert(" "@ =~= seq![' ']);
            }
        } else {
            let piece = name.substring_char(i, i + 1);
            r.append(piece);
            proof {
                assert(piece@ =~= seq![name@[i as int]]);
            }
        }
        proof {
            assert(r@ =~= display_name_spec(name@.take(i + 1)));
        }
        i = i + 1;
    }
    proof {
        assert(name@.take(n as int) =~= name@);
    }
    r
}

/// Read a call's outcome off its HTTP status: success for the 2xx range, the
/// distinguished name conflict for 422, and the carried status otherwise.
pub fn classify_response(status: u16) -> (r: Result<(), PublisherError>)
    ensures
        (200 <= status < 300) <==> r is Ok,
        status == 422 ==> r == Result::<(), PublisherError>::Err(PublisherError::NameConflict),
        !(200 <= status < 300) && status != 422 ==> r == Result::<(), PublisherError>::Err(
            PublisherError::ApiFailure(status),
        ),
{
    if 200 <= status && status < 300 {
        Ok(())
    } else if status == 422 {
        Err(PublisherError::NameConflict)
    } else {
        Err(PublisherError::ApiFailure(status))
    }
}

/// The site-relative paths of the fingerprint map that the provider's
/// `required` list asks for, in fingerprint-map order.
pub open spec fn select_spec(fs: Seq<FileHashView>, req: Seq<Seq<char>>) -> Seq<Seq<char>>
    decreases fs.len(),
{
    if fs.len() == 0 {
        Seq::<Seq<char>>::empty()
    } else {
        let pre = select_spec(fs.drop_last(), req);
        if req.contains(fs.last().path) {
            pre.push(fs.last().path)
        } else {
            pre
        }
    }
}

/// Is `s` one of the strings in `v`?
fn contains_str(v: &Vec<String>, s: &str) -> (r: bool)
    ensures
        r == views_of(v@).contains(s@),
{
    let n = v.len();
    let mut i: usize = 0;
    while i < n
        invariant
            0 <= i <= n == v@.len(),
            forall|k: int| 0 <= k < i ==> views_of(v@)[k] != s@,
        decreases n - i,
    {
        if str_eq(v[i].as_str(), s) {
            proof {
                assert(views_of(v@)[i as int] == s@);
            }
            return true;
        }
        proof {
            assert(views_of(v@)[i as int] == v@[i as int]@);
        }
        i = i + 1;
    }
    proof {
        assert(!views_of(v@).contains(s@));
    }
    false
}

/// Pick, from the local fingerprint map, exactly the paths the provider
/// still requires: a path is uploaded when and only when it stands in the
/// map and in the `required` list.
pub fn select_uploads(hashes: &FileHashes, required: &Vec<String>) -> (r: Vec<String>)
    ensures
        views_of(r@) == select_spec(hashes@, views_of(required@)),
{
    let ghost fsv = hashes@;
    let ghost reqv = views_of(required@);
    let n = hashes.files.len();
    let mut r: Vec<String> = Vec::new();
    let mut i: usize = 0;
    proof {
        assert(fsv.take(0) =~= Seq::<FileHashView>::empty());
        assert(views_of(r@) =~= select_spec(fsv.take(0), reqv));
    }
    while i < n
        invariant
            0 <= i <= n == hashes.files@.len(),
            fsv == hashes@,
            reqv == views_of(required@),
            views_of(r@) == select_spec(fsv.take(i as int), reqv),
        decreases n - i,
    {
        let ghost old_r = r@;
        let f = &hashes.files[i];
        proof {
            assert(fsv[i as int] == hashes.files@[i as int]@);
            assert(fsv.take(i + 1).drop_last() =~= fsv.take(i as int));
            assert(fsv.take(i + 1).last() == fsv[i as int]);
        }
        if contains_str(required, f.path.as_str()) {
            r.push(f.path.clone());
            proof {
                assert(views_of(r@) =~= views_of(old_r).push(fsv[i as int].path));
            }
        }
        i = i + 1;
    }
    proof {
        assert(fsv.take(n as int) =~= fsv);
    }
    r
}

/// No two entries of a fingerprint map name the same path.
pub open spec fn distinct_paths(fs: Seq<FileHashView>) -> bool {
    forall|i: int, j: int| 0 <= i < j < fs.len() ==> fs[i].path != fs[j].path
}

/// A path leaves the selection only out of the fingerprint map.
proof fn lemma_select_members(fs: Seq<FileHashView>, req: Seq<Seq<char>>)
    ensures
        forall|p: Seq<char>|
            #[trigger] select_spec(fs, req).contains(p) ==> req.contains(p) && exists|k: int|
                0 <= k < fs.len() && fs[k].path == p,
    decreases fs.len(),
{
    if fs.len() > 0 {
        lemma_select_members(fs.drop_last(), req);
        assert forall|p: Seq<char>| #[trigger] select_spec(fs, req).contains(p) implies req
            .contains(p) && exists|k: int| 0 <= k < fs.len() && fs[k].path == p by {
            let pre = select_spec(fs.drop_last(), req);
            if req.contains(fs.last().path) {
                assert(select_spec(fs, req) == pre.push(fs.last().path));
                let w = choose|w: int|
                    0 <= w < select_spec(fs, req).len() && select_spec(fs, req)[w] == p;
                if w < pre.len() {
                    assert(pre.contains(p));
                    let k = choose|k: int| 0 <= k < fs.drop_last().len() && fs.drop_last()[k].path
                        == p;
                    assert(fs[k].path == p);
                } else {
                    assert(p == fs.last().path);
                    assert(fs[fs.len() - 1].path == p);
                }
            } else {
                assert(pre.contains(p));
                let k = choose|k: int| 0 <= k < fs.drop_last().len() && fs.drop_last()[k].path
                    == p;
                assert(fs[k].path == p);
            }
        }
    }
}

/// A required path present in the fingerprint map is selected, a path the
/// `required` list omits is not, and — the map holding each path once — no
/// path is selected twice.
pub proof fn lemma_select_uploads_exact(fs: Seq<FileHashView>, req: Seq<Seq<char>>)
    requires
        distinct_paths(fs),
    ensures
        forall|p: Seq<char>|
            #[trigger] select_spec(fs, req).contains(p) <==> (req.contains(p) && exists|k: int|
                0 <= k < fs.len() && #[trigger] fs[k].path == p),
        forall|i: int, j: int|
            0 <= i < j < select_spec(fs, req).len() ==> select_spec(fs, req)[i] != select_spec(
                fs,
                req,
            )[j],
    decreases fs.len(),
{
    lemma_select_members(fs, req);
    if fs.len() == 0 {
    } else {
        assert(forall|i: int, j: int|
            0 <= i < j < fs.drop_last().len() ==> fs.drop_last()[i].path != fs.drop_last()[
                j
            ].path);
        lemma_select_uploads_exact(fs.drop_last(), req);
        let pre = select_spec(fs.drop_last(), req);
        lemma_select_members(fs.drop_last(), req);
        // completeness: a member of the map that is required is selected
        assert forall|p: Seq<char>|
            (req.contains(p) && exists|k: int|
                0 <= k < fs.len() && #[trigger] fs[k].path == p) implies select_spec(
            fs,
            req,
        ).contains(p) by {
            let k = choose|k: int| 0 <= k < fs.len() && fs[k].path == p;
            if k < fs.len() - 1 {
                assert(fs.drop_last()[k].path == p);
                assert(pre.contains(p));
                let w = choose|w: int| 0 <= w < pre.len() && pre[w] == p;
                if req.contains(fs.last().path) {
                    assert(select_spec(fs, req)[w] == p);
                } else {
                    assert(select_spec(fs, req)[w] == p);
                }
            } else {
                assert(fs.last().path == p);
                assert(select_spec(fs, req) == pre.push(fs.last().path));
                assert(select_spec(fs, req)[pre.len() as int] == p);
            }
        }
        // no duplicates: the last path is new to the selection
        if req.contains(fs.last().path) {
            assert(select_spec(fs, req) == pre.push(fs.last().path));
            assert forall|i: int, j: int|
                0 <= i < j < select_spec(fs, req).len() implies select_spec(fs, req)[i]
                != select_spec(fs, req)[j] by {
                if j == pre.len() {
                    assert(select_spec(fs, req)[i] == pre[i]);
                    assert(pre.contains(pre[i]));
                    let k = choose|k: int| 0 <= k < fs.drop_last().len() && fs.drop_last()[k].path
                        == pre[i];
                    assert(fs[k].path == pre[i]);
                    assert(fs[k].path != fs.last().path);
                } else {
                    assert(select_spec(fs, req)[i] == pre[i]);
                    assert(select_spec(fs, req)[j] == pre[j]);
                }
            }
        }
    }
}

} // verus!
