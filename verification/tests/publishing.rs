use driftwood::checksum::ChecksumError;
use driftwood::checksum::FileHashes;
use driftwood::checksum::PostFile;
use driftwood::netlify::classify_response;
use driftwood::netlify::display_site_name;
use driftwood::netlify::local_path_for;
use driftwood::netlify::select_uploads;
use driftwood::netlify::site_dir_path;
use driftwood::netlify::Netlify;
use driftwood::netlify::PublisherError;
use driftwood::netlify::Ssl_Cert;

fn post_file(name: &str, bytes: &[u8]) -> PostFile {
    PostFile { name: name.to_string(), bytes: bytes.to_vec() }
}

fn fingerprints(index: &[u8], posts: Vec<PostFile>) -> FileHashes {
    Netlify::generate_sha1_for_posts(Some(index.to_vec()), posts).unwrap()
}

#[test]
fn fingerprint_known_digest() {
    let fh = fingerprints(b"abc", Vec::new());
    assert_eq!(fh.files.len(), 1);
    assert_eq!(fh.files[0].path, "/index.html");
    assert_eq!(fh.files[0].hash, "a9993e364706816aba3e25717850c26c9cd0d89d");
}

#[test]
fn fingerprint_stable_across_runs() {
    let a = fingerprints(b"same bytes", vec![post_file("p.html", b"content")]);
    let b = fingerprints(b"same bytes", vec![post_file("p.html", b"content")]);
    assert_eq!(a.files.len(), b.files.len());
    for (fa, fb) in a.files.iter().zip(b.files.iter()) {
        assert_eq!(fa.path, fb.path);
        assert_eq!(fa.hash, fb.hash);
    }
}

#[test]
fn fingerprint_changes_with_one_byte() {
    let a = fingerprints(b"same bytes", Vec::new());
    let b = fingerprints(b"same bytez", Vec::new());
    assert_ne!(a.files[0].hash, b.files[0].hash);
}

#[test]
fn fingerprint_covers_posts_directory() {
    let fh = fingerprints(b"index", vec![post_file("a.html", b"A"), post_file("b.html", b"B")]);
    assert_eq!(fh.files.len(), 3);
    assert_eq!(fh.files[0].path, "/index.html");
    assert_eq!(fh.files[1].path, "/posts/a.html");
    assert_eq!(fh.files[2].path, "/posts/b.html");
    assert_ne!(fh.files[1].hash, fh.files[2].hash);
    assert_eq!(fh.files[1].hash.len(), 40);
}

#[test]
fn missing_index_fails_without_hashing() {
    let r = Netlify::generate_sha1_for_posts(None, vec![post_file("a.html", b"A")]);
    match r {
        Ok(_) => panic!("fingerprinting must fail without an index page"),
        Err(e) => assert_eq!(e, ChecksumError::MissingIndex),
    }
}

#[test]
fn posts_dir_unreadable_is_a_distinct_error() {
    assert_ne!(ChecksumError::PostsDirUnreadable, ChecksumError::MissingIndex);
}

#[test]
fn required_paths_are_uploaded_exactly_once() {
    let fh = fingerprints(b"index", vec![post_file("a.html", b"A"), post_file("b.html", b"B")]);
    let required = vec!["/posts/a.html".to_string(), "/index.html".to_string()];
    let uploads = select_uploads(&fh, &required);
    assert_eq!(uploads, vec!["/index.html".to_string(), "/posts/a.html".to_string()]);
    let n = uploads.iter().filter(|p| p.as_str() == "/posts/a.html").count();
    assert_eq!(n, 1);
}

#[test]
fn omitted_paths_are_not_uploaded() {
    let fh = fingerprints(b"index", vec![post_file("a.html", b"A")]);
    let required = vec!["/posts/other.html".to_string()];
    let uploads = select_uploads(&fh, &required);
    assert!(uploads.is_empty());
}

#[test]
fn name_conflict_is_surfaced_distinctly() {
    assert_eq!(classify_response(422), Err(PublisherError::NameConflict));
    assert_ne!(classify_response(422), Err(PublisherError::ApiFailure(422)));
}

#[test]
fn success_and_failure_statuses() {
    assert_eq!(classify_response(200), Ok(()));
    assert_eq!(classify_response(201), Ok(()));
    assert_eq!(classify_response(299), Ok(()));
    assert_eq!(classify_response(404), Err(PublisherError::ApiFailure(404)));
    assert_eq!(classify_response(500), Err(PublisherError::ApiFailure(500)));
    assert_eq!(classify_response(199), Err(PublisherError::ApiFailure(199)));
    assert_eq!(classify_response(300), Err(PublisherError::ApiFailure(300)));
}

#[test]
fn network_failure_is_its_own_kind() {
    assert_ne!(PublisherError::Network, PublisherError::ApiFailure(0));
    assert_ne!(PublisherError::Network, PublisherError::NameConflict);
}

#[test]
fn request_urls() {
    let n = Netlify::new(
        "agent/1.0".to_string(),
        "token".to_string(),
        "https://api.example.com/v1/".to_string(),
    );
    assert_eq!(n.sites_url(), "https://api.example.com/v1/sites");
    assert_eq!(n.site_details_url("abc"), "https://api.example.com/v1/sites/abc");
    assert_eq!(n.deploys_url("abc"), "https://api.example.com/v1/sites/abc/deploys");
    assert_eq!(
        n.upload_url("dep1", "/posts/x.html"),
        "https://api.example.com/v1/deploys/dep1/files/posts/x.html"
    );
    let ssl = Ssl_Cert {
        cert: Some("C".to_string()),
        key: Some("K".to_string()),
        ca_cert: Some("A".to_string()),
    };
    assert_eq!(
        n.provision_ssl_url("abc", &ssl),
        "https://api.example.com/v1/sites/abc/ssl?certificate=C&key=K&ca_certificates=A"
    );
}

#[test]
fn display_name_cleanup() {
    assert_eq!(display_site_name("my-cool_blog"), "my cool blog");
    assert_eq!(display_site_name("plain"), "plain");
}

#[test]
fn local_paths() {
    assert_eq!(site_dir_path("blog", "id1"), "sites/blog_id1");
    assert_eq!(local_path_for("blog", "id1", "/index.html"), "sites/blog_id1/index.html");
    assert_eq!(
        local_path_for("blog", "id1", "/posts/x.html"),
        "sites/blog_id1/posts/x.html"
    );
}
