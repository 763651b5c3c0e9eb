use driftwood::meta::extract_post;
use driftwood::meta::PostMeta;
use driftwood::templates::render_card;
use driftwood::templates::render_index;
use driftwood::templates::render_post_page;
use driftwood::templates::sort_posts_by_date;
use driftwood::templates::template_html;
use driftwood::templates::title_from_filename;
use driftwood::templates::PostRecord;
use driftwood::templates::PostSource;

fn source(filename: &str, content: &str) -> PostSource {
    PostSource { filename: filename.to_string(), content: content.to_string() }
}

#[test]
fn metadata_extraction_from_fixture() {
    let content = "<p>date:2024-05-01\nexcerpt:Hello\nimage:http://x/y.png\ntags:a,b,c\nviews:42\n# Title";
    let m = extract_post(content);
    assert_eq!(m.date, "2024-05-01");
    assert_eq!(m.excerpt, "Hello");
    assert_eq!(m.image, "http://x/y.png");
    assert_eq!(m.tags, vec!["a".to_string(), "b".to_string(), "c".to_string()]);
    assert_eq!(m.views, 42);
    assert_eq!(m.body, "# Title");
}

#[test]
fn metadata_extraction_trailing_content_preserved() {
    let content = "<p>date:2024-05-01\nexcerpt:Hello\n# Title\nmore text\nlast line";
    let m = extract_post(content);
    assert_eq!(m.body, "# Title\nmore text\nlast line");
    assert!(!m.body.contains("date:"));
    assert!(!m.body.contains("excerpt:"));
}

#[test]
fn metadata_absent_markers_default() {
    let m = extract_post("just a body line");
    assert_eq!(m.date, "");
    assert_eq!(m.excerpt, "");
    assert_eq!(m.image, "");
    assert!(m.tags.is_empty());
    assert_eq!(m.views, 0);
    assert_eq!(m.body, "just a body line");
}

#[test]
fn metadata_views_unparseable_defaults_to_zero() {
    let m = extract_post("views:not-a-number\nbody");
    assert_eq!(m.views, 0);
    let m = extract_post("views:4294967296\nbody");
    assert_eq!(m.views, 0);
    let m = extract_post("views:4294967295\nbody");
    assert_eq!(m.views, u32::MAX);
}

#[test]
fn metadata_views_paragraph_close_stripped() {
    let m = extract_post("<p>date:2024-01-02\nviews:7</p>\nbody");
    assert_eq!(m.date, "2024-01-02");
    assert_eq!(m.views, 7);
}

#[test]
fn metadata_handles_crlf_line_endings() {
    let m = extract_post("date:2024-01-01\r\nexcerpt:Hi\r\nbody one\r\nbody two\r\n");
    assert_eq!(m.date, "2024-01-01");
    assert_eq!(m.excerpt, "Hi");
    assert_eq!(m.body, "body one\nbody two");
}

#[test]
fn metadata_tags_empty_value_vs_absent() {
    let with_empty = extract_post("tags:\nbody");
    assert_eq!(with_empty.tags, vec!["".to_string()]);
    let absent = extract_post("body");
    assert!(absent.tags.is_empty());
}

#[test]
fn metadata_first_marker_wins() {
    let m = extract_post("date:2024-01-01\ndate:1999-01-01\nbody");
    assert_eq!(m.date, "2024-01-01");
    assert!(!m.body.contains("1999"));
}

#[test]
fn metadata_stripping_is_final() {
    let content = "<p>date:2024-05-01\ntags:a,b\nviews:3\nbody one\nbody two";
    let first = extract_post(content);
    let second = extract_post(&first.body);
    assert_eq!(second.body, first.body);
    assert_eq!(second.date, "");
    assert!(second.tags.is_empty());
    assert_eq!(second.views, 0);
}

#[test]
fn title_derivation() {
    assert_eq!(title_from_filename("my-first-post.html"), "my first post");
    assert_eq!(title_from_filename("notes.md"), "notes");
    assert_eq!(title_from_filename("plain"), "plain");
}

#[test]
fn sort_order_newest_first() {
    let mk = |name: &str, date: &str| PostRecord {
        filename: name.to_string(),
        meta: PostMeta {
            date: date.to_string(),
            excerpt: String::new(),
            image: String::new(),
            tags: Vec::new(),
            views: 0,
            body: String::new(),
        },
    };
    let posts = vec![
        mk("a.html", "2024-01-01"),
        mk("b.html", "2023-12-31"),
        mk("c.html", "2024-06-15"),
    ];
    let sorted = sort_posts_by_date(posts);
    let dates: Vec<&str> = sorted.iter().map(|r| r.meta.date.as_str()).collect();
    assert_eq!(dates, vec!["2024-06-15", "2024-01-01", "2023-12-31"]);
}

#[test]
fn index_lists_posts_newest_first() {
    let posts = vec![
        source("a.html", "date:2024-01-01\nalpha"),
        source("b.html", "date:2023-12-31\nbeta"),
        source("c.html", "date:2024-06-15\ngamma"),
    ];
    let out = template_html(posts, "My Blog");
    let p_newest = out.index_html.find("2024-06-15").unwrap();
    let p_middle = out.index_html.find("2024-01-01").unwrap();
    let p_oldest = out.index_html.find("2023-12-31").unwrap();
    assert!(p_newest < p_middle);
    assert!(p_middle < p_oldest);
}

#[test]
fn templater_is_deterministic() {
    let posts = || {
        vec![
            source("one.html", "date:2024-02-02\nexcerpt:first\nHello"),
            source("two.html", "date:2024-03-03\nexcerpt:second\nWorld"),
        ]
    };
    let a = template_html(posts(), "Site");
    let b = template_html(posts(), "Site");
    assert_eq!(a.index_html, b.index_html);
    assert_eq!(a.pages.len(), b.pages.len());
    for (pa, pb) in a.pages.iter().zip(b.pages.iter()) {
        assert_eq!(pa.path, pb.path);
        assert_eq!(pa.html, pb.html);
    }
}

#[test]
fn templated_pages_carry_no_markers() {
    let posts = vec![source("post-a.html", "<p>date:2024-05-01\nexcerpt:Hi\nimage:u\ntags:t\nviews:9</p>\nBody line")];
    let out = template_html(posts, "Site");
    assert_eq!(out.pages.len(), 1);
    assert_eq!(out.pages[0].path, "post-a.html");
    let html = &out.pages[0].html;
    assert!(html.contains("Body line"));
    assert!(!html.contains("excerpt:"));
    assert!(!html.contains("image:"));
    assert!(!html.contains("tags:"));
    assert!(!html.contains("views:"));
    assert!(html.contains("post a"));
}

#[test]
fn empty_post_set_still_builds_index() {
    let out = template_html(Vec::new(), "Lonely");
    assert!(out.pages.is_empty());
    assert!(out.index_html.contains("Lonely"));
    assert!(out.index_html.contains("<!DOCTYPE html>"));
}

#[test]
fn card_carries_all_fields() {
    let r = PostRecord {
        filename: "my-post.html".to_string(),
        meta: PostMeta {
            date: "2024-04-04".to_string(),
            excerpt: "An excerpt".to_string(),
            image: "http://img".to_string(),
            tags: vec!["x".to_string(), "y".to_string()],
            views: 12,
            body: String::new(),
        },
    };
    let card = render_card(&r, "Site Name");
    assert!(card.contains("posts/my-post.html"));
    assert!(card.contains("my post"));
    assert!(card.contains("2024-04-04"));
    assert!(card.contains("An excerpt"));
    assert!(card.contains("http://img"));
    assert!(card.contains("x, y"));
    assert!(card.contains("12 views"));
    assert!(card.contains("Site Name"));
}

#[test]
fn post_page_substitutes_all_fields() {
    let page = render_post_page("A Title", "the body", "2024-01-01", "The Site");
    assert!(page.contains("<h1>A Title</h1>"));
    assert!(page.contains("the body"));
    assert!(page.contains("2024-01-01"));
    assert!(page.contains("The Site"));
}

#[test]
fn index_substitutes_site_name_and_cards() {
    let page = render_index("The Site", "CARDS-GO-HERE");
    assert!(page.contains("<title>The Site</title>"));
    assert!(page.contains("CARDS-GO-HERE"));
}
