use driftwood::markdown::render_markdown;
use driftwood::markdown::ConversionError;
use driftwood::templates::TemplatingError;
use driftwood::Post;

#[test]
fn conversion_renders_commonmark() {
    let html = render_markdown("# Title");
    assert_eq!(html, "<h1>Title</h1>\n");
}

#[test]
fn conversion_is_byte_stable_across_runs() {
    let md = "hello\n=====\n\n* alpha\n* beta\n";
    let first = render_markdown(md);
    let second = render_markdown(md);
    assert_eq!(first, second);
    assert_eq!(first, "<h1>hello</h1>\n<ul>\n<li>alpha</li>\n<li>beta</li>\n</ul>\n");
}

#[test]
fn conversion_of_empty_input() {
    assert_eq!(render_markdown(""), "");
}

#[test]
fn error_kinds_are_distinct() {
    assert_ne!(ConversionError::SourceUnreadable, ConversionError::DestinationUnwritable);
    assert_ne!(TemplatingError::MissingPostFile, TemplatingError::OutputUnwritable);
}

#[test]
fn post_constructor_keeps_fields() {
    let p = Post::new(
        "A Title".to_string(),
        "2024-05-01".to_string(),
        "body".to_string(),
        "a-title.md".to_string(),
        vec!["t1".to_string(), "t2".to_string()],
        7,
    );
    assert_eq!(p.title, "A Title");
    assert_eq!(p.date, "2024-05-01");
    assert_eq!(p.content, "body");
    assert_eq!(p.filename, "a-title.md");
    assert_eq!(p.tags, vec!["t1".to_string(), "t2".to_string()]);
    assert_eq!(p.views, 7);
}
