//! Core of a static-blog deployment pipeline: markdown posts are rendered to
//! HTML, templated into per-post pages and an index page, fingerprinted with
//! SHA-1, and diffed against the hosting provider's list of required files.
use vstd::prelude::*;

pub mod checksum;
pub mod markdown;
pub mod meta;
pub mod netlify;
pub mod templates;
pub mod text;

verus! {

/// One blog entry as authored: its display data before templating.
pub struct Post {
    pub title: String,
    pub date: String,
    pub content: String,
    pub filename: String,
    pub tags: Vec<String>,
    pub views: u32,
}

impl Post {
    /// Bundle the given attributes into a `Post`; no field is altered.
    pub fn new(
        title: String,
        date: String,
        content: String,
        filename: String,
        tags: Vec<String>,
        views: u32,
    ) -> (p: Post)
        ensures
            p.title@ == title@,
            p.date@ == date@,
            p.content@ == content@,
            p.filename@ == filename@,
            p.tags@ == tags@,
            p.views == views,
    {
        Post { title, date, content, filename, tags, views }
    }
}

} // verus!
