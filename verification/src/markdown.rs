//! Markdown conversion. The rendering itself is done by the commonmark
//! parser of the `pulldown_cmark` crate; this module pins down only what the
//! pipeline relies on: the output is a function of the input text alone, so
//! conversion is deterministic and repeated runs are byte-stable.
use vstd::prelude::*;

verus! {

/// Why a conversion failed: the markdown source could not be read, or the
/// HTML destination could not be written. A commonmark parser rejects no
/// input, so no syntax failure exists; only the file edges can fail.
#[derive(Debug, PartialEq, Eq)]
pub enum ConversionError {
    SourceUnreadable,
    DestinationUnwritable,
}

/// The HTML that commonmark rendering produces for a markdown text. The
/// rendering depends on the input characters alone.
pub uninterp spec fn html_of(md: Seq<char>) -> Seq<char>;

/// Relies on `pulldown_cmark::Parser::new` and `pulldown_cmark::html::push_html`:
/// parsing events from the input text and writing their HTML into a fresh
/// string, a pure function of the input.
#[verifier::external_body]
pub fn render_markdown(md: &str) -> (r: String)
    ensures
        r@ == html_of(md@),
{
    let parser = pulldown_cmark::Parser::new(md);
    let mut html_output = String::new();
    pulldown_cmark::html::push_html(&mut html_output, parser);
    html_output
}

/// Converting the same markdown twice yields byte-identical HTML.
pub proof fn lemma_conversion_deterministic(md: Seq<char>, r1: Seq<char>, r2: Seq<char>)
    requires
        r1 == html_of(md),
        r2 == html_of(md),
    ensures
        r1 == r2,
{
}

} // verus!
