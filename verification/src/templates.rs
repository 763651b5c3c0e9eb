//! Site templating: each post's metadata is extracted, posts are sorted by
//! date in descending lexicographic order (newest first for ISO-8601 dates),
//! a card fragment is rendered per post, and the index page and the per-post
//! pages are rebuilt by literal substitution into fixed templates.
use vstd::prelude::*;
use vstd::multiset::Multiset;
use vstd::string::StrSliceExecFns;
use vstd::string::StringExecFns;
use crate::meta::extract_post;
use crate::meta::extract_spec;
use crate::meta::MetaView;
use crate::meta::PostMeta;
use crate::text::dashes_to_spaces;
use crate::text::dec_str;
use crate::text::ends_with;
use crate::text::ends_with_spec;
use crate::text::join_sep;
use crate::text::join_with_sep;
use crate::text::lemma_lex_le_trans;
use crate::text::lemma_lex_total;
use crate::text::lex_le;
use crate::text::lex_lt;
use crate::text::replace_dashes;
use crate::text::str_lt;
use crate::text::u32_to_string;
use crate::text::views_of;

verus! {

/// Why a templating pass failed: a post page was missing or unreadable, or a
/// rebuilt page could not be written. Either aborts the whole pass; no
/// partial index is published. Templating itself is total: a malformed
/// metadata line counts as absent, never as an error.
#[derive(Debug, PartialEq, Eq)]
pub enum TemplatingError {
    MissingPostFile,
    OutputUnwritable,
}

/// One post handed to the templater: its output file name and the rendered
/// HTML content still carrying its metadata marker lines.
pub struct PostSource {
    pub filename: String,
    pub content: String,
}

pub struct PostSourceView {
    pub filename: Seq<char>,
    pub content: Seq<char>,
}

impl View for PostSource {
    type V = PostSourceView;

    open spec fn view(&self) -> PostSourceView {
        PostSourceView { filename: self.filename@, content: self.content@ }
    }
}

/// One post after extraction: file name plus metadata and stripped body.
pub struct PostRecord {
    pub filename: String,
    pub meta: PostMeta,
}

pub struct RecordView {
    pub filename: Seq<char>,
    pub meta: MetaView,
}

impl View for PostRecord {
    type V = RecordView;

    open spec fn view(&self) -> RecordView {
        RecordView { filename: self.filename@, meta: self.meta@ }
    }
}

pub open spec fn record_of(p: PostSourceView) -> RecordView {
    RecordView { filename: p.filename, meta: extract_spec(p.content) }
}

/// A display title derived from an output file name: the `.html` or `.md`
/// suffix stripped, dashes replaced with blanks.
pub open spec fn title_spec(f: Seq<char>) -> Seq<char> {
    let base = if ends_with_spec(f, ".html"@) {
        f.take(f.len() - ".html"@.len())
    } else if ends_with_spec(f, ".md"@) {
        f.take(f.len() - ".md"@.len())
    } else {
        f
    };
    dashes_to_spaces(base)
}

/// Derive a post's display title from its file name.
pub fn title_from_filename(f: &str) -> (r: String)
    ensures
        r@ == title_spec(f@),
{
    if ends_with(f, ".html") {
        let n = f.unicode_len();
        let plen = ".html".unicode_len();
        let base = f.substring_char(0, n - plen);
        proof {
            assert(base@ =~= f@.take(f@.len() - ".html"@.len()));
        }
        replace_dashes(base)
    } else if ends_with(f, ".md") {
        let n = f.unicode_len();
        let plen = ".md".unicode_len();
        let base = f.substring_char(0, n - plen);
        proof {
            assert(base@ =~= f@.take(f@.len() - ".md"@.len()));
        }
        replace_dashes(base)
    } else {
        replace_dashes(f)
    }
}

/// The card fragment summarizing one post on the index page: literal,
/// unescaped substitution into a fixed template.
pub open spec fn card_of(r: RecordView, sitename: Seq<char>) -> Seq<char> {
    "<div class=\"blog-card\">\n  <a href=\""@ + "posts/"@ + r.filename
        + "\">\n    <img src=\""@ + r.meta.image + "\" alt=\""@ + title_spec(r.filename)
        + "\"/>\n    <h2>"@ + title_spec(r.filename) + "</h2>\n    <p class=\"date\">"@
        + r.meta.date + "</p>\n    <p class=\"excerpt\">"@ + r.meta.excerpt
        + "</p>\n    <p class=\"tags\">"@ + join_sep(r.meta.tags, ", "@)
        + "</p>\n    <p class=\"views\">"@ + dec_str(r.meta.views as int)
        + " views</p>\n    <span class=\"site\">"@ + sitename + "</span>\n  </a>\n</div>\n"@
}

/// Render one post's card fragment.
pub fn render_card(r: &PostRecord, site_name: &str) -> (out: String)
    ensures
        out@ == card_of(r@, site_name@),
{
    let title = title_from_filename(r.filename.as_str());
    let tags_joined = join_with_sep(&r.meta.tags, ", ");
    let views_str = u32_to_string(r.meta.views);
    let mut out = String::new();
    out.append("<div class=\"blog-card\">\n  <a href=\"");
    out.append("posts/");
    out.append(r.filename.as_str());
    out.append("\">\n    <img src=\"");
    out.append(r.meta.image.as_str());
    out.append("\" alt=\"");
    out.append(title.as_str());
    out.append("\"/>\n    <h2>");
    out.append(title.as_str());
    out.append("</h2>\n    <p class=\"date\">");
    out.append(r.meta.date.as_str());
    out.append("</p>\n    <p class=\"excerpt\">");
    out.append(r.meta.excerpt.as_str());
    out.append("</p>\n    <p class=\"tags\">");
    out.append(tags_joined.as_str());
    out.append("</p>\n    <p class=\"views\">");
    out.append(views_str.as_str());
    out.append(" views</p>\n    <span class=\"site\">");
    out.append(site_name);
    out.append("</span>\n  </a>\n</div>\n");
    out
}

/// A full post page: title, date, body, and site name substituted into a
/// fixed page template.
pub open spec fn post_page_of(
    title: Seq<char>,
    content: Seq<char>,
    date: Seq<char>,
    sitename: Seq<char>,
) -> Seq<char> {
    "<!DOCTYPE html>\n<html>\n<head>\n  <title>"@ + title + " - "@ + sitename
        + "</title>\n</head>\n<body>\n  <h1>"@ + title + "</h1>\n  <p class=\"date\">"@ + date
        + "</p>\n  <main>\n"@ + content + "\n  </main>\n  <footer>"@ + sitename
        + "</footer>\n</body>\n</html>\n"@
}

/// Render one post's full page.
pub fn render_post_page(title: &str, content: &str, date: &str, site_name: &str) -> (out: String)
    ensures
        out@ == post_page_of(title@, content@, date@, site_name@),
{
    let mut out = String::new();
    out.append("<!DOCTYPE html>\n<html>\n<head>\n  <title>");
    out.append(title);
    out.append(" - ");
    out.append(site_name);
    out.append("</title>\n</head>\n<body>\n  <h1>");
    out.append(title);
    out.append("</h1>\n  <p class=\"date\">");
    out.append(date);
    out.append("</p>\n  <main>\n");
    out.append(content);
    out.append("\n  </main>\n  <footer>");
    out.append(site_name);
    out.append("</footer>\n</body>\n</html>\n");
    out
}

/// The index page: site name and the concatenated cards substituted into a
/// fixed page template.
pub open spec fn index_of(sitename: Seq<char>, cards: Seq<char>) -> Seq<char> {
    "<!DOCTYPE html>\n<html>\n<head>\n  <title>"@ + sitename
        + "</title>\n</head>\n<body>\n  <h1>"@ + sitename
        + "</h1>\n  <section class=\"blog-cards\">\n"@ + cards
        + "  </section>\n</body>\n</html>\n"@
}

/// Render the index page around the given card fragments.
pub fn render_index(site_name: &str, cards: &str) -> (out: String)
    ensures
        out@ == index_of(site_name@, cards@),
{
    let mut out = String::new();
    out.append("<!DOCTYPE html>\n<html>\n<head>\n  <title>");
    out.append(site_name);
    out.append("</title>\n</head>\n<body>\n  <h1>");
    out.append(site_name);
    out.append("</h1>\n  <section class=\"blog-cards\">\n");
    out.append(cards);
    out.append("  </section>\n</body>\n</html>\n");
    out
}

/// Insertion of a record into a date-descending sequence: the record lands
/// before the first strictly older one, after every record at least as new.
pub open spec fn insert_desc(t: Seq<RecordView>, x: RecordView) -> Seq<RecordView>
    decreases t.len(),
{
    if t.len() == 0 {
        seq![x]
    } else if lex_lt(t[0].meta.date, x.meta.date) {
        seq![x] + t
    } else {
        seq![t[0]] + insert_desc(t.drop_first(), x)
    }
}

/// Posts sorted by date in descending lexicographic order; insertion keeps
/// posts with equal dates in their input order.
pub open spec fn sort_by_date_spec(s: Seq<RecordView>) -> Seq<RecordView>
    decreases s.len(),
{
    if s.len() == 0 {
        Seq::<RecordView>::empty()
    } else {
        insert_desc(sort_by_date_spec(s.drop_last()), s.last())
    }
}

proof fn lemma_insert_desc_at(t: Seq<RecordView>, x: RecordView, j: int)
    requires
        0 <= j <= t.len(),
        forall|k: int| 0 <= k < j ==> !lex_lt(t[k].meta.date, x.meta.date),
        j < t.len() ==> lex_lt(t[j].meta.date, x.meta.date),
    ensures
        insert_desc(t, x) == t.take(j) + seq![x] + t.skip(j),
    decreases t.len(),
{
    if t.len() == 0 {
        assert(insert_desc(t, x) =~= t.take(0) + seq![x] + t.skip(0));
    } else if j == 0 {
        assert(lex_lt(t[0].meta.date, x.meta.date));
        assert(seq![x] + t =~= t.take(0) + seq![x] + t.skip(0));
    } else {
        assert(!lex_lt(t[0].meta.date, x.meta.date));
        assert(forall|k: int|
            0 <= k < j - 1 ==> t.drop_first()[k] == t[k + 1]);
        lemma_insert_desc_at(t.drop_first(), x, j - 1);
        assert(seq![t[0]] + (t.drop_first().take(j - 1) + seq![x] + t.drop_first().skip(j - 1))
            =~= t.take(j) + seq![x] + t.skip(j));
    }
}

/// Sort posts by extracted date, newest first.
pub fn sort_posts_by_date(posts: Vec<PostRecord>) -> (r: Vec<PostRecord>)
    ensures
        views_of(r@) == sort_by_date_spec(views_of(posts@)),
{
    let ghost s = views_of(posts@);
    let mut src = posts;
    let mut out: Vec<PostRecord> = Vec::new();
    let mut i: usize = 0;
    let n = src.len();
    proof {
        assert(s.take(0) =~= Seq::<RecordView>::empty());
        assert(views_of(out@) =~= sort_by_date_spec(s.take(0)));
    }
    while i < n
        invariant
            0 <= i <= n == s.len(),
            src@.len() == n - i,
            views_of(src@) =~= s.skip(i as int),
            views_of(out@) == sort_by_date_spec(s.take(i as int)),
        decreases n - i,
    {
        let ghost old_src = src@;
        let x = src.remove(0);
        proof {
            assert(views_of(old_src)[0] == old_src[0]@);
            assert(x@ == s[i as int]);
            assert forall|k: int| 0 <= k < src@.len() implies views_of(src@)[k] == s.skip(i + 1)[k] by {
                assert(src@[k] == old_src[k + 1]);
                assert(views_of(old_src)[k + 1] == old_src[k + 1]@);
            }
            assert(views_of(src@) =~= s.skip(i + 1));
        }
        let ghost t = views_of(out@);
        let mut j: usize = 0;
        let olen = out.len();
        while j < olen && !str_lt(out[j].meta.date.as_str(), x.meta.date.as_str())
            invariant
                0 <= j <= olen == out@.len(),
                t == views_of(out@),
                x@ == s[i as int],
                forall|k: int| 0 <= k < j ==> !lex_lt(
                    #[trigger] views_of(out@)[k].meta.date,
                    x@.meta.date,
                ),
            decreases olen - j,
        {
            j = j + 1;
        }
        proof {
            lemma_insert_desc_at(t, x@, j as int);
        }
        out.insert(j, x);
        proof {
            assert(views_of(out@) =~= t.take(j as int) + seq![s[i as int]] + t.skip(j as int));
            assert(s.take(i + 1).drop_last() =~= s.take(i as int));
            assert(s.take(i + 1).last() == s[i as int]);
            assert(views_of(out@) =~= sort_by_date_spec(s.take(i + 1)));
        }
        i = i + 1;
    }
    proof {
        assert(s.take(n as int) =~= s);
    }
    out
}

/// One templated output file: its site-relative output name and HTML.
pub struct RenderedPage {
    pub path: String,
    pub html: String,
}

pub struct PageView {
    pub path: Seq<char>,
    pub html: Seq<char>,
}

impl View for RenderedPage {
    type V = PageView;

    open spec fn view(&self) -> PageView {
        PageView { path: self.path@, html: self.html@ }
    }
}

/// A fully templated site: the rebuilt index page and every rebuilt post
/// page, in date-descending order.
pub struct TemplatedSite {
    pub index_html: String,
    pub pages: Vec<RenderedPage>,
}

/// The card fragments of the given posts, concatenated in order.
pub open spec fn cards_of(rs: Seq<RecordView>, sitename: Seq<char>) -> Seq<char>
    decreases rs.len(),
{
    if rs.len() == 0 {
        Seq::<char>::empty()
    } else {
        cards_of(rs.drop_last(), sitename) + card_of(rs.last(), sitename)
    }
}

pub open spec fn page_of(r: RecordView, sitename: Seq<char>) -> PageView {
    PageView {
        path: r.filename,
        html: post_page_of(title_spec(r.filename), r.meta.body, r.meta.date, sitename),
    }
}

/// Metadata extraction applied to each post, in input order.
pub open spec fn records_of(ps: Seq<PostSourceView>) -> Seq<RecordView>
    decreases ps.len(),
{
    if ps.len() == 0 {
        Seq::<RecordView>::empty()
    } else {
        records_of(ps.drop_last()).push(record_of(ps.last()))
    }
}

pub open spec fn pages_of(rs: Seq<RecordView>, sitename: Seq<char>) -> Seq<PageView>
    decreases rs.len(),
{
    if rs.len() == 0 {
        Seq::<PageView>::empty()
    } else {
        pages_of(rs.drop_last(), sitename).push(page_of(rs.last(), sitename))
    }
}

/// The templater's whole result on a post set: extract every post's
/// metadata, sort by date descending, and rebuild the index page and every
/// post page by literal substitution.
pub open spec fn index_html_spec(ps: Seq<PostSourceView>, sitename: Seq<char>) -> Seq<char> {
    index_of(sitename, cards_of(sort_by_date_spec(records_of(ps)), sitename))
}

pub open spec fn pages_spec(ps: Seq<PostSourceView>, sitename: Seq<char>) -> Seq<PageView> {
    pages_of(sort_by_date_spec(records_of(ps)), sitename)
}

/// Rebuild a site from its rendered posts: a fresh index page and one full
/// page per post, with every metadata marker stripped.
pub fn template_html(posts: Vec<PostSource>, site_name: &str) -> (out: TemplatedSite)
    ensures
        out.index_html@ == index_html_spec(views_of(posts@), site_name@),
        views_of(out.pages@) == pages_spec(views_of(posts@), site_name@),
{
    let ghost psv = views_of(posts@);
    let mut src = posts;
    let mut recs: Vec<PostRecord> = Vec::new();
    let n = src.len();
    let mut i: usize = 0;
    proof {
        assert(views_of(src@) =~= psv.skip(0));
        assert(psv.take(0) =~= Seq::<PostSourceView>::empty());
        assert(views_of(recs@) =~= records_of(psv.take(0)));
    }
    while i < n
        invariant
            0 <= i <= n == psv.len(),
            src@.len() == n - i,
            views_of(src@) == psv.skip(i as int),
            views_of(recs@) == records_of(psv.take(i as int)),
        decreases n - i,
    {
        let ghost old_src = src@;
        let ghost old_recs = recs@;
        let p = src.remove(0);
        proof {
            assert(views_of(old_src)[0] == old_src[0]@);
            assert(p@ == psv[i as int]);
            assert forall|k: int| 0 <= k < src@.len() implies views_of(src@)[k] == psv.skip(
                i + 1,
            )[k] by {
                assert(src@[k] == old_src[k + 1]);
                assert(views_of(old_src)[k + 1] == old_src[k + 1]@);
            }
            assert(views_of(src@) =~= psv.skip(i + 1));
        }
        let m = extract_post(p.content.as_str());
        recs.push(PostRecord { filename: p.filename, meta: m });
        proof {
            assert(psv.take(i + 1).drop_last() =~= psv.take(i as int));
            assert(psv.take(i + 1).last() == psv[i as int]);
            assert(views_of(recs@) =~= views_of(old_recs).push(record_of(psv[i as int])));
            assert(views_of(recs@) =~= records_of(psv.take(i + 1)));
        }
        i = i + 1;
    }
    proof {
        assert(psv.take(n as int) =~= psv);
    }
    let sorted = sort_posts_by_date(recs);
    let ghost sr = sort_by_date_spec(records_of(psv));
    let mut cards = String::new();
    let m = sorted.len();
    let mut k: usize = 0;
    proof {
        assert(views_of(sorted@).take(0) =~= Seq::<RecordView>::empty());
        assert(cards@ =~= cards_of(views_of(sorted@).take(0), site_name@));
    }
    while k < m
        invariant
            0 <= k <= m == sorted@.len(),
            views_of(sorted@) == sr,
            cards@ == cards_of(sr.take(k as int), site_name@),
        decreases m - k,
    {
        let c = render_card(&sorted[k], site_name);
        cards.append(c.as_str());
        proof {
            assert(sr.take(k + 1).drop_last() =~= sr.take(k as int));
            assert(sorted@[k as int]@ == views_of(sorted@)[k as int]);
            assert(sr.take(k + 1).last() == sr[k as int]);
        }
        k = k + 1;
    }
    proof {
        assert(sr.take(m as int) =~= sr);
    }
    let index_html = render_index(site_name, cards.as_str());
    let mut rest = sorted;
    let mut pages: Vec<RenderedPage> = Vec::new();
    let mut j: usize = 0;
    proof {
        assert(sr.take(0) =~= Seq::<RecordView>::empty());
        assert(views_of(pages@) =~= pages_of(sr.take(0), site_name@));
    }
    while j < m
        invariant
            0 <= j <= m == sr.len(),
            rest@.len() == m - j,
            views_of(rest@) == sr.skip(j as int),
            views_of(pages@) == pages_of(sr.take(j as int), site_name@),
        decreases m - j,
    {
        let ghost old_rest = rest@;
        let ghost old_pages = pages@;
        let r = rest.remove(0);
        proof {
            assert(views_of(old_rest)[0] == old_rest[0]@);
            assert(r@ == sr[j as int]);
            assert forall|q: int| 0 <= q < rest@.len() implies views_of(rest@)[q] == sr.skip(
                j + 1,
            )[q] by {
                assert(rest@[q] == old_rest[q + 1]);
                assert(views_of(old_rest)[q + 1] == old_rest[q + 1]@);
            }
            assert(views_of(rest@) =~= sr.skip(j + 1));
        }
        let title = title_from_filename(r.filename.as_str());
        let html = render_post_page(
            title.as_str(),
            r.meta.body.as_str(),
            r.meta.date.as_str(),
            site_name,
        );
        pages.push(RenderedPage { path: r.filename, html });
        proof {
            assert(sr.take(j + 1).drop_last() =~= sr.take(j as int));
            assert(sr.take(j + 1).last() == sr[j as int]);
            assert(views_of(pages@) =~= views_of(old_pages).push(page_of(sr[j as int], site_name@)));
            assert(views_of(pages@) =~= pages_of(sr.take(j + 1), site_name@));
        }
        j = j + 1;
    }
    proof {
        assert(sr.take(m as int) =~= sr);
    }
    TemplatedSite { index_html, pages }
}

/// Templating is a function of the post set and site name alone: two runs on
/// the same inputs yield the same index page and the same post pages.
pub proof fn lemma_templater_deterministic(
    ps: Seq<PostSourceView>,
    sitename: Seq<char>,
    index1: Seq<char>,
    index2: Seq<char>,
    pages1: Seq<PageView>,
    pages2: Seq<PageView>,
)
    requires
        index1 == index_html_spec(ps, sitename),
        index2 == index_html_spec(ps, sitename),
        pages1 == pages_spec(ps, sitename),
        pages2 == pages_spec(ps, sitename),
    ensures
        index1 == index2,
        pages1 == pages2,
{
}

/// Newest first: every post on the index is dated no earlier than each one
/// after it.
pub open spec fn sorted_by_date_desc(rs: Seq<RecordView>) -> bool {
    forall|i: int, j: int|
        0 <= i < j < rs.len() ==> lex_le(#[trigger] rs[j].meta.date, #[trigger] rs[i].meta.date)
}

proof fn lemma_insert_desc_membership(t: Seq<RecordView>, x: RecordView)
    ensures
        insert_desc(t, x).len() == t.len() + 1,
        forall|k: int|
            0 <= k < insert_desc(t, x).len() ==> (#[trigger] insert_desc(t, x)[k] == x
                || t.contains(insert_desc(t, x)[k])),
    decreases t.len(),
{
    if t.len() == 0 {
    } else if lex_lt(t[0].meta.date, x.meta.date) {
        assert forall|k: int| 0 <= k < insert_desc(t, x).len() implies (#[trigger] insert_desc(
            t,
            x,
        )[k] == x || t.contains(insert_desc(t, x)[k])) by {
            if k > 0 {
                assert(insert_desc(t, x)[k] == t[k - 1]);
            }
        }
    } else {
        lemma_insert_desc_membership(t.drop_first(), x);
        assert forall|k: int| 0 <= k < insert_desc(t, x).len() implies (#[trigger] insert_desc(
            t,
            x,
        )[k] == x || t.contains(insert_desc(t, x)[k])) by {
            if k == 0 {
                assert(insert_desc(t, x)[0] == t[0]);
                assert(t.contains(t[0]));
            } else {
                let u = insert_desc(t.drop_first(), x);
                assert(insert_desc(t, x)[k] == u[k - 1]);
                if u[k - 1] != x {
                    assert(t.drop_first().contains(u[k - 1]));
                    let q = choose|q: int|
                        0 <= q < t.drop_first().len() && t.drop_first()[q] == u[k - 1];
                    assert(t[q + 1] == u[k - 1]);
                    assert(t.contains(t[q + 1]));
                }
            }
        }
    }
}

proof fn lemma_insert_desc_sorted(t: Seq<RecordView>, x: RecordView)
    requires
        sorted_by_date_desc(t),
    ensures
        sorted_by_date_desc(insert_desc(t, x)),
    decreases t.len(),
{
    let u = insert_desc(t, x);
    if t.len() == 0 {
    } else if lex_lt(t[0].meta.date, x.meta.date) {
        assert forall|i: int, j: int| 0 <= i < j < u.len() implies lex_le(
            #[trigger] u[j].meta.date,
            #[trigger] u[i].meta.date,
        ) by {
            assert(u[j] == t[j - 1]);
            if i == 0 {
                if j == 1 {
                    assert(lex_le(t[0].meta.date, x.meta.date));
                } else {
                    assert(lex_le(t[j - 1].meta.date, t[0].meta.date));
                    lemma_lex_le_trans(t[j - 1].meta.date, t[0].meta.date, x.meta.date);
                }
            } else {
                assert(u[i] == t[i - 1]);
            }
        }
    } else {
        lemma_lex_total(t[0].meta.date, x.meta.date);
        assert(lex_le(x.meta.date, t[0].meta.date));
        let v = insert_desc(t.drop_first(), x);
        assert(forall|i: int, j: int|
            0 <= i < j < t.drop_first().len() ==> lex_le(
                #[trigger] t.drop_first()[j].meta.date,
                #[trigger] t.drop_first()[i].meta.date,
            ));
        lemma_insert_desc_sorted(t.drop_first(), x);
        lemma_insert_desc_membership(t.drop_first(), x);
        assert forall|i: int, j: int| 0 <= i < j < u.len() implies lex_le(
            #[trigger] u[j].meta.date,
            #[trigger] u[i].meta.date,
        ) by {
            if i == 0 {
                assert(u[j] == v[j - 1]);
                if v[j - 1] == x {
                    assert(lex_le(x.meta.date, t[0].meta.date));
                } else {
                    assert(t.drop_first().contains(v[j - 1]));
                    let q = choose|q: int|
                        0 <= q < t.drop_first().len() && t.drop_first()[q] == v[j - 1];
                    assert(t[q + 1] == v[j - 1]);
                    assert(lex_le(t[q + 1].meta.date, t[0].meta.date));
                }
            } else {
                assert(u[i] == v[i - 1]);
                assert(u[j] == v[j - 1]);
            }
        }
    }
}

/// Sorting yields a date-descending listing: on the index the newest post
/// comes first.
pub proof fn lemma_sort_by_date_sorted(s: Seq<RecordView>)
    ensures
        sorted_by_date_desc(sort_by_date_spec(s)),
    decreases s.len(),
{
    if s.len() > 0 {
        lemma_sort_by_date_sorted(s.drop_last());
        lemma_insert_desc_sorted(sort_by_date_spec(s.drop_last()), s.last());
    }
}

proof fn lemma_insert_desc_multiset(t: Seq<RecordView>, x: RecordView)
    ensures
        insert_desc(t, x).to_multiset() == t.to_multiset().insert(x),
    decreases t.len(),
{
    broadcast use vstd::seq_lib::group_to_multiset_ensures;

    if t.len() == 0 {
        assert(insert_desc(t, x) =~= Seq::<RecordView>::empty().push(x));
        assert(t =~= Seq::<RecordView>::empty());
    } else if lex_lt(t[0].meta.date, x.meta.date) {
        assert(seq![x] + t =~= (seq![x] + t.drop_last()).push(t.last()));
        lemma_seq_cons_multiset(t, x);
    } else {
        lemma_insert_desc_multiset(t.drop_first(), x);
        assert(insert_desc(t, x) == seq![t[0]] + insert_desc(t.drop_first(), x));
        lemma_seq_cons_to_multiset(seq![t[0]], insert_desc(t.drop_first(), x));
        lemma_seq_cons_to_multiset(seq![t[0]], t.drop_first());
        assert(seq![t[0]] + t.drop_first() =~= t);
        assert(insert_desc(t, x).to_multiset() =~= t.to_multiset().insert(x));
    }
}

/// The multiset of a concatenation is the sum of the parts' multisets.
proof fn lemma_seq_cons_to_multiset(a: Seq<RecordView>, b: Seq<RecordView>)
    ensures
        (a + b).to_multiset() == a.to_multiset().add(b.to_multiset()),
    decreases b.len(),
{
    broadcast use vstd::seq_lib::group_to_multiset_ensures;

    if b.len() == 0 {
        assert(a + b =~= a);
        assert(b =~= Seq::<RecordView>::empty());
        assert(a.to_multiset().add(b.to_multiset()) =~= a.to_multiset());
    } else {
        lemma_seq_cons_to_multiset(a, b.drop_last());
        assert(a + b =~= (a + b.drop_last()).push(b.last()));
        assert(b =~= b.drop_last().push(b.last()));
        assert((a + b).to_multiset() =~= a.to_multiset().add(b.to_multiset()));
    }
}

proof fn lemma_seq_cons_multiset(t: Seq<RecordView>, x: RecordView)
    ensures
        (seq![x] + t).to_multiset() == t.to_multiset().insert(x),
{
    broadcast use vstd::seq_lib::group_to_multiset_ensures;

    lemma_seq_cons_to_multiset(seq![x], t);
    assert(seq![x] =~= Seq::<RecordView>::empty().push(x));
    assert(seq![x].to_multiset() =~= Multiset::<RecordView>::empty().insert(x));
    assert((seq![x] + t).to_multiset() =~= t.to_multiset().insert(x));
}

/// Sorting neither loses, duplicates, nor invents a post: the sorted listing
/// is a permutation of its input.
pub proof fn lemma_sort_by_date_permutes(s: Seq<RecordView>)
    ensures
        sort_by_date_spec(s).to_multiset() == s.to_multiset(),
    decreases s.len(),
{
    broadcast use vstd::seq_lib::group_to_multiset_ensures;

    if s.len() > 0 {
        lemma_sort_by_date_permutes(s.drop_last());
        lemma_insert_desc_multiset(sort_by_date_spec(s.drop_last()), s.last());
        assert(s =~= s.drop_last().push(s.last()));
        assert(sort_by_date_spec(s).to_multiset() =~= s.to_multiset());
    }
}

} // verus!
