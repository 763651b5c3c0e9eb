//! Metadata extraction from a rendered post: marker lines (`date:`,
//! `excerpt:`, `image:`, `tags:`, `views:`) are recognized at the start of a
//! line, their values are collected (first occurrence wins), and every marker
//! line is removed from the page body. All other lines are preserved verbatim
//! and reassembled with normalized line endings.
use vstd::prelude::*;
use vstd::string::StrSliceExecFns;
use crate::text::clean_value_spec;
use crate::text::join_lines;
use crate::text::lines_spec;
use crate::text::parse_u32;
use crate::text::parse_u32_spec;
use crate::text::split_char_spec;
use crate::text::split_on_char;
use crate::text::split_lines;
use crate::text::starts_with;
use crate::text::starts_with_spec;
use crate::text::trim;
use crate::text::trim_spec;
use crate::text::views_of;

verus! {

/// The five marker kinds a post page may carry.
pub enum MarkerKind {
    Date,
    Excerpt,
    Image,
    Tags,
    Views,
}

/// The line prefix that announces a marker of kind `k`.
pub open spec fn marker_key(k: MarkerKind) -> Seq<char> {
    match k {
        MarkerKind::Date => "date:"@,
        MarkerKind::Excerpt => "excerpt:"@,
        MarkerKind::Image => "image:"@,
        MarkerKind::Tags => "tags:"@,
        MarkerKind::Views => "views:"@,
    }
}

/// A marker must stand at the start of its own line (after whitespace); the
/// date marker alone may be preceded by a paragraph-open tag.
pub open spec fn marker_match(k: MarkerKind, l: Seq<char>) -> bool {
    let t = trim_spec(l);
    starts_with_spec(t, marker_key(k)) || (k == MarkerKind::Date && starts_with_spec(
        t,
        "<p>date:"@,
    ))
}

/// The prefix consumed when reading the value of a marker of kind `k`.
pub open spec fn marker_prefix_len(k: MarkerKind, l: Seq<char>) -> int {
    if k == MarkerKind::Date && starts_with_spec(trim_spec(l), "<p>date:"@) {
        "<p>date:"@.len() as int
    } else {
        marker_key(k).len() as int
    }
}

/// The value a marker line carries.
pub open spec fn marker_value(k: MarkerKind, l: Seq<char>) -> Seq<char> {
    clean_value_spec(trim_spec(l).skip(marker_prefix_len(k, l)))
}

pub open spec fn is_marker_line(l: Seq<char>) -> bool {
    marker_match(MarkerKind::Date, l) || marker_match(MarkerKind::Excerpt, l) || marker_match(
        MarkerKind::Image,
        l,
    ) || marker_match(MarkerKind::Tags, l) || marker_match(MarkerKind::Views, l)
}

/// The value of the first line announcing a marker of kind `k`, if any.
pub open spec fn first_marker_value(ls: Seq<Seq<char>>, k: MarkerKind) -> Option<Seq<char>>
    decreases ls.len(),
{
    if ls.len() == 0 {
        None
    } else if marker_match(k, ls[0]) {
        Some(marker_value(k, ls[0]))
    } else {
        first_marker_value(ls.drop_first(), k)
    }
}

/// The lines that remain on the page: everything that is not a marker line.
pub open spec fn body_lines(ls: Seq<Seq<char>>) -> Seq<Seq<char>>
    decreases ls.len(),
{
    if ls.len() == 0 {
        Seq::<Seq<char>>::empty()
    } else if is_marker_line(ls[0]) {
        body_lines(ls.drop_first())
    } else {
        seq![ls[0]] + body_lines(ls.drop_first())
    }
}

pub open spec fn opt_or_empty(v: Option<Seq<char>>) -> Seq<char> {
    match v {
        Some(x) => x,
        None => Seq::<char>::empty(),
    }
}

/// The extracted metadata and stripped body of one post page.
pub struct MetaView {
    pub date: Seq<char>,
    pub excerpt: Seq<char>,
    pub image: Seq<char>,
    pub tags: Seq<Seq<char>>,
    pub views: u32,
    pub body: Seq<char>,
}

/// What extraction yields on a page: each marker's first value (empty or
/// defaulted when absent), the tags split on commas, the view counter parsed
/// as a decimal (0 when unparseable), and the body reassembled from all
/// non-marker lines.
pub open spec fn extract_spec(c: Seq<char>) -> MetaView {
    let ls = lines_spec(c);
    MetaView {
        date: opt_or_empty(first_marker_value(ls, MarkerKind::Date)),
        excerpt: opt_or_empty(first_marker_value(ls, MarkerKind::Excerpt)),
        image: opt_or_empty(first_marker_value(ls, MarkerKind::Image)),
        tags: match first_marker_value(ls, MarkerKind::Tags) {
            Some(v) => split_char_spec(v, ','),
            None => Seq::<Seq<char>>::empty(),
        },
        views: match first_marker_value(ls, MarkerKind::Views) {
            Some(v) => parse_u32_spec(v),
            None => 0u32,
        },
        body: join_lines(body_lines(ls)),
    }
}

/// The metadata and stripped body of one post page.
pub struct PostMeta {
    pub date: String,
    pub excerpt: String,
    pub image: String,
    pub tags: Vec<String>,
    pub views: u32,
    pub body: String,
}

impl View for PostMeta {
    type V = MetaView;

    open spec fn view(&self) -> MetaView {
        MetaView {
            date: self.date@,
            excerpt: self.excerpt@,
            image: self.image@,
            tags: views_of(self.tags@),
            views: self.views,
            body: self.body@,
        }
    }
}

pub open spec fn opt_view(o: Option<String>) -> Option<Seq<char>> {
    match o {
        Some(s) => Some(s@),
        None => None,
    }
}

/// If the (trimmed) line starts with `key`, the marker value after it.
fn take_marker_value(l: &str, key: &str) -> (r: Option<String>)
    ensures
        match r {
            Some(v) => starts_with_spec(trim_spec(l@), key@) && v@ == clean_value_spec(
                trim_spec(l@).skip(key@.len() as int),
            ),
            None => !starts_with_spec(trim_spec(l@), key@),
        },
{
    let t = trim(l);
    if starts_with(t, key) {
        let klen = key.unicode_len();
        let rest = t.substring_char(klen, t.unicode_len());
        proof {
            assert(rest@ =~= trim_spec(l@).skip(key@.len() as int));
        }
        Some(crate::text::clean_value(rest))
    } else {
        None
    }
}

/// Scan a post page for its metadata markers and stripped body.
pub fn extract_post(content: &str) -> (m: PostMeta)
    ensures
        m@ == extract_spec(content@),
{
    let ls = split_lines(content);
    let ghost lsv = lines_spec(content@);
    let n = ls.len();
    let mut date_opt: Option<String> = None;
    let mut excerpt_opt: Option<String> = None;
    let mut image_opt: Option<String> = None;
    let mut tags_opt: Option<String> = None;
    let mut views_opt: Option<String> = None;
    let mut body_acc: Vec<String> = Vec::new();
    let mut i: usize = 0;
    proof {
        assert(lsv.skip(0) =~= lsv);
        assert(views_of(body_acc@) =~= Seq::<Seq<char>>::empty());
        assert(views_of(body_acc@) + body_lines(lsv) =~= body_lines(lsv));
    }
    while i < n
        invariant
            0 <= i <= n == ls@.len(),
            views_of(ls@) == lsv,
            first_marker_value(lsv, MarkerKind::Date) == (if date_opt is Some {
                opt_view(date_opt)
            } else {
                first_marker_value(lsv.skip(i as int), MarkerKind::Date)
            }),
            first_marker_value(lsv, MarkerKind::Excerpt) == (if excerpt_opt is Some {
                opt_view(excerpt_opt)
            } else {
                first_marker_value(lsv.skip(i as int), MarkerKind::Excerpt)
            }),
            first_marker_value(lsv, MarkerKind::Image) == (if image_opt is Some {
                opt_view(image_opt)
            } else {
                first_marker_value(lsv.skip(i as int), MarkerKind::Image)
            }),
            first_marker_value(lsv, MarkerKind::Tags) == (if tags_opt is Some {
                opt_view(tags_opt)
            } else {
                first_marker_value(lsv.skip(i as int), MarkerKind::Tags)
            }),
            first_marker_value(lsv, MarkerKind::Views) == (if views_opt is Some {
                opt_view(views_opt)
            } else {
                first_marker_value(lsv.skip(i as int), MarkerKind::Views)
            }),
            body_lines(lsv) == views_of(body_acc@) + body_lines(lsv.skip(i as int)),
        decreases n - i,
    {
        let l = &ls[i];
        let ghost line = lsv[i as int];
        let ghost rest = lsv.skip(i as int);
        proof {
            assert(rest[0] == line);
            assert(rest.drop_first() =~= lsv.skip(i + 1));
        }
        let mut matched = false;
        let r_pdate = take_marker_value(l, "<p>date:");
        let r_date = take_marker_value(l, "date:");
        match r_pdate {
            Some(v) => {
                proof {
                    assert(marker_match(MarkerKind::Date, line));
                    assert(marker_prefix_len(MarkerKind::Date, line) == "<p>date:"@.len());
                }
                if date_opt.is_none() {
                    date_opt = Some(v);
                }
                matched = true;
            },
            None => {
                match r_date {
                    Some(v) => {
                        proof {
                            assert(marker_match(MarkerKind::Date, line));
                            assert(marker_prefix_len(MarkerKind::Date, line) == "date:"@.len());
                        }
                        if date_opt.is_none() {
                            date_opt = Some(v);
                        }
                        matched = true;
                    },
                    None => {
                        proof {
                            assert(!marker_match(MarkerKind::Date, line));
                        }
                    },
                }
            },
        }
        match take_marker_value(l, "excerpt:") {
            Some(v) => {
                proof {
                    assert(marker_match(MarkerKind::Excerpt, line));
                }
                if excerpt_opt.is_none() {
                    excerpt_opt = Some(v);
                }
                matched = true;
            },
            None => {
                proof {
                    assert(!marker_match(MarkerKind::Excerpt, line));
                }
            },
        }
        match take_marker_value(l, "image:") {
            Some(v) => {
                proof {
                    assert(marker_match(MarkerKind::Image, line));
                }
                if image_opt.is_none() {
                    image_opt = Some(v);
                }
                matched = true;
            },
            None => {
                proof {
                    assert(!marker_match(MarkerKind::Image, line));
                }
            },
        }
        match take_marker_value(l, "tags:") {
            Some(v) => {
                proof {
                    assert(marker_match(MarkerKind::Tags, line));
                }
                if tags_opt.is_none() {
                    tags_opt = Some(v);
                }
                matched = true;
            },
            None => {
                proof {
                    assert(!marker_match(MarkerKind::Tags, line));
                }
            },
        }
        match take_marker_value(l, "views:") {
            Some(v) => {
                proof {
                    assert(marker_match(MarkerKind::Views, line));
                }
                if views_opt.is_none() {
                    views_opt = Some(v);
                }
                matched = true;
            },
            None => {
                proof {
                    assert(!marker_match(MarkerKind::Views, line));
                }
            },
        }
        if !matched {
            let ghost old_body = body_acc@;
            proof {
                assert(!is_marker_line(line));
            }
            body_acc.push(l.clone());
            proof {
                assert(views_of(body_acc@) =~= views_of(old_body) + seq![line]);
                assert(views_of(old_body) + (seq![line] + body_lines(rest.drop_first()))
                    =~= (views_of(old_body) + seq![line]) + body_lines(rest.drop_first()));
            }
        } else {
            proof {
                assert(is_marker_line(line));
            }
        }
        i = i + 1;
    }
    proof {
        assert(lsv.skip(n as int) =~= Seq::<Seq<char>>::empty());
        assert(views_of(body_acc@) + body_lines(lsv.skip(n as int)) =~= views_of(body_acc@));
    }
    let body = crate::text::join_with_newlines(&body_acc);
    let tags: Vec<String> = match &tags_opt {
        Some(v) => split_on_char(v.as_str(), ','),
        None => Vec::new(),
    };
    proof {
        if tags_opt is None {
            assert(views_of(Seq::<String>::empty()) =~= Seq::<Seq<char>>::empty());
        }
    }
    let views: u32 = match &views_opt {
        Some(v) => parse_u32(v.as_str()),
        None => 0,
    };
    let m = PostMeta {
        date: match date_opt {
            Some(d) => d,
            None => String::new(),
        },
        excerpt: match excerpt_opt {
            Some(e) => e,
            None => String::new(),
        },
        image: match image_opt {
            Some(im) => im,
            None => String::new(),
        },
        tags,
        views,
        body,
    };
    m
}

proof fn lemma_body_lines_wf(ls: Seq<Seq<char>>)
    requires
        forall|q: int| 0 <= q < ls.len() ==> crate::text::wf_line(#[trigger] ls[q]),
    ensures
        forall|k: int|
            0 <= k < body_lines(ls).len() ==> crate::text::wf_line(#[trigger] body_lines(ls)[k])
                && !is_marker_line(body_lines(ls)[k]),
    decreases ls.len(),
{
    if ls.len() > 0 {
        assert forall|q: int| 0 <= q < ls.drop_first().len() implies crate::text::wf_line(
            #[trigger] ls.drop_first()[q],
        ) by {
            assert(ls.drop_first()[q] == ls[q + 1]);
        }
        lemma_body_lines_wf(ls.drop_first());
        if is_marker_line(ls[0]) {
            assert(body_lines(ls) == body_lines(ls.drop_first()));
        } else {
            assert forall|k: int| 0 <= k < body_lines(ls).len() implies crate::text::wf_line(
                #[trigger] body_lines(ls)[k],
            ) && !is_marker_line(body_lines(ls)[k]) by {
                if k == 0 {
                    assert(body_lines(ls)[0] == ls[0]);
                } else {
                    assert(body_lines(ls)[k] == body_lines(ls.drop_first())[k - 1]);
                }
            }
        }
    }
}

proof fn lemma_body_lines_no_markers(ls: Seq<Seq<char>>)
    requires
        forall|q: int| 0 <= q < ls.len() ==> !is_marker_line(#[trigger] ls[q]),
    ensures
        body_lines(ls) == ls,
    decreases ls.len(),
{
    if ls.len() > 0 {
        assert(!is_marker_line(ls[0]));
        assert(forall|q: int|
            0 <= q < ls.drop_first().len() ==> !is_marker_line(#[trigger] ls.drop_first()[q]));
        lemma_body_lines_no_markers(ls.drop_first());
        assert(seq![ls[0]] + ls.drop_first() =~= ls);
    }
}

proof fn lemma_first_value_none(ls: Seq<Seq<char>>, k: MarkerKind)
    requires
        forall|q: int| 0 <= q < ls.len() ==> !is_marker_line(#[trigger] ls[q]),
    ensures
        first_marker_value(ls, k) is None,
    decreases ls.len(),
{
    if ls.len() > 0 {
        assert(!is_marker_line(ls[0]));
        assert(!marker_match(k, ls[0]));
        assert(forall|q: int|
            0 <= q < ls.drop_first().len() ==> !is_marker_line(#[trigger] ls.drop_first()[q]));
        lemma_first_value_none(ls.drop_first(), k);
    }
}

/// Metadata stripping is one-way and final: extracting again from a stripped
/// body finds no marker of any kind and leaves the body unchanged, so a
/// second templating pass over its own output reproduces it. The one proviso:
/// the stripped body must not end in an empty line, since joining lines drops
/// a trailing newline.
pub proof fn lemma_strip_idempotent(c: Seq<char>)
    requires
        body_lines(lines_spec(c)).len() > 0 ==> body_lines(lines_spec(c)).last().len() > 0,
    ensures
        extract_spec(extract_spec(c).body).body == extract_spec(c).body,
        extract_spec(extract_spec(c).body).date == Seq::<char>::empty(),
        extract_spec(extract_spec(c).body).excerpt == Seq::<char>::empty(),
        extract_spec(extract_spec(c).body).image == Seq::<char>::empty(),
        extract_spec(extract_spec(c).body).tags == Seq::<Seq<char>>::empty(),
        extract_spec(extract_spec(c).body).views == 0u32,
{
    let ls = lines_spec(c);
    let bl = body_lines(ls);
    let b = extract_spec(c).body;
    crate::text::lemma_lines_wf(c);
    lemma_body_lines_wf(ls);
    crate::text::lemma_lines_of_join(bl);
    assert(lines_spec(b) == bl);
    lemma_first_value_none(bl, MarkerKind::Date);
    lemma_first_value_none(bl, MarkerKind::Excerpt);
    lemma_first_value_none(bl, MarkerKind::Image);
    lemma_first_value_none(bl, MarkerKind::Tags);
    lemma_first_value_none(bl, MarkerKind::Views);
    lemma_body_lines_no_markers(bl);
    assert(extract_spec(b).body == join_lines(bl));
}

} // verus!
