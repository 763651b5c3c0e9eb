//! Verified text utilities: trimming, prefix/suffix tests, line and field
//! splitting, lexicographic comparison, and decimal formatting/parsing.
//! Every executable function is specified against a recursive spec function
//! over `Seq<char>`.
use vstd::prelude::*;
use vstd::string::StrSliceExecFns;
use vstd::string::StringExecFns;

verus! {

/// Whitespace for the purposes of marker-line trimming: blank, tab, carriage
/// return. Newlines never occur inside a line.
pub open spec fn is_space(c: char) -> bool {
    c == ' ' || c == '\t' || c == '\r'
}

pub open spec fn trim_start_spec(s: Seq<char>) -> Seq<char>
    decreases s.len(),
{
    if s.len() > 0 && is_space(s[0]) {
        trim_start_spec(s.drop_first())
    } else {
        s
    }
}

pub open spec fn trim_end_spec(s: Seq<char>) -> Seq<char>
    decreases s.len(),
{
    if s.len() > 0 && is_space(s.last()) {
        trim_end_spec(s.drop_last())
    } else {
        s
    }
}

/// A line with leading and trailing whitespace removed.
pub open spec fn trim_spec(s: Seq<char>) -> Seq<char> {
    trim_end_spec(trim_start_spec(s))
}

pub open spec fn starts_with_spec(s: Seq<char>, p: Seq<char>) -> bool {
    p.len() <= s.len() && s.subrange(0, p.len() as int) == p
}

pub open spec fn ends_with_spec(s: Seq<char>, p: Seq<char>) -> bool {
    p.len() <= s.len() && s.subrange(s.len() - p.len(), s.len() as int) == p
}

/// Index of the first occurrence of `c` in `s`, or `s.len()` if absent.
pub open spec fn first_index_of(s: Seq<char>, c: char) -> int
    decreases s.len(),
{
    if s.len() == 0 {
        0
    } else if s[0] == c {
        0
    } else {
        1 + first_index_of(s.drop_first(), c)
    }
}

pub proof fn lemma_first_index_of_bounds(s: Seq<char>, c: char)
    ensures
        0 <= first_index_of(s, c) <= s.len(),
        forall|k: int| 0 <= k < first_index_of(s, c) ==> s[k] != c,
        first_index_of(s, c) < s.len() ==> s[first_index_of(s, c)] == c,
    decreases s.len(),
{
    if s.len() > 0 && s[0] != c {
        lemma_first_index_of_bounds(s.drop_first(), c);
        assert(forall|k: int| 1 <= k < first_index_of(s, c) ==> s[k] == s.drop_first()[k - 1]);
    }
}

/// `first_index_of` is pinned down by its characteristic properties.
pub proof fn lemma_first_index_of_unique(s: Seq<char>, c: char, i: int)
    requires
        0 <= i <= s.len(),
        forall|k: int| 0 <= k < i ==> s[k] != c,
        i < s.len() ==> s[i] == c,
    ensures
        first_index_of(s, c) == i,
    decreases s.len(),
{
    if s.len() == 0 {
    } else if s[0] == c {
    } else {
        assert(forall|k: int| 0 <= k < i - 1 ==> s.drop_first()[k] != c);
        lemma_first_index_of_unique(s.drop_first(), c, i - 1);
    }
}

proof fn lemma_trim_start_is_skip(s: Seq<char>, i: int)
    requires
        0 <= i <= s.len(),
        forall|k: int| 0 <= k < i ==> is_space(s[k]),
        i < s.len() ==> !is_space(s[i]),
    ensures
        trim_start_spec(s) == s.skip(i),
    decreases s.len(),
{
    if i == 0 {
        assert(s.skip(0) =~= s);
    } else {
        assert(is_space(s[0]));
        lemma_trim_start_is_skip(s.drop_first(), i - 1);
        assert(s.drop_first().skip(i - 1) =~= s.skip(i));
    }
}

proof fn lemma_trim_end_is_take(s: Seq<char>, j: int)
    requires
        0 <= j <= s.len(),
        forall|k: int| j <= k < s.len() ==> is_space(s[k]),
        j > 0 ==> !is_space(s[j - 1]),
    ensures
        trim_end_spec(s) == s.take(j),
    decreases s.len(),
{
    if j == s.len() {
        if s.len() > 0 {
            assert(!is_space(s.last()));
        }
        assert(s.take(j) =~= s);
    } else {
        assert(is_space(s.last()));
        lemma_trim_end_is_take(s.drop_last(), j);
        assert(s.drop_last().take(j) =~= s.take(j));
    }
}

fn is_space_char(c: char) -> (r: bool)
    ensures
        r == is_space(c),
{
    c == ' ' || c == '\t' || c == '\r'
}

/// Remove leading and trailing whitespace from a line.
pub fn trim(s: &str) -> (r: &str)
    ensures
        r@ == trim_spec(s@),
{
    let n = s.unicode_len();
    let mut i: usize = 0;
    while i < n && is_space_char(s.get_char(i))
        invariant
            0 <= i <= n == s@.len(),
            forall|k: int| 0 <= k < i ==> is_space(s@[k]),
        decreases n - i,
    {
        i = i + 1;
    }
    let mut j: usize = n;
    while j > i && is_space_char(s.get_char(j - 1))
        invariant
            i <= j <= n == s@.len(),
            forall|k: int| 0 <= k < i ==> is_space(s@[k]),
            i < s@.len() ==> !is_space(s@[i as int]),
            forall|k: int| j <= k < s@.len() ==> is_space(s@[k]),
        decreases j,
    {
        j = j - 1;
    }
    proof {
        lemma_trim_start_is_skip(s@, i as int);
        if j > i {
            lemma_trim_end_is_take(s@.skip(i as int), j - i);
        } else {
            lemma_trim_end_is_take(s@.skip(i as int), 0);
        }
        assert(s@.skip(i as int).take(j - i) =~= s@.subrange(i as int, j as int));
    }
    s.substring_char(i, j)
}

/// Does `s` begin with `p`?
pub fn starts_with(s: &str, p: &str) -> (r: bool)
    ensures
        r == starts_with_spec(s@, p@),
{
    let sn = s.unicode_len();
    let pn = p.unicode_len();
    if pn > sn {
        return false;
    }
    let mut i: usize = 0;
    while i < pn
        invariant
            0 <= i <= pn == p@.len(),
            pn <= sn == s@.len(),
            forall|k: int| 0 <= k < i ==> s@[k] == p@[k],
        decreases pn - i,
    {
        if s.get_char(i) != p.get_char(i) {
            assert(s@.subrange(0, p@.len() as int)[i as int] != p@[i as int]);
            return false;
        }
        i = i + 1;
    }
    assert(s@.subrange(0, p@.len() as int) =~= p@);
    true
}

/// Does `s` end with `p`?
pub fn ends_with(s: &str, p: &str) -> (r: bool)
    ensures
        r == ends_with_spec(s@, p@),
{
    let sn = s.unicode_len();
    let pn = p.unicode_len();
    if pn > sn {
        return false;
    }
    let mut i: usize = 0;
    while i < pn
        invariant
            0 <= i <= pn == p@.len(),
            pn <= sn == s@.len(),
            forall|k: int| 0 <= k < i ==> s@[sn - pn + k] == p@[k],
        decreases pn - i,
    {
        if s.get_char(sn - pn + i) != p.get_char(i) {
            assert(s@.subrange(s@.len() - p@.len(), s@.len() as int)[i as int] != p@[i as int]);
            return false;
        }
        i = i + 1;
    }
    assert(s@.subrange(s@.len() - p@.len(), s@.len() as int) =~= p@);
    true
}

/// The views of a sequence of owned values, element by element.
pub open spec fn views_of<T: View>(s: Seq<T>) -> Seq<T::V> {
    s.map_values(|x: T| x@)
}

/// A line with every trailing carriage return removed.
pub open spec fn strip_cr(l: Seq<char>) -> Seq<char>
    decreases l.len(),
{
    if l.len() > 0 && l.last() == '\r' {
        strip_cr(l.drop_last())
    } else {
        l
    }
}

proof fn lemma_strip_cr_is_take(l: Seq<char>, j: int)
    requires
        0 <= j <= l.len(),
        forall|k: int| j <= k < l.len() ==> l[k] == '\r',
        j > 0 ==> l[j - 1] != '\r',
    ensures
        strip_cr(l) == l.take(j),
    decreases l.len(),
{
    if j == l.len() {
        assert(l.take(j) =~= l);
    } else {
        lemma_strip_cr_is_take(l.drop_last(), j);
        assert(l.drop_last().take(j) =~= l.take(j));
    }
}

/// The lines of a text: split on `'\n'`, with trailing carriage returns of
/// each line removed and no empty line after a final newline.
pub open spec fn lines_spec(s: Seq<char>) -> Seq<Seq<char>>
    decreases s.len(),
    via lines_spec_decreases
{
    if s.len() == 0 {
        Seq::<Seq<char>>::empty()
    } else {
        let i = first_index_of(s, '\n');
        if i == s.len() {
            seq![strip_cr(s)]
        } else {
            seq![strip_cr(s.take(i))] + lines_spec(s.skip(i + 1))
        }
    }
}

#[via_fn]
proof fn lines_spec_decreases(s: Seq<char>) {
    lemma_first_index_of_bounds(s, '\n');
}

/// Lines reassembled with a single `'\n'` between them.
pub open spec fn join_lines(ls: Seq<Seq<char>>) -> Seq<char>
    decreases ls.len(),
{
    if ls.len() == 0 {
        Seq::<char>::empty()
    } else if ls.len() == 1 {
        ls[0]
    } else {
        ls[0] + seq!['\n'] + join_lines(ls.drop_first())
    }
}

/// Fields of `s` split on `c`; splitting never yields fewer than one field.
pub open spec fn split_char_spec(s: Seq<char>, c: char) -> Seq<Seq<char>>
    decreases s.len(),
    via split_char_spec_decreases
{
    let i = first_index_of(s, c);
    if i == s.len() {
        seq![s]
    } else {
        seq![s.take(i)] + split_char_spec(s.skip(i + 1), c)
    }
}

#[via_fn]
proof fn split_char_spec_decreases(s: Seq<char>, c: char) {
    lemma_first_index_of_bounds(s, c);
}

/// First occurrence of `c` in `s` at or after `from`.
fn find_char_from(s: &str, c: char, from: usize) -> (r: Option<usize>)
    requires
        from <= s@.len(),
    ensures
        match r {
            Some(i) => from <= i < s@.len() && s@[i as int] == c && i - from == first_index_of(
                s@.skip(from as int),
                c,
            ) && (forall|k: int| from <= k < i ==> s@[k] != c),
            None => first_index_of(s@.skip(from as int), c) == s@.len() - from && (forall|k: int|
                from <= k < s@.len() ==> s@[k] != c),
        },
{
    let n = s.unicode_len();
    let mut i: usize = from;
    while i < n
        invariant
            from <= i <= n == s@.len(),
            forall|k: int| from <= k < i ==> s@[k] != c,
        decreases n - i,
    {
        if s.get_char(i) == c {
            proof {
                assert(forall|k: int|
                    0 <= k < i - from ==> s@.skip(from as int)[k] == s@[k + from]);
                lemma_first_index_of_unique(s@.skip(from as int), c, i - from);
            }
            return Some(i);
        }
        i = i + 1;
    }
    proof {
        assert(forall|k: int| 0 <= k < n - from ==> s@.skip(from as int)[k] == s@[k + from]);
        lemma_first_index_of_unique(s@.skip(from as int), c, s@.len() - from);
    }
    None
}

/// Remove the trailing carriage returns of a line.
fn strip_trailing_cr(l: &str) -> (r: &str)
    ensures
        r@ == strip_cr(l@),
{
    let n = l.unicode_len();
    let mut j: usize = n;
    while j > 0 && l.get_char(j - 1) == '\r'
        invariant
            0 <= j <= n == l@.len(),
            forall|k: int| j <= k < l@.len() ==> l@[k] == '\r',
        decreases j,
    {
        j = j - 1;
    }
    proof {
        lemma_strip_cr_is_take(l@, j as int);
    }
    l.substring_char(0, j)
}

/// Split a text into its lines, as `lines_spec` describes.
pub fn split_lines(s: &str) -> (r: Vec<String>)
    ensures
        views_of(r@) == lines_spec(s@),
{
    let n = s.unicode_len();
    let mut r: Vec<String> = Vec::new();
    let mut pos: usize = 0;
    proof {
        assert(s@.skip(0) =~= s@);
        assert(views_of(r@) =~= Seq::<Seq<char>>::empty());
        assert(views_of(r@) + lines_spec(s@) =~= lines_spec(s@));
    }
    while pos < n
        invariant
            0 <= pos <= n == s@.len(),
            lines_spec(s@) == views_of(r@) + lines_spec(s@.skip(pos as int)),
        decreases n - pos,
    {
        let ghost rest = s@.skip(pos as int);
        let ghost old_r = r@;
        match find_char_from(s, '\n', pos) {
            Some(idx) => {
                let piece = s.substring_char(pos, idx);
                let line = strip_trailing_cr(piece);
                r.push(line.to_owned());
                proof {
                    assert(rest.take(idx - pos) =~= piece@);
                    assert(rest.skip(idx - pos + 1) =~= s@.skip(idx + 1));
                    assert(lines_spec(rest) == seq![strip_cr(piece@)] + lines_spec(
                        s@.skip(idx + 1),
                    ));
                    assert(views_of(r@) =~= views_of(old_r) + seq![strip_cr(piece@)]);
                }
                pos = idx + 1;
            },
            None => {
                let piece = s.substring_char(pos, n);
                let line = strip_trailing_cr(piece);
                r.push(line.to_owned());
                proof {
                    assert(first_index_of(rest, '\n') == rest.len());
                    assert(rest =~= piece@);
                    assert(lines_spec(rest) == seq![strip_cr(piece@)]);
                    assert(views_of(r@) =~= views_of(old_r) + seq![strip_cr(piece@)]);
                    assert(s@.skip(n as int) =~= Seq::<char>::empty());
                }
                pos = n;
            },
        }
    }
    proof {
        assert(s@.skip(n as int) =~= Seq::<char>::empty());
        assert(views_of(r@) =~= views_of(r@) + lines_spec(s@.skip(pos as int)));
    }
    r
}

/// Split a string into fields on `c`, as `split_char_spec` describes.
pub fn split_on_char(s: &str, c: char) -> (r: Vec<String>)
    ensures
        views_of(r@) == split_char_spec(s@, c),
{
    let n = s.unicode_len();
    let mut r: Vec<String> = Vec::new();
    let mut pos: usize = 0;
    proof {
        assert(s@.skip(0) =~= s@);
        assert(views_of(r@) =~= Seq::<Seq<char>>::empty());
        assert(views_of(r@) + split_char_spec(s@, c) =~= split_char_spec(s@, c));
    }
    loop
        invariant
            0 <= pos <= n == s@.len(),
            split_char_spec(s@, c) == views_of(r@) + split_char_spec(s@.skip(pos as int), c),
        decreases n - pos + 1,
    {
        let ghost rest = s@.skip(pos as int);
        let ghost old_r = r@;
        match find_char_from(s, c, pos) {
            Some(idx) => {
                let piece = s.substring_char(pos, idx);
                r.push(piece.to_owned());
                proof {
                    assert(rest.take(idx - pos) =~= piece@);
                    assert(rest.skip(idx - pos + 1) =~= s@.skip(idx + 1));
                    assert(split_char_spec(rest, c) == seq![piece@] + split_char_spec(
                        s@.skip(idx + 1),
                        c,
                    ));
                    assert(views_of(r@) =~= views_of(old_r) + seq![piece@]);
                }
                pos = idx + 1;
            },
            None => {
                let piece = s.substring_char(pos, n);
                r.push(piece.to_owned());
                proof {
                    assert(first_index_of(rest, c) == rest.len());
                    assert(rest =~= piece@);
                    assert(split_char_spec(rest, c) == seq![piece@]);
                    assert(views_of(r@) =~= views_of(old_r) + seq![piece@]);
                }
                return r;
            },
        }
    }
}

/// A marker value with surrounding whitespace removed; a paragraph-close tag
/// that markdown rendering may have left at its end is dropped as well.
pub open spec fn clean_value_spec(v: Seq<char>) -> Seq<char> {
    let t = trim_spec(v);
    if ends_with_spec(t, "</p>"@) {
        trim_spec(t.take(t.len() - "</p>"@.len()))
    } else {
        t
    }
}

/// Clean a marker value, as `clean_value_spec` describes.
pub fn clean_value(v: &str) -> (r: String)
    ensures
        r@ == clean_value_spec(v@),
{
    let t = trim(v);
    if ends_with(t, "</p>") {
        let n = t.unicode_len();
        let plen = "</p>".unicode_len();
        let cut = t.substring_char(0, n - plen);
        proof {
            assert(cut@ =~= trim_spec(v@).take(
                trim_spec(v@).len() - "</p>"@.len(),
            ));
        }
        trim(cut).to_owned()
    } else {
        t.to_owned()
    }
}

proof fn lemma_join_push(ms: Seq<Seq<char>>, m: Seq<char>)
    ensures
        join_lines(ms.push(m)) == if ms.len() == 0 {
            m
        } else {
            join_lines(ms) + seq!['\n'] + m
        },
    decreases ms.len(),
{
    let p = ms.push(m);
    if ms.len() == 0 {
        assert(p.len() == 1);
        assert(p[0] == m);
    } else if ms.len() == 1 {
        assert(p.len() == 2);
        assert(p.drop_first() =~= seq![m]);
        assert(join_lines(p.drop_first()) == m);
        assert(join_lines(ms) == ms[0]);
        assert(p[0] == ms[0]);
    } else {
        assert(p.drop_first() =~= ms.drop_first().push(m));
        lemma_join_push(ms.drop_first(), m);
        assert(join_lines(p) == p[0] + seq!['\n'] + (join_lines(ms.drop_first()) + seq!['\n']
            + m));
        assert(p[0] == ms[0]);
        assert(ms[0] + seq!['\n'] + (join_lines(ms.drop_first()) + seq!['\n'] + m) =~= (ms[0]
            + seq!['\n'] + join_lines(ms.drop_first())) + seq!['\n'] + m);
    }
}

/// Reassemble lines with a single newline between them.
pub fn join_with_newlines(ls: &Vec<String>) -> (r: String)
    ensures
        r@ == join_lines(views_of(ls@)),
{
    let n = ls.len();
    let mut r = String::new();
    if n == 0 {
        proof {
            assert(views_of(ls@) =~= Seq::<Seq<char>>::empty());
        }
        return r;
    }
    r.append(ls[0].as_str());
    let mut i: usize = 1;
    proof {
        assert(views_of(ls@).take(1) =~= seq![ls@[0]@]);
        assert(join_lines(seq![ls@[0]@]) == ls@[0]@);
        assert(r@ == ls@[0]@);
    }
    while i < n
        invariant
            1 <= i <= n == ls@.len(),
            r@ == join_lines(views_of(ls@).take(i as int)),
        decreases n - i,
    {
        r.append("\n");
        r.append(ls[i].as_str());
        proof {
            reveal_strlit("\n");
            assert("\n"@ =~= seq!['\n']);
            let pre = views_of(ls@).take(i as int);
            lemma_join_push(pre, ls@[i as int]@);
            assert(views_of(ls@).take(i + 1) =~= pre.push(ls@[i as int]@));
            assert(pre.len() > 0);
            assert(r@ =~= join_lines(pre) + seq!['\n'] + ls@[i as int]@);
        }
        i = i + 1;
    }
    proof {
        assert(views_of(ls@).take(n as int) =~= views_of(ls@));
    }
    r
}

/// A well-formed line: no newline inside, no trailing carriage return.
/// Every line that `lines_spec` yields has this shape.
pub open spec fn wf_line(l: Seq<char>) -> bool {
    (forall|q: int| 0 <= q < l.len() ==> l[q] != '\n') && (l.len() > 0 ==> l.last() != '\r')
}

pub proof fn lemma_strip_cr_props(l: Seq<char>)
    ensures
        strip_cr(l).len() <= l.len(),
        forall|q: int| 0 <= q < strip_cr(l).len() ==> strip_cr(l)[q] == l[q],
        strip_cr(l).len() > 0 ==> strip_cr(l).last() != '\r',
    decreases l.len(),
{
    if l.len() > 0 && l.last() == '\r' {
        lemma_strip_cr_props(l.drop_last());
        assert(forall|q: int| 0 <= q < l.drop_last().len() ==> l.drop_last()[q] == l[q]);
    }
}

/// Splitting a text into lines yields only well-formed lines.
pub proof fn lemma_lines_wf(s: Seq<char>)
    ensures
        forall|k: int| 0 <= k < lines_spec(s).len() ==> wf_line(#[trigger] lines_spec(s)[k]),
    decreases s.len(),
{
    if s.len() > 0 {
        lemma_first_index_of_bounds(s, '\n');
        let i = first_index_of(s, '\n');
        if i == s.len() {
            lemma_strip_cr_props(s);
            assert forall|q: int| 0 <= q < strip_cr(s).len() implies strip_cr(s)[q] != '\n' by {
                assert(strip_cr(s)[q] == s[q]);
            }
            assert(wf_line(strip_cr(s)));
        } else {
            let head = s.take(i);
            lemma_strip_cr_props(head);
            assert(forall|q: int| 0 <= q < head.len() ==> head[q] != '\n');
            assert forall|q: int| 0 <= q < strip_cr(head).len() implies strip_cr(head)[q]
                != '\n' by {
                assert(strip_cr(head)[q] == head[q]);
            }
            assert(wf_line(strip_cr(head)));
            lemma_lines_wf(s.skip(i + 1));
            assert(forall|k: int|
                1 <= k < lines_spec(s).len() ==> lines_spec(s)[k] == lines_spec(s.skip(i + 1))[k
                    - 1]);
        }
    }
}

/// Reassembling well-formed lines and splitting again gives the lines back,
/// provided the last line is not empty (a trailing empty line does not
/// survive the round trip: joining drops the final newline).
pub proof fn lemma_lines_of_join(ms: Seq<Seq<char>>)
    requires
        forall|k: int| 0 <= k < ms.len() ==> wf_line(#[trigger] ms[k]),
        ms.len() > 0 ==> ms.last().len() > 0,
    ensures
        lines_spec(join_lines(ms)) == ms,
    decreases ms.len(),
{
    if ms.len() == 0 {
        assert(lines_spec(join_lines(ms)) =~= ms);
    } else if ms.len() == 1 {
        let l = ms[0];
        assert(wf_line(l));
        assert(l.len() > 0);
        lemma_first_index_of_unique(l, '\n', l.len() as int);
        lemma_strip_cr_is_take(l, l.len() as int);
        assert(l.take(l.len() as int) =~= l);
        assert(lines_spec(l) =~= ms);
    } else {
        let s = join_lines(ms);
        let head = ms[0];
        let tail_join = join_lines(ms.drop_first());
        assert(s == head + seq!['\n'] + tail_join);
        assert(s.len() > 0);
        assert forall|k: int| 0 <= k < head.len() implies s[k] != '\n' by {
            assert(s[k] == head[k]);
        }
        assert(s[head.len() as int] == '\n');
        lemma_first_index_of_unique(s, '\n', head.len() as int);
        assert(s.take(head.len() as int) =~= head);
        lemma_strip_cr_is_take(head, head.len() as int);
        assert(head.take(head.len() as int) =~= head);
        assert(s.skip(head.len() as int + 1) =~= tail_join);
        assert(forall|k: int|
            0 <= k < ms.drop_first().len() ==> wf_line(#[trigger] ms.drop_first()[k]));
        assert(ms.drop_first().last() == ms.last());
        lemma_lines_of_join(ms.drop_first());
        assert(lines_spec(s) == seq![head] + ms.drop_first());
        assert(seq![head] + ms.drop_first() =~= ms);
    }
}

/// Pieces joined with a separator between them.
pub open spec fn join_sep(ls: Seq<Seq<char>>, sep: Seq<char>) -> Seq<char>
    decreases ls.len(),
{
    if ls.len() == 0 {
        Seq::<char>::empty()
    } else if ls.len() == 1 {
        ls[0]
    } else {
        ls[0] + sep + join_sep(ls.drop_first(), sep)
    }
}

proof fn lemma_join_sep_push(ms: Seq<Seq<char>>, sep: Seq<char>, m: Seq<char>)
    ensures
        join_sep(ms.push(m), sep) == if ms.len() == 0 {
            m
        } else {
            join_sep(ms, sep) + sep + m
        },
    decreases ms.len(),
{
    let p = ms.push(m);
    if ms.len() == 0 {
        assert(p.len() == 1);
        assert(p[0] == m);
    } else if ms.len() == 1 {
        assert(p.len() == 2);
        assert(p.drop_first() =~= seq![m]);
        assert(join_sep(p.drop_first(), sep) == m);
        assert(join_sep(ms, sep) == ms[0]);
        assert(p[0] == ms[0]);
    } else {
        assert(p.drop_first() =~= ms.drop_first().push(m));
        lemma_join_sep_push(ms.drop_first(), sep, m);
        assert(p[0] == ms[0]);
        assert(ms[0] + sep + (join_sep(ms.drop_first(), sep) + sep + m) =~= (ms[0] + sep
            + join_sep(ms.drop_first(), sep)) + sep + m);
    }
}

/// Join pieces with a separator, as `join_sep` describes.
pub fn join_with_sep(ls: &Vec<String>, sep: &str) -> (r: String)
    ensures
        r@ == join_sep(views_of(ls@), sep@),
{
    let n = ls.len();
    let mut r = String::new();
    if n == 0 {
        proof {
            assert(views_of(ls@) =~= Seq::<Seq<char>>::empty());
        }
        return r;
    }
    r.append(ls[0].as_str());
    let mut i: usize = 1;
    proof {
        assert(views_of(ls@).take(1) =~= seq![ls@[0]@]);
    }
    while i < n
        invariant
            1 <= i <= n == ls@.len(),
            r@ == join_sep(views_of(ls@).take(i as int), sep@),
        decreases n - i,
    {
        r.append(sep);
        r.append(ls[i].as_str());
        proof {
            let pre = views_of(ls@).take(i as int);
            lemma_join_sep_push(pre, sep@, ls@[i as int]@);
            assert(views_of(ls@).take(i + 1) =~= pre.push(ls@[i as int]@));
            assert(pre.len() > 0);
        }
        i = i + 1;
    }
    proof {
        assert(views_of(ls@).take(n as int) =~= views_of(ls@));
    }
    r
}

/// Strict lexicographic order on character sequences, by unicode scalar value.
pub open spec fn lex_lt(a: Seq<char>, b: Seq<char>) -> bool
    decreases a.len(),
{
    b.len() > 0 && (a.len() == 0 || (a[0] as u32) < (b[0] as u32) || (a[0] == b[0] && lex_lt(
        a.drop_first(),
        b.drop_first(),
    )))
}

pub open spec fn lex_le(a: Seq<char>, b: Seq<char>) -> bool {
    a == b || lex_lt(a, b)
}

/// Any two character sequences are ordered.
pub proof fn lemma_lex_total(a: Seq<char>, b: Seq<char>)
    ensures
        lex_lt(a, b) || lex_lt(b, a) || a == b,
    decreases a.len(),
{
    if a.len() == 0 && b.len() == 0 {
        assert(a =~= b);
    }
    if a.len() > 0 && b.len() > 0 && (a[0] as u32) == (b[0] as u32) {
        vstd::utf8::char_u32_cast(a[0], a[0] as u32);
        vstd::utf8::char_u32_cast(b[0], b[0] as u32);
        assert(a[0] == b[0]);
    }
    if a.len() > 0 && b.len() > 0 && a[0] == b[0] {
        lemma_lex_total(a.drop_first(), b.drop_first());
        if a.drop_first() == b.drop_first() {
            assert(a.drop_first().len() == a.len() - 1);
            assert(b.drop_first().len() == b.len() - 1);
            assert(a.len() == b.len());
            assert forall|k: int| 0 <= k < a.len() implies a[k] == b[k] by {
                if k > 0 {
                    assert(a[k] == a.drop_first()[k - 1]);
                    assert(b[k] == b.drop_first()[k - 1]);
                }
            }
            assert(a =~= b);
        }
    }
}

pub proof fn lemma_lex_lt_trans(a: Seq<char>, b: Seq<char>, c: Seq<char>)
    requires
        lex_lt(a, b),
        lex_lt(b, c),
    ensures
        lex_lt(a, c),
    decreases a.len(),
{
    if a.len() > 0 && b.len() > 0 && c.len() > 0 && a[0] == b[0] && b[0] == c[0] {
        lemma_lex_lt_trans(a.drop_first(), b.drop_first(), c.drop_first());
    }
}

pub proof fn lemma_lex_le_trans(a: Seq<char>, b: Seq<char>, c: Seq<char>)
    requires
        lex_le(a, b),
        lex_le(b, c),
    ensures
        lex_le(a, c),
{
    if a != b && b != c {
        lemma_lex_lt_trans(a, b, c);
    }
}

/// Decide strict lexicographic order on strings.
pub fn str_lt(a: &str, b: &str) -> (r: bool)
    ensures
        r == lex_lt(a@, b@),
    decreases a@.len(),
{
    let bn = b.unicode_len();
    if bn == 0 {
        return false;
    }
    let an = a.unicode_len();
    if an == 0 {
        return true;
    }
    let ca = a.get_char(0);
    let cb = b.get_char(0);
    if (ca as u32) < (cb as u32) {
        true
    } else if ca == cb {
        let ta = a.substring_char(1, an);
        let tb = b.substring_char(1, bn);
        proof {
            assert(ta@ =~= a@.drop_first());
            assert(tb@ =~= b@.drop_first());
        }
        str_lt(ta, tb)
    } else {
        false
    }
}

pub open spec fn is_digit(c: char) -> bool {
    48 <= c as u32 <= 57
}

pub open spec fn digit_val(c: char) -> int {
    c as u32 - 48
}

/// The number denoted by a sequence of decimal digits, most significant first.
pub open spec fn digits_val(s: Seq<char>) -> int
    decreases s.len(),
{
    if s.len() == 0 {
        0
    } else {
        digits_val(s.drop_last()) * 10 + digit_val(s.last())
    }
}

pub open spec fn all_digits(s: Seq<char>) -> bool {
    forall|i: int| 0 <= i < s.len() ==> is_digit(s[i])
}

/// A view counter parsed from text: the denoted value if the text is a
/// non-empty digit string whose value fits in `u32`, and 0 otherwise.
pub open spec fn parse_u32_spec(s: Seq<char>) -> u32 {
    if s.len() > 0 && all_digits(s) && digits_val(s) <= u32::MAX {
        digits_val(s) as u32
    } else {
        0
    }
}

proof fn lemma_digits_val_nonneg(s: Seq<char>)
    requires
        all_digits(s),
    ensures
        digits_val(s) >= 0,
    decreases s.len(),
{
    if s.len() > 0 {
        assert(all_digits(s.drop_last()));
        lemma_digits_val_nonneg(s.drop_last());
    }
}

/// Parse a decimal `u32`, defaulting to 0 on anything unparseable.
pub fn parse_u32(s: &str) -> (r: u32)
    ensures
        r == parse_u32_spec(s@),
{
    let n = s.unicode_len();
    if n == 0 {
        return 0;
    }
    let mut acc: u64 = 0;
    let mut over: bool = false;
    let mut i: usize = 0;
    proof {
        assert(s@.take(0) =~= Seq::<char>::empty());
    }
    while i < n
        invariant
            0 <= i <= n == s@.len(),
            forall|k: int| 0 <= k < i ==> is_digit(s@[k]),
            !over ==> acc == digits_val(s@.take(i as int)) && acc <= u32::MAX,
            over ==> digits_val(s@.take(i as int)) > u32::MAX,
        decreases n - i,
    {
        let c = s.get_char(i);
        let cv = c as u32;
        if cv < 48 || cv > 57 {
            return 0;
        }
        let d = cv - 48;
        let ghost pre = s@.take(i as int);
        let ghost post = s@.take(i + 1);
        proof {
            assert(post.drop_last() =~= pre);
            assert(post.last() == s@[i as int]);
            assert(all_digits(pre));
            lemma_digits_val_nonneg(pre);
        }
        if !over {
            acc = acc * 10 + d as u64;
            if acc > u32::MAX as u64 {
                over = true;
            }
        } else {
            proof {
                assert(digits_val(post) == digits_val(pre) * 10 + digit_val(s@[i as int]));
                assert(digits_val(pre) * 10 >= digits_val(pre)) by (nonlinear_arith)
                    requires
                        digits_val(pre) >= 0,
                ;
            }
        }
        i = i + 1;
    }
    proof {
        assert(s@.take(n as int) =~= s@);
    }
    if over {
        0
    } else {
        acc as u32
    }
}

pub open spec fn digit_char(d: int) -> char {
    if d == 0 {
        '0'
    } else if d == 1 {
        '1'
    } else if d == 2 {
        '2'
    } else if d == 3 {
        '3'
    } else if d == 4 {
        '4'
    } else if d == 5 {
        '5'
    } else if d == 6 {
        '6'
    } else if d == 7 {
        '7'
    } else if d == 8 {
        '8'
    } else {
        '9'
    }
}

/// The decimal rendering of a non-negative number, most significant digit
/// first and without leading zeros.
pub open spec fn dec_str(n: int) -> Seq<char>
    decreases n,
{
    if n < 0 {
        Seq::<char>::empty()
    } else if n < 10 {
        seq![digit_char(n)]
    } else {
        dec_str(n / 10) + seq![digit_char(n % 10)]
    }
}

fn digit_str(d: u32) -> (r: &'static str)
    requires
        d < 10,
    ensures
        r@ =~= seq![digit_char(d as int)],
{
    proof {
        reveal_strlit("0");
        reveal_strlit("1");
        reveal_strlit("2");
        reveal_strlit("3");
        reveal_strlit("4");
        reveal_strlit("5");
        reveal_strlit("6");
        reveal_strlit("7");
        reveal_strlit("8");
        reveal_strlit("9");
    }
    if d == 0 {
        "0"
    } else if d == 1 {
        "1"
    } else if d == 2 {
        "2"
    } else if d == 3 {
        "3"
    } else if d == 4 {
        "4"
    } else if d == 5 {
        "5"
    } else if d == 6 {
        "6"
    } else if d == 7 {
        "7"
    } else if d == 8 {
        "8"
    } else {
        "9"
    }
}

/// Render a `u32` in decimal.
pub fn u32_to_string(n: u32) -> (r: String)
    ensures
        r@ == dec_str(n as int),
    decreases n,
{
    if n < 10 {
        digit_str(n).to_owned()
    } else {
        let mut r = u32_to_string(n / 10);
        r.append(digit_str(n % 10));
        r
    }
}

/// Every dash replaced with a blank, as in deriving a title from a file name.
pub open spec fn dashes_to_spaces(s: Seq<char>) -> Seq<char> {
    Seq::new(s.len(), |i: int| if s[i] == '-' { ' ' } else { s[i] })
}

/// Replace every dash with a blank.
pub fn replace_dashes(s: &str) -> (r: String)
    ensures
        r@ == dashes_to_spaces(s@),
{
    let n = s.unicode_len();
    let mut r = String::new();
    let mut i: usize = 0;
    proof {
        assert(r@ =~= dashes_to_spaces(s@.take(0)));
    }
    while i < n
        invariant
            0 <= i <= n == s@.len(),
            r@ == dashes_to_spaces(s@.take(i as int)),
        decreases n - i,
    {
        let c = s.get_char(i);
        if c == '-' {
            r.append(" ");
            proof {
                reveal_strlit(" ");
                assert(" "@ =~= seq![' ']);
            }
        } else {
            let piece = s.substring_char(i, i + 1);
            r.append(piece);
            proof {
                assert(piece@ =~= seq![s@[i as int]]);
            }
        }
        proof {
            assert(r@ =~= dashes_to_spaces(s@.take(i + 1)));
        }
        i = i + 1;
    }
    proof {
        assert(s@.take(n as int) =~= s@);
    }
    r
}

/// Character-for-character string equality.
pub fn str_eq(a: &str, b: &str) -> (r: bool)
    ensures
        r == (a@ == b@),
{
    let an = a.unicode_len();
    let bn = b.unicode_len();
    if an != bn {
        return false;
    }
    let mut i: usize = 0;
    while i < an
        invariant
            0 <= i <= an == a@.len(),
            an == b@.len(),
            forall|k: int| 0 <= k < i ==> a@[k] == b@[k],
        decreases an - i,
    {
        if a.get_char(i) != b.get_char(i) {
            return false;
        }
        i = i + 1;
    }
    assert(a@ =~= b@);
    true
}

} // verus!
