//! Headers and the sections they open.
use vstd::prelude::*;

use crate::text::{
    extend_all, extend_range, is_blank, is_blank_vec, is_whitespace, is_ws, lemma_chars_deep_view,
    lines, span_texts, trim, trim_bounds,
};

verus! {

broadcast use lemma_chars_deep_view;

// ---------------------------------------------------------------------------
// Headers
// ---------------------------------------------------------------------------

/// Number of `'#'` characters at the start of a line.
pub open spec fn leading_hashes(l: Seq<char>) -> nat
    decreases l.len(),
{
    if l.len() > 0 && l[0] == '#' {
        1 + leading_hashes(l.drop_first())
    } else {
        0
    }
}

/// The level of a line that is a markdown header: one to six `'#'` followed by
/// whitespace (the pattern `^(#{1,6})\s`), or `None`.
pub open spec fn header_level(l: Seq<char>) -> Option<nat> {
    let k = leading_hashes(l);
    if 1 <= k <= 6 && k < l.len() && is_ws(l[k as int]) {
        Some(k)
    } else {
        None
    }
}

/// Whether a line opens a section at level `k`: exactly `k` `'#'` and then
/// whitespace (the pattern `^#{k}\s`).
pub open spec fn is_header_of_level(l: Seq<char>, k: nat) -> bool {
    &&& k < l.len()
    &&& forall|i: int| 0 <= i < k ==> #[trigger] l[i] == '#'
    &&& is_ws(l[k as int])
}

/// The level of the first header line among `ls`, if any line is a header.
pub open spec fn first_header_level(ls: Seq<Seq<char>>) -> Option<nat>
    decreases ls.len(),
{
    if ls.len() == 0 {
        None
    } else {
        match header_level(ls[0]) {
            Some(k) => Some(k),
            None => first_header_level(ls.drop_first()),
        }
    }
}

// ---------------------------------------------------------------------------
// Sections
// ---------------------------------------------------------------------------

/// `"# " + filename + "\n"`: the line that starts the content of every section.
pub open spec fn title_line(filename: Seq<char>) -> Seq<char> {
    seq!['#', ' '] + filename + seq!['\n']
}

/// A section's content: the title line followed by `body`.
pub open spec fn titled(filename: Seq<char>, body: Seq<char>) -> Seq<char> {
    title_line(filename) + body
}

/// Groups lines by the headers of level `k`. The first component is the text
/// before the first such header; the second lists, in order, each header line
/// with the text of its section: the header and the lines up to the next
/// header of that level, every line followed by `'\n'`.
pub open spec fn scan_sections(ls: Seq<Seq<char>>, k: nat) -> (
    Seq<char>,
    Seq<(Seq<char>, Seq<char>)>,
)
    decreases ls.len(),
{
    if ls.len() == 0 {
        (Seq::empty(), Seq::empty())
    } else {
        let (pre, secs) = scan_sections(ls.drop_last(), k);
        let l = ls.last();
        if is_header_of_level(l, k) {
            (pre, secs.push((l, l.push('\n'))))
        } else if secs.len() == 0 {
            (pre + l.push('\n'), secs)
        } else {
            (pre, secs.update(secs.len() - 1, (secs.last().0, secs.last().1 + l.push('\n'))))
        }
    }
}

/// The `(section, content)` pairs of a document split at the headers of level
/// `k`: first, when the document has such a header and non-blank text before
/// it, that text under the file's name; then each header section under its
/// header line. Every content is the title line and the trimmed text. (A
/// section's text starts with its header line, so it is never blank.)
pub open spec fn header_sections(ls: Seq<Seq<char>>, k: nat, filename: Seq<char>) -> Seq<
    (Seq<char>, Seq<char>),
> {
    let (pre, secs) = scan_sections(ls, k);
    let head: Seq<(Seq<char>, Seq<char>)> = if secs.len() > 0 && !is_blank(pre) {
        seq![(filename, titled(filename, trim(pre)))]
    } else {
        Seq::empty()
    };
    head + secs.map_values(|p: (Seq<char>, Seq<char>)| (p.0, titled(filename, trim(p.1))))
}

/// The sections of a document: split at the level of its first header, or the
/// whole document under the file's name when it has no header.
pub open spec fn sections_of(contents: Seq<char>, filename: Seq<char>) -> Seq<
    (Seq<char>, Seq<char>),
> {
    let ls = lines(contents);
    match first_header_level(ls) {
        Some(k) => header_sections(ls, k, filename),
        None => seq![(filename, titled(filename, contents))],
    }
}

pub(crate) proof fn lemma_leading_hashes(s: Seq<char>, m: int)
    requires
        0 <= m <= s.len(),
        forall|q: int| 0 <= q < m ==> #[trigger] s[q] == '#',
        m == s.len() || s[m] != '#',
    ensures
        leading_hashes(s) == m,
    decreases m,
{
    if m > 0 {
        let t = s.drop_first();
        assert(s[0] == '#');
        assert forall|q: int| 0 <= q < m - 1 implies #[trigger] t[q] == '#' by {
            assert(t[q] == s[q + 1]);
        }
        if m < s.len() {
            assert(t[m - 1] == s[m]);
        }
        lemma_leading_hashes(t, m - 1);
    }
}

/// The header level of the line `t[lo..hi]`.
fn header_level_of(t: &Vec<char>, lo: usize, hi: usize) -> (r: Option<usize>)
    requires
        lo <= hi <= t.len(),
    ensures
        match r {
            Some(k) => header_level(t@.subrange(lo as int, hi as int)) == Some(k as nat),
            None => header_level(t@.subrange(lo as int, hi as int)) is None,
        },
{
    let ghost l = t@.subrange(lo as int, hi as int);
    let mut i = lo;
    while i < hi && t[i] == '#'
        invariant
            lo <= i <= hi <= t.len(),
            forall|q: int| lo <= q < i ==> #[trigger] t@[q] == '#',
        decreases hi - i,
    {
        i = i + 1;
    }
    proof {
        assert forall|q: int| 0 <= q < i - lo implies #[trigger] l[q] == '#' by {
            assert(l[q] == t@[lo + q]);
        }
        if i < hi {
            assert(l[i - lo] == t@[i as int]);
        }
        lemma_leading_hashes(l, i - lo);
    }
    let k = i - lo;
    if 1 <= k && k <= 6 && i < hi && is_whitespace(t[i]) {
        assert(l[k as int] == t@[i as int]);
        Some(k)
    } else {
        proof {
            if i < hi {
                assert(l[k as int] == t@[i as int]);
            }
        }
        None
    }
}

/// The level of the first header among the lines `spans` of `t`.
pub(crate) fn first_level(t: &Vec<char>, spans: &Vec<(usize, usize)>) -> (r: Option<usize>)
    requires
        forall|i: int|
            0 <= i < spans@.len() ==> (#[trigger] spans@[i]).0 <= spans@[i].1 <= t@.len(),
    ensures
        match r {
            Some(k) => first_header_level(span_texts(t@, spans@)) == Some(k as nat),
            None => first_header_level(span_texts(t@, spans@)) is None,
        },
{
    let ghost ls = span_texts(t@, spans@);
    assert(ls.skip(0) == ls);
    for i in 0..spans.len()
        invariant
            ls == span_texts(t@, spans@),
            forall|j: int|
                0 <= j < spans@.len() ==> (#[trigger] spans@[j]).0 <= spans@[j].1 <= t@.len(),
            first_header_level(ls) == first_header_level(ls.skip(i as int)),
    {
        let (a, b) = spans[i];
        let lv = header_level_of(t, a, b);
        assert(ls.skip(i as int)[0] == ls[i as int]);
        assert(ls.skip(i as int).drop_first() == ls.skip(i + 1));
        if lv.is_some() {
            return lv;
        }
    }
    assert(ls.skip(spans.len() as int).len() == 0);
    None
}

/// Whether the line `t[lo..hi]` opens a section at level `k`.
fn is_header_line(t: &Vec<char>, lo: usize, hi: usize, k: usize) -> (b: bool)
    requires
        lo <= hi <= t.len(),
    ensures
        b == is_header_of_level(t@.subrange(lo as int, hi as int), k as nat),
{
    let ghost l = t@.subrange(lo as int, hi as int);
    if k >= hi - lo {
        return false;
    }
    let mut i: usize = 0;
    while i < k
        invariant
            i <= k < hi - lo,
            lo <= hi <= t.len(),
            l == t@.subrange(lo as int, hi as int),
            forall|q: int| 0 <= q < i ==> #[trigger] l[q] == '#',
        decreases k - i,
    {
        if t[lo + i] != '#' {
            assert(l[i as int] == t@[lo + i]);
            return false;
        }
        assert(l[i as int] == t@[lo + i]);
        i = i + 1;
    }
    assert(l[k as int] == t@[lo + k]);
    is_whitespace(t[lo + k])
}

/// A copy of `v[lo..hi]`.
pub(crate) fn copy_range(v: &Vec<char>, lo: usize, hi: usize) -> (r: Vec<char>)
    requires
        lo <= hi <= v.len(),
    ensures
        r@ == v@.subrange(lo as int, hi as int),
{
    let mut r: Vec<char> = Vec::new();
    extend_range(&mut r, v, lo, hi);
    r
}

/// The content `titled(filename, body[lo..hi])`.
pub(crate) fn titled_range(filename: &Vec<char>, body: &Vec<char>, lo: usize, hi: usize) -> (r: Vec<char>)
    requires
        lo <= hi <= body.len(),
    ensures
        r@ == titled(filename@, body@.subrange(lo as int, hi as int)),
{
    let mut r: Vec<char> = Vec::new();
    r.push('#');
    r.push(' ');
    extend_all(&mut r, filename);
    r.push('\n');
    extend_range(&mut r, body, lo, hi);
    assert(r@ == titled(filename@, body@.subrange(lo as int, hi as int)));
    r
}

/// The section pairs `header_sections` of the lines `spans` of `t`, split at
/// the headers of level `k`.
pub fn split_by_header(
    t: &Vec<char>,
    spans: &Vec<(usize, usize)>,
    k: usize,
    filename: &Vec<char>,
) -> (res: Vec<(Vec<char>, Vec<char>)>)
    requires
        forall|i: int|
            0 <= i < spans@.len() ==> (#[trigger] spans@[i]).0 <= spans@[i].1 <= t@.len(),
    ensures
        res.deep_view() == header_sections(span_texts(t@, spans@), k as nat, filename@),
{
    let ghost ls = span_texts(t@, spans@);
    let mut pre: Vec<char> = Vec::new();
    let mut done: Vec<(Vec<char>, Vec<char>)> = Vec::new();
    let mut cur: Option<(Vec<char>, Vec<char>)> = None;
    assert(ls.take(0) == Seq::<Seq<char>>::empty());
    for i in 0..spans.len()
        invariant
            ls == span_texts(t@, spans@),
            forall|j: int|
                0 <= j < spans@.len() ==> (#[trigger] spans@[j]).0 <= spans@[j].1 <= t@.len(),
            scan_sections(ls.take(i as int), k as nat).0 == pre@,
            scan_sections(ls.take(i as int), k as nat).1 == match cur {
                None => done.deep_view(),
                Some(c) => done.deep_view().push(c.deep_view()),
            },
            cur is None ==> done@.len() == 0,
    {
        let (a, b) = spans[i];
        let ghost l = t@.subrange(a as int, b as int);
        let ghost prev = scan_sections(ls.take(i as int), k as nat);
        assert(ls.take(i + 1).drop_last() == ls.take(i as int));
        assert(ls.take(i + 1).last() == l);
        if is_header_line(t, a, b, k) {
            let h = copy_range(t, a, b);
            let mut txt = copy_range(t, a, b);
            txt.push('\n');
            let ghost old_done = done.deep_view();
            match cur {
                Some(c) => {
                    done.push(c);
                    assert(done.deep_view() == old_done.push(c.deep_view()));
                },
                None => {},
            }
            cur = Some((h, txt));
            assert(done.deep_view().push((h@, txt@)) == prev.1.push((l, l.push('\n'))));
        } else {
            match cur {
                None => {
                    extend_range(&mut pre, t, a, b);
                    pre.push('\n');
                    cur = None;
                },
                Some(c) => {
                    let (h, mut txt) = c;
                    let ghost old_txt = txt@;
                    extend_range(&mut txt, t, a, b);
                    txt.push('\n');
                    assert(txt@ == old_txt + l.push('\n'));
                    cur = Some((h, txt));
                    assert(done.deep_view().push((h@, txt@)) == prev.1.update(
                        prev.1.len() - 1,
                        (prev.1.last().0, prev.1.last().1 + l.push('\n')),
                    ));
                },
            }
        }
    }
    assert(ls.take(spans.len() as int) == ls);
    let ghost old_done = done.deep_view();
    match cur {
        Some(c) => {
            done.push(c);
            assert(done.deep_view() == old_done.push(c.deep_view()));
        },
        None => {},
    }
    let ghost secs = scan_sections(ls, k as nat).1;
    assert(done.deep_view() == secs);
    let mut res: Vec<(Vec<char>, Vec<char>)> = Vec::new();
    if done.len() > 0 && !is_blank_vec(&pre) {
        let (pa, pb) = trim_bounds(&pre);
        let name = copy_range(filename, 0, filename.len());
        assert(filename@.subrange(0, filename@.len() as int) == filename@);
        let body = titled_range(filename, &pre, pa, pb);
        res.push((name, body));
    }
    let ghost head = res.deep_view();
    let ghost f = |p: (Seq<char>, Seq<char>)| (p.0, titled(filename@, trim(p.1)));
    for j in 0..done.len()
        invariant
            secs == done.deep_view(),
            res.deep_view() == head + secs.take(j as int).map_values(f),
            f == (|p: (Seq<char>, Seq<char>)| (p.0, titled(filename@, trim(p.1)))),
    {
        let (ta, tb) = trim_bounds(&done[j].1);
        let name = copy_range(&done[j].0, 0, done[j].0.len());
        let body = titled_range(filename, &done[j].1, ta, tb);
        let ghost old_res = res.deep_view();
        res.push((name, body));
        proof {
            assert(done[j as int].0@.subrange(0, done[j as int].0@.len() as int) == done[j
                as int].0@);
            assert(done.deep_view()[j as int] == done[j as int].deep_view());
            assert(secs.take(j + 1).map_values(f) == secs.take(j as int).map_values(f).push(
                f(secs[j as int]),
            ));
            assert(res.deep_view() == old_res.push((name@, body@)));
        }
    }
    assert(secs.take(done.len() as int) == secs);
    res
}

} // verus!
