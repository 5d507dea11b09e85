//! Cutting a section's text into pieces of bounded size.
use vstd::prelude::*;

use crate::text::{
    byte_len, char_width, fits_in_bytes, is_blank, is_blank_range, lemma_byte_len_concat,
    lemma_chars_deep_view, utf8_width,
};

use super::images::{strip_images, strip_images_chars};
use super::sections::copy_range;

verus! {

broadcast use lemma_chars_deep_view;

// ---------------------------------------------------------------------------
// Size limits
// ---------------------------------------------------------------------------

/// A section whose text (images removed) is at most this many bytes stays whole.
pub const MAX_CHUNK_SIZE: usize = 8192;

/// The most bytes a piece of a larger section may hold.
pub const MAX_TOKEN_ESTIMATE: usize = 4000;

/// Number of leading characters of `t` whose UTF-8 encoding fits in `budget` bytes.
pub open spec fn fit_len(t: Seq<char>, budget: int) -> nat
    decreases t.len(),
{
    if t.len() == 0 || char_width(t[0]) > budget {
        0
    } else {
        1 + fit_len(t.drop_first(), budget - char_width(t[0]))
    }
}

/// Index of the last `'\n'` in `t`, if any.
pub open spec fn last_newline(t: Seq<char>) -> Option<nat>
    decreases t.len(),
{
    if t.len() == 0 {
        None
    } else if t.last() == '\n' {
        Some((t.len() - 1) as nat)
    } else {
        last_newline(t.drop_last())
    }
}

/// Where the piece of `c` that begins at `start` ends: as far as
/// `MAX_TOKEN_ESTIMATE` bytes reach, pulled back to just after the last
/// newline in that window unless the window reaches the end of `c`.
pub open spec fn cut_point(c: Seq<char>, start: int) -> int {
    let end = start + fit_len(c.skip(start), MAX_TOKEN_ESTIMATE as int);
    if end < c.len() {
        match last_newline(c.subrange(start, end)) {
            Some(p) => start + p + 1,
            None => end,
        }
    } else {
        end
    }
}

pub proof fn lemma_fit_len_bounds(t: Seq<char>, budget: int)
    ensures
        fit_len(t, budget) <= t.len(),
        t.len() > 0 && budget >= 4 ==> fit_len(t, budget) >= 1,
        byte_len(t.take(fit_len(t, budget) as int)) <= if budget < 0 {
            0
        } else {
            budget
        },
    decreases t.len(),
{
    if t.len() == 0 || char_width(t[0]) > budget {
        assert(t.take(0) == Seq::<char>::empty());
    } else {
        let b2 = budget - char_width(t[0]);
        lemma_fit_len_bounds(t.drop_first(), b2);
        let m = fit_len(t.drop_first(), b2);
        assert(t.take(m + 1 as int) == seq![t[0]] + t.drop_first().take(m as int));
        lemma_byte_len_concat(seq![t[0]], t.drop_first().take(m as int));
        assert(seq![t[0]].drop_last() == Seq::<char>::empty());
        assert(byte_len(Seq::<char>::empty()) == 0);
        assert(byte_len(seq![t[0]]) == char_width(t[0]));
    }
}

pub proof fn lemma_last_newline_bounds(t: Seq<char>)
    ensures
        last_newline(t) matches Some(p) ==> p < t.len() && t[p as int] == '\n',
    decreases t.len(),
{
    if t.len() > 0 && t.last() != '\n' {
        lemma_last_newline_bounds(t.drop_last());
    }
}

pub proof fn lemma_cut_point_advances(c: Seq<char>, start: int)
    requires
        0 <= start < c.len(),
    ensures
        start < cut_point(c, start) <= c.len(),
{
    lemma_fit_len_bounds(c.skip(start), MAX_TOKEN_ESTIMATE as int);
    let end = start + fit_len(c.skip(start), MAX_TOKEN_ESTIMATE as int);
    if end < c.len() {
        lemma_last_newline_bounds(c.subrange(start, end));
    }
}

/// The pieces of `c` from `start` on, cut at `cut_point` one after another;
/// the pieces that are all whitespace are left out.
pub open spec fn pieces_from(c: Seq<char>, start: nat) -> Seq<Seq<char>>
    decreases c.len() - start,
{
    if start >= c.len() {
        Seq::empty()
    } else {
        let e = cut_point(c, start as int);
        proof {
            lemma_cut_point_advances(c, start as int);
        }
        let p = c.subrange(start as int, e);
        let here: Seq<Seq<char>> = if is_blank(p) {
            Seq::empty()
        } else {
            seq![p]
        };
        here + pieces_from(c, e as nat)
    }
}

/// The pieces of a section's text: images removed, then kept whole when at
/// most `MAX_CHUNK_SIZE` bytes, else cut by `pieces_from`.
pub open spec fn split_large(chunk: Seq<char>) -> Seq<Seq<char>> {
    let cleaned = strip_images(chunk);
    if byte_len(cleaned) <= MAX_CHUNK_SIZE {
        seq![cleaned]
    } else {
        pieces_from(cleaned, 0)
    }
}

/// `cut_point(c, start)`.
fn cut_point_at(c: &Vec<char>, start: usize) -> (e: usize)
    requires
        start < c.len(),
    ensures
        e == cut_point(c@, start as int),
        start < e <= c.len(),
{
    proof {
        lemma_cut_point_advances(c@, start as int);
    }
    let n = c.len();
    let mut used: usize = 0;
    let mut i = start;
    while i < n && utf8_width(c[i]) <= MAX_TOKEN_ESTIMATE - used
        invariant
            start <= i <= n == c.len(),
            used <= MAX_TOKEN_ESTIMATE,
            fit_len(c@.skip(start as int), MAX_TOKEN_ESTIMATE as int) == (i - start) + fit_len(
                c@.skip(i as int),
                MAX_TOKEN_ESTIMATE - used,
            ),
        decreases n - i,
    {
        let ghost u = c@.skip(i as int);
        assert(u[0] == c@[i as int]);
        assert(u.drop_first() == c@.skip(i + 1));
        used = used + utf8_width(c[i]);
        i = i + 1;
    }
    proof {
        let u = c@.skip(i as int);
        if i < n {
            assert(u[0] == c@[i as int]);
        }
    }
    let end = i;
    if end < n {
        let mut j = end;
        while j > start && c[j - 1] != '\n'
            invariant
                start <= j <= end <= n == c.len(),
                last_newline(c@.subrange(start as int, end as int)) == last_newline(
                    c@.subrange(start as int, j as int),
                ),
            decreases j,
        {
            let ghost w = c@.subrange(start as int, j as int);
            assert(w.last() == c@[j - 1]);
            assert(w.drop_last() == c@.subrange(start as int, j - 1));
            j = j - 1;
        }
        if j > start {
            let ghost w = c@.subrange(start as int, j as int);
            assert(w.last() == c@[j - 1]);
            j
        } else {
            assert(c@.subrange(start as int, j as int).len() == 0);
            end
        }
    } else {
        end
    }
}

/// The pieces `split_large` makes of `chunk`.
pub fn split_large_chars(chunk: &Vec<char>) -> (res: Vec<Vec<char>>)
    ensures
        res.deep_view() == split_large(chunk@),
{
    let cleaned = strip_images_chars(chunk);
    if fits_in_bytes(&cleaned, MAX_CHUNK_SIZE) {
        let mut one: Vec<Vec<char>> = Vec::new();
        one.push(cleaned);
        assert(one.deep_view() == seq![cleaned@]);
        return one;
    }
    let n = cleaned.len();
    let mut out: Vec<Vec<char>> = Vec::new();
    let mut start: usize = 0;
    while start < n
        invariant
            n == cleaned.len(),
            start <= n,
            pieces_from(cleaned@, 0) == out.deep_view() + pieces_from(cleaned@, start as nat),
        decreases n - start,
    {
        let end = cut_point_at(&cleaned, start);
        let ghost old_out = out.deep_view();
        if !is_blank_range(&cleaned, start, end) {
            let piece = copy_range(&cleaned, start, end);
            out.push(piece);
            assert(out.deep_view() == old_out.push(piece@));
        }
        start = end;
    }
    assert(out.deep_view() + pieces_from(cleaned@, start as nat) == out.deep_view());
    out
}

} // verus!
