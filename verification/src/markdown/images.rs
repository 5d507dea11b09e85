//! Inline base64 images and their removal.
use vstd::prelude::*;

use crate::text::{extend_all, lemma_chars_deep_view, to_chars};

verus! {

broadcast use lemma_chars_deep_view;

// ---------------------------------------------------------------------------
// Inline images
// ---------------------------------------------------------------------------

/// `"data:image/"`.
pub open spec fn image_prefix() -> Seq<char> {
    seq!['d', 'a', 't', 'a', ':', 'i', 'm', 'a', 'g', 'e', '/']
}

/// `";base64,"`.
pub open spec fn base64_marker() -> Seq<char> {
    seq![';', 'b', 'a', 's', 'e', '6', '4', ',']
}

/// `"[image removed]"`: what an inline image is replaced by.
pub open spec fn image_placeholder() -> Seq<char> {
    seq!['[', 'i', 'm', 'a', 'g', 'e', ' ', 'r', 'e', 'm', 'o', 'v', 'e', 'd', ']']
}

/// The characters of the base64 alphabet: `[A-Za-z0-9+/=]`.
pub open spec fn is_base64_char(c: char) -> bool {
    ||| 'A' <= c <= 'Z'
    ||| 'a' <= c <= 'z'
    ||| '0' <= c <= '9'
    ||| c == '+'
    ||| c == '/'
    ||| c == '='
}

/// Length of the run of base64 characters at the start of `t`.
pub open spec fn base64_run(t: Seq<char>) -> nat
    decreases t.len(),
{
    if t.len() > 0 && is_base64_char(t[0]) {
        1 + base64_run(t.drop_first())
    } else {
        0
    }
}

/// Index of the first `';'` in `t`, or `t.len()` when there is none.
pub open spec fn semicolon_index(t: Seq<char>) -> nat
    decreases t.len(),
{
    if t.len() == 0 || t[0] == ';' {
        0
    } else {
        1 + semicolon_index(t.drop_first())
    }
}

/// The length of the inline image that starts `t`, if one does: the pattern
/// `data:image/[^;]+;base64,[A-Za-z0-9+/=]{100,}` with its runs as long as they go.
pub open spec fn image_match_len(t: Seq<char>) -> Option<nat> {
    if t.len() >= 11 && t.take(11) == image_prefix() {
        let j: int = 11 + semicolon_index(t.skip(11)) as int;
        if j > 11 && j + 8 <= t.len() && t.subrange(j as int, j + 8) == base64_marker() {
            let r = base64_run(t.skip(j + 8));
            if r >= 100 {
                Some((j + 8 + r) as nat)
            } else {
                None
            }
        } else {
            None
        }
    } else {
        None
    }
}

pub proof fn lemma_base64_run_bound(t: Seq<char>)
    ensures
        base64_run(t) <= t.len(),
    decreases t.len(),
{
    if t.len() > 0 && is_base64_char(t[0]) {
        lemma_base64_run_bound(t.drop_first());
    }
}

pub proof fn lemma_image_match_bound(t: Seq<char>)
    ensures
        image_match_len(t) matches Some(m) ==> 0 < m <= t.len(),
{
    if t.len() >= 11 && t.take(11) == image_prefix() {
        let j: int = 11 + semicolon_index(t.skip(11)) as int;
        if j > 11 && j + 8 <= t.len() {
            lemma_base64_run_bound(t.skip(j + 8));
        }
    }
}

/// `t` with every inline image replaced by the placeholder, scanning from the
/// left and resuming after each replaced image.
pub open spec fn strip_images(t: Seq<char>) -> Seq<char>
    decreases t.len(),
{
    if t.len() == 0 {
        Seq::empty()
    } else {
        match image_match_len(t) {
            Some(m) => {
                proof {
                    lemma_image_match_bound(t);
                }
                image_placeholder() + strip_images(t.skip(m as int))
            },
            None => seq![t[0]] + strip_images(t.drop_first()),
        }
    }
}

/// Whether `pat` occurs in `c` at position `i`.
fn occurs_at(c: &Vec<char>, i: usize, pat: &Vec<char>) -> (b: bool)
    requires
        i <= c.len(),
    ensures
        b == (i + pat.len() <= c.len() && c@.subrange(i as int, i + pat.len()) == pat@),
{
    if pat.len() > c.len() - i {
        return false;
    }
    let mut q: usize = 0;
    while q < pat.len()
        invariant
            i + pat.len() <= c.len(),
            q <= pat.len(),
            forall|r: int| 0 <= r < q ==> c@[i + r] == #[trigger] pat@[r],
        decreases pat.len() - q,
    {
        if c[i + q] != pat[q] {
            assert(c@.subrange(i as int, i + pat.len())[q as int] == c@[i + q]);
            return false;
        }
        q = q + 1;
    }
    assert(c@.subrange(i as int, i + pat.len()) =~= pat@);
    true
}

pub(crate) proof fn lemma_semicolon_index(s: Seq<char>, m: int)
    requires
        0 <= m <= s.len(),
        forall|q: int| 0 <= q < m ==> #[trigger] s[q] != ';',
        m == s.len() || s[m] == ';',
    ensures
        semicolon_index(s) == m,
    decreases m,
{
    if m > 0 {
        let t = s.drop_first();
        assert(s[0] != ';');
        assert forall|q: int| 0 <= q < m - 1 implies #[trigger] t[q] != ';' by {
            assert(t[q] == s[q + 1]);
        }
        if m < s.len() {
            assert(t[m - 1] == s[m]);
        }
        lemma_semicolon_index(t, m - 1);
    }
}

proof fn lemma_base64_run(s: Seq<char>, m: int)
    requires
        0 <= m <= s.len(),
        forall|q: int| 0 <= q < m ==> is_base64_char(#[trigger] s[q]),
        m == s.len() || !is_base64_char(s[m]),
    ensures
        base64_run(s) == m,
    decreases m,
{
    if m > 0 {
        let t = s.drop_first();
        assert(is_base64_char(s[0]));
        assert forall|q: int| 0 <= q < m - 1 implies is_base64_char(#[trigger] t[q]) by {
            assert(t[q] == s[q + 1]);
        }
        if m < s.len() {
            assert(t[m - 1] == s[m]);
        }
        lemma_base64_run(t, m - 1);
    }
}

fn is_base64(c: char) -> (b: bool)
    ensures
        b == is_base64_char(c),
{
    ('A' <= c && c <= 'Z') || ('a' <= c && c <= 'z') || ('0' <= c && c <= '9') || c == '+' || c
        == '/' || c == '='
}

/// The length of the inline image that starts at position `i` of `c`, if any.
fn image_match_at(c: &Vec<char>, i: usize, prefix: &Vec<char>, marker: &Vec<char>) -> (r: Option<
    usize,
>)
    requires
        i <= c.len(),
        prefix@ == image_prefix(),
        marker@ == base64_marker(),
    ensures
        match r {
            Some(m) => image_match_len(c@.skip(i as int)) == Some(m as nat),
            None => image_match_len(c@.skip(i as int)) is None,
        },
{
    let ghost t = c@.skip(i as int);
    let n = c.len();
    if !occurs_at(c, i, prefix) {
        proof {
            if t.len() >= 11 {
                assert(t.take(11) == c@.subrange(i as int, i + 11));
            }
        }
        return None;
    }
    assert(t.take(11) == c@.subrange(i as int, i + 11));
    let start = i + 11;
    let mut j = start;
    while j < n && c[j] != ';'
        invariant
            start <= j <= n == c.len(),
            forall|q: int| start <= q < j ==> #[trigger] c@[q] != ';',
        decreases n - j,
    {
        j = j + 1;
    }
    proof {
        let u = t.skip(11);
        assert(u == c@.skip(start as int));
        assert forall|q: int| 0 <= q < j - start implies #[trigger] u[q] != ';' by {
            assert(u[q] == c@[start + q]);
        }
        if j < n {
            assert(u[j - start] == c@[j as int]);
        }
        lemma_semicolon_index(u, j - start);
    }
    if j == start || !occurs_at(c, j, marker) {
        proof {
            let jj = j - i;
            if jj + 8 <= t.len() {
                assert(t.subrange(jj, jj + 8) == c@.subrange(j as int, j + 8));
            }
        }
        return None;
    }
    assert(t.subrange(j - i, j - i + 8) == c@.subrange(j as int, j + 8));
    let b = j + 8;
    let mut r = b;
    while r < n && is_base64(c[r])
        invariant
            b <= r <= n == c.len(),
            forall|q: int| b <= q < r ==> is_base64_char(#[trigger] c@[q]),
        decreases n - r,
    {
        r = r + 1;
    }
    proof {
        let u = t.skip(j - i + 8);
        assert(u == c@.skip(b as int));
        assert forall|q: int| 0 <= q < r - b implies is_base64_char(#[trigger] u[q]) by {
            assert(u[q] == c@[b + q]);
        }
        if r < n {
            assert(u[r - b] == c@[r as int]);
        }
        lemma_base64_run(u, r - b);
    }
    if r - b >= 100 {
        Some(r - i)
    } else {
        None
    }
}

/// `strip_images` of `c`.
pub fn strip_images_chars(c: &Vec<char>) -> (out: Vec<char>)
    ensures
        out@ == strip_images(c@),
{
    let prefix = to_chars("data:image/");
    let marker = to_chars(";base64,");
    let placeholder = to_chars("[image removed]");
    proof {
        reveal_strlit("data:image/");
        reveal_strlit(";base64,");
        reveal_strlit("[image removed]");
    }
    let n = c.len();
    let mut out: Vec<char> = Vec::new();
    let mut i: usize = 0;
    assert(c@.skip(0) == c@);
    while i < n
        invariant
            n == c.len(),
            i <= n,
            prefix@ == image_prefix(),
            marker@ == base64_marker(),
            placeholder@ == image_placeholder(),
            strip_images(c@) == out@ + strip_images(c@.skip(i as int)),
        decreases n - i,
    {
        let ghost t = c@.skip(i as int);
        proof {
            lemma_image_match_bound(t);
        }
        match image_match_at(c, i, &prefix, &marker) {
            Some(m) => {
                extend_all(&mut out, &placeholder);
                assert(t.skip(m as int) == c@.skip(i + m));
                i = i + m;
            },
            None => {
                out.push(c[i]);
                assert(t.drop_first() == c@.skip(i + 1));
                assert(t[0] == c@[i as int]);
                i = i + 1;
            },
        }
    }
    assert(c@.skip(n as int) == Seq::<char>::empty());
    assert(out@ + Seq::<char>::empty() == out@);
    out
}

} // verus!
