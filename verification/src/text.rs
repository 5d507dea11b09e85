//! Character-level text model shared by the parser and the query builders:
//! whitespace, trimming, line splitting, UTF-8 widths, and the conversions
//! between `str`/`String` and vectors of `char`.
use vstd::prelude::*;

verus! {

// ---------------------------------------------------------------------------
// Whitespace and trimming
// ---------------------------------------------------------------------------

/// The Unicode `White_Space` property: the characters that `char::is_whitespace`,
/// `str::trim` and the `\s` class of a Unicode regex accept.
pub open spec fn is_ws(c: char) -> bool {
    let u = c as u32;
    ||| 0x09 <= u <= 0x0d
    ||| u == 0x20
    ||| u == 0x85
    ||| u == 0xa0
    ||| u == 0x1680
    ||| 0x2000 <= u <= 0x200a
    ||| u == 0x2028
    ||| u == 0x2029
    ||| u == 0x202f
    ||| u == 0x205f
    ||| u == 0x3000
}

/// A text is blank when every character in it is whitespace (so `trim` leaves nothing).
pub open spec fn is_blank(s: Seq<char>) -> bool {
    forall|i: int| 0 <= i < s.len() ==> is_ws(#[trigger] s[i])
}

/// Number of whitespace characters at the start of `s`.
pub open spec fn leading_ws(s: Seq<char>) -> nat
    decreases s.len(),
{
    if s.len() > 0 && is_ws(s[0]) {
        1 + leading_ws(s.drop_first())
    } else {
        0
    }
}

/// Number of whitespace characters at the end of `s`.
pub open spec fn trailing_ws(s: Seq<char>) -> nat
    decreases s.len(),
{
    if s.len() > 0 && is_ws(s.last()) {
        1 + trailing_ws(s.drop_last())
    } else {
        0
    }
}

/// `s` with leading and trailing whitespace removed, as `str::trim` does.
pub open spec fn trim(s: Seq<char>) -> Seq<char> {
    if is_blank(s) {
        Seq::empty()
    } else {
        s.subrange(leading_ws(s) as int, s.len() - trailing_ws(s))
    }
}

/// Whether `c` is Unicode whitespace.
pub fn is_whitespace(c: char) -> (b: bool)
    ensures
        b == is_ws(c),
{
    let u = c as u32;
    (0x09 <= u && u <= 0x0d) || u == 0x20 || u == 0x85 || u == 0xa0 || u == 0x1680 || (0x2000
        <= u && u <= 0x200a) || u == 0x2028 || u == 0x2029 || u == 0x202f || u == 0x205f || u
        == 0x3000
}

proof fn lemma_leading_ws(s: Seq<char>, m: int)
    requires
        0 <= m <= s.len(),
        forall|q: int| 0 <= q < m ==> is_ws(#[trigger] s[q]),
        m == s.len() || !is_ws(s[m]),
    ensures
        leading_ws(s) == m,
    decreases m,
{
    if m > 0 {
        assert(is_ws(s[0]));
        let t = s.drop_first();
        assert forall|q: int| 0 <= q < m - 1 implies is_ws(#[trigger] t[q]) by {
            assert(t[q] == s[q + 1]);
        }
        if m < s.len() {
            assert(t[m - 1] == s[m]);
        }
        lemma_leading_ws(t, m - 1);
    }
}

proof fn lemma_trailing_ws(s: Seq<char>, m: int)
    requires
        0 <= m <= s.len(),
        forall|q: int| s.len() - m <= q < s.len() ==> is_ws(#[trigger] s[q]),
        m == s.len() || !is_ws(s[s.len() - m - 1]),
    ensures
        trailing_ws(s) == m,
    decreases m,
{
    if m > 0 {
        assert(is_ws(s[s.len() - 1]));
        let t = s.drop_last();
        assert forall|q: int| t.len() - (m - 1) <= q < t.len() implies is_ws(#[trigger] t[q]) by {
            assert(t[q] == s[q]);
        }
        if m < s.len() {
            assert(t[t.len() - (m - 1) - 1] == s[s.len() - m - 1]);
        }
        lemma_trailing_ws(t, m - 1);
    }
}

/// Whether every character of `v[lo..hi]` is whitespace.
pub fn is_blank_range(v: &Vec<char>, lo: usize, hi: usize) -> (b: bool)
    requires
        lo <= hi <= v.len(),
    ensures
        b == is_blank(v@.subrange(lo as int, hi as int)),
{
    let ghost s = v@.subrange(lo as int, hi as int);
    let mut i = lo;
    while i < hi
        invariant
            lo <= i <= hi <= v.len(),
            s == v@.subrange(lo as int, hi as int),
            forall|q: int| lo <= q < i ==> is_ws(#[trigger] v@[q]),
        decreases hi - i,
    {
        if !is_whitespace(v[i]) {
            assert(s[i - lo] == v@[i as int]);
            return false;
        }
        i = i + 1;
    }
    assert forall|q: int| 0 <= q < s.len() implies is_ws(#[trigger] s[q]) by {
        assert(s[q] == v@[lo + q]);
    }
    true
}

/// Whether the whole of `v` is whitespace.
pub fn is_blank_vec(v: &Vec<char>) -> (b: bool)
    ensures
        b == is_blank(v@),
{
    let b = is_blank_range(v, 0, v.len());
    assert(v@.subrange(0, v.len() as int) == v@);
    b
}

/// The bounds `(a, b)` such that `v[a..b]` is the trimmed text of `v`.
pub fn trim_bounds(v: &Vec<char>) -> (r: (usize, usize))
    ensures
        r.0 <= r.1 <= v.len(),
        v@.subrange(r.0 as int, r.1 as int) == trim(v@),
{
    let n = v.len();
    let mut a: usize = 0;
    while a < n && is_whitespace(v[a])
        invariant
            a <= n == v.len(),
            forall|q: int| 0 <= q < a ==> is_ws(#[trigger] v@[q]),
        decreases n - a,
    {
        a = a + 1;
    }
    if a == n {
        assert(is_blank(v@));
        assert(v@.subrange(n as int, n as int) == Seq::<char>::empty());
        return (n, n);
    }
    proof {
        lemma_leading_ws(v@, a as int);
        assert(!is_blank(v@)) by {
            assert(!is_ws(v@[a as int]));
        }
    }
    let mut b: usize = n;
    while b > a && is_whitespace(v[b - 1])
        invariant
            a < n == v.len(),
            a <= b <= n,
            !is_ws(v@[a as int]),
            forall|q: int| b <= q < n ==> is_ws(#[trigger] v@[q]),
        decreases b,
    {
        b = b - 1;
    }
    proof {
        lemma_trailing_ws(v@, n - b);
    }
    (a, b)
}

// ---------------------------------------------------------------------------
// Lines
// ---------------------------------------------------------------------------

/// Index of the first `'\n'` in `t`, or `t.len()` when there is none.
pub open spec fn newline_index(t: Seq<char>) -> nat
    decreases t.len(),
{
    if t.len() == 0 || t[0] == '\n' {
        0
    } else {
        1 + newline_index(t.drop_first())
    }
}

/// A line that was ended by `"\r\n"` loses its `'\r'`.
pub open spec fn strip_cr(l: Seq<char>) -> Seq<char> {
    if l.len() > 0 && l.last() == '\r' {
        l.drop_last()
    } else {
        l
    }
}

/// The lines of `t` as `str::lines` yields them: split at each `'\n'`, a `'\r'`
/// right before a `'\n'` dropped, and no empty line after a final `'\n'`.
pub open spec fn lines(t: Seq<char>) -> Seq<Seq<char>>
    decreases t.len(),
{
    if t.len() == 0 {
        Seq::empty()
    } else {
        let i = newline_index(t);
        if i >= t.len() {
            seq![t]
        } else {
            seq![strip_cr(t.take(i as int))] + lines(t.skip((i + 1) as int))
        }
    }
}

/// The texts that a list of `(start, end)` spans select from `t`.
pub open spec fn span_texts(t: Seq<char>, spans: Seq<(usize, usize)>) -> Seq<Seq<char>> {
    spans.map_values(|p: (usize, usize)| t.subrange(p.0 as int, p.1 as int))
}

proof fn lemma_newline_index(s: Seq<char>, m: int)
    requires
        0 <= m <= s.len(),
        forall|q: int| 0 <= q < m ==> #[trigger] s[q] != '\n',
        m == s.len() || s[m] == '\n',
    ensures
        newline_index(s) == m,
    decreases m,
{
    if m > 0 {
        let t = s.drop_first();
        assert(s[0] != '\n');
        assert forall|q: int| 0 <= q < m - 1 implies #[trigger] t[q] != '\n' by {
            assert(t[q] == s[q + 1]);
        }
        if m < s.len() {
            assert(t[m - 1] == s[m]);
        }
        lemma_newline_index(t, m - 1);
    }
}

/// The spans of the lines of `t`, in order (see [`lines`]).
pub fn line_spans(t: &Vec<char>) -> (spans: Vec<(usize, usize)>)
    ensures
        span_texts(t@, spans@) == lines(t@),
        forall|i: int|
            0 <= i < spans@.len() ==> (#[trigger] spans@[i]).0 <= spans@[i].1 <= t@.len(),
{
    let n = t.len();
    let mut spans: Vec<(usize, usize)> = Vec::new();
    let mut start: usize = 0;
    assert(t@.skip(0) == t@);
    while start < n
        invariant
            n == t.len(),
            start <= n,
            lines(t@) == span_texts(t@, spans@) + lines(t@.skip(start as int)),
            forall|i: int|
                0 <= i < spans@.len() ==> (#[trigger] spans@[i]).0 <= spans@[i].1 <= t@.len(),
        decreases n - start,
    {
        let ghost rest = t@.skip(start as int);
        let mut j = start;
        while j < n && t[j] != '\n'
            invariant
                start <= j <= n == t.len(),
                forall|q: int| start <= q < j ==> #[trigger] t@[q] != '\n',
            decreases n - j,
        {
            j = j + 1;
        }
        proof {
            assert forall|q: int| 0 <= q < j - start implies #[trigger] rest[q] != '\n' by {
                assert(rest[q] == t@[start + q]);
            }
            if j < n {
                assert(rest[j - start] == t@[j as int]);
            }
            lemma_newline_index(rest, j - start);
        }
        let mut end = j;
        if j < n && j > start && t[j - 1] == '\r' {
            end = j - 1;
        }
        let ghost old_spans = span_texts(t@, spans@);
        spans.push((start, end));
        proof {
            let line = t@.subrange(start as int, end as int);
            assert(span_texts(t@, spans@) == old_spans.push(line));
            if j < n {
                assert(rest.take(j - start) == t@.subrange(start as int, j as int));
                assert(strip_cr(rest.take(j - start)) == line);
                assert(rest.skip(j - start + 1) == t@.skip(j + 1));
                assert(lines(rest) == seq![line] + lines(t@.skip(j + 1)));
                assert(old_spans + lines(rest) == old_spans.push(line) + lines(t@.skip(j + 1)));
            } else {
                assert(rest == line);
                assert(t@.skip(n as int) == Seq::<char>::empty());
                assert(lines(rest) == seq![line]);
                assert(old_spans + lines(rest) == old_spans.push(line) + lines(
                    t@.skip(n as int),
                ));
            }
        }
        start = if j < n {
            j + 1
        } else {
            n
        };
    }
    assert(t@.skip(n as int) == Seq::<char>::empty());
    assert(span_texts(t@, spans@) + Seq::<Seq<char>>::empty() == span_texts(t@, spans@));
    spans
}

// ---------------------------------------------------------------------------
// UTF-8 widths
// ---------------------------------------------------------------------------

/// Number of bytes in the UTF-8 encoding of `c`.
pub open spec fn char_width(c: char) -> nat {
    let u = c as u32;
    if u < 0x80 {
        1
    } else if u < 0x800 {
        2
    } else if u < 0x10000 {
        3
    } else {
        4
    }
}

/// Number of bytes in the UTF-8 encoding of `s` (what `str::len` returns).
pub open spec fn byte_len(s: Seq<char>) -> nat
    decreases s.len(),
{
    if s.len() == 0 {
        0
    } else {
        byte_len(s.drop_last()) + char_width(s.last())
    }
}

/// UTF-8 width of `c`.
pub fn utf8_width(c: char) -> (w: usize)
    ensures
        w == char_width(c),
        1 <= w <= 4,
{
    let u = c as u32;
    if u < 0x80 {
        1
    } else if u < 0x800 {
        2
    } else if u < 0x10000 {
        3
    } else {
        4
    }
}

/// The byte length of a concatenation is the sum of the byte lengths.
pub proof fn lemma_byte_len_concat(a: Seq<char>, b: Seq<char>)
    ensures
        byte_len(a + b) == byte_len(a) + byte_len(b),
    decreases b.len(),
{
    if b.len() == 0 {
        assert(a + b == a);
    } else {
        lemma_byte_len_concat(a, b.drop_last());
        assert((a + b).drop_last() == a + b.drop_last());
        assert((a + b).last() == b.last());
    }
}

/// `byte_len` is the length of the UTF-8 encoding that vstd gives `str::len`.
pub proof fn lemma_byte_len_is_utf8_len(s: Seq<char>)
    ensures
        byte_len(s) == vstd::utf8::encode_utf8(s).len(),
    decreases s.len(),
{
    if s.len() > 0 {
        let c = s[0];
        vstd::utf8::char_is_scalar(c);
        assert(vstd::utf8::encode_scalar(c as u32).len() == char_width(c));
        lemma_byte_len_is_utf8_len(s.drop_first());
        assert(s == seq![c] + s.drop_first());
        lemma_byte_len_concat(seq![c], s.drop_first());
        assert(seq![c].drop_last() == Seq::<char>::empty());
        assert(byte_len(Seq::<char>::empty()) == 0);
        assert(byte_len(seq![c]) == char_width(c));
    }
}

/// Whether `v` encodes to at most `limit` bytes of UTF-8.
pub fn fits_in_bytes(v: &Vec<char>, limit: usize) -> (b: bool)
    ensures
        b == (byte_len(v@) <= limit),
{
    let n = v.len();
    let mut total: usize = 0;
    let mut i: usize = 0;
    while i < n
        invariant
            n == v.len(),
            i <= n,
            total == byte_len(v@.take(i as int)),
            total <= limit,
        decreases n - i,
    {
        let w = utf8_width(v[i]);
        proof {
            assert(v@.take(i + 1).drop_last() == v@.take(i as int));
        }
        if w > limit - total {
            proof {
                assert(v@ == v@.take(i + 1) + v@.skip(i + 1));
                lemma_byte_len_concat(v@.take(i + 1), v@.skip(i + 1));
            }
            return false;
        }
        total = total + w;
        i = i + 1;
    }
    assert(v@.take(n as int) == v@);
    true
}

/// A vector of characters looks the same through `deep_view` and `view`.
pub broadcast proof fn lemma_chars_deep_view(v: Vec<char>)
    ensures
        #[trigger] v.deep_view() == v@,
{
    assert(v.deep_view() =~= v@);
}

// ---------------------------------------------------------------------------
// Conversions and building
// ---------------------------------------------------------------------------

/// The characters of `s`, in order.
pub fn to_chars(s: &str) -> (v: Vec<char>)
    ensures
        v@ == s@,
{
    let mut v: Vec<char> = Vec::new();
    for c in it: s.chars()
        invariant
            v@ == it.seq().take(it.index() as int),
            it.seq() == s@,
    {
        v.push(c);
    }
    v
}

/// Appends `c` to `s` (`String::push`, which vstd leaves unspecified).
#[verifier::external_body]
fn push_char(s: &mut String, c: char)
    ensures
        final(s)@ == old(s)@.push(c),
{
    s.push(c);
}

/// The string made of the characters of `v`.
pub fn from_chars(v: &Vec<char>) -> (s: String)
    ensures
        s@ == v@,
{
    let mut s = String::new();
    for i in 0..v.len()
        invariant
            s@ == v@.take(i as int),
    {
        push_char(&mut s, v[i]);
        assert(v@.take(i + 1) == v@.take(i as int).push(v@[i as int]));
    }
    assert(v@.take(v.len() as int) == v@);
    s
}

/// Appends `src[lo..hi]` to `dst`.
pub fn extend_range(dst: &mut Vec<char>, src: &Vec<char>, lo: usize, hi: usize)
    requires
        lo <= hi <= src.len(),
    ensures
        final(dst)@ == old(dst)@ + src@.subrange(lo as int, hi as int),
{
    let mut i = lo;
    while i < hi
        invariant
            lo <= i <= hi <= src.len(),
            dst@ == old(dst)@ + src@.subrange(lo as int, i as int),
        decreases hi - i,
    {
        dst.push(src[i]);
        assert(src@.subrange(lo as int, i + 1) == src@.subrange(lo as int, i as int).push(
            src@[i as int],
        ));
        i = i + 1;
    }
}

/// Appends all of `src` to `dst`.
pub fn extend_all(dst: &mut Vec<char>, src: &Vec<char>)
    ensures
        final(dst)@ == old(dst)@ + src@,
{
    extend_range(dst, src, 0, src.len());
    assert(src@.subrange(0, src.len() as int) == src@);
}

/// Appends the characters of `s` to `dst`.
pub fn extend_str(dst: &mut Vec<char>, s: &str)
    ensures
        final(dst)@ == old(dst)@ + s@,
{
    let v = to_chars(s);
    extend_all(dst, &v);
}

// ---------------------------------------------------------------------------
// Numbers
// ---------------------------------------------------------------------------

/// The digit characters `0-9a-f`.
pub open spec fn digit_chars() -> Seq<char> {
    seq!['0', '1', '2', '3', '4', '5', '6', '7', '8', '9', 'a', 'b', 'c', 'd', 'e', 'f']
}

/// `n` written in decimal without leading zeros, as `format!("{}", n)` writes it.
pub open spec fn decimal_digits(n: nat) -> Seq<char>
    decreases n,
{
    if n < 10 {
        seq![digit_chars()[n as int]]
    } else {
        decimal_digits(n / 10).push(digit_chars()[(n % 10) as int])
    }
}

/// `n` written in lower-case hexadecimal without leading zeros, as
/// `format!("{:x}", n)` writes it.
pub open spec fn hex_digits(n: nat) -> Seq<char>
    decreases n,
{
    if n < 16 {
        seq![digit_chars()[n as int]]
    } else {
        hex_digits(n / 16).push(digit_chars()[(n % 16) as int])
    }
}

fn digit_char(d: u64) -> (c: char)
    requires
        d < 16,
    ensures
        c == digit_chars()[d as int],
{
    let digits = to_chars("0123456789abcdef");
    proof {
        reveal_strlit("0123456789abcdef");
    }
    digits[d as usize]
}

/// The decimal digits of `n`.
pub fn decimal_chars(n: u64) -> (v: Vec<char>)
    ensures
        v@ == decimal_digits(n as nat),
    decreases n,
{
    if n < 10 {
        let mut v: Vec<char> = Vec::new();
        v.push(digit_char(n));
        v
    } else {
        let mut v = decimal_chars(n / 10);
        v.push(digit_char(n % 10));
        v
    }
}

/// The hexadecimal digits of `n`.
pub fn hex_chars(n: u64) -> (v: Vec<char>)
    ensures
        v@ == hex_digits(n as nat),
        v@.len() >= 1,
        v@.len() >= 2 <==> n >= 0x10,
        v@.len() >= 3 <==> n >= 0x100,
        v@.len() >= 4 <==> n >= 0x1000,
    decreases n,
{
    if n < 16 {
        let mut v: Vec<char> = Vec::new();
        v.push(digit_char(n));
        v
    } else {
        let mut v = hex_chars(n / 16);
        v.push(digit_char(n % 16));
        v
    }
}

} // verus!
