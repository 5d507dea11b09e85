//! What every result of the chunker satisfies.
use vstd::prelude::*;

use crate::text::{byte_len, is_blank, is_ws, lemma_byte_len_concat, lemma_chars_deep_view, lines, trim};

use super::chunks::{chunks_of, embedded_tokens_of, numbered, parse_spec, ChunkView};
use super::images::{
    base64_marker, base64_run, image_match_len, image_placeholder, image_prefix, is_base64_char,
    lemma_image_match_bound, lemma_semicolon_index, semicolon_index, strip_images,
};
use super::pieces::{
    cut_point, fit_len, lemma_cut_point_advances, lemma_fit_len_bounds,
    lemma_last_newline_bounds, pieces_from, split_large, MAX_CHUNK_SIZE, MAX_TOKEN_ESTIMATE,
};
use super::sections::{
    first_header_level, header_level, is_header_of_level, leading_hashes, lemma_leading_hashes,
    scan_sections,
    sections_of, titled,
};

verus! {

broadcast use lemma_chars_deep_view;

// ---------------------------------------------------------------------------
// Laws
// ---------------------------------------------------------------------------

/// A chunk is numbered within its section, holds more than whitespace, and
/// is at most `MAX_CHUNK_SIZE` bytes long.
pub open spec fn chunk_well_formed(c: ChunkView) -> bool {
    &&& 1 <= c.chunk_index <= c.total_chunks
    &&& !is_blank(c.content)
    &&& byte_len(c.content) <= MAX_CHUNK_SIZE
}

/// The names a chunk's section can have: the file's name, or a line of the
/// document that is a header of the level of its first header.
pub open spec fn is_section_name(contents: Seq<char>, filename: Seq<char>, name: Seq<char>) -> bool {
    ||| name == filename
    ||| exists|k: nat|
        #![trigger is_header_of_level(name, k)]
        first_header_level(lines(contents)) == Some(k) && is_header_of_level(name, k)
            && lines(contents).contains(name)
}

proof fn lemma_numbered(section: Seq<char>, pieces: Seq<Seq<char>>, total: nat)
    requires
        pieces.len() <= total,
        forall|i: int| 0 <= i < pieces.len() ==> byte_len(#[trigger] pieces[i]) <= MAX_CHUNK_SIZE,
    ensures
        forall|i: int|
            0 <= i < numbered(section, pieces, total).len() ==> {
                let c = #[trigger] numbered(section, pieces, total)[i];
                &&& chunk_well_formed(c)
                &&& c.section == section
                &&& c.total_chunks == total
            },
    decreases pieces.len(),
{
    if pieces.len() > 0 {
        lemma_numbered(section, pieces.drop_last(), total);
        let rest = numbered(section, pieces.drop_last(), total);
        let all = numbered(section, pieces, total);
        assert forall|i: int| 0 <= i < all.len() implies {
            let c = #[trigger] all[i];
            &&& chunk_well_formed(c)
            &&& c.section == section
            &&& c.total_chunks == total
        } by {
            if i < rest.len() {
                assert(all[i] == rest[i]);
            }
        }
    }
}

proof fn lemma_chunks_of(secs: Seq<(Seq<char>, Seq<char>)>)
    ensures
        forall|i: int|
            0 <= i < chunks_of(secs).len() ==> {
                let c = #[trigger] chunks_of(secs)[i];
                &&& chunk_well_formed(c)
                &&& exists|j: int| 0 <= j < secs.len() && c.section == (#[trigger] secs[j]).0
            },
    decreases secs.len(),
{
    if secs.len() > 0 {
        let rest = secs.drop_last();
        let (name, content) = secs.last();
        let pieces = split_large(content);
        lemma_chunks_of(rest);
        law_piece_sizes(content);
        lemma_numbered(name, pieces, pieces.len());
        let a = chunks_of(rest);
        let b = numbered(name, pieces, pieces.len());
        assert forall|i: int| 0 <= i < chunks_of(secs).len() implies {
            let c = #[trigger] chunks_of(secs)[i];
            &&& chunk_well_formed(c)
            &&& exists|j: int| 0 <= j < secs.len() && c.section == (#[trigger] secs[j]).0
        } by {
            if i < a.len() {
                assert(chunks_of(secs)[i] == a[i]);
                let j = choose|j: int| 0 <= j < rest.len() && a[i].section == (#[trigger] rest[j]).0;
                assert(secs[j] == rest[j]);
            } else {
                assert(chunks_of(secs)[i] == b[i - a.len()]);
                assert(secs[secs.len() - 1] == secs.last());
            }
        }
    }
}

proof fn lemma_scan_headers(ls: Seq<Seq<char>>, k: nat)
    ensures
        forall|j: int|
            0 <= j < scan_sections(ls, k).1.len() ==> {
                let h = (#[trigger] scan_sections(ls, k).1[j]).0;
                is_header_of_level(h, k) && ls.contains(h)
            },
    decreases ls.len(),
{
    if ls.len() > 0 {
        let init = ls.drop_last();
        lemma_scan_headers(init, k);
        let secs = scan_sections(init, k).1;
        assert forall|j: int| 0 <= j < scan_sections(ls, k).1.len() implies {
            let h = (#[trigger] scan_sections(ls, k).1[j]).0;
            is_header_of_level(h, k) && ls.contains(h)
        } by {
            let h = scan_sections(ls, k).1[j].0;
            if j < secs.len() {
                assert(h == secs[j].0);
                let q = choose|q: int| 0 <= q < init.len() && init[q] == h;
                assert(ls[q] == init[q]);
            } else {
                assert(h == ls.last());
                assert(ls[ls.len() - 1] == h);
            }
        }
    }
}

/// Every chunk of a document is numbered within its section
/// (`1 <= chunk_index <= total_chunks`), holds more than whitespace, and is at
/// most `MAX_CHUNK_SIZE` bytes long.
pub proof fn law_chunks_well_formed(contents: Seq<char>, filename: Seq<char>)
    ensures
        forall|i: int|
            0 <= i < parse_spec(contents, filename).len() ==> chunk_well_formed(
                #[trigger] parse_spec(contents, filename)[i],
            ),
{
    lemma_chunks_of(sections_of(contents, filename));
}

/// Every chunk of a document lies in a section named after the file or after
/// one of the document's header lines of the level of its first header; a
/// document without headers has all its chunks under the file's name.
pub proof fn law_chunk_sections(contents: Seq<char>, filename: Seq<char>)
    ensures
        forall|i: int|
            0 <= i < parse_spec(contents, filename).len() ==> is_section_name(
                contents,
                filename,
                (#[trigger] parse_spec(contents, filename)[i]).section,
            ),
        first_header_level(lines(contents)) is None ==> forall|i: int|
            0 <= i < parse_spec(contents, filename).len() ==> (#[trigger] parse_spec(
                contents,
                filename,
            )[i]).section == filename,
{
    let secs = sections_of(contents, filename);
    let ls = lines(contents);
    lemma_chunks_of(secs);
    match first_header_level(ls) {
        Some(k) => {
            lemma_scan_headers(ls, k);
            let (pre, body) = scan_sections(ls, k);
            let head: Seq<(Seq<char>, Seq<char>)> = if body.len() > 0 && !is_blank(pre) {
                seq![(filename, titled(filename, trim(pre)))]
            } else {
                Seq::empty()
            };
            let f = |p: (Seq<char>, Seq<char>)| (p.0, titled(filename, trim(p.1)));
            assert(secs == head + body.map_values(f));
            assert forall|i: int| 0 <= i < parse_spec(contents, filename).len() implies is_section_name(
                contents,
                filename,
                (#[trigger] parse_spec(contents, filename)[i]).section,
            ) by {
                let c = parse_spec(contents, filename)[i];
                let j = choose|j: int| 0 <= j < secs.len() && c.section == (#[trigger] secs[j]).0;
                if j >= head.len() {
                    let q = j - head.len();
                    assert(secs[j] == f(body[q]));
                    assert(scan_sections(ls, k).1[q] == body[q]);
                    assert(is_header_of_level(c.section, k));
                }
            }
        },
        None => {
            assert forall|i: int| 0 <= i < parse_spec(contents, filename).len() implies (
            #[trigger] parse_spec(contents, filename)[i]).section == filename by {
                let c = parse_spec(contents, filename)[i];
                let j = choose|j: int| 0 <= j < secs.len() && c.section == (#[trigger] secs[j]).0;
                assert(secs[0].0 == filename);
            }
        },
    }
}

proof fn lemma_pieces_from_sizes(c: Seq<char>, start: nat)
    ensures
        forall|i: int|
            0 <= i < pieces_from(c, start).len() ==> byte_len(
                #[trigger] pieces_from(c, start)[i],
            ) <= MAX_TOKEN_ESTIMATE && !is_blank(pieces_from(c, start)[i]),
    decreases c.len() - start,
{
    if start < c.len() {
        lemma_cut_point_advances(c, start as int);
        let e = cut_point(c, start as int);
        lemma_pieces_from_sizes(c, e as nat);
        let t = c.skip(start as int);
        let f = fit_len(t, MAX_TOKEN_ESTIMATE as int);
        lemma_fit_len_bounds(t, MAX_TOKEN_ESTIMATE as int);
        let end: int = start as int + f as int;
        if end < c.len() {
            lemma_last_newline_bounds(c.subrange(start as int, end));
        }
        let p = c.subrange(start as int, e);
        assert(p == t.take(e - start));
        assert(t.take(f as int) == p + t.subrange(e - start, f as int));
        lemma_byte_len_concat(p, t.subrange(e - start, f as int));
        let here: Seq<Seq<char>> = if is_blank(p) {
            Seq::empty()
        } else {
            seq![p]
        };
        let rest = pieces_from(c, e as nat);
        assert(pieces_from(c, start) == here + rest);
        assert forall|i: int| 0 <= i < pieces_from(c, start).len() implies byte_len(
            #[trigger] pieces_from(c, start)[i],
        ) <= MAX_TOKEN_ESTIMATE && !is_blank(pieces_from(c, start)[i]) by {
            if i >= here.len() {
                assert(pieces_from(c, start)[i] == rest[i - here.len()]);
            }
        }
    }
}

/// A section's text, once its images are removed, stays one piece when it is
/// at most `MAX_CHUNK_SIZE` bytes long; otherwise it is cut into pieces of at
/// most `MAX_TOKEN_ESTIMATE` bytes, none of them blank.
pub proof fn law_piece_sizes(chunk: Seq<char>)
    ensures
        byte_len(strip_images(chunk)) <= MAX_CHUNK_SIZE ==> split_large(chunk) == seq![
            strip_images(chunk),
        ],
        byte_len(strip_images(chunk)) > MAX_CHUNK_SIZE ==> forall|i: int|
            0 <= i < split_large(chunk).len() ==> byte_len(#[trigger] split_large(chunk)[i])
                <= MAX_TOKEN_ESTIMATE && !is_blank(split_large(chunk)[i]),
{
    lemma_pieces_from_sizes(strip_images(chunk), 0);
}

/// The characters of `s` that are not whitespace, in order.
pub open spec fn non_ws(s: Seq<char>) -> Seq<char>
    decreases s.len(),
{
    if s.len() == 0 {
        Seq::empty()
    } else if is_ws(s.last()) {
        non_ws(s.drop_last())
    } else {
        non_ws(s.drop_last()).push(s.last())
    }
}

/// The pieces laid end to end.
pub open spec fn flatten(ps: Seq<Seq<char>>) -> Seq<char>
    decreases ps.len(),
{
    if ps.len() == 0 {
        Seq::empty()
    } else {
        flatten(ps.drop_last()) + ps.last()
    }
}

proof fn lemma_non_ws_concat(a: Seq<char>, b: Seq<char>)
    ensures
        non_ws(a + b) == non_ws(a) + non_ws(b),
    decreases b.len(),
{
    if b.len() == 0 {
        assert(a + b == a);
    } else {
        lemma_non_ws_concat(a, b.drop_last());
        assert((a + b).drop_last() == a + b.drop_last());
        assert((a + b).last() == b.last());
    }
}

proof fn lemma_non_ws_blank(s: Seq<char>)
    requires
        is_blank(s),
    ensures
        non_ws(s) == Seq::<char>::empty(),
    decreases s.len(),
{
    if s.len() > 0 {
        assert(is_ws(s[s.len() - 1]));
        lemma_non_ws_blank(s.drop_last());
    }
}

proof fn lemma_flatten_concat(a: Seq<Seq<char>>, b: Seq<Seq<char>>)
    ensures
        flatten(a + b) == flatten(a) + flatten(b),
    decreases b.len(),
{
    if b.len() == 0 {
        assert(a + b == a);
    } else {
        lemma_flatten_concat(a, b.drop_last());
        assert((a + b).drop_last() == a + b.drop_last());
        assert((a + b).last() == b.last());
    }
}

proof fn lemma_pieces_from_text(c: Seq<char>, start: nat)
    requires
        start <= c.len(),
    ensures
        non_ws(flatten(pieces_from(c, start))) == non_ws(c.skip(start as int)),
    decreases c.len() - start,
{
    if start < c.len() {
        lemma_cut_point_advances(c, start as int);
        let e = cut_point(c, start as int);
        lemma_pieces_from_text(c, e as nat);
        let p = c.subrange(start as int, e);
        let here: Seq<Seq<char>> = if is_blank(p) {
            Seq::empty()
        } else {
            seq![p]
        };
        let rest = pieces_from(c, e as nat);
        assert(pieces_from(c, start) == here + rest);
        lemma_flatten_concat(here, rest);
        lemma_non_ws_concat(flatten(here), flatten(rest));
        assert(c.skip(start as int) == p + c.skip(e));
        lemma_non_ws_concat(p, c.skip(e));
        if is_blank(p) {
            lemma_non_ws_blank(p);
            assert(flatten(here) == Seq::<char>::empty());
        } else {
            assert(here.drop_last() == Seq::<Seq<char>>::empty());
            assert(flatten(here) == flatten(Seq::<Seq<char>>::empty()) + p);
            assert(flatten(Seq::<Seq<char>>::empty()) + p == p);
        }
    } else {
        assert(c.skip(start as int) == Seq::<char>::empty());
    }
}

/// Cutting a section into pieces loses no text but whitespace: the pieces laid
/// end to end hold the same non-whitespace characters, in the same order, as
/// the section's text with its images removed.
pub proof fn law_pieces_keep_text(chunk: Seq<char>)
    ensures
        non_ws(flatten(split_large(chunk))) == non_ws(strip_images(chunk)),
{
    let c = strip_images(chunk);
    if byte_len(c) <= MAX_CHUNK_SIZE {
        assert(seq![c].drop_last() == Seq::<Seq<char>>::empty());
        assert(flatten(seq![c]) == flatten(Seq::<Seq<char>>::empty()) + c);
        assert(flatten(Seq::<Seq<char>>::empty()) + c == c);
    } else {
        lemma_pieces_from_text(c, 0);
        assert(c.skip(0) == c);
    }
}

/// Position of the first inline image in `u`, if any.
pub open spec fn first_image(u: Seq<char>) -> Option<nat>
    decreases u.len(),
{
    if u.len() == 0 {
        None
    } else if image_match_len(u) is Some {
        Some(0)
    } else {
        match first_image(u.drop_first()) {
            Some(g) => Some(g + 1),
            None => None,
        }
    }
}

proof fn lemma_strip_first_image(u: Seq<char>)
    ensures
        first_image(u) is None ==> strip_images(u) == u,
        first_image(u) matches Some(g) ==> {
            &&& g < u.len()
            &&& image_match_len(u.skip(g as int)) is Some
            &&& strip_images(u) == u.take(g as int) + image_placeholder() + strip_images(
                u.skip(g + image_match_len(u.skip(g as int))->Some_0 as int),
            )
        },
    decreases u.len(),
{
    if u.len() > 0 {
        lemma_image_match_bound(u);
        if image_match_len(u) is Some {
            assert(u.skip(0) == u);
            assert(u.take(0) + image_placeholder() == image_placeholder());
        } else {
            let v = u.drop_first();
            lemma_strip_first_image(v);
            match first_image(v) {
                None => {
                    assert(seq![u[0]] + v == u);
                },
                Some(gn) => {
                    let g = gn as int;
                    let m = image_match_len(v.skip(g))->Some_0 as int;
                    lemma_image_match_bound(v.skip(g));
                    assert(u.skip(g + 1) == v.skip(g as int));
                    assert(u.take(g + 1) == seq![u[0]] + v.take(g as int));
                    assert(u.skip(g + 1 + m) == v.skip(g + m));
                    assert(seq![u[0]] + (v.take(g as int) + image_placeholder() + strip_images(
                        v.skip(g + m),
                    )) == u.take(g + 1) + image_placeholder() + strip_images(u.skip(g + 1 + m)));
                },
            }
        }
    }
}

proof fn lemma_semicolon_facts(x: Seq<char>)
    ensures
        semicolon_index(x) <= x.len(),
        forall|i: int| 0 <= i < semicolon_index(x) ==> #[trigger] x[i] != ';',
        semicolon_index(x) < x.len() ==> x[semicolon_index(x) as int] == ';',
    decreases x.len(),
{
    if x.len() > 0 && x[0] != ';' {
        let y = x.drop_first();
        lemma_semicolon_facts(y);
        assert forall|i: int| 0 <= i < semicolon_index(x) implies #[trigger] x[i] != ';' by {
            if i > 0 {
                assert(x[i] == y[i - 1]);
            }
        }
    }
}

proof fn lemma_semicolon_concat(x: Seq<char>, y: Seq<char>)
    ensures
        semicolon_index(x + y) == if semicolon_index(x) < x.len() {
            semicolon_index(x)
        } else {
            x.len() + semicolon_index(y)
        },
{
    lemma_semicolon_facts(x);
    lemma_semicolon_facts(y);
    let xy = x + y;
    if semicolon_index(x) < x.len() {
        let m = semicolon_index(x) as int;
        assert forall|q: int| 0 <= q < m implies #[trigger] xy[q] != ';' by {
            assert(xy[q] == x[q]);
        }
        assert(xy[m] == x[m]);
        lemma_semicolon_index(xy, m);
    } else {
        let m = x.len() + semicolon_index(y) as int;
        assert forall|q: int| 0 <= q < m implies #[trigger] xy[q] != ';' by {
            if q < x.len() {
                assert(xy[q] == x[q]);
            } else {
                assert(xy[q] == y[q - x.len()]);
            }
        }
        if m < xy.len() {
            assert(xy[m] == y[m - x.len()]);
        }
        lemma_semicolon_index(xy, m);
    }
}

proof fn lemma_base64_facts(x: Seq<char>)
    ensures
        base64_run(x) <= x.len(),
        forall|i: int| 0 <= i < base64_run(x) ==> is_base64_char(#[trigger] x[i]),
        base64_run(x) < x.len() ==> !is_base64_char(x[base64_run(x) as int]),
    decreases x.len(),
{
    if x.len() > 0 && is_base64_char(x[0]) {
        let y = x.drop_first();
        lemma_base64_facts(y);
        assert forall|i: int| 0 <= i < base64_run(x) implies is_base64_char(#[trigger] x[i]) by {
            if i > 0 {
                assert(x[i] == y[i - 1]);
            }
        }
    }
}

/// An image at the front of the placeholder text and what follows it is impossible.
proof fn lemma_no_image_in_placeholder(rest: Seq<char>, p: int)
    requires
        0 <= p < image_placeholder().len(),
    ensures
        image_match_len((image_placeholder() + rest).skip(p)) is None,
{
    let x = (image_placeholder() + rest).skip(p);
    let ph = image_placeholder();
    if x.len() >= 11 && x.take(11) == image_prefix() {
        assert(x[0] == x.take(11)[0]);
        assert(x[1] == x.take(11)[1]);
        assert(x[0] == ph[p]);
        if p == 13 {
            assert(x[1] == ph[14]);
        }
        assert(false);
    }
}

/// When `o` and `t` share a prefix `a` that holds the first `';'` after the
/// image prefix, an image at the front of `o` is one at the front of `t`.
proof fn lemma_shared_semicolon(
    t: Seq<char>,
    o: Seq<char>,
    a: Seq<char>,
    after_o: Seq<char>,
    after_t: Seq<char>,
)
    requires
        o == a + after_o,
        t == a + after_t,
        a.len() >= 11,
        after_o.len() > 0,
        after_o[0] == '[',
        semicolon_index(a.skip(11)) < a.skip(11).len(),
        image_match_len(o) is Some,
    ensures
        image_match_len(t) is Some,
{
    let h = a.len() as int;
    let sa = a.skip(11);
    assert(o[h] == '[');
    assert(o.take(11) == a.take(11));
    assert(t.take(11) == a.take(11));
    assert(o.skip(11) == sa + after_o);
    assert(t.skip(11) == sa + after_t);
    lemma_semicolon_concat(sa, after_o);
    lemma_semicolon_concat(sa, after_t);
    let j = 11 + semicolon_index(sa) as int;
    assert(j < h);
    assert(j > 11 && j + 8 <= o.len() && o.subrange(j, j + 8) == base64_marker());
    if j + 8 > h {
        assert(o.subrange(j, j + 8)[h - j] == o[h]);
        assert(false);
    }
    assert(t.subrange(j, j + 8) == o.subrange(j, j + 8));
    let xo = o.skip(j + 8);
    let xt = t.skip(j + 8);
    lemma_base64_facts(xo);
    lemma_base64_facts(xt);
    let r = base64_run(xo);
    if j + 8 + r > h {
        assert(xo[h - j - 8] == o[h]);
        assert(false);
    }
    assert forall|i: int| 0 <= i < r implies is_base64_char(#[trigger] xt[i]) by {
        assert(xt[i] == t[j + 8 + i]);
        assert(xo[i] == o[j + 8 + i]);
        assert(o[j + 8 + i] == a[j + 8 + i]);
    }
    if base64_run(xt) < r {
        assert(is_base64_char(xt[base64_run(xt) as int]));
        assert(false);
    }
}

/// When `t` is `a` followed by an image and `a` has no `';'` after the image
/// prefix it starts with, `t` starts with an image.
proof fn lemma_image_semicolon(t: Seq<char>, a: Seq<char>, img: Seq<char>)
    requires
        t == a + img,
        a.len() >= 11,
        a.take(11) == image_prefix(),
        semicolon_index(a.skip(11)) == a.skip(11).len(),
        image_match_len(img) is Some,
    ensures
        image_match_len(t) is Some,
{
    let h = a.len() as int;
    let sa = a.skip(11);
    assert(t.take(11) == a.take(11));
    assert(t.skip(11) == sa + img);
    lemma_semicolon_concat(sa, img);
    let ji = 11 + semicolon_index(img.skip(11)) as int;
    assert(img.take(11) == image_prefix());
    assert forall|q: int| 0 <= q < 11 implies #[trigger] img.take(11)[q] != ';' by {
        assert(img.take(11)[q] == image_prefix()[q]);
    }
    lemma_semicolon_index(img.take(11), 11);
    assert(img == img.take(11) + img.skip(11));
    lemma_semicolon_concat(img.take(11), img.skip(11));
    let j = 11 + semicolon_index(t.skip(11)) as int;
    assert(j == h + ji);
    assert(t.subrange(j, j + 8) == img.subrange(ji, ji + 8));
    assert(t.skip(j + 8) == img.skip(ji + 8));
}

/// Where `t` has no image at its front, neither has its first character
/// followed by the rest of `t` with its images removed.
proof fn lemma_no_image_at_front(t: Seq<char>)
    requires
        t.len() > 0,
        image_match_len(t) is None,
    ensures
        image_match_len(seq![t[0]] + strip_images(t.drop_first())) is None,
{
    let t1 = t.drop_first();
    lemma_strip_first_image(t1);
    let o = seq![t[0]] + strip_images(t1);
    let ph = image_placeholder();
    match first_image(t1) {
        None => {
            assert(o == t);
        },
        Some(gn) => {
            let g = gn as int;
            let m = image_match_len(t1.skip(g))->Some_0 as int;
            let h = g + 1;
            let a = t.take(h);
            let img = t1.skip(g);
            let rr = strip_images(t1.skip(g + m));
            assert(a == seq![t[0]] + t1.take(g));
            assert(o == a + (ph + rr));
            assert(t == a + img);
            if image_match_len(o) is Some {
                if h < 11 {
                    assert(o[h] == '[');
                    assert(o.take(11)[h] == o[h]);
                    assert(false);
                }
                assert(o.take(11) == a.take(11));
                if semicolon_index(a.skip(11)) < a.skip(11).len() {
                    lemma_shared_semicolon(t, o, a, ph + rr, img);
                } else {
                    lemma_semicolon_facts(a.skip(11));
                    lemma_image_semicolon(t, a, img);
                }
            }
        },
    }
}

/// Removing the inline images leaves none behind: no position of the result
/// starts an inline image.
pub proof fn law_no_image_left(t: Seq<char>)
    ensures
        forall|p: int|
            0 <= p <= strip_images(t).len() ==> #[trigger] image_match_len(
                strip_images(t).skip(p),
            ) is None,
    decreases t.len(),
{
    let s = strip_images(t);
    if t.len() == 0 {
        assert forall|p: int| 0 <= p <= s.len() implies #[trigger] image_match_len(s.skip(p))
            is None by {
            assert(s.skip(p).len() == 0);
        }
    } else {
        lemma_image_match_bound(t);
        match image_match_len(t) {
            Some(m) => {
                let rest = t.skip(m as int);
                law_no_image_left(rest);
                let sr = strip_images(rest);
                let ph = image_placeholder();
                assert(s == ph + sr);
                assert forall|p: int| 0 <= p <= s.len() implies #[trigger] image_match_len(
                    s.skip(p),
                ) is None by {
                    if p < ph.len() {
                        lemma_no_image_in_placeholder(sr, p);
                    } else {
                        assert(s.skip(p) == sr.skip(p - ph.len()));
                    }
                }
            },
            None => {
                let rest = t.drop_first();
                law_no_image_left(rest);
                let sr = strip_images(rest);
                assert(s == seq![t[0]] + sr);
                assert forall|p: int| 0 <= p <= s.len() implies #[trigger] image_match_len(
                    s.skip(p),
                ) is None by {
                    if p == 0 {
                        assert(s.skip(0) == s);
                        lemma_no_image_at_front(t);
                    } else {
                        assert(s.skip(p) == sr.skip(p - 1));
                    }
                }
            },
        }
    }
}

proof fn lemma_no_first_image(u: Seq<char>)
    requires
        forall|p: int| 0 <= p <= u.len() ==> #[trigger] image_match_len(u.skip(p)) is None,
    ensures
        first_image(u) is None,
    decreases u.len(),
{
    if u.len() > 0 {
        let v = u.drop_first();
        assert(image_match_len(u.skip(0)) is None);
        assert(u.skip(0) == u);
        assert forall|p: int| 0 <= p <= v.len() implies #[trigger] image_match_len(v.skip(p))
            is None by {
            assert(v.skip(p) == u.skip(p + 1));
            assert(image_match_len(u.skip(p + 1)) is None);
        }
        lemma_no_first_image(v);
    }
}

/// Removing the inline images a second time changes nothing.
pub proof fn law_strip_images_idempotent(t: Seq<char>)
    ensures
        strip_images(strip_images(t)) == strip_images(t),
{
    law_no_image_left(t);
    lemma_no_first_image(strip_images(t));
    lemma_strip_first_image(strip_images(t));
}

/// An inline image is removed whole: a match is `"data:image/"`, a non-empty
/// type without `';'`, `";base64,"`, and then at least 100 base64 characters
/// running up to the end of the match, and the character after the match, if
/// any, is not a base64 character (the run is taken as long as it goes).
pub proof fn law_image_match_takes_whole_run(t: Seq<char>)
    ensures
        image_match_len(t) matches Some(m) ==> {
            &&& m <= t.len()
            &&& t.take(11) == image_prefix()
            &&& exists|j: int|
                #![trigger t.subrange(j, j + 8)]
                11 < j && j + 8 + 100 <= m && t.subrange(j, j + 8) == base64_marker() && (forall|
                    q: int,
                | 11 <= q < j ==> #[trigger] t[q] != ';') && (forall|q: int|
                    j + 8 <= q < m ==> is_base64_char(#[trigger] t[q]))
            &&& m < t.len() ==> !is_base64_char(t[m as int])
        },
{
    if let Some(m) = image_match_len(t) {
        let u = t.skip(11);
        let j: int = 11 + semicolon_index(u) as int;
        lemma_semicolon_facts(u);
        let w = t.skip(j + 8);
        lemma_base64_facts(w);
        let r = base64_run(w);
        assert(m == j + 8 + r);
        assert forall|q: int| 11 <= q < j implies #[trigger] t[q] != ';' by {
            assert(t[q] == u[q - 11]);
        }
        assert forall|q: int| j + 8 <= q < m implies is_base64_char(#[trigger] t[q]) by {
            assert(t[q] == w[q - j - 8]);
        }
        if m < t.len() {
            assert(t[m as int] == w[r as int]);
        }
        assert(t.subrange(j, j + 8) == base64_marker());
    }
}

/// Every line made of `k` `'#'` (for each `k` from 1 to 6) and then a
/// whitespace character is a header of level `k`.
pub proof fn law_header_levels(l: Seq<char>, k: nat)
    requires
        1 <= k <= 6,
        k < l.len(),
        forall|i: int| 0 <= i < k ==> #[trigger] l[i] == '#',
        is_ws(l[k as int]),
    ensures
        header_level(l) == Some(k),
{
    assert(l[k as int] != '#');
    lemma_leading_hashes(l, k as int);
}

/// A document whose first header line (a line of one to six `'#'` and then
/// whitespace) has `k` `'#'` is split at level `k`.
pub proof fn law_first_header_decides_level(ls: Seq<Seq<char>>, i: int, k: nat)
    requires
        0 <= i < ls.len(),
        forall|j: int| 0 <= j < i ==> header_level(#[trigger] ls[j]) is None,
        1 <= k <= 6,
        k < ls[i].len(),
        forall|q: int| 0 <= q < k ==> #[trigger] ls[i][q] == '#',
        is_ws(ls[i][k as int]),
    ensures
        first_header_level(ls) == Some(k),
    decreases i,
{
    if i == 0 {
        law_header_levels(ls[0], k);
    } else {
        let rest = ls.drop_first();
        assert(header_level(ls[0]) is None);
        assert forall|j: int| 0 <= j < i - 1 implies header_level(#[trigger] rest[j]) is None by {
            assert(rest[j] == ls[j + 1]);
        }
        assert(rest[i - 1] == ls[i]);
        law_first_header_decides_level(rest, i - 1, k);
    }
}

/// Each embedded chunk adds its number of characters to a file's token total
/// (whatever its byte length); a chunk that failed or exceeds the embedding
/// limit adds nothing, and no chunks make no tokens.
pub proof fn law_tokens_are_characters(
    chunks: Seq<ChunkView>,
    succeeded: Seq<bool>,
    c: ChunkView,
    ok: bool,
)
    requires
        chunks.len() == succeeded.len(),
    ensures
        embedded_tokens_of(Seq::empty(), Seq::empty()) == 0,
        embedded_tokens_of(chunks.push(c), succeeded.push(ok)) == embedded_tokens_of(
            chunks,
            succeeded,
        ) + if ok && byte_len(c.content) <= MAX_TOKEN_ESTIMATE {
            c.content.len()
        } else {
            0
        },
        ok && byte_len(c.content) <= MAX_TOKEN_ESTIMATE ==> embedded_tokens_of(
            seq![c],
            seq![true],
        ) == c.content.len(),
{
    assert(chunks.push(c).drop_last() == chunks);
    assert(succeeded.push(ok).drop_last() == succeeded);
    assert(seq![c].drop_last() == Seq::<ChunkView>::empty());
    assert(seq![true].drop_last() == Seq::<bool>::empty());
    assert(seq![c].last() == c);
    assert(seq![true].last());
    assert(embedded_tokens_of(Seq::<ChunkView>::empty(), Seq::<bool>::empty()) == 0);
}

/// Every inline image is found: text that starts with `"data:image/"`, a
/// non-empty type without `';'`, `";base64,"` and at least 100 base64
/// characters is a match.
pub proof fn law_image_match_finds_every_image(t: Seq<char>, j: int)
    requires
        t.len() >= 11,
        t.take(11) == image_prefix(),
        11 < j,
        j + 8 + 100 <= t.len(),
        forall|q: int| 11 <= q < j ==> #[trigger] t[q] != ';',
        t.subrange(j, j + 8) == base64_marker(),
        forall|q: int| j + 8 <= q < j + 8 + 100 ==> is_base64_char(#[trigger] t[q]),
    ensures
        image_match_len(t) is Some,
{
    let u = t.skip(11);
    assert(t.subrange(j, j + 8)[0] == t[j]);
    assert(t[j] == ';');
    assert forall|q: int| 0 <= q < j - 11 implies #[trigger] u[q] != ';' by {
        assert(u[q] == t[q + 11]);
    }
    assert(u[j - 11] == t[j]);
    lemma_semicolon_index(u, j - 11);
    let w = t.skip(j + 8);
    lemma_base64_facts(w);
    let r = base64_run(w);
    if r < 100 {
        assert(w[r as int] == t[j + 8 + r]);
        assert(is_base64_char(t[j + 8 + r]));
    }
}

/// A header line is one to six `'#'` and then whitespace: the level of a
/// header is its number of leading `'#'`, and a line that starts with seven
/// `'#'` is no header.
pub proof fn law_header_level_shape(l: Seq<char>)
    ensures
        header_level(l) matches Some(k) ==> 1 <= k <= 6 && is_header_of_level(l, k),
        l.len() >= 7 && (forall|i: int| 0 <= i < 7 ==> #[trigger] l[i] == '#') ==> header_level(
            l,
        ) is None,
{
    lemma_leading_hashes_facts(l);
    if l.len() >= 7 && (forall|i: int| 0 <= i < 7 ==> #[trigger] l[i] == '#') {
        let k = leading_hashes(l);
        if k < 7 {
            assert(l[k as int] == '#');
        }
    }
}

proof fn lemma_leading_hashes_facts(l: Seq<char>)
    ensures
        leading_hashes(l) <= l.len(),
        forall|i: int| 0 <= i < leading_hashes(l) ==> #[trigger] l[i] == '#',
        leading_hashes(l) < l.len() ==> l[leading_hashes(l) as int]
            != '#',
    decreases l.len(),
{
    if l.len() > 0 && l[0] == '#' {
        let m = l.drop_first();
        lemma_leading_hashes_facts(m);
        assert forall|i: int| 0 <= i < leading_hashes(l) implies #[trigger] l[i]
            == '#' by {
            if i > 0 {
                assert(l[i] == m[i - 1]);
            }
        }
    }
}

} // verus!
