//! Chunks and the parser that makes them.
use vstd::prelude::*;

use crate::text::{
    byte_len, fits_in_bytes, from_chars, is_blank, is_blank_vec, lemma_chars_deep_view, line_spans,
    lines, to_chars,
};

use super::pieces::{split_large, split_large_chars, MAX_TOKEN_ESTIMATE};
use super::sections::{
    copy_range, first_level, header_sections, sections_of, split_by_header, titled, titled_range,
};

verus! {

broadcast use lemma_chars_deep_view;

// ---------------------------------------------------------------------------
// Chunks
// ---------------------------------------------------------------------------

/// A piece of a document, ready to be embedded: its text, the section it came
/// from (a header line, or the file's name), and its 1-based position among
/// the pieces of that section.
#[derive(Debug, Clone)]
pub struct Chunk {
    pub content: String,
    pub section: String,
    pub chunk_index: usize,
    pub total_chunks: usize,
}

/// The mathematical value of a [`Chunk`].
pub struct ChunkView {
    pub content: Seq<char>,
    pub section: Seq<char>,
    pub chunk_index: nat,
    pub total_chunks: nat,
}

impl View for Chunk {
    type V = ChunkView;

    open spec fn view(&self) -> ChunkView {
        ChunkView {
            content: self.content@,
            section: self.section@,
            chunk_index: self.chunk_index as nat,
            total_chunks: self.total_chunks as nat,
        }
    }
}

impl Chunk {
    /// Whether the chunk's text is at most `MAX_TOKEN_ESTIMATE` bytes long,
    /// the most that is sent to be embedded.
    pub fn fits_embedding_limit(&self) -> (b: bool)
        ensures
            b == (byte_len(self.content@) <= MAX_TOKEN_ESTIMATE),
    {
        let v = to_chars(self.content.as_str());
        fits_in_bytes(&v, MAX_TOKEN_ESTIMATE)
    }

    /// The estimated number of tokens of the chunk: one per character.
    pub fn estimated_tokens(&self) -> (n: usize)
        ensures
            n == self.content@.len(),
    {
        to_chars(self.content.as_str()).len()
    }
}

/// The estimated tokens that a file's embedded chunks add up to: the
/// characters of each chunk that is within the embedding limit and whose
/// embedding `succeeded`. (Oversized chunks are never sent.)
pub open spec fn embedded_tokens_of(chunks: Seq<ChunkView>, succeeded: Seq<bool>) -> nat
    decreases chunks.len(),
{
    if chunks.len() == 0 {
        0
    } else {
        let rest = embedded_tokens_of(chunks.drop_last(), succeeded.drop_last());
        let c = chunks.last();
        if succeeded.last() && byte_len(c.content) <= MAX_TOKEN_ESTIMATE {
            rest + c.content.len()
        } else {
            rest
        }
    }
}

proof fn lemma_embedded_tokens_grow(chunks: Seq<ChunkView>, succeeded: Seq<bool>, j: int)
    requires
        chunks.len() == succeeded.len(),
        0 <= j <= chunks.len(),
    ensures
        embedded_tokens_of(chunks.take(j), succeeded.take(j)) <= embedded_tokens_of(
            chunks,
            succeeded,
        ),
    decreases chunks.len() - j,
{
    if j < chunks.len() {
        lemma_embedded_tokens_grow(chunks, succeeded, j + 1);
        assert(chunks.take(j + 1).drop_last() == chunks.take(j));
        assert(succeeded.take(j + 1).drop_last() == succeeded.take(j));
    } else {
        assert(chunks.take(j) == chunks);
        assert(succeeded.take(j) == succeeded);
    }
}

/// The estimated tokens of a file's embedded chunks (see
/// [`embedded_tokens_of`]); `None` when the total does not fit in a `usize`.
pub fn embedded_tokens(chunks: &Vec<Chunk>, succeeded: &Vec<bool>) -> (r: Option<usize>)
    requires
        succeeded@.len() == chunks@.len(),
    ensures
        match r {
            Some(n) => n == embedded_tokens_of(chunk_views(chunks@), succeeded@),
            None => embedded_tokens_of(chunk_views(chunks@), succeeded@) > usize::MAX,
        },
{
    let ghost cs = chunk_views(chunks@);
    let mut total: usize = 0;
    let mut i: usize = 0;
    assert(cs.take(0) == Seq::<ChunkView>::empty());
    while i < chunks.len()
        invariant
            i <= chunks.len(),
            succeeded@.len() == chunks@.len(),
            cs == chunk_views(chunks@),
            total == embedded_tokens_of(cs.take(i as int), succeeded@.take(i as int)),
        decreases chunks.len() - i,
    {
        assert(cs.take(i + 1).drop_last() == cs.take(i as int));
        assert(succeeded@.take(i + 1).drop_last() == succeeded@.take(i as int));
        assert(cs.take(i + 1).last() == chunks@[i as int]@);
        if succeeded[i] && chunks[i].fits_embedding_limit() {
            let t = chunks[i].estimated_tokens();
            if t > usize::MAX - total {
                proof {
                    lemma_embedded_tokens_grow(cs, succeeded@, i + 1);
                }
                return None;
            }
            total = total + t;
        }
        i = i + 1;
    }
    assert(cs.take(chunks.len() as int) == cs);
    assert(succeeded@.take(chunks.len() as int) == succeeded@);
    Some(total)
}

/// The values of a list of chunks.
pub open spec fn chunk_views(v: Seq<Chunk>) -> Seq<ChunkView> {
    v.map_values(|c: Chunk| c@)
}

/// The chunks of one section: each non-blank piece, numbered by its position
/// among all `total` pieces of the section.
pub open spec fn numbered(section: Seq<char>, pieces: Seq<Seq<char>>, total: nat) -> Seq<
    ChunkView,
>
    decreases pieces.len(),
{
    if pieces.len() == 0 {
        Seq::empty()
    } else {
        let rest = numbered(section, pieces.drop_last(), total);
        if is_blank(pieces.last()) {
            rest
        } else {
            rest.push(
                ChunkView {
                    content: pieces.last(),
                    section: section,
                    chunk_index: pieces.len(),
                    total_chunks: total,
                },
            )
        }
    }
}

/// The chunks of a list of `(section, content)` pairs, section after section.
pub open spec fn chunks_of(sections: Seq<(Seq<char>, Seq<char>)>) -> Seq<ChunkView>
    decreases sections.len(),
{
    if sections.len() == 0 {
        Seq::empty()
    } else {
        let (name, content) = sections.last();
        let pieces = split_large(content);
        chunks_of(sections.drop_last()) + numbered(name, pieces, pieces.len())
    }
}

/// The chunks of a document named `filename`.
pub open spec fn parse_spec(contents: Seq<char>, filename: Seq<char>) -> Seq<ChunkView> {
    chunks_of(sections_of(contents, filename))
}

/// Splits markdown documents into chunks.
pub struct MarkdownParser;

impl MarkdownParser {
    /// The chunks of `contents`, a document named `filename`: split at the
    /// level of its first header into sections, each section cut into pieces
    /// of bounded size, blank pieces left out.
    pub fn parse(contents: &str, filename: &str) -> (res: Vec<Chunk>)
        ensures
            chunk_views(res@) == parse_spec(contents@, filename@),
    {
        let text = to_chars(contents);
        let fname = to_chars(filename);
        let spans = line_spans(&text);
        let sections = match first_level(&text, &spans) {
            Some(k) => split_by_header(&text, &spans, k, &fname),
            None => {
                let mut one: Vec<(Vec<char>, Vec<char>)> = Vec::new();
                let name = copy_range(&fname, 0, fname.len());
                let body = titled_range(&fname, &text, 0, text.len());
                assert(fname@.subrange(0, fname@.len() as int) == fname@);
                assert(text@.subrange(0, text@.len() as int) == text@);
                one.push((name, body));
                assert(one.deep_view() == seq![(fname@, titled(fname@, text@))]);
                one
            },
        };
        let ghost secs = sections.deep_view();
        assert(secs == sections_of(contents@, filename@));
        let mut out: Vec<Chunk> = Vec::new();
        assert(secs.take(0) == Seq::<(Seq<char>, Seq<char>)>::empty());
        for i in 0..sections.len()
            invariant
                secs == sections.deep_view(),
                chunk_views(out@) == chunks_of(secs.take(i as int)),
        {
            let pieces = split_large_chars(&sections[i].1);
            let total = pieces.len();
            let ghost name = secs[i as int].0;
            let ghost ps = pieces.deep_view();
            assert(sections.deep_view()[i as int] == sections[i as int].deep_view());
            assert(ps == split_large(secs[i as int].1));
            let ghost before = chunk_views(out@);
            assert(ps.take(0) == Seq::<Seq<char>>::empty());
            for j in 0..total
                invariant
                    total == pieces.len(),
                    i < sections.len(),
                    secs == sections.deep_view(),
                    name == secs[i as int].0,
                    name == sections[i as int].0@,
                    ps == pieces.deep_view(),
                    chunk_views(out@) == before + numbered(name, ps.take(j as int), total as nat),
            {
                assert(pieces.deep_view()[j as int] == pieces[j as int]@);
                assert(ps.take(j + 1).drop_last() == ps.take(j as int));
                assert(ps.take(j + 1).last() == ps[j as int]);
                if !is_blank_vec(&pieces[j]) {
                    let ghost old_views = chunk_views(out@);
                    let chunk = Chunk {
                        content: from_chars(&pieces[j]),
                        section: from_chars(&sections[i].0),
                        chunk_index: j + 1,
                        total_chunks: total,
                    };
                    out.push(chunk);
                    assert(chunk_views(out@) == old_views.push(chunk@));
                }
            }
            proof {
                assert(ps.take(total as int) == ps);
                assert(secs.take(i + 1).drop_last() == secs.take(i as int));
                assert(secs.take(i + 1).last() == secs[i as int]);
            }
        }
        assert(secs.take(sections.len() as int) == secs);
        out
    }

    /// The sections of `contents` split at the headers of level `level`, as
    /// `(section, content)` pairs (see [`header_sections`]).
    pub fn split_by_header(contents: &str, level: usize, filename: &str) -> (res: Vec<
        (String, String),
    >)
        ensures
            res@.map_values(|p: (String, String)| (p.0@, p.1@)) == header_sections(
                lines(contents@),
                level as nat,
                filename@,
            ),
    {
        let text = to_chars(contents);
        let fname = to_chars(filename);
        let spans = line_spans(&text);
        let secs = split_by_header(&text, &spans, level, &fname);
        let ghost want = secs.deep_view();
        let mut res: Vec<(String, String)> = Vec::new();
        for i in 0..secs.len()
            invariant
                want == secs.deep_view(),
                res@.map_values(|p: (String, String)| (p.0@, p.1@)) == want.take(i as int),
        {
            let a = from_chars(&secs[i].0);
            let b = from_chars(&secs[i].1);
            let ghost old = res@.map_values(|p: (String, String)| (p.0@, p.1@));
            res.push((a, b));
            assert(secs.deep_view()[i as int] == secs[i as int].deep_view());
            assert(res@.map_values(|p: (String, String)| (p.0@, p.1@)) == old.push((a@, b@)));
            assert(want.take(i + 1) == want.take(i as int).push(want[i as int]));
        }
        assert(want.take(secs.len() as int) == want);
        res
    }

    /// The pieces of one section's text (see [`split_large`]).
    pub fn split_large_chunk(chunk: &str) -> (res: Vec<String>)
        ensures
            res@.map_values(|s: String| s@) == split_large(chunk@),
    {
        let c = to_chars(chunk);
        let pieces = split_large_chars(&c);
        let ghost want = pieces.deep_view();
        let mut res: Vec<String> = Vec::new();
        for i in 0..pieces.len()
            invariant
                want == pieces.deep_view(),
                res@.map_values(|s: String| s@) == want.take(i as int),
        {
            let s = from_chars(&pieces[i]);
            let ghost old = res@.map_values(|s: String| s@);
            res.push(s);
            assert(pieces.deep_view()[i as int] == pieces[i as int]@);
            assert(res@.map_values(|s: String| s@) == old.push(s@));
            assert(want.take(i + 1) == want.take(i as int).push(want[i as int]));
        }
        assert(want.take(pieces.len() as int) == want);
        res
    }
}

} // verus!
