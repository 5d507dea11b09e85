//! The texts sent to the language models: the relevance question for one
//! document, and the question with its retrieved context.
use vstd::prelude::*;

use crate::text::{decimal_chars, decimal_digits, extend_all, extend_str, from_chars};

verus! {

/// The relevance question for one document: the query, the document and a
/// request for a score from 0 to 10.
pub open spec fn relevance_prompt_text(query: Seq<char>, document: Seq<char>) -> Seq<char> {
    "Query: "@ + query + "\nDocument: "@ + document + "\nScore (0-10):"@
}

/// The relevance question for `document` (see [`relevance_prompt_text`]).
pub fn relevance_prompt(query: &str, document: &str) -> (s: String)
    ensures
        s@ == relevance_prompt_text(query@, document@),
{
    let mut v: Vec<char> = Vec::new();
    extend_str(&mut v, "Query: ");
    extend_str(&mut v, query);
    extend_str(&mut v, "\nDocument: ");
    extend_str(&mut v, document);
    extend_str(&mut v, "\nScore (0-10):");
    from_chars(&v)
}

/// One retrieved chunk: its content, its section, its index and the number of
/// chunks of its section.
pub open spec fn result_view(r: (String, String, usize, usize)) -> (
    Seq<char>,
    Seq<char>,
    nat,
    nat,
) {
    (r.0@, r.1@, r.2 as nat, r.3 as nat)
}

/// `" (chunk i/n)"` for a section of more than one chunk, else nothing.
pub open spec fn chunk_note(index: nat, total: nat) -> Seq<char> {
    if total > 1 {
        " (chunk "@ + decimal_digits(index) + "/"@ + decimal_digits(total) + ")"@
    } else {
        Seq::empty()
    }
}

/// The context block of one retrieved chunk.
pub open spec fn context_block(r: (Seq<char>, Seq<char>, nat, nat)) -> Seq<char> {
    "\n\n[Section: "@ + r.1 + chunk_note(r.2, r.3) + "]\n"@ + r.0
}

/// The context blocks of the retrieved chunks, in order.
pub open spec fn context_blocks(rs: Seq<(Seq<char>, Seq<char>, nat, nat)>) -> Seq<char>
    decreases rs.len(),
{
    if rs.len() == 0 {
        Seq::empty()
    } else {
        context_blocks(rs.drop_last()) + context_block(rs.last())
    }
}

/// The question put to the chat model: the user's question, then the
/// retrieved chunks as context.
pub open spec fn chat_prompt_text(query: Seq<char>, rs: Seq<(Seq<char>, Seq<char>, nat, nat)>) -> Seq<
    char,
> {
    "Answer the following user question: "@ + query
        + "\n\nUsing the following information for context:\n\n"@ + context_blocks(rs)
}

/// The question for the chat model with the retrieved `results` as context
/// (see [`chat_prompt_text`]).
pub fn chat_prompt(query: &str, results: &Vec<(String, String, usize, usize)>) -> (s: String)
    ensures
        s@ == chat_prompt_text(query@, results@.map_values(|r| result_view(r))),
{
    let ghost rs = results@.map_values(|r| result_view(r));
    let mut v: Vec<char> = Vec::new();
    extend_str(&mut v, "Answer the following user question: ");
    extend_str(&mut v, query);
    extend_str(&mut v, "\n\nUsing the following information for context:\n\n");
    let ghost base = v@;
    let mut i: usize = 0;
    assert(rs.take(0) == Seq::<(Seq<char>, Seq<char>, nat, nat)>::empty());
    while i < results.len()
        invariant
            i <= results.len(),
            rs == results@.map_values(|r| result_view(r)),
            v@ == base + context_blocks(rs.take(i as int)),
        decreases results.len() - i,
    {
        let ghost before = v@;
        let (content, section, index, total) = (
            &results[i].0,
            &results[i].1,
            results[i].2,
            results[i].3,
        );
        extend_str(&mut v, "\n\n[Section: ");
        extend_str(&mut v, section.as_str());
        if total > 1 {
            extend_str(&mut v, " (chunk ");
            let d = decimal_chars(index as u64);
            extend_all(&mut v, &d);
            extend_str(&mut v, "/");
            let e = decimal_chars(total as u64);
            extend_all(&mut v, &e);
            extend_str(&mut v, ")");
        }
        extend_str(&mut v, "]\n");
        extend_str(&mut v, content.as_str());
        proof {
            let r = rs[i as int];
            assert(r == result_view(results@[i as int]));
            assert(v@ == before + context_block(r));
            assert(rs.take(i + 1).drop_last() == rs.take(i as int));
            assert(rs.take(i + 1).last() == r);
        }
        i = i + 1;
    }
    assert(rs.take(results.len() as int) == rs);
    from_chars(&v)
}

/// Whether `model` is among the installed `models`.
pub fn model_available(models: &Vec<String>, model: &str) -> (b: bool)
    ensures
        b == exists|i: int| 0 <= i < models@.len() && (#[trigger] models@[i])@ == model@,
{
    let wanted = model.to_owned();
    let mut i: usize = 0;
    while i < models.len()
        invariant
            i <= models.len(),
            wanted@ == model@,
            forall|j: int| 0 <= j < i ==> (#[trigger] models@[j])@ != model@,
        decreases models.len() - i,
    {
        if models[i] == wanted {
            return true;
        }
        i = i + 1;
    }
    false
}

/// The line that reports on one supported model: a check mark for one that
/// is installed, a download arrow for one that is not.
pub open spec fn model_status_line(model: Seq<char>, available: bool) -> Seq<char> {
    if available {
        "  ✓ "@ + model + " (available)"@
    } else {
        "  ⬇ "@ + model + " (needs download)"@
    }
}

/// Whether some entry of `available` is true.
pub open spec fn any_available(available: Seq<bool>) -> bool {
    exists|i: int| 0 <= i < available.len() && #[trigger] available[i]
}

/// The first line of the report: the default model of `model_type` is missing.
pub open spec fn not_found_line(model_type: Seq<char>, model: Seq<char>) -> Seq<char> {
    "\n"@ + model_type + " model '"@ + model + "' not found."@
}

/// The second line of the report: the heading of the list of models.
pub open spec fn supported_line(model_type: Seq<char>) -> Seq<char> {
    "\nSupported "@ + model_type + " models:"@
}

/// The report shown when the default model of `model_type` is not installed,
/// line by line: what is missing, one line per supported model saying whether
/// it is installed, how to download one, and, where some supported model is
/// installed, how to pick it instead.
pub open spec fn model_selection_text(
    model_type: Seq<char>,
    models: Seq<Seq<char>>,
    available: Seq<bool>,
) -> Seq<Seq<char>> {
    let head = seq![not_found_line(model_type, models[0]), supported_line(model_type)];
    let statuses = Seq::new(models.len(), |i: int| model_status_line(models[i], available[i]));
    let hint = seq!["\nTo download a model, run:"@, "  ollama pull <model-name>"@];
    let tail = if any_available(available) {
        seq!["\nOr specify an available model with --model flag"@]
    } else {
        Seq::empty()
    };
    head + statuses + hint + tail
}

/// The lines of the report for the supported `models` of `model_type`, the
/// first of which is the default, where `available[i]` tells whether
/// `models[i]` is installed (see [`model_selection_text`]).
pub fn model_selection_report(model_type: &str, models: &Vec<String>, available: &Vec<bool>) -> (lines:
    Vec<String>)
    requires
        models@.len() > 0,
        available@.len() == models@.len(),
    ensures
        lines@.map_values(|l: String| l@) == model_selection_text(
            model_type@,
            models@.map_values(|m: String| m@),
            available@,
        ),
{
    let ghost names = models@.map_values(|m: String| m@);
    let mut lines: Vec<String> = Vec::new();
    let mut v: Vec<char> = Vec::new();
    extend_str(&mut v, "\n");
    extend_str(&mut v, model_type);
    extend_str(&mut v, " model '");
    extend_str(&mut v, models[0].as_str());
    extend_str(&mut v, "' not found.");
    lines.push(from_chars(&v));
    let mut w: Vec<char> = Vec::new();
    extend_str(&mut w, "\nSupported ");
    extend_str(&mut w, model_type);
    extend_str(&mut w, " models:");
    lines.push(from_chars(&w));
    let mut any = false;
    let mut i: usize = 0;
    while i < models.len()
        invariant
            i <= models.len(),
            available@.len() == models@.len(),
            names == models@.map_values(|m: String| m@),
            lines@.len() == 2 + i,
            lines@[0]@ == not_found_line(model_type@, names[0]),
            lines@[1]@ == supported_line(model_type@),
            forall|j: int|
                0 <= j < i ==> (#[trigger] lines@[2 + j])@ == model_status_line(
                    names[j],
                    available@[j],
                ),
            any == exists|j: int| 0 <= j < i && #[trigger] available@[j],
        decreases models.len() - i,
    {
        let mut u: Vec<char> = Vec::new();
        if available[i] {
            extend_str(&mut u, "  ✓ ");
            extend_str(&mut u, models[i].as_str());
            extend_str(&mut u, " (available)");
            any = true;
        } else {
            extend_str(&mut u, "  ⬇ ");
            extend_str(&mut u, models[i].as_str());
            extend_str(&mut u, " (needs download)");
        }
        lines.push(from_chars(&u));
        proof {
            assert(lines@[2 + i as int]@ == model_status_line(names[i as int], available@[i as int]));
            if available@[i as int] {
                assert(0 <= i < i + 1 && available@[i as int]);
            }
        }
        i = i + 1;
    }
    let mut h: Vec<char> = Vec::new();
    extend_str(&mut h, "\nTo download a model, run:");
    lines.push(from_chars(&h));
    let mut k: Vec<char> = Vec::new();
    extend_str(&mut k, "  ollama pull <model-name>");
    lines.push(from_chars(&k));
    if any {
        let mut o: Vec<char> = Vec::new();
        extend_str(&mut o, "\nOr specify an available model with --model flag");
        lines.push(from_chars(&o));
    }
    proof {
        let n = models@.len() as int;
        assert(any == any_available(available@)) by {
            if any_available(available@) {
                let j = choose|j: int| 0 <= j < available@.len() && #[trigger] available@[j];
                assert(0 <= j < n && available@[j]);
            }
        }
        let text = model_selection_text(model_type@, names, available@);
        let got = lines@.map_values(|l: String| l@);
        assert(got.len() == text.len());
        assert forall|k: int| 0 <= k < got.len() implies got[k] == text[k] by {
            if 2 <= k < 2 + n {
                assert(lines@[2 + (k - 2)] == lines@[k]);
            }
        }
        assert(got =~= text);
    }
    lines
}

/// The reason given when no usable model was found.
pub open spec fn model_unavailable_text() -> Seq<char> {
    "Model not available. Please download or specify an existing model."@
}

/// The reason given when no usable model was found (see
/// [`model_unavailable_text`]).
pub fn model_unavailable_message() -> (s: String)
    ensures
        s@ == model_unavailable_text(),
{
    let mut v: Vec<char> = Vec::new();
    extend_str(&mut v, "Model not available. Please download or specify an existing model.");
    from_chars(&v)
}

/// The model to use: the one `given`, else the `default` where it is
/// installed, else none (the caller then shows the selection report).
pub fn model_choice(given: Option<String>, default: &str, default_available: bool) -> (r: Option<
    String,
>)
    ensures
        given is Some ==> r == given,
        given is None && default_available ==> r is Some && r->0@ == default@,
        given is None && !default_available ==> r is None,
{
    match given {
        Some(m) => Some(m),
        None => {
            if default_available {
                let mut v: Vec<char> = Vec::new();
                extend_str(&mut v, default);
                Some(from_chars(&v))
            } else {
                None
            }
        },
    }
}

/// The relevance question holds the query and the whole document, each at a
/// fixed place: `"Query: "` (7 characters), the query, `"\nDocument: "` (11),
/// the document in full, and `"\nScore (0-10):"` (14).
pub proof fn law_relevance_prompt_keeps_document(query: Seq<char>, document: Seq<char>)
    ensures
        relevance_prompt_text(query, document).len() == 7 + query.len() + 11 + document.len() + 14,
        relevance_prompt_text(query, document).take(7) == "Query: "@,
        relevance_prompt_text(query, document).subrange(7, 7 + query.len() as int) == query,
        relevance_prompt_text(query, document).subrange(
            7 + query.len() as int,
            18 + query.len() as int,
        ) == "\nDocument: "@,
        relevance_prompt_text(query, document).skip(18 + query.len() + document.len() as int)
            == "\nScore (0-10):"@,
        relevance_prompt_text(query, document).subrange(
            18 + query.len() as int,
            18 + query.len() + document.len() as int,
        ) == document,
{
    reveal_strlit("Query: ");
    reveal_strlit("\nDocument: ");
    reveal_strlit("\nScore (0-10):");
    let p = relevance_prompt_text(query, document);
    let a = "Query: "@;
    let b = "\nDocument: "@;
    let c = "\nScore (0-10):"@;
    assert(a.len() == 7);
    assert(b.len() == 11);
    assert(c.len() == 14);
    assert(p == a + query + b + document + c);
    assert(p.subrange(7, 7 + query.len() as int) =~= query);
    assert(p.subrange(18 + query.len() as int, 18 + query.len() + document.len() as int) =~= document);
    assert(p.take(7) =~= a);
    assert(p.subrange(7 + query.len() as int, 18 + query.len() as int) =~= b);
    assert(p.skip(18 + query.len() + document.len() as int) =~= c);
}

/// The chat question holds one context block per retrieved chunk, in order:
/// with no chunks it is the header alone, and one more chunk adds exactly its
/// block at the end.
pub proof fn law_chat_prompt_one_block_per_chunk(
    query: Seq<char>,
    rs: Seq<(Seq<char>, Seq<char>, nat, nat)>,
    r: (Seq<char>, Seq<char>, nat, nat),
)
    ensures
        chat_prompt_text(query, Seq::empty()) == "Answer the following user question: "@ + query
            + "\n\nUsing the following information for context:\n\n"@,
        chat_prompt_text(query, rs.push(r)) == chat_prompt_text(query, rs) + context_block(r),
{
    assert(rs.push(r).drop_last() == rs);
    assert(rs.push(r).last() == r);
    let h = "Answer the following user question: "@ + query
        + "\n\nUsing the following information for context:\n\n"@;
    assert(h + Seq::<char>::empty() == h);
    assert(h + (context_blocks(rs) + context_block(r)) == (h + context_blocks(rs)) + context_block(
        r,
    ));
}

} // verus!
