//! Per-model embedding tables: the table name derived from a model name, and
//! the SQL statements and messages that mention such a table.
use vstd::prelude::*;
use vstd::std_specs::hash::DefaultHasherAdditionalSpecFns;
use vstd::string::StringSliceAdditionalSpecFns;

use std::collections::hash_map::DefaultHasher;
use std::hash::Hasher;

use crate::text::{
    decimal_chars, decimal_digits, digit_chars, extend_all, extend_str, from_chars, hex_chars,
    hex_digits, to_chars,
};

verus! {

// ---------------------------------------------------------------------------
// Outside functions
// ---------------------------------------------------------------------------

/// Whether `char::is_alphanumeric` holds of a non-ASCII `c` (Unicode
/// `Alphabetic` or `Numeric`).
pub uninterp spec fn alphanumeric(c: char) -> bool;

/// What `str::to_lowercase` returns for a text that is not all ASCII (Unicode
/// lower-case mapping).
pub uninterp spec fn lowercase(s: Seq<char>) -> Seq<char>;

/// The ASCII letters and digits `[A-Za-z0-9]`.
pub open spec fn is_ascii_alnum(c: char) -> bool {
    ||| 'A' <= c <= 'Z'
    ||| 'a' <= c <= 'z'
    ||| '0' <= c <= '9'
}

/// Whether every character of `s` is ASCII.
pub open spec fn is_ascii_text(s: Seq<char>) -> bool {
    forall|i: int| 0 <= i < s.len() ==> (#[trigger] s[i] as u32) < 0x80
}

/// `c` with `A-Z` mapped to `a-z`.
pub open spec fn ascii_lower(c: char) -> char {
    if 'A' <= c <= 'Z' {
        ((c as u32) + 32) as char
    } else {
        c
    }
}

/// What `char::is_alphanumeric` answers: among ASCII characters exactly the
/// letters and digits have the Unicode `Alphabetic` or `Numeric` property.
pub open spec fn is_alnum(c: char) -> bool {
    if (c as u32) < 0x80 {
        is_ascii_alnum(c)
    } else {
        alphanumeric(c)
    }
}

/// What `str::to_lowercase` returns: on ASCII text the Unicode lower-case
/// mapping takes `A-Z` to `a-z` and leaves every other character alone.
pub open spec fn lower(s: Seq<char>) -> Seq<char> {
    if is_ascii_text(s) {
        s.map_values(|c: char| ascii_lower(c))
    } else {
        lowercase(s)
    }
}

/// Calls `char::is_alphanumeric`: for ASCII `c` the answer is whether `c` is a
/// letter or digit; otherwise it is `alphanumeric(c)`, a fixed function of `c`.
#[verifier::external_body]
fn is_alphanumeric(c: char) -> (b: bool)
    ensures
        (c as u32) < 0x80 ==> b == is_ascii_alnum(c),
        (c as u32) >= 0x80 ==> b == alphanumeric(c),
{
    c.is_alphanumeric()
}

/// Calls `str::to_lowercase`: for ASCII text the result maps `A-Z` to `a-z`
/// and keeps the rest; otherwise it is `lowercase(s@)`, a fixed function of
/// the text.
#[verifier::external_body]
fn to_lowercase(s: &str) -> (r: String)
    ensures
        is_ascii_text(s@) ==> r@ == s@.map_values(|c: char| ascii_lower(c)),
        !is_ascii_text(s@) ==> r@ == lowercase(s@),
{
    s.to_lowercase()
}

// ---------------------------------------------------------------------------
// Table names
// ---------------------------------------------------------------------------

/// `s` with every occurrence of the non-empty `pat` removed, matching from the
/// left without overlaps (what `str::replace(pat, "")` returns).
pub open spec fn remove_all(s: Seq<char>, pat: Seq<char>) -> Seq<char>
    decreases s.len(),
{
    if s.len() == 0 {
        Seq::empty()
    } else if 0 < pat.len() <= s.len() && s.take(pat.len() as int) == pat {
        remove_all(s.skip(pat.len() as int), pat)
    } else {
        seq![s[0]] + remove_all(s.drop_first(), pat)
    }
}

/// The model name with `"embedding"`, then `"embed"`, then `"text"`, then `"-"` removed.
/// (Trimming dashes afterwards would change nothing: none are left.)
pub open spec fn clean_model(model: Seq<char>) -> Seq<char> {
    let a = remove_all(model, seq!['e', 'm', 'b', 'e', 'd', 'd', 'i', 'n', 'g']);
    let b = remove_all(a, seq!['e', 'm', 'b', 'e', 'd']);
    let c = remove_all(b, seq!['t', 'e', 'x', 't']);
    remove_all(c, seq!['-'])
}

/// Index of the first `':'` in `t`, or `t.len()` when there is none.
pub open spec fn colon_index(t: Seq<char>) -> nat
    decreases t.len(),
{
    if t.len() == 0 || t[0] == ':' {
        0
    } else {
        1 + colon_index(t.drop_first())
    }
}

/// The text before the first `':'` (the first part of `split(':')`).
pub open spec fn name_part(t: Seq<char>) -> Seq<char> {
    t.take(colon_index(t) as int)
}

/// The text between the first and the second `':'`, when there is a `':'`
/// (the second part of `split(':')`).
pub open spec fn version_part(t: Seq<char>) -> Option<Seq<char>> {
    let i = colon_index(t);
    if i < t.len() {
        let rest = t.skip(i + 1 as int);
        Some(rest.take(colon_index(rest) as int))
    } else {
        None
    }
}

/// The alphanumeric characters of `s`, in order.
pub open spec fn keep_alnum(s: Seq<char>) -> Seq<char>
    decreases s.len(),
{
    if s.len() == 0 {
        Seq::empty()
    } else if is_alnum(s.last()) {
        keep_alnum(s.drop_last()).push(s.last())
    } else {
        keep_alnum(s.drop_last())
    }
}

/// The first `n` characters of `s` (all of them when there are fewer).
pub open spec fn first_n(s: Seq<char>, n: nat) -> Seq<char> {
    if s.len() <= n {
        s
    } else {
        s.take(n as int)
    }
}

/// The lower-cased name part of a model name: the first six alphanumeric
/// characters of the cleaned name before any `':'`.
pub open spec fn model_name_of(model: Seq<char>) -> Seq<char> {
    lower(first_n(keep_alnum(name_part(clean_model(model))), 6))
}

/// The lower-cased version part of a model name: the alphanumeric characters
/// between its first and second `':'`; empty when there is no `':'`.
pub open spec fn model_version_of(model: Seq<char>) -> Seq<char> {
    match version_part(clean_model(model)) {
        Some(v) => lower(keep_alnum(v)),
        None => Seq::empty(),
    }
}

/// The hexadecimal digits of `n`, with leading zeros up to four digits (as
/// `format!("{:04x}", n)` writes it).
pub open spec fn padded_hex(n: nat) -> Seq<char> {
    let h = hex_digits(n);
    if h.len() >= 4 {
        h
    } else {
        Seq::new((4 - h.len()) as nat, |i: int| '0') + h
    }
}

/// The four-character hash part of a table name: the first four digits of the
/// hash written with at least four hexadecimal digits.
pub open spec fn hash_suffix(hash: u64) -> Seq<char> {
    padded_hex(hash as nat).take(4)
}

/// The table name made of `name`, `version` and a 64-bit hash: `"emb"`, then
/// each non-empty part among the name and the version, then the four-character
/// hash part, each after one `'_'`.
pub open spec fn table_name_of_parts(name: Seq<char>, version: Seq<char>, hash: u64) -> Seq<
    char,
> {
    let n = if name.len() == 0 {
        Seq::empty()
    } else {
        name + seq!['_']
    };
    let v = if version.len() == 0 {
        Seq::empty()
    } else {
        version + seq!['_']
    };
    seq!['e', 'm', 'b', '_'] + n + v + hash_suffix(hash)
}

/// The name of the embedding table for `model`, given the 64-bit hash of the
/// model name: `emb_{name}_{version}_{hash}` with the empty parts left out.
pub open spec fn table_name_for(model: Seq<char>, hash: u64) -> Seq<char> {
    table_name_of_parts(model_name_of(model), model_version_of(model), hash)
}

/// The hash `DefaultHasher` gives a string: its UTF-8 bytes, then the byte
/// `0xff` (what `<str as Hash>::hash` writes).
pub open spec fn model_hash(model: &str) -> u64 {
    DefaultHasher::spec_finish(seq![model.spec_bytes(), seq![0xffu8]])
}

/// The hash of `model` by `DefaultHasher`.
pub fn hash_model_name(model: &str) -> (h: u64)
    ensures
        h == model_hash(model),
{
    let mut hasher = DefaultHasher::new();
    hasher.write(model.as_bytes());
    let tail: Vec<u8> = vec![0xffu8];
    assert(tail@ == seq![0xffu8]);
    hasher.write(tail.as_slice());
    assert(hasher@ == seq![model.spec_bytes(), seq![0xffu8]]);
    hasher.finish()
}

/// `s` with every occurrence of `pat` removed.
fn remove_all_chars(s: &Vec<char>, pat: &Vec<char>) -> (r: Vec<char>)
    requires
        pat@.len() > 0,
    ensures
        r@ == remove_all(s@, pat@),
{
    let n = s.len();
    let m = pat.len();
    let mut r: Vec<char> = Vec::new();
    let mut i: usize = 0;
    assert(s@.skip(0) == s@);
    while i < n
        invariant
            n == s.len(),
            m == pat.len(),
            m > 0,
            i <= n,
            remove_all(s@, pat@) == r@ + remove_all(s@.skip(i as int), pat@),
        decreases n - i,
    {
        let ghost t = s@.skip(i as int);
        let mut matched = m <= n - i;
        let mut q: usize = 0;
        while matched && q < m
            invariant
                n == s.len(),
                m == pat.len(),
                i <= n,
                t == s@.skip(i as int),
                matched ==> m <= n - i,
                q <= m,
                matched ==> forall|p: int| 0 <= p < q ==> s@[i + p] == #[trigger] pat@[p],
                !matched ==> !(m <= t.len() && t.take(m as int) == pat@),
            decreases m - q + (if matched {
                1int
            } else {
                0int
            }),
        {
            if s[i + q] != pat[q] {
                assert(t.take(m as int)[q as int] == s@[i + q]);
                matched = false;
            } else {
                q = q + 1;
            }
        }
        if matched {
            assert(t.take(m as int) =~= pat@);
            assert(t.skip(m as int) == s@.skip(i + m));
            i = i + m;
        } else {
            r.push(s[i]);
            assert(t.drop_first() == s@.skip(i + 1));
            assert(t[0] == s@[i as int]);
            assert(remove_all(t, pat@) == seq![t[0]] + remove_all(t.drop_first(), pat@));
            i = i + 1;
        }
    }
    assert(s@.skip(n as int) == Seq::<char>::empty());
    assert(r@ + Seq::<char>::empty() == r@);
    r
}

proof fn lemma_colon_index(s: Seq<char>, m: int)
    requires
        0 <= m <= s.len(),
        forall|q: int| 0 <= q < m ==> #[trigger] s[q] != ':',
        m == s.len() || s[m] == ':',
    ensures
        colon_index(s) == m,
    decreases m,
{
    if m > 0 {
        let t = s.drop_first();
        assert(s[0] != ':');
        assert forall|q: int| 0 <= q < m - 1 implies #[trigger] t[q] != ':' by {
            assert(t[q] == s[q + 1]);
        }
        if m < s.len() {
            assert(t[m - 1] == s[m]);
        }
        lemma_colon_index(t, m - 1);
    }
}

/// The index of the first `':'` in `s` at or after `from`, or `s.len()`.
fn find_colon(s: &Vec<char>, from: usize) -> (j: usize)
    requires
        from <= s.len(),
    ensures
        from <= j <= s.len(),
        j - from == colon_index(s@.skip(from as int)),
{
    let n = s.len();
    let mut j = from;
    while j < n && s[j] != ':'
        invariant
            from <= j <= n == s.len(),
            forall|q: int| from <= q < j ==> #[trigger] s@[q] != ':',
        decreases n - j,
    {
        j = j + 1;
    }
    proof {
        let u = s@.skip(from as int);
        assert forall|q: int| 0 <= q < j - from implies #[trigger] u[q] != ':' by {
            assert(u[q] == s@[from + q]);
        }
        if j < n {
            assert(u[j - from] == s@[j as int]);
        }
        lemma_colon_index(u, j - from);
    }
    j
}

/// The alphanumeric characters of `s[lo..hi]`, at most `limit` of them.
fn alnum_prefix(s: &Vec<char>, lo: usize, hi: usize, limit: usize) -> (r: Vec<char>)
    requires
        lo <= hi <= s.len(),
    ensures
        r@ == first_n(keep_alnum(s@.subrange(lo as int, hi as int)), limit as nat),
{
    let ghost whole = s@.subrange(lo as int, hi as int);
    let mut r: Vec<char> = Vec::new();
    let mut i = lo;
    assert(whole.take(0) == Seq::<char>::empty());
    while i < hi
        invariant
            lo <= i <= hi <= s.len(),
            whole == s@.subrange(lo as int, hi as int),
            r@ == first_n(keep_alnum(whole.take(i - lo)), limit as nat),
            keep_alnum(whole.take(i - lo)).len() >= r@.len(),
        decreases hi - i,
    {
        let ghost pre = whole.take(i - lo);
        let ghost next = whole.take(i - lo + 1);
        assert(next.drop_last() == pre);
        assert(next.last() == s@[i as int]);
        let ghost k = keep_alnum(pre);
        if is_alphanumeric(s[i]) {
            assert(keep_alnum(next) == k.push(s@[i as int]));
            if r.len() < limit {
                r.push(s[i]);
            } else {
                assert(k.push(s@[i as int]).take(limit as int) == k.take(limit as int));
            }
        }
        i = i + 1;
    }
    assert(whole.take(hi - lo) == whole);
    r
}

/// The name of the embedding table for `model` when its hash is `hash`
/// (see [`table_name_for`]).
pub fn table_name_from_hash(model: &str, hash: u64) -> (r: String)
    ensures
        r@ == table_name_for(model@, hash),
{
    let m = to_chars(model);
    let p1 = to_chars("embedding");
    let p2 = to_chars("embed");
    let p3 = to_chars("text");
    let p4 = to_chars("-");
    proof {
        reveal_strlit("embedding");
        reveal_strlit("embed");
        reveal_strlit("text");
        reveal_strlit("-");
        assert(p1@ == seq!['e', 'm', 'b', 'e', 'd', 'd', 'i', 'n', 'g']);
        assert(p2@ == seq!['e', 'm', 'b', 'e', 'd']);
        assert(p3@ == seq!['t', 'e', 'x', 't']);
        assert(p4@ == seq!['-']);
    }
    let a = remove_all_chars(&m, &p1);
    let b = remove_all_chars(&a, &p2);
    let c = remove_all_chars(&b, &p3);
    let cleaned = remove_all_chars(&c, &p4);
    let ghost cl = clean_model(model@);
    assert(cleaned@ == cl);
    let n = cleaned.len();
    let colon = find_colon(&cleaned, 0);
    assert(cl.skip(0) == cl);
    assert(cl.take(colon as int) == cl.subrange(0, colon as int));
    let name_chars = alnum_prefix(&cleaned, 0, colon, 6);
    let name = to_lowercase(from_chars(&name_chars).as_str());
    let version = if colon < n {
        let end = find_colon(&cleaned, colon + 1);
        proof {
            let rest = cl.skip(colon + 1);
            assert(rest.take(colon_index(rest) as int) == cl.subrange(colon + 1, end as int));
        }
        let v = alnum_prefix(&cleaned, colon + 1, end, n);
        proof {
            lemma_keep_alnum_len(cl.subrange(colon + 1, end as int));
        }
        to_lowercase(from_chars(&v).as_str())
    } else {
        String::new()
    };
    assemble_table_name(name.as_str(), version.as_str(), hash)
}

/// The table name made of the lower-cased `name` and `version` parts and the
/// hash (see [`table_name_of_parts`]).
pub fn assemble_table_name(name: &str, version: &str, hash: u64) -> (r: String)
    ensures
        r@ == table_name_of_parts(name@, version@, hash),
{
    let digits = hex_chars(hash);
    let mut hex: Vec<char> = Vec::new();
    let mut z: usize = digits.len();
    while z < 4
        invariant
            digits.len() <= z <= 4 || (z == digits.len() && z >= 4),
            hex@ == Seq::new((z - digits.len()) as nat, |i: int| '0'),
        decreases 4 - z,
    {
        hex.push('0');
        assert(hex@ =~= Seq::new((z + 1 - digits.len()) as nat, |i: int| '0'));
        z = z + 1;
    }
    extend_all(&mut hex, &digits);
    assert(hex@ =~= padded_hex(hash as nat));
    let name_v = to_chars(name);
    let version_v = to_chars(version);
    let mut out: Vec<char> = Vec::new();
    extend_str(&mut out, "emb_");
    if name_v.len() > 0 {
        extend_all(&mut out, &name_v);
        out.push('_');
    }
    if version_v.len() > 0 {
        extend_all(&mut out, &version_v);
        out.push('_');
    }
    let ghost base = out@;
    let mut i: usize = 0;
    while i < 4
        invariant
            i <= 4 <= hex.len(),
            out@ == base + hex@.take(i as int),
        decreases 4 - i,
    {
        out.push(hex[i]);
        assert(hex@.take(i + 1) == hex@.take(i as int).push(hex@[i as int]));
        i = i + 1;
    }
    proof {
        reveal_strlit("emb_");
    }
    from_chars(&out)
}

proof fn lemma_keep_alnum_len(s: Seq<char>)
    ensures
        keep_alnum(s).len() <= s.len(),
    decreases s.len(),
{
    if s.len() > 0 {
        lemma_keep_alnum_len(s.drop_last());
    }
}

/// The name of the embedding table for `model`: [`table_name_for`] applied
/// to the model name and its `DefaultHasher` hash.
pub fn get_table_name(model: &str) -> (r: String)
    ensures
        r@ == table_name_for(model@, model_hash(model)),
{
    let hash = hash_model_name(model);
    table_name_from_hash(model, hash)
}

// ---------------------------------------------------------------------------
// Statements
// ---------------------------------------------------------------------------

/// The statement that creates the vector table `table` with embeddings of
/// `dimension` floats, unless it exists.
pub fn create_table_sql(table: &str, dimension: usize) -> (s: String)
    ensures
        s@ == "CREATE VIRTUAL TABLE IF NOT EXISTS "@ + table@ + " USING vec0(\n                path TEXT,\n                section TEXT,\n                chunk_index INTEGER,\n                total_chunks INTEGER,\n                contents TEXT,\n                embedding FLOAT["@
            + decimal_digits(dimension as nat) + "]\n            )"@,
{
    let mut v: Vec<char> = Vec::new();
    extend_str(&mut v, "CREATE VIRTUAL TABLE IF NOT EXISTS ");
    extend_str(&mut v, table);
    extend_str(
        &mut v,
        " USING vec0(\n                path TEXT,\n                section TEXT,\n                chunk_index INTEGER,\n                total_chunks INTEGER,\n                contents TEXT,\n                embedding FLOAT[",
    );
    let digits = decimal_chars(dimension as u64);
    extend_all(&mut v, &digits);
    extend_str(&mut v, "]\n            )");
    from_chars(&v)
}

/// The query that counts the rows of `table` for one file path.
pub fn count_rows_sql(table: &str) -> (s: String)
    ensures
        s@ == "SELECT COUNT(*) FROM "@ + table@ + " WHERE path = ?"@,
{
    let mut v: Vec<char> = Vec::new();
    extend_str(&mut v, "SELECT COUNT(*) FROM ");
    extend_str(&mut v, table);
    extend_str(&mut v, " WHERE path = ?");
    from_chars(&v)
}

/// The statement that inserts one chunk and its embedding into `table`.
pub fn insert_sql(table: &str) -> (s: String)
    ensures
        s@ == "INSERT INTO "@ + table@
            + " (path, section, chunk_index, total_chunks, contents, embedding) VALUES (?, ?, ?, ?, ?, ?)"@,
{
    let mut v: Vec<char> = Vec::new();
    extend_str(&mut v, "INSERT INTO ");
    extend_str(&mut v, table);
    extend_str(
        &mut v,
        " (path, section, chunk_index, total_chunks, contents, embedding) VALUES (?, ?, ?, ?, ?, ?)",
    );
    from_chars(&v)
}

/// The query for the `k` rows of `table` nearest to an embedding.
pub fn search_sql(table: &str) -> (s: String)
    ensures
        s@ == "SELECT contents, section, chunk_index, total_chunks\n            FROM "@ + table@
            + "\n            WHERE embedding MATCH ?1\n            AND k = ?2\n            ORDER BY distance"@,
{
    let mut v: Vec<char> = Vec::new();
    extend_str(&mut v, "SELECT contents, section, chunk_index, total_chunks\n            FROM ");
    extend_str(&mut v, table);
    extend_str(
        &mut v,
        "\n            WHERE embedding MATCH ?1\n            AND k = ?2\n            ORDER BY distance",
    );
    from_chars(&v)
}

/// Whether a file is already embedded, given the count of its rows that the
/// query of [`count_rows_sql`] gave (`None` when the query failed, as it does
/// before the table exists): some row was found.
pub fn already_embedded(count: Option<i64>) -> (b: bool)
    ensures
        b == (count matches Some(c) && c > 0),
{
    match count {
        Some(c) => c > 0,
        None => false,
    }
}

/// The query that counts the tables named `?`.
pub fn table_exists_sql() -> (s: String)
    ensures
        s@ == "SELECT COUNT(*) FROM sqlite_master WHERE type='table' AND name=?"@,
{
    let mut v: Vec<char> = Vec::new();
    extend_str(&mut v, "SELECT COUNT(*) FROM sqlite_master WHERE type='table' AND name=?");
    from_chars(&v)
}

/// Whether a model's table exists, given the count that the query of
/// [`table_exists_sql`] gave (`None` when the query failed): the count is not
/// zero.
pub fn table_exists(count: Option<i64>) -> (b: bool)
    ensures
        b == (count matches Some(c) && c != 0),
{
    match count {
        Some(c) => c != 0,
        None => false,
    }
}

/// The query that lists the embedding tables: the tables named `emb_...`,
/// without the shadow tables that the vector extension makes for each of them.
pub open spec fn list_tables_text() -> Seq<char> {
    "SELECT name FROM sqlite_master WHERE type='table' AND name LIKE 'emb_%' \n                 AND name NOT LIKE '%_info' AND name NOT LIKE '%_chunks' \n                 AND name NOT LIKE '%_rowids' AND name NOT LIKE '%_vector_%' \n                 AND name NOT LIKE '%_metadata%'"@
}

/// The query that lists the embedding tables (see [`list_tables_text`]).
pub fn list_tables_sql() -> (s: String)
    ensures
        s@ == list_tables_text(),
{
    let mut v: Vec<char> = Vec::new();
    extend_str(
        &mut v,
        "SELECT name FROM sqlite_master WHERE type='table' AND name LIKE 'emb_%' \n                 AND name NOT LIKE '%_info' AND name NOT LIKE '%_chunks' \n                 AND name NOT LIKE '%_rowids' AND name NOT LIKE '%_vector_%' \n                 AND name NOT LIKE '%_metadata%'",
    );
    from_chars(&v)
}

// ---------------------------------------------------------------------------
// Missing tables
// ---------------------------------------------------------------------------

/// `parts` joined with `sep` between neighbours.
pub open spec fn join(parts: Seq<Seq<char>>, sep: Seq<char>) -> Seq<char>
    decreases parts.len(),
{
    if parts.len() == 0 {
        Seq::empty()
    } else if parts.len() == 1 {
        parts[0]
    } else {
        join(parts.drop_last(), sep) + sep + parts.last()
    }
}

/// A table name without its `"emb_"` prefix (unchanged when it has none).
pub open spec fn strip_table_prefix(t: Seq<char>) -> Seq<char> {
    if t.len() >= 4 && t.take(4) == seq!['e', 'm', 'b', '_'] {
        t.skip(4)
    } else {
        t
    }
}

/// The names of the models that have tables, for display: each table name
/// without its prefix, separated by `", "`.
pub open spec fn model_list(tables: Seq<Seq<char>>) -> Seq<char> {
    join(tables.map_values(|t: Seq<char>| strip_table_prefix(t)), seq![',', ' '])
}

/// The error text when `model` has no table, given the embedding tables that exist.
pub open spec fn missing_model_text(model: Seq<char>, tables: Seq<Seq<char>>) -> Seq<char> {
    if tables.len() == 0 {
        "No embeddings found in database. Run 'embed' command first."@
    } else {
        "No embeddings found for model '"@ + model + "'. Available: "@ + model_list(tables)
            + "\nEither re-embed with this model or use --rag-model with an available model."@
    }
}

/// `t` without its `"emb_"` prefix.
fn strip_table_prefix_chars(t: &Vec<char>) -> (r: Vec<char>)
    ensures
        r@ == strip_table_prefix(t@),
{
    let mut r: Vec<char> = Vec::new();
    if t.len() >= 4 && t[0] == 'e' && t[1] == 'm' && t[2] == 'b' && t[3] == '_' {
        assert(t@.take(4) =~= seq!['e', 'm', 'b', '_']);
        let mut i: usize = 4;
        while i < t.len()
            invariant
                4 <= i <= t.len(),
                r@ == t@.subrange(4, i as int),
            decreases t.len() - i,
        {
            r.push(t[i]);
            assert(t@.subrange(4, i + 1) == t@.subrange(4, i as int).push(t@[i as int]));
            i = i + 1;
        }
        assert(t@.skip(4) == t@.subrange(4, t.len() as int));
    } else {
        proof {
            if t@.len() >= 4 && t@.take(4) == seq!['e', 'm', 'b', '_'] {
                assert(t@.take(4)[0] == t@[0]);
                assert(t@.take(4)[1] == t@[1]);
                assert(t@.take(4)[2] == t@[2]);
                assert(t@.take(4)[3] == t@[3]);
            }
        }
        extend_all(&mut r, t);
    }
    r
}

/// The error text when `model` has no table; `tables` lists the embedding
/// tables that exist (see [`missing_model_text`]).
pub fn missing_model_message(model: &str, tables: &Vec<String>) -> (s: String)
    ensures
        s@ == missing_model_text(model@, tables@.map_values(|t: String| t@)),
{
    let ghost ts = tables@.map_values(|t: String| t@);
    let ghost names = ts.map_values(|t: Seq<char>| strip_table_prefix(t));
    if tables.len() == 0 {
        let mut v: Vec<char> = Vec::new();
        extend_str(&mut v, "No embeddings found in database. Run 'embed' command first.");
        return from_chars(&v);
    }
    let mut v: Vec<char> = Vec::new();
    extend_str(&mut v, "No embeddings found for model '");
    extend_str(&mut v, model);
    extend_str(&mut v, "'. Available: ");
    let ghost base = v@;
    let mut i: usize = 0;
    while i < tables.len()
        invariant
            i <= tables.len(),
            ts == tables@.map_values(|t: String| t@),
            names == ts.map_values(|t: Seq<char>| strip_table_prefix(t)),
            v@ == base + join(names.take(i as int), seq![',', ' ']),
        decreases tables.len() - i,
    {
        let t = to_chars(tables[i].as_str());
        let stripped = strip_table_prefix_chars(&t);
        let ghost before = v@;
        if i > 0 {
            v.push(',');
            v.push(' ');
        }
        extend_all(&mut v, &stripped);
        proof {
            let nt = names.take(i + 1);
            assert(nt.drop_last() == names.take(i as int));
            assert(nt.last() == names[i as int]);
            assert(names[i as int] == stripped@);
            if i == 0 {
                assert(join(names.take(0), seq![',', ' ']) == Seq::<char>::empty());
                assert(join(nt, seq![',', ' ']) == nt[0]);
            }
        }
        i = i + 1;
    }
    assert(names.take(tables.len() as int) == names);
    extend_str(
        &mut v,
        "\nEither re-embed with this model or use --rag-model with an available model.",
    );
    from_chars(&v)
}

// ---------------------------------------------------------------------------
// Laws
// ---------------------------------------------------------------------------

proof fn lemma_hex_len(n: nat)
    ensures
        hex_digits(n).len() >= 1,
        hex_digits(n).len() >= 2 <==> n >= 0x10,
        hex_digits(n).len() >= 3 <==> n >= 0x100,
        hex_digits(n).len() >= 4 <==> n >= 0x1000,
    decreases n,
{
    if n >= 16 {
        lemma_hex_len(n / 16);
    }
}

proof fn lemma_hash_suffix(hash: u64)
    ensures
        hash_suffix(hash).len() == 4,
        forall|i: int|
            0 <= i < 4 ==> #[trigger] digit_chars().contains(hash_suffix(hash)[i]),
{
    let n = hash as nat;
    lemma_hex_len(n);
    let h = hex_digits(n);
    let p = padded_hex(n);
    assert forall|i: int| 0 <= i < 4 implies #[trigger] digit_chars().contains(hash_suffix(hash)[i]) by {
        assert(hash_suffix(hash)[i] == p[i]);
        if h.len() >= 4 {
            lemma_hex_digits_chars(n, i);
        } else if i < 4 - h.len() {
            assert(p[i] == '0');
            assert(digit_chars()[0] == '0');
        } else {
            assert(p[i] == h[i - (4 - h.len())]);
            lemma_hex_digits_chars(n, i - (4 - h.len()));
        }
    }
}

/// Every table name starts with `"emb_"` and ends with the four-character hash
/// part, made of hexadecimal digits.
pub proof fn law_table_name_shape(model: Seq<char>, hash: u64)
    ensures
        ({
            let t = table_name_for(model, hash);
            &&& t.len() >= 8
            &&& t.take(4) == seq!['e', 'm', 'b', '_']
            &&& t.skip(t.len() - 4) == hash_suffix(hash)
            &&& forall|i: int| t.len() - 4 <= i < t.len() ==> #[trigger] digit_chars().contains(t[i])
        }),
{
    lemma_hash_suffix(hash);
    let t = table_name_for(model, hash);
    let name = model_name_of(model);
    let version = model_version_of(model);
    let suffix = hash_suffix(hash);
    let n = if name.len() == 0 {
        Seq::<char>::empty()
    } else {
        name + seq!['_']
    };
    let v = if version.len() == 0 {
        Seq::<char>::empty()
    } else {
        version + seq!['_']
    };
    let head = seq!['e', 'm', 'b', '_'] + n + v;
    assert(t == head + suffix);
    assert(t.take(4) == head.take(4));
    assert(t.skip(t.len() - 4) == suffix);
    assert forall|i: int| t.len() - 4 <= i < t.len() implies #[trigger] digit_chars().contains(t[i]) by {
        assert(t[i] == suffix[i - (t.len() - 4)]);
    }
}

proof fn lemma_remove_dash(s: Seq<char>)
    ensures
        !remove_all(s, seq!['-']).contains('-'),
    decreases s.len(),
{
    if s.len() > 0 {
        if s.take(1) == seq!['-'] {
            lemma_remove_dash(s.skip(1));
        } else {
            lemma_remove_dash(s.drop_first());
            assert(s[0] != '-') by {
                assert(s.take(1)[0] == s[0]);
                if s[0] == '-' {
                    assert(s.take(1) == seq!['-']);
                }
            }
            let r = remove_all(s.drop_first(), seq!['-']);
            assert(remove_all(s, seq!['-']) == seq![s[0]] + r);
            assert forall|i: int| 0 <= i < (seq![s[0]] + r).len() implies (seq![s[0]] + r)[i]
                != '-' by {
                if i > 0 {
                    assert((seq![s[0]] + r)[i] == r[i - 1]);
                    assert(!r.contains('-'));
                }
            }
        }
    }
}

/// The cleaned model name holds no `'-'`, so trimming dashes from it would
/// change nothing.
pub proof fn law_clean_model_has_no_dash(model: Seq<char>)
    ensures
        !clean_model(model).contains('-'),
{
    let a = remove_all(model, seq!['e', 'm', 'b', 'e', 'd', 'd', 'i', 'n', 'g']);
    let b = remove_all(a, seq!['e', 'm', 'b', 'e', 'd']);
    let c = remove_all(b, seq!['t', 'e', 'x', 't']);
    lemma_remove_dash(c);
}

/// No two neighbouring characters of `s` are both `'_'`.
pub open spec fn no_double_underscore(s: Seq<char>) -> bool {
    forall|i: int| 0 <= i < s.len() - 1 ==> !(#[trigger] s[i] == '_' && s[i + 1] == '_')
}

proof fn lemma_no_double_concat(x: Seq<char>, y: Seq<char>)
    requires
        no_double_underscore(x),
        no_double_underscore(y),
        x.len() > 0 && y.len() > 0 ==> !(x.last() == '_' && y[0] == '_'),
    ensures
        no_double_underscore(x + y),
{
    let z = x + y;
    assert forall|i: int| 0 <= i < z.len() - 1 implies !(#[trigger] z[i] == '_' && z[i + 1] == '_') by {
        if i + 1 < x.len() {
            assert(z[i] == x[i] && z[i + 1] == x[i + 1]);
        } else if i >= x.len() {
            assert(z[i] == y[i - x.len()] && z[i + 1] == y[i + 1 - x.len()]);
        } else {
            assert(z[i] == x.last() && z[i + 1] == y[0]);
        }
    }
}

proof fn lemma_part_no_double(p: Seq<char>)
    requires
        !p.contains('_'),
    ensures
        no_double_underscore(p + seq!['_']),
{
    let q = p + seq!['_'];
    assert forall|i: int| 0 <= i < q.len() - 1 implies !(#[trigger] q[i] == '_' && q[i + 1] == '_') by {
        assert(q[i] == p[i]);
        if q[i] == '_' {
            assert(p.contains('_'));
        }
    }
}

/// The name made of parts that hold no `'_'` has no two underscores in a row.
pub proof fn law_parts_single_underscores(name: Seq<char>, version: Seq<char>, hash: u64)
    requires
        !name.contains('_'),
        !version.contains('_'),
    ensures
        no_double_underscore(table_name_of_parts(name, version, hash)),
{
    lemma_hash_suffix(hash);
    let suffix = hash_suffix(hash);
    let e = seq!['e', 'm', 'b', '_'];
    let n = if name.len() == 0 {
        Seq::<char>::empty()
    } else {
        name + seq!['_']
    };
    let v = if version.len() == 0 {
        Seq::<char>::empty()
    } else {
        version + seq!['_']
    };
    assert(no_double_underscore(e)) by {
        assert forall|i: int| 0 <= i < e.len() - 1 implies !(#[trigger] e[i] == '_' && e[i + 1]
            == '_') by {
            assert(e[0] == 'e' && e[1] == 'm' && e[2] == 'b');
        }
    }
    assert(no_double_underscore(Seq::<char>::empty()));
    if name.len() > 0 {
        lemma_part_no_double(name);
        assert(!name.contains(name[0]) || name[0] != '_');
        assert((name + seq!['_'])[0] == name[0]);
    }
    if version.len() > 0 {
        lemma_part_no_double(version);
        assert((version + seq!['_'])[0] == version[0]);
    }
    lemma_no_double_concat(e, n);
    if n.len() > 0 {
        assert((e + n).last() == '_');
    } else {
        assert(e + n == e);
    }
    lemma_no_double_concat(e + n, v);
    assert forall|i: int| 0 <= i < suffix.len() implies #[trigger] suffix[i] != '_' by {
        assert(digit_chars().contains(suffix[i]));
        lemma_digit_not_underscore(suffix[i]);
    }
    assert(no_double_underscore(suffix));
    lemma_no_double_concat(e + n + v, suffix);
    assert(table_name_of_parts(name, version, hash) == e + n + v + suffix);
}

/// A table name has no two underscores in a row whenever the lower-cased
/// name and version parts of the model name hold no `'_'`.
pub proof fn law_table_name_single_underscores(model: Seq<char>, hash: u64)
    requires
        !model_name_of(model).contains('_'),
        !model_version_of(model).contains('_'),
    ensures
        no_double_underscore(table_name_for(model, hash)),
{
    law_parts_single_underscores(model_name_of(model), model_version_of(model), hash);
}

proof fn lemma_remove_all_ascii(s: Seq<char>, pat: Seq<char>)
    requires
        is_ascii_text(s),
    ensures
        is_ascii_text(remove_all(s, pat)),
    decreases s.len(),
{
    if s.len() > 0 {
        if 0 < pat.len() <= s.len() && s.take(pat.len() as int) == pat {
            lemma_remove_all_ascii(s.skip(pat.len() as int), pat);
        } else {
            lemma_remove_all_ascii(s.drop_first(), pat);
            let r = remove_all(s.drop_first(), pat);
            assert forall|i: int| 0 <= i < (seq![s[0]] + r).len() implies (#[trigger] (seq![s[0]]
                + r)[i] as u32) < 0x80 by {
                if i > 0 {
                    assert((seq![s[0]] + r)[i] == r[i - 1]);
                }
            }
        }
    }
}

proof fn lemma_keep_alnum_ascii(s: Seq<char>)
    requires
        is_ascii_text(s),
    ensures
        forall|i: int| 0 <= i < keep_alnum(s).len() ==> is_ascii_alnum(#[trigger] keep_alnum(s)[i]),
    decreases s.len(),
{
    if s.len() > 0 {
        let init = s.drop_last();
        assert forall|i: int| 0 <= i < init.len() implies (#[trigger] init[i] as u32) < 0x80 by {
            assert(init[i] == s[i]);
        }
        lemma_keep_alnum_ascii(init);
        let last = s[s.len() - 1];
        assert((last as u32) < 0x80);
        let k = keep_alnum(s);
        let k0 = keep_alnum(init);
        assert forall|i: int| 0 <= i < k.len() implies is_ascii_alnum(#[trigger] k[i]) by {
            if i < k0.len() {
                assert(k[i] == k0[i]);
            } else {
                assert(k[i] == last);
            }
        }
    }
}

proof fn lemma_colon_bound(t: Seq<char>)
    ensures
        colon_index(t) <= t.len(),
    decreases t.len(),
{
    if t.len() > 0 && t[0] != ':' {
        lemma_colon_bound(t.drop_first());
    }
}

/// Lower-casing ASCII letters and digits leaves no `'_'`.
proof fn lemma_lower_no_underscore(s: Seq<char>)
    requires
        forall|i: int| 0 <= i < s.len() ==> is_ascii_alnum(#[trigger] s[i]),
    ensures
        !lower(s).contains('_'),
{
    assert(is_ascii_text(s)) by {
        assert forall|i: int| 0 <= i < s.len() implies (#[trigger] s[i] as u32) < 0x80 by {
            assert(is_ascii_alnum(s[i]));
        }
    }
    let l = lower(s);
    assert forall|i: int| 0 <= i < l.len() implies #[trigger] l[i] != '_' by {
        let c = s[i];
        assert(is_ascii_alnum(c));
        assert(l[i] == ascii_lower(c));
        if 'A' <= c <= 'Z' {
            let u = (c as u32) + 32;
            assert(97 <= u <= 122);
            assert((u as char) as u32 == u);
        }
    }
}

/// Every model name written in ASCII gets a table name with no two
/// underscores in a row.
pub proof fn law_ascii_names_single_underscores(model: Seq<char>, hash: u64)
    requires
        is_ascii_text(model),
    ensures
        no_double_underscore(table_name_for(model, hash)),
{
    let a = remove_all(model, seq!['e', 'm', 'b', 'e', 'd', 'd', 'i', 'n', 'g']);
    let b = remove_all(a, seq!['e', 'm', 'b', 'e', 'd']);
    let c = remove_all(b, seq!['t', 'e', 'x', 't']);
    lemma_remove_all_ascii(model, seq!['e', 'm', 'b', 'e', 'd', 'd', 'i', 'n', 'g']);
    lemma_remove_all_ascii(a, seq!['e', 'm', 'b', 'e', 'd']);
    lemma_remove_all_ascii(b, seq!['t', 'e', 'x', 't']);
    lemma_remove_all_ascii(c, seq!['-']);
    let cl = clean_model(model);
    lemma_colon_bound(cl);
    let np = name_part(cl);
    assert(is_ascii_text(np)) by {
        assert forall|i: int| 0 <= i < np.len() implies (#[trigger] np[i] as u32) < 0x80 by {
            assert(np[i] == cl[i]);
        }
    }
    lemma_keep_alnum_ascii(np);
    let k = keep_alnum(np);
    let f = first_n(k, 6);
    assert forall|i: int| 0 <= i < f.len() implies is_ascii_alnum(#[trigger] f[i]) by {
        assert(f[i] == k[i]);
    }
    lemma_lower_no_underscore(f);
    match version_part(cl) {
        Some(v) => {
            let i0 = colon_index(cl) as int;
            let rest = cl.skip(i0 + 1);
            lemma_colon_bound(rest);
            assert(v == rest.take(colon_index(rest) as int));
            assert(is_ascii_text(v)) by {
                assert forall|i: int| 0 <= i < v.len() implies (#[trigger] v[i] as u32) < 0x80 by {
                    assert(v[i] == cl[i0 + 1 + i]);
                }
            }
            lemma_keep_alnum_ascii(v);
            lemma_lower_no_underscore(keep_alnum(v));
        },
        None => {},
    }
    law_table_name_single_underscores(model, hash);
}

proof fn lemma_hex_digits_chars(n: nat, i: int)
    requires
        0 <= i < hex_digits(n).len(),
    ensures
        digit_chars().contains(hex_digits(n)[i]),
    decreases n,
{
    if n >= 16 {
        if i < hex_digits(n / 16).len() {
            lemma_hex_digits_chars(n / 16, i);
        } else {
            assert(hex_digits(n)[i] == digit_chars()[(n % 16) as int]);
        }
    } else {
        assert(hex_digits(n)[i] == digit_chars()[n as int]);
    }
}

proof fn lemma_digit_not_underscore(c: char)
    requires
        digit_chars().contains(c),
    ensures
        c != '_',
{
    let q = choose|q: int| 0 <= q < digit_chars().len() && digit_chars()[q] == c;
    assert(digit_chars()[q] != '_');
}

} // verus!
