//! The statistics of one embedding run over a directory: how many distinct
//! directories held the embedded files, how many files there were, and how
//! many tokens they added up to.
use vstd::prelude::*;

verus! {

/// A directory path, taken as the bytes of each of its components.
pub open spec fn path_view(p: Vec<Vec<u8>>) -> Seq<Seq<u8>> {
    p@.map_values(|c: Vec<u8>| c@)
}

/// The distinct parent directories among the files: the paths of the `Some`
/// entries (a file without a parent adds none).
pub open spec fn parent_set(parents: Seq<Option<Vec<Vec<u8>>>>) -> Set<Seq<Seq<u8>>> {
    Set::new(
        |d: Seq<Seq<u8>>|
            exists|i: int|
                0 <= i < parents.len() && (#[trigger] parents[i]) is Some && path_view(
                    parents[i]->0,
                ) == d,
    )
}

/// The sum of the token counts.
pub open spec fn token_sum(tokens: Seq<usize>) -> int
    decreases tokens.len(),
{
    if tokens.len() == 0 {
        0
    } else {
        token_sum(tokens.drop_last()) + tokens.last()
    }
}

proof fn lemma_token_sum_grows(tokens: Seq<usize>, j: int)
    requires
        0 <= j <= tokens.len(),
    ensures
        token_sum(tokens.take(j)) <= token_sum(tokens),
    decreases tokens.len() - j,
{
    if j < tokens.len() {
        lemma_token_sum_grows(tokens, j + 1);
        assert(tokens.take(j + 1).drop_last() == tokens.take(j));
    } else {
        assert(tokens.take(j) == tokens);
    }
}

/// Whether two byte strings are equal.
fn same_bytes(a: &Vec<u8>, b: &Vec<u8>) -> (r: bool)
    ensures
        r == (a@ == b@),
{
    if a.len() != b.len() {
        return false;
    }
    let mut i: usize = 0;
    while i < a.len()
        invariant
            i <= a.len() == b.len(),
            forall|j: int| 0 <= j < i ==> a@[j] == b@[j],
        decreases a.len() - i,
    {
        if a[i] != b[i] {
            return false;
        }
        i = i + 1;
    }
    assert(a@ =~= b@);
    true
}

/// Whether two directory paths are equal component by component.
fn same_path(a: &Vec<Vec<u8>>, b: &Vec<Vec<u8>>) -> (r: bool)
    ensures
        r == (path_view(*a) == path_view(*b)),
{
    if a.len() != b.len() {
        assert(path_view(*a).len() != path_view(*b).len());
        return false;
    }
    let mut i: usize = 0;
    while i < a.len()
        invariant
            i <= a.len() == b.len(),
            forall|j: int| 0 <= j < i ==> a@[j]@ == b@[j]@,
        decreases a.len() - i,
    {
        if !same_bytes(&a[i], &b[i]) {
            assert(path_view(*a)[i as int] != path_view(*b)[i as int]);
            return false;
        }
        i = i + 1;
    }
    assert(path_view(*a) =~= path_view(*b));
    true
}

/// Whether the parent of some file before position `i` is `p`.
fn seen_before(parents: &Vec<Option<Vec<Vec<u8>>>>, i: usize, p: &Vec<Vec<u8>>) -> (r: bool)
    requires
        i <= parents@.len(),
    ensures
        r == exists|j: int|
            0 <= j < i && (#[trigger] parents@[j]) is Some && path_view(parents@[j]->0)
                == path_view(*p),
{
    let mut j: usize = 0;
    while j < i
        invariant
            j <= i <= parents@.len(),
            forall|k: int|
                0 <= k < j ==> !((#[trigger] parents@[k]) is Some && path_view(parents@[k]->0)
                    == path_view(*p)),
        decreases i - j,
    {
        match &parents[j] {
            Some(q) => {
                if same_path(q, p) {
                    assert(parents@[j as int] is Some);
                    return true;
                }
            },
            None => {},
        }
        j = j + 1;
    }
    false
}

/// Statistics of one embedding run over a directory, given the parent
/// directory of each file (`None` for a file without one) and the tokens each
/// file added: the number of distinct parent directories, the number of
/// files, and the total tokens; `None` when the total does not fit in a
/// `usize`.
pub fn embed_stats(parents: &Vec<Option<Vec<Vec<u8>>>>, tokens: &Vec<usize>) -> (r: Option<
    (usize, usize, usize),
>)
    requires
        parents@.len() == tokens@.len(),
    ensures
        match r {
            Some((dirs, files, total)) => dirs == parent_set(parents@).len() && files
                == parents@.len() && total == token_sum(tokens@),
            None => token_sum(tokens@) > usize::MAX,
        },
{
    let mut dirs: usize = 0;
    let mut total: usize = 0;
    let mut i: usize = 0;
    assert(parent_set(parents@.take(0)) =~= Set::empty());
    assert(tokens@.take(0) =~= Seq::<usize>::empty());
    while i < parents.len()
        invariant
            i <= parents@.len() == tokens@.len(),
            parent_set(parents@.take(i as int)).finite(),
            dirs == parent_set(parents@.take(i as int)).len(),
            dirs <= i,
            total == token_sum(tokens@.take(i as int)),
        decreases parents.len() - i,
    {
        let ghost before = parent_set(parents@.take(i as int));
        let ghost after = parent_set(parents@.take(i + 1));
        assert(parents@.take(i + 1)[i as int] == parents@[i as int]);
        assert forall|k: int| 0 <= k < i implies parents@.take(i + 1)[k] == parents@.take(
            i as int,
        )[k] && parents@.take(i as int)[k] == parents@[k] by {}
        match &parents[i] {
            Some(p) => {
                let seen = seen_before(parents, i, p);
                proof {
                    let d = path_view(*p);
                    if seen {
                        let j = choose|j: int|
                            0 <= j < i && (#[trigger] parents@[j]) is Some && path_view(
                                parents@[j]->0,
                            ) == d;
                        assert(parents@.take(i as int)[j] == parents@[j]);
                        assert(before.contains(d));
                        assert(after =~= before);
                    } else {
                        assert(!before.contains(d)) by {
                            if before.contains(d) {
                                let j = choose|j: int|
                                    0 <= j < i && (#[trigger] parents@.take(i as int)[j]) is Some
                                        && path_view(parents@.take(i as int)[j]->0) == d;
                                assert(parents@[j] == parents@.take(i as int)[j]);
                            }
                        }
                        assert(after =~= before.insert(d));
                    }
                }
                if !seen {
                    dirs = dirs + 1;
                }
            },
            None => {
                assert(after =~= before);
            },
        }
        assert(tokens@.take(i + 1).drop_last() == tokens@.take(i as int));
        if tokens[i] > usize::MAX - total {
            proof {
                lemma_token_sum_grows(tokens@, i + 1);
            }
            return None;
        }
        total = total + tokens[i];
        i = i + 1;
    }
    assert(parents@.take(parents.len() as int) == parents@);
    assert(tokens@.take(tokens.len() as int) == tokens@);
    Some((dirs, parents.len(), total))
}

} // verus!
