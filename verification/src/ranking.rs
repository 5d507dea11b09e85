//! Keeping the best-scored candidates after reranking: a stable sort by
//! descending score, cut to the requested number.
use vstd::prelude::*;

verus! {

/// Candidate `a` comes before candidate `b`: a higher score, or the same score
/// and an earlier position (the order a stable descending sort gives).
pub open spec fn ranks_before(scores: Seq<u32>, a: int, b: int) -> bool {
    scores[a] > scores[b] || (scores[a] == scores[b] && a < b)
}

/// `order` holds the positions of the best `min(k, n)` of the `n` candidates,
/// best first: every position is a candidate's, each comes before the ones
/// after it, and before every candidate left out.
pub open spec fn is_top_ranking(scores: Seq<u32>, order: Seq<usize>, k: nat) -> bool {
    &&& order.len() == if k <= scores.len() {
        k
    } else {
        scores.len()
    }
    &&& forall|i: int| 0 <= i < order.len() ==> (#[trigger] order[i]) < scores.len()
    &&& forall|i: int, j: int|
        0 <= i < j < order.len() ==> ranks_before(scores, #[trigger] order[i] as int, #[trigger] order[j] as int)
    &&& forall|i: int, x: int|
        0 <= i < order.len() && 0 <= x < scores.len() && !order.contains(x as usize)
            ==> #[trigger] ranks_before(scores, order[i] as int, x)
}

/// The positions of the best `k` candidates by `scores`, best first, ties in
/// their original order (see [`is_top_ranking`]).
pub fn top_k(scores: &Vec<u32>, k: usize) -> (order: Vec<usize>)
    ensures
        is_top_ranking(scores@, order@, k as nat),
{
    let n = scores.len();
    let mut ranked: Vec<usize> = Vec::new();
    let mut x: usize = 0;
    while x < n
        invariant
            n == scores.len(),
            x <= n,
            ranked@.len() == x,
            forall|i: int| 0 <= i < ranked@.len() ==> (#[trigger] ranked@[i]) < x,
            forall|y: int| 0 <= y < x ==> #[trigger] ranked@.contains(y as usize),
            forall|i: int, j: int|
                0 <= i < j < ranked@.len() ==> ranks_before(
                    scores@,
                    #[trigger] ranked@[i] as int,
                    #[trigger] ranked@[j] as int,
                ),
        decreases n - x,
    {
        let mut p: usize = 0;
        while p < ranked.len() && scores[ranked[p]] >= scores[x]
            invariant
                n == scores.len(),
                x < n,
                p <= ranked@.len(),
                forall|i: int| 0 <= i < ranked@.len() ==> (#[trigger] ranked@[i]) < x,
                forall|i: int| 0 <= i < p ==> scores@[#[trigger] ranked@[i] as int] >= scores@[x as int],
            decreases ranked@.len() - p,
        {
            p = p + 1;
        }
        let ghost old_ranked = ranked@;
        ranked.insert(p, x);
        proof {
            assert(ranked@ == old_ranked.insert(p as int, x));
            assert forall|q: int| p <= q < old_ranked.len() implies ranked@[q + 1] == old_ranked[q] by {
                assert(old_ranked.insert(p as int, x)[q + 1] == old_ranked[q]);
            }
            assert forall|q: int| 0 <= q < p implies ranked@[q] == old_ranked[q] by {
                assert(old_ranked.insert(p as int, x)[q] == old_ranked[q]);
            }
            assert forall|i: int| 0 <= i < ranked@.len() implies (#[trigger] ranked@[i]) < x + 1 by {
                if i < p {
                    assert(ranked@[i] == old_ranked[i]);
                } else if i > p {
                    assert(ranked@[i] == old_ranked[i - 1]);
                }
            }
            assert forall|y: int| 0 <= y < x + 1 implies #[trigger] ranked@.contains(y as usize) by {
                if y == x {
                    assert(ranked@[p as int] == x);
                } else {
                    assert(old_ranked.contains(y as usize));
                    let q = choose|q: int| 0 <= q < old_ranked.len() && old_ranked[q] == y as usize;
                    if q < p {
                        assert(ranked@[q] == old_ranked[q]);
                    } else {
                        assert(ranked@[q + 1] == old_ranked[q]);
                    }
                }
            }
            assert forall|i: int, j: int| 0 <= i < j < ranked@.len() implies ranks_before(
                scores@,
                #[trigger] ranked@[i] as int,
                #[trigger] ranked@[j] as int,
            ) by {
                if j < p {
                    assert(ranked@[i] == old_ranked[i]);
                    assert(ranked@[j] == old_ranked[j]);
                } else if j == p {
                    assert(ranked@[i] == old_ranked[i]);
                } else if i < p {
                    assert(ranked@[i] == old_ranked[i]);
                    assert(ranked@[j] == old_ranked[j - 1]);
                } else if i == p {
                    assert(ranked@[j] == old_ranked[j - 1]);
                    assert(scores@[old_ranked[p as int] as int] < scores@[x as int]);
                    if j - 1 > p {
                        assert(ranks_before(scores@, old_ranked[p as int] as int, old_ranked[j - 1] as int));
                    }
                } else {
                    assert(ranked@[i] == old_ranked[i - 1]);
                    assert(ranked@[j] == old_ranked[j - 1]);
                }
            }
        }
        x = x + 1;
    }
    let m = if k <= n {
        k
    } else {
        n
    };
    let ghost full = ranked@;
    ranked.truncate(m);
    proof {
        assert(ranked@ == full.take(m as int));
        assert forall|i: int, y: int|
            0 <= i < ranked@.len() && 0 <= y < scores@.len() && !ranked@.contains(
                y as usize,
            ) implies #[trigger] ranks_before(scores@, ranked@[i] as int, y) by {
            assert(full.contains(y as usize));
            let q = choose|q: int| 0 <= q < full.len() && full[q] == y as usize;
            if q < m {
                assert(ranked@[q] == full[q]);
                assert(ranked@.contains(y as usize));
            }
            assert(ranked@[i] == full[i]);
            assert(ranks_before(scores@, full[i] as int, full[q] as int));
        }
    }
    ranked
}

/// The best `k` candidates in order are determined by the scores alone: two
/// orders that both satisfy [`is_top_ranking`] are the same.
pub proof fn law_top_ranking_unique(scores: Seq<u32>, a: Seq<usize>, b: Seq<usize>, k: nat)
    requires
        is_top_ranking(scores, a, k),
        is_top_ranking(scores, b, k),
    ensures
        a == b,
{
    if exists|i: int| 0 <= i < a.len() && a[i] != b[i] {
        let d = choose|i: int| 0 <= i < a.len() && a[i] != b[i] && forall|j: int|
            0 <= j < i ==> a[j] == b[j];
        assert(exists|i: int| 0 <= i < a.len() && a[i] != b[i] && forall|j: int|
            0 <= j < i ==> a[j] == b[j]) by {
            let i0 = choose|i: int| 0 <= i < a.len() && a[i] != b[i];
            lemma_first_difference(a, b, i0);
        }
        lemma_before(scores, b, a, d);
        lemma_before(scores, a, b, d);
        assert(false);
    }
    assert(a =~= b);
}

proof fn lemma_first_difference(a: Seq<usize>, b: Seq<usize>, i0: int)
    requires
        a.len() == b.len(),
        0 <= i0 < a.len(),
        a[i0] != b[i0],
    ensures
        exists|i: int| 0 <= i < a.len() && a[i] != b[i] && forall|j: int| 0 <= j < i ==> a[j] == b[j],
    decreases i0,
{
    if exists|j: int| 0 <= j < i0 && a[j] != b[j] {
        let j0 = choose|j: int| 0 <= j < i0 && a[j] != b[j];
        lemma_first_difference(a, b, j0);
    } else {
        assert(forall|j: int| 0 <= j < i0 ==> a[j] == b[j]);
    }
}

/// Where two top rankings first differ at `d`, `x[d]` ranks before `y[d]`.
proof fn lemma_before(scores: Seq<u32>, x: Seq<usize>, y: Seq<usize>, d: int)
    requires
        is_top_ranking(scores, x, x.len()),
        x.len() == y.len(),
        forall|i: int| 0 <= i < y.len() ==> (#[trigger] y[i]) < scores.len(),
        forall|i: int, j: int|
            0 <= i < j < y.len() ==> ranks_before(scores, #[trigger] y[i] as int, #[trigger] y[j] as int),
        0 <= d < x.len(),
        x[d] != y[d],
        forall|j: int| 0 <= j < d ==> x[j] == y[j],
    ensures
        ranks_before(scores, x[d] as int, y[d] as int),
{
    if x.contains(y[d]) {
        let q = choose|q: int| 0 <= q < x.len() && x[q] == y[d];
        if q < d {
            assert(y[q] == y[d]);
            assert(ranks_before(scores, y[q] as int, y[d] as int));
        }
        assert(q != d);
    } else {
        assert(ranks_before(scores, x[d] as int, y[d] as int));
    }
}

/// The number of candidates fetched before reranking: `k` times the
/// `multiplier`; `None` when that does not fit in a `usize`.
pub fn candidate_count(k: usize, multiplier: usize) -> (r: Option<usize>)
    ensures
        match r {
            Some(n) => n == k * multiplier,
            None => k * multiplier > usize::MAX,
        },
{
    k.checked_mul(multiplier)
}

} // verus!
