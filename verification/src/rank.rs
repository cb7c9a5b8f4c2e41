//! Ranking candidates by score.
//!
//! A search scores every stored vector and keeps the best `k`. Scores are
//! compared as unsigned keys, higher is better; ties are broken by index, so
//! earlier-inserted vectors win. The selection is pinned completely: the
//! result is the unique list that is sorted by preference, draws its entries
//! from the scores, and dominates everything it leaves out.

use vstd::prelude::*;

verus! {

/// The smaller of two values.
pub open spec fn spec_min(a: int, b: int) -> int {
    if a < b {
        a
    } else {
        b
    }
}

/// Whether the vector at index `a` ranks strictly before the one at `b`:
/// higher score first, ties broken by insertion order.
pub open spec fn prefers(scores: Seq<u64>, a: int, b: int) -> bool
    recommends
        0 <= a < scores.len(),
        0 <= b < scores.len(),
{
    scores[a] > scores[b] || (scores[a] == scores[b] && a < b)
}

/// Whether index `j` occurs among the hits.
pub open spec fn in_hits(hits: Seq<(usize, u64)>, j: int) -> bool {
    exists|x: int| 0 <= x < hits.len() && (#[trigger] hits[x]).0 == j
}

/// Hits are entries of the score table, listed in strictly descending
/// preference.
pub open spec fn hits_wf(scores: Seq<u64>, hits: Seq<(usize, u64)>) -> bool {
    &&& forall|x: int|
        0 <= x < hits.len() ==> (#[trigger] hits[x]).0 < scores.len() && hits[x].1 == scores[hits[
            x].0 as int]
    &&& forall|x: int, y: int|
        0 <= x < y < hits.len() ==> prefers(scores, (#[trigger] hits[x]).0 as int, (#[trigger] hits[
            y]).0 as int)
}

/// What a top-`k` selection owes: exactly `min(k, n)` hits, well-formed and
/// sorted, every omitted index dominated by every hit.
pub open spec fn top_k_valid(scores: Seq<u64>, k: int, hits: Seq<(usize, u64)>) -> bool {
    &&& hits.len() == spec_min(k, scores.len() as int)
    &&& hits_wf(scores, hits)
    &&& forall|j: int|
        0 <= j < scores.len() && !in_hits(hits, j) ==> (forall|x: int|
            0 <= x < hits.len() ==> prefers(scores, (#[trigger] hits[x]).0 as int, j))
}

/// Ranks every index by preference: the full standings, best first.
fn rank_all(scores: &Vec<u64>) -> (hits: Vec<(usize, u64)>)
    ensures
        hits@.len() == scores@.len(),
        hits_wf(scores@, hits@),
        forall|j: int| 0 <= j < scores@.len() ==> in_hits(hits@, j),
{
    let n = scores.len();
    let mut hits: Vec<(usize, u64)> = Vec::new();
    let mut j: usize = 0;
    while j < n
        invariant
            j <= n,
            n == scores@.len(),
            hits@.len() == j,
            hits_wf(scores@, hits@),
            forall|m: int| 0 <= m < j ==> in_hits(hits@, m),
            forall|x: int| 0 <= x < hits@.len() ==> (#[trigger] hits@[x]).0 < j,
        decreases n - j,
    {
        let sj = scores[j];
        let mut p: usize = 0;
        loop
            invariant_except_break
                p <= hits@.len(),
                hits@.len() == j < n,
                n == scores@.len(),
                hits_wf(scores@, hits@),
                forall|m: int| 0 <= m < p ==> prefers(scores@, (#[trigger] hits@[m]).0 as int, j as int),
                forall|x: int| 0 <= x < hits@.len() ==> (#[trigger] hits@[x]).0 < j,
                sj == scores@[j as int],
            ensures
                p <= hits@.len(),
                hits@.len() == j,
                forall|m: int| 0 <= m < p ==> prefers(scores@, (#[trigger] hits@[m]).0 as int, j as int),
                p < hits@.len() ==> prefers(scores@, j as int, hits@[p as int].0 as int),
            decreases hits@.len() - p,
        {
            if p == hits.len() {
                break;
            }
            let hp = hits[p].0;
            let sp = hits[p].1;
            if sj > sp || (sj == sp && j < hp) {
                break;
            }
            proof {
                assert(prefers(scores@, hits@[p as int].0 as int, j as int));
            }
            p = p + 1;
        }
        let ghost old_hits = hits@;
        hits.insert(p, (j, sj));
        proof {
            assert(hits@ =~= old_hits.insert(p as int, (j, sj)));
            assert(forall|x: int| 0 <= x < p ==> hits@[x] == old_hits[x]);
            assert(hits@[p as int] == (j, sj));
            assert(forall|x: int| p < x < hits@.len() ==> hits@[x] == old_hits[x - 1]);
            assert forall|x: int, y: int| 0 <= x < y < hits@.len() implies prefers(
                scores@,
                hits@[x].0 as int,
                hits@[y].0 as int,
            ) by {
                if y < p {
                } else if y == p {
                    assert(prefers(scores@, old_hits[x].0 as int, j as int));
                } else if x == p {
                    if y == p + 1 {
                        assert(prefers(scores@, j as int, old_hits[p as int].0 as int));
                    } else {
                        assert(prefers(scores@, j as int, old_hits[p as int].0 as int));
                        assert(prefers(scores@, old_hits[p as int].0 as int, old_hits[y - 1].0 as int));
                    }
                } else if x < p {
                } else {
                }
            }
            assert forall|m: int| 0 <= m < j + 1 implies in_hits(hits@, m) by {
                if m == j {
                    assert(hits@[p as int].0 == j);
                } else {
                    assert(in_hits(old_hits, m));
                    let x = choose|x: int| 0 <= x < old_hits.len() && (#[trigger] old_hits[x]).0 == m;
                    if x < p {
                        assert(hits@[x].0 == m);
                    } else {
                        assert(hits@[x + 1].0 == m);
                    }
                }
            }
        }
        j = j + 1;
    }
    hits
}

/// Selects the `k` best-scoring indices: at most `k` results, higher scores
/// first, ties in insertion order, and nothing kept out that would outrank a
/// result. `k == 0` yields an empty list.
pub fn select_top_k(scores: &Vec<u64>, k: usize) -> (hits: Vec<(usize, u64)>)
    ensures
        top_k_valid(scores@, k as int, hits@),
{
    let mut hits = rank_all(scores);
    let ghost full = hits@;
    if k < hits.len() {
        hits.truncate(k);
        proof {
            assert(hits@ =~= full.take(k as int));
        }
    }
    proof {
        assert(hits@.len() == spec_min(k as int, scores@.len() as int));
        assert forall|j: int| 0 <= j < scores@.len() && !in_hits(hits@, j) implies (forall|x: int|
            0 <= x < hits@.len() ==> prefers(scores@, (#[trigger] hits@[x]).0 as int, j)) by {
            assert(in_hits(full, j));
            let q = choose|q: int| 0 <= q < full.len() && (#[trigger] full[q]).0 == j;
            if q < hits@.len() {
                assert(hits@[q].0 == j);
                assert(in_hits(hits@, j));
            } else {
                assert forall|x: int| 0 <= x < hits@.len() implies prefers(
                    scores@,
                    (#[trigger] hits@[x]).0 as int,
                    j,
                ) by {
                    assert(prefers(scores@, full[x].0 as int, full[q].0 as int));
                }
            }
        }
    }
    hits
}

} // verus!
