//! Joining index candidates back to metadata, in score order.
//!
//! A search yields candidate `(id, score key)` pairs. Each id is resolved
//! against the loaded metadata records — the latest record for an id wins,
//! and unresolved ids (the residue of a partial failure) are silently
//! dropped. The hits are then sorted by score, higher first and ties in
//! candidate order, and truncated to the requested page.

use vstd::prelude::*;
use crate::rank::spec_min;
use crate::review::{clone_record, ReviewView, StoredReview};

verus! {

/// One search result: a stored review and the score key it was ranked by.
#[derive(Debug)]
pub struct SearchHit {
    pub review: StoredReview,
    pub score_key: u64,
}

/// The mathematical value of a hit.
pub struct HitView {
    pub review: ReviewView,
    pub score_key: u64,
}

impl View for SearchHit {
    type V = HitView;

    open spec fn view(&self) -> HitView {
        HitView { review: self.review@, score_key: self.score_key }
    }
}

/// A ranked result page.
#[derive(Debug)]
pub struct SearchResponse {
    pub hits: Vec<SearchHit>,
}

/// The values of a record list.
pub open spec fn records_view(rs: Seq<StoredReview>) -> Seq<ReviewView> {
    rs.map_values(|r: StoredReview| r@)
}

/// The values of a hit list.
pub open spec fn hits_view(hs: Seq<SearchHit>) -> Seq<HitView> {
    hs.map_values(|h: SearchHit| h@)
}

/// The record an id resolves to: the last one stored under it, if any.
pub open spec fn lookup_record(rs: Seq<ReviewView>, vid: int) -> Option<ReviewView>
    decreases rs.len(),
{
    if rs.len() == 0 {
        None
    } else if rs.last().vector_id == vid {
        Some(rs.last())
    } else {
        lookup_record(rs.drop_last(), vid)
    }
}

/// The hit one candidate contributes: none when its id is negative, too
/// large for this platform, or resolves to no record.
pub open spec fn hit_of(c: (i64, u64), rs: Seq<ReviewView>) -> Seq<HitView> {
    if 0 <= c.0 <= usize::MAX {
        match lookup_record(rs, c.0 as int) {
            Some(r) => seq![HitView { review: r, score_key: c.1 }],
            None => Seq::empty(),
        }
    } else {
        Seq::empty()
    }
}

/// Every candidate's hit, in candidate order.
pub open spec fn joined_spec(cands: Seq<(i64, u64)>, rs: Seq<ReviewView>) -> Seq<HitView>
    decreases cands.len(),
{
    if cands.len() == 0 {
        Seq::empty()
    } else {
        hit_of(cands[0], rs) + joined_spec(cands.drop_first(), rs)
    }
}

/// Inserts a hit behind every hit that scores at least as high: a stable
/// descending insertion.
pub open spec fn insert_desc(x: HitView, s: Seq<HitView>) -> Seq<HitView>
    decreases s.len(),
{
    if s.len() == 0 {
        seq![x]
    } else if s[0].score_key >= x.score_key {
        seq![s[0]] + insert_desc(x, s.drop_first())
    } else {
        seq![x] + s
    }
}

/// Sorts hits by score, higher first, ties keeping their order.
pub open spec fn sort_desc(s: Seq<HitView>) -> Seq<HitView>
    decreases s.len(),
{
    if s.len() == 0 {
        Seq::empty()
    } else {
        insert_desc(s.last(), sort_desc(s.drop_last()))
    }
}

/// Hits listed in non-increasing score order.
pub open spec fn sorted_desc(s: Seq<HitView>) -> bool {
    forall|x: int, y: int| 0 <= x < y < s.len() ==> s[x].score_key >= s[y].score_key
}

proof fn lemma_insert_desc_len(x: HitView, s: Seq<HitView>)
    ensures
        insert_desc(x, s).len() == s.len() + 1,
    decreases s.len(),
{
    if s.len() > 0 && s[0].score_key >= x.score_key {
        lemma_insert_desc_len(x, s.drop_first());
    }
}

proof fn lemma_insert_desc_sorted(x: HitView, s: Seq<HitView>)
    requires
        sorted_desc(s),
    ensures
        sorted_desc(insert_desc(x, s)),
        insert_desc(x, s).len() == s.len() + 1,
    decreases s.len(),
{
    lemma_insert_desc_len(x, s);
    if s.len() == 0 {
    } else if s[0].score_key >= x.score_key {
        assert(sorted_desc(s.drop_first()));
        lemma_insert_desc_sorted(x, s.drop_first());
        let r = insert_desc(x, s);
        let rr = insert_desc(x, s.drop_first());
        assert(r == seq![s[0]] + rr);
        assert forall|a: int, b: int| 0 <= a < b < r.len() implies r[a].score_key
            >= r[b].score_key by {
            if a == 0 {
                if b <= s.len() - s.drop_first().len() {
                }
                lemma_insert_member(x, s.drop_first(), b - 1);
            } else {
                assert(r[a] == rr[a - 1] && r[b] == rr[b - 1]);
            }
        }
    } else {
    }
}

/// Every element of an insertion's result is the inserted hit or one of the
/// original hits.
proof fn lemma_insert_member(x: HitView, s: Seq<HitView>, i: int)
    requires
        0 <= i < insert_desc(x, s).len(),
    ensures
        insert_desc(x, s)[i] == x || exists|m: int|
            0 <= m < s.len() && s[m] == insert_desc(x, s)[i],
    decreases s.len(),
{
    if s.len() == 0 {
    } else if s[0].score_key >= x.score_key {
        if i == 0 {
            assert(s[0] == insert_desc(x, s)[0]);
        } else {
            lemma_insert_member(x, s.drop_first(), i - 1);
            assert(insert_desc(x, s)[i] == insert_desc(x, s.drop_first())[i - 1]);
            if insert_desc(x, s.drop_first())[i - 1] == x {
            } else {
                let m = choose|m: int|
                    0 <= m < s.drop_first().len() && s.drop_first()[m] == insert_desc(
                        x,
                        s.drop_first(),
                    )[i - 1];
                assert(s[m + 1] == insert_desc(x, s)[i]);
            }
        }
    } else {
        if i == 0 {
        } else {
            assert(s[i - 1] == insert_desc(x, s)[i]);
        }
    }
}

proof fn lemma_sort_desc_sorted(s: Seq<HitView>)
    ensures
        sorted_desc(sort_desc(s)),
        sort_desc(s).len() == s.len(),
    decreases s.len(),
{
    if s.len() > 0 {
        lemma_sort_desc_sorted(s.drop_last());
        lemma_insert_desc_sorted(s.last(), sort_desc(s.drop_last()));
    }
}

/// An insertion by position equals the insertion the specification makes:
/// `p` is the first position whose hit scores below the new one.
proof fn lemma_insert_desc_at(x: HitView, s: Seq<HitView>, p: int)
    requires
        0 <= p <= s.len(),
        forall|m: int| 0 <= m < p ==> s[m].score_key >= x.score_key,
        p < s.len() ==> s[p].score_key < x.score_key,
    ensures
        insert_desc(x, s) == s.take(p) + seq![x] + s.skip(p),
    decreases p,
{
    if p == 0 {
        if s.len() == 0 {
            assert(insert_desc(x, s) =~= s.take(0) + seq![x] + s.skip(0));
        } else {
            assert(insert_desc(x, s) =~= s.take(0) + seq![x] + s.skip(0));
        }
    } else {
        lemma_insert_desc_at(x, s.drop_first(), p - 1);
        assert(insert_desc(x, s) == seq![s[0]] + insert_desc(x, s.drop_first()));
        assert(s.drop_first().take(p - 1) =~= s.take(p).drop_first());
        assert(s.drop_first().skip(p - 1) =~= s.skip(p));
        assert(insert_desc(x, s) =~= s.take(p) + seq![x] + s.skip(p));
    }
}

proof fn lemma_joined_take_succ(cands: Seq<(i64, u64)>, rs: Seq<ReviewView>, i: int)
    requires
        0 <= i < cands.len(),
    ensures
        joined_spec(cands.take(i + 1), rs) == joined_spec(cands.take(i), rs) + hit_of(
            cands[i],
            rs,
        ),
    decreases i,
{
    if i == 0 {
        reveal_with_fuel(joined_spec, 2);
        assert(cands.take(1)[0] == cands[0]);
        assert(cands.take(1).drop_first() =~= Seq::<(i64, u64)>::empty());
        assert(joined_spec(cands.take(0), rs) =~= Seq::<HitView>::empty());
        assert(joined_spec(cands.take(1), rs) =~= hit_of(cands[0], rs));
        assert(joined_spec(cands.take(0), rs) + hit_of(cands[0], rs) =~= hit_of(cands[0], rs));
    } else {
        lemma_joined_take_succ(cands.drop_first(), rs, i - 1);
        assert(cands.take(i + 1)[0] == cands[0]);
        assert(cands.take(i)[0] == cands[0]);
        assert(cands.take(i + 1).drop_first() =~= cands.drop_first().take(i));
        assert(cands.take(i).drop_first() =~= cands.drop_first().take(i - 1));
        assert(cands.drop_first()[i - 1] == cands[i]);
        assert(joined_spec(cands.take(i + 1), rs) =~= joined_spec(cands.take(i), rs) + hit_of(
            cands[i],
            rs,
        ));
    }
}

/// Finds the latest record stored under `vid`, by position.
fn find_record(records: &Vec<StoredReview>, vid: usize) -> (r: Option<usize>)
    ensures
        match r {
            Some(ix) => ix < records@.len() && records@[ix as int].vector_id == vid
                && lookup_record(records_view(records@), vid as int) == Some(
                records@[ix as int]@,
            ),
            None => lookup_record(records_view(records@), vid as int) is None,
        },
{
    let ghost rv = records_view(records@);
    let mut i: usize = records.len();
    proof {
        assert(rv.take(rv.len() as int) =~= rv);
        assert(lookup_record(rv, vid as int) == lookup_record(rv.take(i as int), vid as int));
    }
    while i > 0
        invariant
            i <= records@.len(),
            rv == records_view(records@),
            lookup_record(rv, vid as int) == lookup_record(rv.take(i as int), vid as int),
        decreases i,
    {
        i = i - 1;
        if records[i].vector_id == vid {
            proof {
                assert(rv.take(i + 1).last() == rv[i as int]);
                assert(rv[i as int] == records@[i as int]@);
                assert(lookup_record(rv.take(i + 1), vid as int) == Some(rv[i as int]));
            }
            return Some(i);
        }
        proof {
            assert(rv.take(i + 1).last() == rv[i as int]);
            assert(rv[i as int] == records@[i as int]@);
            assert(rv.take(i + 1).drop_last() =~= rv.take(i as int));
            assert(lookup_record(rv.take(i + 1), vid as int) == lookup_record(
                rv.take(i as int),
                vid as int,
            ));
        }
    }
    proof {
        assert(rv.take(0) =~= Seq::<ReviewView>::empty());
    }
    None
}

/// Resolves candidates against the records, sorts the hits by score —
/// higher first, ties in candidate order — and truncates to `page`
/// results. Unresolved candidate ids are dropped.
pub fn search_join(candidates: &Vec<(i64, u64)>, records: &Vec<StoredReview>, page: usize) -> (r:
    Vec<SearchHit>)
    ensures
        hits_view(r@) == sort_desc(joined_spec(candidates@, records_view(records@))).take(
            spec_min(page as int, joined_spec(candidates@, records_view(records@)).len() as int),
        ),
        sorted_desc(hits_view(r@)),
        r@.len() == spec_min(
            page as int,
            joined_spec(candidates@, records_view(records@)).len() as int,
        ),
{
    let ghost rv = records_view(records@);
    let mut joined: Vec<SearchHit> = Vec::new();
    let mut i: usize = 0;
    proof {
        assert(candidates@.take(0) =~= Seq::<(i64, u64)>::empty());
        assert(hits_view(joined@) =~= joined_spec(candidates@.take(0), rv));
    }
    while i < candidates.len()
        invariant
            i <= candidates@.len(),
            rv == records_view(records@),
            hits_view(joined@) == joined_spec(candidates@.take(i as int), rv),
        decreases candidates@.len() - i,
    {
        let (cid, key) = candidates[i];
        let ghost pre = joined@;
        if cid >= 0 && cid as u64 <= usize::MAX as u64 {
            let vid = cid as usize;
            match find_record(records, vid) {
                Some(ix) => {
                    let hit = SearchHit { review: clone_record(&records[ix]), score_key: key };
                    joined.push(hit);
                    proof {
                        assert(hit_of(candidates@[i as int], rv) =~= seq![
                            HitView {
                                review: records@[ix as int]@,
                                score_key: key,
                            },
                        ]);
                        assert(hits_view(joined@) =~= hits_view(pre) + hit_of(
                            candidates@[i as int],
                            rv,
                        ));
                    }
                },
                None => {
                    proof {
                        assert(hit_of(candidates@[i as int], rv) =~= Seq::<HitView>::empty());
                        assert(hits_view(joined@) =~= hits_view(pre) + hit_of(
                            candidates@[i as int],
                            rv,
                        ));
                    }
                },
            }
        } else {
            proof {
                assert(hit_of(candidates@[i as int], rv) =~= Seq::<HitView>::empty());
                assert(hits_view(joined@) =~= hits_view(pre) + hit_of(candidates@[i as int], rv));
            }
        }
        proof {
            lemma_joined_take_succ(candidates@, rv, i as int);
        }
        i = i + 1;
    }
    proof {
        assert(candidates@.take(candidates@.len() as int) =~= candidates@);
    }
    let ghost jv = hits_view(joined@);
    let mut out: Vec<SearchHit> = Vec::new();
    proof {
        assert(hits_view(out@) =~= sort_desc(jv.take(0)));
        assert(joined@.map_values(|h: SearchHit| h@) == jv);
        assert(jv.skip(0) =~= jv);
        assert(hits_view(joined@) =~= jv.skip(0));
    }
    while joined.len() > 0
        invariant
            out@.len() + joined@.len() == jv.len(),
            hits_view(joined@) == jv.skip(out@.len() as int),
            hits_view(out@) == sort_desc(jv.take(out@.len() as int)),
        decreases joined@.len(),
    {
        let ghost t = out@.len() as int;
        let ghost pre_j = joined@;
        let h = joined.remove(0);
        proof {
            assert(hits_view(pre_j)[0] == pre_j[0]@);
            assert(h@ == jv.skip(t)[0]);
            assert(h@ == jv[t]);
            assert(joined@ =~= pre_j.skip(1));
            assert forall|m: int| 0 <= m < joined@.len() implies hits_view(joined@)[m] == jv.skip(
                t + 1,
            )[m] by {
                assert(hits_view(joined@)[m] == joined@[m]@);
                assert(joined@[m] == pre_j[m + 1]);
                assert(hits_view(pre_j)[m + 1] == pre_j[m + 1]@);
                assert(hits_view(pre_j)[m + 1] == jv.skip(t)[m + 1]);
            }
            assert(hits_view(joined@) =~= jv.skip(t + 1));
        }
        let mut p: usize = 0;
        loop
            invariant_except_break
                p <= out@.len(),
                hits_view(out@) == sort_desc(jv.take(t)),
                out@.len() == t,
                h@ == jv[t],
                0 <= t < jv.len(),
                forall|m: int| 0 <= m < p ==> hits_view(out@)[m].score_key >= h@.score_key,
            ensures
                p <= out@.len(),
                out@.len() == t,
                forall|m: int| 0 <= m < p ==> hits_view(out@)[m].score_key >= h@.score_key,
                p < out@.len() ==> hits_view(out@)[p as int].score_key < h@.score_key,
            decreases out@.len() - p,
        {
            if p == out.len() {
                break;
            }
            if out[p].score_key < h.score_key {
                proof {
                    assert(hits_view(out@)[p as int].score_key == out@[p as int].score_key);
                }
                break;
            }
            proof {
                assert(hits_view(out@)[p as int].score_key == out@[p as int].score_key);
            }
            p = p + 1;
        }
        let ghost pre_out = hits_view(out@);
        out.insert(p, h);
        proof {
            lemma_insert_desc_at(jv[t], pre_out, p as int);
            assert(hits_view(out@) =~= pre_out.take(p as int) + seq![jv[t]] + pre_out.skip(
                p as int,
            ));
            assert(hits_view(out@) == insert_desc(jv[t], pre_out));
            assert(jv.take(t + 1).drop_last() =~= jv.take(t));
            assert(jv.take(t + 1).last() == jv[t]);
            assert(sort_desc(jv.take(t + 1)) == insert_desc(jv[t], sort_desc(jv.take(t))));
        }
    }
    proof {
        assert(jv.take(jv.len() as int) =~= jv);
        lemma_sort_desc_sorted(jv);
    }
    if out.len() > page {
        let ghost pre_out = hits_view(out@);
        out.truncate(page);
        proof {
            assert(hits_view(out@) =~= pre_out.take(page as int));
        }
    }
    proof {
        assert(hits_view(out@) =~= sort_desc(jv).take(
            spec_min(page as int, jv.len() as int),
        ));
        lemma_sort_desc_sorted(jv);
        assert(sorted_desc(hits_view(out@)));
    }
    out
}

} // verus!
