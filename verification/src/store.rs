//! The store coordinator.
//!
//! `AppState` owns the vector index, the current paths, the id allocator,
//! and the two log counts. Inserts validate, reserve ids, commit vectors
//! and produce the exact log lines to append; reconfiguration publishes a
//! whole new configuration in one step; the alignment check compares the
//! vector count with the map log's line count. The caller performs the file
//! writes and, for the native backend, the foreign calls, handing plain
//! values in and out.

use vstd::prelude::*;
use crate::brute::{chunks_spec, lemma_chunks_concat, lemma_chunks_single, lemma_deep_view_index,
    BruteIndex};
use crate::errors::StoreError;
use crate::idalloc::IdAllocator;
use crate::jsonl::{render_map_line, render_review_line};
use crate::native::Spfresh;
use crate::review::{review_input_valid, spec_validate, stored_from, BulkReviews, ReviewInput,
    SearchRequest, StoredReview};
use crate::text::trimmed_of;
use crate::vecfile::file_bytes;

verus! {

/// Where the three persisted artifacts live. Mutable only through
/// `reconfigure`, never field by field.
#[derive(Debug, Clone)]
pub struct Paths {
    pub index_path: String,
    pub jsonl_path: String,
    pub map_path: String,
}

/// The vector index behind its capability contract: an in-process
/// brute-force index, or the session model of a native engine whose handle
/// the caller keeps.
#[derive(Debug)]
pub enum VectorIndex {
    Brute(BruteIndex),
    Native(Spfresh),
}

impl VectorIndex {
    /// Well-formed: the active backend is.
    pub open spec fn wf(&self) -> bool {
        match self {
            VectorIndex::Brute(b) => b.wf(),
            VectorIndex::Native(s) => s.wf(),
        }
    }

    /// The number of committed vectors.
    pub open spec fn spec_len(&self) -> int {
        match self {
            VectorIndex::Brute(b) => b.view_vectors().len() as int,
            VectorIndex::Native(s) => s.committed as int,
        }
    }

    /// The configured dimension.
    pub open spec fn spec_dim(&self) -> int {
        match self {
            VectorIndex::Brute(b) => b.dim as int,
            VectorIndex::Native(s) => s.dim as int,
        }
    }

    /// The number of committed vectors.
    pub fn len(&self) -> (n: usize)
        ensures
            n == self.spec_len(),
    {
        match self {
            VectorIndex::Brute(b) => b.len(),
            VectorIndex::Native(s) => s.len(),
        }
    }

    /// The configured dimension.
    pub fn dim(&self) -> (d: usize)
        ensures
            d == self.spec_dim(),
    {
        match self {
            VectorIndex::Brute(b) => b.dim,
            VectorIndex::Native(s) => s.dim,
        }
    }
}

/// What one successful insert returns: the stored record, the record bytes
/// for the vector file, and the two log lines, ready to append.
#[derive(Debug)]
pub struct InsertOutcome {
    pub record: StoredReview,
    pub index_bytes: Vec<u8>,
    pub meta_line: String,
    pub map_line: String,
}

/// What one successful bulk insert returns, item by item in input order.
#[derive(Debug)]
pub struct BulkOutcome {
    pub records: Vec<StoredReview>,
    pub index_bytes: Vec<u8>,
    pub meta_lines: Vec<String>,
    pub map_lines: Vec<String>,
}

/// The coordinator's state: index, paths, allocator, and how many lines
/// each log holds.
#[derive(Debug)]
pub struct AppState {
    pub index: VectorIndex,
    pub paths: Paths,
    pub alloc: IdAllocator,
    pub meta_count: usize,
    pub map_count: usize,
}

impl AppState {
    /// Well-formed: the index is.
    pub open spec fn wf(&self) -> bool {
        self.index.wf()
    }

    /// The core consistency invariant: the index's vector count equals both
    /// logs' line counts.
    pub open spec fn aligned(&self) -> bool {
        self.index.spec_len() == self.map_count && self.map_count == self.meta_count
    }

    /// Assembles the steady state at startup: the freshly opened index, the
    /// configured paths, and the two log line counts, with the id allocator
    /// seeded from the map log's count.
    pub fn new(index: VectorIndex, paths: Paths, map_count: usize, meta_count: usize) -> (s:
        AppState)
        ensures
            s.index == index,
            s.paths == paths,
            s.alloc.next == map_count,
            s.map_count == map_count,
            s.meta_count == meta_count,
    {
        AppState { index, paths, alloc: IdAllocator::new(map_count), meta_count, map_count }
    }

    /// Publishes a whole new configuration — index, paths, and counts — as
    /// one unit; the id allocator restarts at the new map log's line count,
    /// so the next single reservation returns exactly that count. Nothing
    /// of the old configuration survives. On any earlier failure the caller
    /// simply never calls this, leaving the prior state intact.
    pub fn reconfigure(&mut self, index: VectorIndex, paths: Paths, map_count: usize,
        meta_count: usize)
        ensures
            final(self).index == index,
            final(self).paths == paths,
            final(self).alloc.next == map_count,
            final(self).map_count == map_count,
            final(self).meta_count == meta_count,
    {
        self.index = index;
        self.paths = paths;
        self.alloc = IdAllocator::new(map_count);
        self.map_count = map_count;
        self.meta_count = meta_count;
    }

    /// Validates, reserves one vector id, commits the embedding to the
    /// in-process index and builds the record and both log lines. A
    /// rejected input or a wrong-dimension vector changes nothing. The
    /// caller appends `index_bytes` to the vector file and the two lines to
    /// their logs, in that order.
    pub fn insert_review(&mut self, input: ReviewInput, vector: &Vec<u32>) -> (r: Result<
        InsertOutcome,
        StoreError,
    >)
        requires
            old(self).index is Brute,
            old(self).wf(),
            old(self).alloc.next < usize::MAX,
            old(self).meta_count < usize::MAX,
            old(self).map_count < usize::MAX,
        ensures
            final(self).wf(),
            final(self).index is Brute,
            final(self).paths == old(self).paths,
            r matches Err(e) ==> *final(self) == *old(self),
            r matches Err(StoreError::Validation(m)) <==> !review_input_valid(input),
            r matches Err(StoreError::Validation(m)) ==> (spec_validate(input) matches Err(s)
                && m@ == s),
            r matches Err(StoreError::DimensionMismatch) <==> (review_input_valid(input)
                && vector@.len() != old(self).index.spec_dim()),
            r is Ok <==> (review_input_valid(input) && vector@.len() == old(
                self,
            ).index.spec_dim()),
            r matches Ok(o) ==> {
                &&& stored_from(o.record, input, old(self).alloc.next)
                &&& final(self).alloc.next == old(self).alloc.next + 1
                &&& final(self).meta_count == old(self).meta_count + 1
                &&& final(self).map_count == old(self).map_count + 1
                &&& final(self).index.spec_len() == old(self).index.spec_len() + 1
                &&& final(self).index.spec_dim() == old(self).index.spec_dim()
                &&& (old(self).index matches VectorIndex::Brute(b0)
                    && final(self).index matches VectorIndex::Brute(b1)
                    && b1.view_vectors() == b0.view_vectors().push(vector@))
                &&& o.index_bytes@ == file_bytes(seq![vector@])
                &&& o.meta_line@ == crate::jsonl::review_line(o.record@)
                &&& o.map_line@ == crate::jsonl::map_line(
                    old(self).alloc.next as int,
                    o.record.id@,
                )
                &&& (old(self).aligned() ==> final(self).aligned())
            },
    {
        match input.validate() {
            Err(m) => {
                return Err(StoreError::Validation(m));
            },
            Ok(u) => {},
        }
        match &mut self.index {
            VectorIndex::Brute(b) => {
                if vector.len() != b.dim {
                    return Err(StoreError::DimensionMismatch);
                }
                let vid = self.alloc.reserve(1);
                let ghost pre_vecs = b.view_vectors();
                let bytes = match b.add_batch(vector, None) {
                    Ok(by) => by,
                    Err(e) => {
                        // Excluded by the index's contract: the checks
                        // above rule both of its errors out.
                        proof {
                            assert(false);
                        }
                        return Err(e);
                    },
                };
                proof {
                    reveal_with_fuel(chunks_spec, 2);
                    assert(vector@.take(b.dim as int) =~= vector@);
                    assert(vector@.skip(b.dim as int).len() == 0);
                    assert(chunks_spec(vector@, b.dim as int) =~= seq![vector@]);
                    assert(b.view_vectors() =~= pre_vecs.push(vector@));
                }
                let record = StoredReview::from_input(input, vid);
                let meta_line = render_review_line(&record);
                let map_line = render_map_line(vid, record.id.as_str());
                self.meta_count = self.meta_count + 1;
                self.map_count = self.map_count + 1;
                Ok(InsertOutcome { record, index_bytes: bytes, meta_line, map_line })
            },
            VectorIndex::Native(_) => {
                // Excluded by the precondition: this insert serves the
                // in-process backend alone.
                proof {
                    assert(false);
                }
                Err(StoreError::LockPoisoned)
            },
        }
    }

    /// Validates every item, reserves `n` contiguous vector ids, commits
    /// all `n` embeddings as one batch to the in-process index, and builds
    /// the records and log lines in item order. The whole batch is rejected
    /// on the first bad item, with nothing changed — no silent partial
    /// success. The caller appends `index_bytes` to the vector file and the
    /// lines to their logs.
    pub fn bulk_insert(&mut self, batch: BulkReviews, vectors: &Vec<Vec<u32>>) -> (r: Result<
        BulkOutcome,
        StoreError,
    >)
        requires
            old(self).index is Brute,
            old(self).wf(),
            old(self).alloc.next + batch.0@.len() <= usize::MAX,
            old(self).meta_count + batch.0@.len() <= usize::MAX,
            old(self).map_count + batch.0@.len() <= usize::MAX,
        ensures
            final(self).wf(),
            final(self).index is Brute,
            final(self).paths == old(self).paths,
            r matches Err(e) ==> *final(self) == *old(self),
            r is Ok <==> (batch.0@.len() > 0 && all_valid(batch.0@) && vectors@.len() == batch.0@.len()
                && (forall|i: int|
                0 <= i < vectors@.len() ==> (#[trigger] vectors@[i])@.len() == old(
                    self,
                ).index.spec_dim())),
            batch.0@.len() == 0 ==> (r matches Err(StoreError::Validation(m)) && m@
                == "Bulk list empty"@),
            batch.0@.len() > 0 && !all_valid(batch.0@) ==> (r matches Err(StoreError::Validation(m))
                && (spec_validate(batch.0@[first_invalid(batch.0@)]) matches Err(s) && m@ == s)),
            batch.0@.len() > 0 && all_valid(batch.0@) && vectors@.len() != batch.0@.len() ==> (r matches
                Err(StoreError::Engine(m)) && m@ == "embedding count mismatch"@),
            batch.0@.len() > 0 && all_valid(batch.0@) && vectors@.len() == batch.0@.len() && !(forall|
                i: int,
            |
                0 <= i < vectors@.len() ==> (#[trigger] vectors@[i])@.len() == old(
                    self,
                ).index.spec_dim()) ==> r matches Err(StoreError::DimensionMismatch),
            r matches Ok(o) ==> {
                &&& o.records@.len() == batch.0@.len()
                &&& o.meta_lines@.len() == batch.0@.len()
                &&& o.map_lines@.len() == batch.0@.len()
                &&& forall|i: int|
                    0 <= i < batch.0@.len() ==> stored_from(
                        #[trigger] o.records@[i],
                        batch.0@[i],
                        (old(self).alloc.next + i) as usize,
                    )
                &&& forall|i: int|
                    0 <= i < batch.0@.len() ==> (#[trigger] o.meta_lines@[i])@
                        == crate::jsonl::review_line(o.records@[i]@)
                &&& forall|i: int|
                    0 <= i < batch.0@.len() ==> (#[trigger] o.map_lines@[i])@
                        == crate::jsonl::map_line(
                        old(self).alloc.next + i,
                        o.records@[i].id@,
                    )
                &&& final(self).alloc.next == old(self).alloc.next + batch.0@.len()
                &&& final(self).meta_count == old(self).meta_count + batch.0@.len()
                &&& final(self).map_count == old(self).map_count + batch.0@.len()
                &&& final(self).index.spec_len() == old(self).index.spec_len() + batch.0@.len()
                &&& final(self).index.spec_dim() == old(self).index.spec_dim()
                &&& (old(self).index matches VectorIndex::Brute(b0)
                    && final(self).index matches VectorIndex::Brute(b1)
                    && b1.view_vectors() == b0.view_vectors() + vectors.deep_view())
                &&& o.index_bytes@ == file_bytes(vectors.deep_view())
                &&& (old(self).aligned() ==> final(self).aligned())
            },
    {
        let BulkReviews(items) = batch;
        let n = items.len();
        if n == 0 {
            return Err(StoreError::Validation("Bulk list empty".to_owned()));
        }
        let mut i: usize = 0;
        while i < n
            invariant
                i <= n,
                0 < n == items@.len(),
                items@ == batch.0@,
                *self == *old(self),
                old(self).index is Brute,
                old(self).wf(),
                forall|m: int| 0 <= m < i ==> review_input_valid(#[trigger] items@[m]),
            decreases n - i,
        {
            match items[i].validate() {
                Err(m) => {
                    proof {
                        lemma_first_invalid(items@, i as int);
                    }
                    return Err(StoreError::Validation(m));
                },
                Ok(u) => {},
            }
            i = i + 1;
        }
        assert(all_valid(items@));
        if vectors.len() != n {
            return Err(StoreError::Engine("embedding count mismatch".to_owned()));
        }
        let dim = self.index.dim();
        let mut i: usize = 0;
        while i < n
            invariant
                i <= n,
                0 < n == vectors@.len(),
                n == items@.len(),
                items@ == batch.0@,
                all_valid(items@),
                *self == *old(self),
                old(self).index is Brute,
                old(self).wf(),
                dim == self.index.spec_dim(),
                forall|m: int| 0 <= m < i ==> (#[trigger] vectors@[m])@.len() == dim,
            decreases n - i,
        {
            if vectors[i].len() != dim {
                return Err(StoreError::DimensionMismatch);
            }
            i = i + 1;
        }
        let start = self.alloc.reserve(n);
        let mut flat: Vec<u32> = Vec::new();
        let mut i: usize = 0;
        proof {
            assert(chunks_spec(flat@, dim as int) =~= Seq::<Seq<u32>>::empty());
            assert(vectors.deep_view().take(0) =~= Seq::<Seq<u32>>::empty());
        }
        while i < n
            invariant
                i <= n,
                n == vectors@.len(),
                0 < dim,
                flat@.len() == i * (dim as int),
                forall|m: int| 0 <= m < n ==> (#[trigger] vectors@[m])@.len() == dim,
                chunks_spec(flat@, dim as int) == vectors.deep_view().take(i as int),
            decreases n - i,
        {
            let ghost pre_flat = flat@;
            flat.extend_from_slice(vectors[i].as_slice());
            proof {
                assert(pre_flat.len() as int % (dim as int) == 0) by (nonlinear_arith)
                    requires
                        pre_flat.len() == i * (dim as int),
                        dim > 0,
                        i >= 0,
                ;
                lemma_chunks_concat(pre_flat, vectors@[i as int]@, dim as int);
                lemma_chunks_single(vectors@[i as int]@, dim as int);
                lemma_deep_view_index(*vectors, i as int);
                assert(flat@ =~= pre_flat + vectors@[i as int]@);
                assert(chunks_spec(flat@, dim as int) =~= vectors.deep_view().take(i as int).push(
                    vectors.deep_view()[i as int]));
                assert(vectors.deep_view().take(i + 1) =~= vectors.deep_view().take(
                    i as int,
                ).push(vectors.deep_view()[i as int]));
                assert(flat@.len() == (i + 1) * (dim as int)) by (nonlinear_arith)
                    requires
                        flat@.len() == i * (dim as int) + (dim as int),
                ;
            }
            i = i + 1;
        }
        proof {
            assert(vectors.deep_view().take(n as int) =~= vectors.deep_view());
        }
        match &mut self.index {
            VectorIndex::Brute(b) => {
                let ghost pre_vecs = b.view_vectors();
                proof {
                    assert(flat@.len() as int % (dim as int) == 0) by (nonlinear_arith)
                        requires
                            flat@.len() == n * (dim as int),
                            dim > 0,
                            n >= 0,
                    ;
                }
                let bytes = match b.add_batch(&flat, None) {
                    Ok(by) => by,
                    Err(e) => {
                        // Excluded by the index's contract: the checks
                        // above rule both of its errors out.
                        proof {
                            assert(false);
                        }
                        return Err(e);
                    },
                };
                proof {
                    assert(flat@.len() as int / (dim as int) == n) by (nonlinear_arith)
                        requires
                            flat@.len() == n * (dim as int),
                            dim > 0,
                            n >= 0,
                    ;
                    assert(b.view_vectors() =~= pre_vecs + vectors.deep_view());
                }
                let ghost pre_items = items@;
                let mut items = items;
                let mut records: Vec<StoredReview> = Vec::new();
                let mut meta_lines: Vec<String> = Vec::new();
                let mut map_lines: Vec<String> = Vec::new();
                let mut t: usize = 0;
                proof {
                    assert(pre_items.skip(0) =~= pre_items);
                }
                while t < n
                    invariant
                        t <= n,
                        n == pre_items.len(),
                        start + n <= usize::MAX,
                        items@ == pre_items.skip(t as int),
                        records@.len() == t,
                        meta_lines@.len() == t,
                        map_lines@.len() == t,
                        forall|m: int|
                            0 <= m < t ==> stored_from(
                                #[trigger] records@[m],
                                pre_items[m],
                                (start + m) as usize,
                            ),
                        forall|m: int|
                            0 <= m < t ==> (#[trigger] meta_lines@[m])@
                                == crate::jsonl::review_line(records@[m]@),
                        forall|m: int|
                            0 <= m < t ==> (#[trigger] map_lines@[m])@ == crate::jsonl::map_line(
                                start + m,
                                records@[m].id@,
                            ),
                    decreases n - t,
                {
                    let ghost pre_rem = items@;
                    let item = items.remove(0);
                    proof {
                        assert(item == pre_items[t as int]);
                        assert(items@ =~= pre_items.skip(t + 1));
                    }
                    let vid = start + t;
                    let record = StoredReview::from_input(item, vid);
                    let meta_line = render_review_line(&record);
                    let map_line = render_map_line(vid, record.id.as_str());
                    records.push(record);
                    meta_lines.push(meta_line);
                    map_lines.push(map_line);
                    t = t + 1;
                }
                self.meta_count = self.meta_count + n;
                self.map_count = self.map_count + n;
                Ok(BulkOutcome { records, index_bytes: bytes, meta_lines, map_lines })
            },
            VectorIndex::Native(_) => {
                // Excluded by the precondition: this insert serves the
                // in-process backend alone.
                proof {
                    assert(false);
                }
                Err(StoreError::LockPoisoned)
            },
        }
    }

    /// Rejects an empty or whitespace-only search query before any
    /// embedding work.
    pub fn validate_query(query: &str) -> (r: Result<(), StoreError>)
        ensures
            r is Ok <==> trimmed_of(query@).len() > 0,
            r matches Err(e) ==> e matches StoreError::Validation(m) && m@ == "query empty"@,
    {
        let t = crate::text::trim_str(query);
        if t.is_empty() {
            return Err(StoreError::Validation("query empty".to_owned()));
        }
        Ok(())
    }
}

impl SearchRequest {
    /// How many candidates to ask the index for: the request's `top_k`
    /// under the floor and cap of `effective_k`.
    pub fn candidate_count(&self) -> (k: usize)
        ensures
            k == crate::spec_effective_k(self.top_k),
    {
        crate::effective_k(self.top_k)
    }
}

/// Whether every item of a batch passes validation.
pub open spec fn all_valid(items: Seq<ReviewInput>) -> bool {
    forall|i: int| 0 <= i < items.len() ==> review_input_valid(#[trigger] items[i])
}

/// The position of the first item that fails validation.
pub open spec fn first_invalid(items: Seq<ReviewInput>) -> int
    decreases items.len(),
{
    if items.len() == 0 {
        0
    } else if !review_input_valid(items[0]) {
        0
    } else {
        1 + first_invalid(items.drop_first())
    }
}

proof fn lemma_first_invalid(items: Seq<ReviewInput>, i: int)
    requires
        0 <= i < items.len(),
        forall|m: int| 0 <= m < i ==> review_input_valid(#[trigger] items[m]),
        !review_input_valid(items[i]),
    ensures
        first_invalid(items) == i,
        !all_valid(items),
    decreases i,
{
    if i == 0 {
    } else {
        assert(review_input_valid(items[0]));
        assert forall|m: int| 0 <= m < i - 1 implies review_input_valid(
            #[trigger] items.drop_first()[m],
        ) by {
            assert(items.drop_first()[m] == items[m + 1]);
        }
        assert(items.drop_first()[i - 1] == items[i]);
        lemma_first_invalid(items.drop_first(), i - 1);
    }
}

/// The read-only startup consistency check: succeeds exactly when the
/// vector count and the map log's line count agree, and otherwise reports
/// both numbers. A mismatch is surfaced, never masked, but the caller may
/// treat it as a warning.
pub fn verify_alignment(vector_count: usize, map_lines: usize) -> (r: Result<(), StoreError>)
    ensures
        r is Ok <==> vector_count == map_lines,
        r matches Err(e) ==> e matches StoreError::Mismatch(a, b) && a == vector_count && b
            == map_lines,
{
    if vector_count == map_lines {
        Ok(())
    } else {
        Err(StoreError::Mismatch(vector_count, map_lines))
    }
}

/// The shape of one successful insert of `n` records: the index and both
/// log counts each grow by `n`.
pub open spec fn insert_effect(pre: AppState, post: AppState, n: int) -> bool {
    &&& post.index.spec_len() == pre.index.spec_len() + n
    &&& post.map_count == pre.map_count + n
    &&& post.meta_count == pre.meta_count + n
}

/// Alignment invariant: one successful insert keeps the index and the two
/// logs in lock-step.
pub proof fn lemma_alignment_preserved(pre: AppState, post: AppState, n: int)
    requires
        insert_effect(pre, post, n),
        pre.aligned(),
    ensures
        post.aligned(),
{
}

/// Alignment invariant: any sequence of successful single or bulk inserts
/// keeps the index and the two logs in lock-step — each step grows all
/// three counts alike, so alignment carries from the first state to the
/// last.
pub proof fn lemma_alignment_chain(trace: Seq<AppState>, ns: Seq<int>)
    requires
        trace.len() == ns.len() + 1,
        forall|i: int| 0 <= i < ns.len() ==> insert_effect(trace[i], trace[i + 1], ns[i]),
        trace[0].aligned(),
    ensures
        trace.last().aligned(),
    decreases ns.len(),
{
    if ns.len() > 0 {
        assert(trace.drop_last()[0] == trace[0]);
        assert forall|i: int| 0 <= i < ns.drop_last().len() implies insert_effect(
            trace.drop_last()[i],
            trace.drop_last()[i + 1],
            ns.drop_last()[i],
        ) by {
            assert(trace.drop_last()[i] == trace[i]);
            assert(trace.drop_last()[i + 1] == trace[i + 1]);
            assert(ns.drop_last()[i] == ns[i]);
            assert(insert_effect(trace[i], trace[i + 1], ns[i]));
        }
        lemma_alignment_chain(trace.drop_last(), ns.drop_last());
        assert(trace.drop_last().last() == trace[ns.len() - 1]);
        lemma_alignment_preserved(trace[ns.len() - 1], trace[ns.len() as int], ns.last());
        assert(trace.last() == trace[ns.len() as int]);
    }
}

/// Id stability under reconfiguration: reconfiguring to a map log of `m`
/// lines resets the allocator to `m`, and a single reservation made from
/// that state returns exactly `m`.
pub proof fn lemma_id_stability(reconfigured: AppState, after_reserve: AppState, start: usize,
    m: usize)
    requires
        reconfigured.alloc.next == m,
        start == reconfigured.alloc.next,
        after_reserve.alloc.next == reconfigured.alloc.next + 1,
    ensures
        start == m,
        after_reserve.alloc.next == m + 1,
{
}

} // verus!
