//! The brute-force vector index.
//!
//! Vectors live in memory as lists of 4-byte words (one word per component,
//! the component's little-endian bit pattern) mirrored from an append-only
//! backing file. A vector's id is its 0-based position. Appending returns
//! the record bytes for the caller to write at the end of the file; opening
//! replays the file from the start.

use vstd::prelude::*;
use crate::errors::StoreError;
use crate::rank::{select_top_k, top_k_valid};
use crate::vecfile::{decode_file, decode_spec, encode_record, file_bytes,
    lemma_file_bytes_push};

verus! {

/// Splits a flat buffer into consecutive vectors of `d` words each.
pub open spec fn chunks_spec(s: Seq<u32>, d: int) -> Seq<Seq<u32>>
    recommends
        d > 0,
    decreases s.len(),
{
    if d > 0 && s.len() >= d {
        seq![s.take(d)] + chunks_spec(s.skip(d), d)
    } else {
        Seq::empty()
    }
}

proof fn lemma_chunk_bounds(len: int, d: int, i: int)
    by (nonlinear_arith)
    requires
        d > 0,
        len % d == 0,
        0 <= i < len / d,
    ensures
        0 <= i * d,
        i * d + d <= len,
        (i + 1) * d == i * d + d,
{
}

proof fn lemma_chunks_step(s: Seq<u32>, d: int, i: int)
    requires
        d > 0,
        s.len() as int % d == 0,
        0 <= i < s.len() as int / d,
    ensures
        chunks_spec(s.skip(i * d), d) == seq![s.subrange(i * d, i * d + d)] + chunks_spec(
            s.skip((i + 1) * d),
            d,
        ),
{
    lemma_chunk_bounds(s.len() as int, d, i);
    let r = s.skip(i * d);
    assert(r.len() == s.len() - i * d >= d);
    assert(r.take(d) =~= s.subrange(i * d, i * d + d));
    assert(r.skip(d) =~= s.skip((i + 1) * d));
}

proof fn lemma_chunks_end(s: Seq<u32>, d: int)
    requires
        d > 0,
        s.len() as int % d == 0,
    ensures
        chunks_spec(s.skip((s.len() as int / d) * d), d) == Seq::<Seq<u32>>::empty(),
{
    assert((s.len() as int / d) * d == s.len() as int) by (nonlinear_arith)
        requires
            d > 0,
            s.len() as int % d == 0,
    ;
    assert(s.skip(s.len() as int).len() == 0);
}

/// Chunking distributes over concatenation at a chunk boundary.
pub proof fn lemma_chunks_concat(a: Seq<u32>, b: Seq<u32>, d: int)
    requires
        d > 0,
        a.len() as int % d == 0,
    ensures
        chunks_spec(a + b, d) == chunks_spec(a, d) + chunks_spec(b, d),
    decreases a.len(),
{
    if a.len() == 0 {
        assert(a + b =~= b);
        assert(chunks_spec(a, d) + chunks_spec(b, d) =~= chunks_spec(b, d));
    } else {
        assert(a.len() >= d) by (nonlinear_arith)
            requires
                d > 0,
                a.len() as int % d == 0,
                a.len() > 0,
        ;
        assert((a + b).take(d) =~= a.take(d));
        assert((a + b).skip(d) =~= a.skip(d) + b);
        assert(a.skip(d).len() as int % d == 0) by (nonlinear_arith)
            requires
                d > 0,
                a.len() as int % d == 0,
                a.len() >= d,
                a.skip(d).len() == a.len() - d,
        ;
        lemma_chunks_concat(a.skip(d), b, d);
        assert(chunks_spec(a + b, d) =~= chunks_spec(a, d) + chunks_spec(b, d));
    }
}

/// A buffer of exactly one chunk yields exactly that chunk.
pub proof fn lemma_chunks_single(v: Seq<u32>, d: int)
    requires
        d > 0,
        v.len() == d,
    ensures
        chunks_spec(v, d) == seq![v],
{
    reveal_with_fuel(chunks_spec, 2);
    assert(v.take(d) =~= v);
    assert(v.skip(d).len() == 0);
    assert(chunks_spec(v, d) =~= seq![v]);
}

/// A nested vector seen deeply equals its elements seen one by one.
pub proof fn lemma_deep_view_index(v: Vec<Vec<u32>>, i: int)
    requires
        0 <= i < v@.len(),
    ensures
        v.deep_view().len() == v@.len(),
        v.deep_view()[i] == v@[i]@,
{
    assert(v.deep_view()[i] =~= v@[i]@);
}

proof fn lemma_deep_view_push(v: Vec<Vec<u32>>, pre: Vec<Vec<u32>>, x: Vec<u32>)
    requires
        v@ == pre@.push(x),
    ensures
        v.deep_view() == pre.deep_view().push(x@),
{
    assert(x.deep_view() =~= x@);
    assert forall|i: int| 0 <= i < v@.len() implies v.deep_view()[i] == pre.deep_view().push(x@)[i]
        by {
        if i < pre@.len() {
            assert(v@[i] == pre@[i]);
        } else {
            assert(v@[i] == x);
        }
    }
    assert(v.deep_view() =~= pre.deep_view().push(x@));
}

/// The in-process mirror of one brute-force index.
#[derive(Debug)]
pub struct BruteIndex {
    pub dim: usize,
    pub vectors: Vec<Vec<u32>>,
}

impl BruteIndex {
    /// Well-formed: a positive dimension that fits the record length field,
    /// and every stored vector of exactly that dimension.
    pub open spec fn wf(&self) -> bool {
        &&& 0 < self.dim <= u32::MAX
        &&& forall|i: int|
            0 <= i < self.vectors@.len() ==> (#[trigger] self.vectors@[i])@.len() == self.dim
    }

    /// The stored vectors, newest last.
    pub open spec fn view_vectors(&self) -> Seq<Seq<u32>> {
        self.vectors.deep_view()
    }

    /// Opens an index over the backing file's bytes: replays every complete
    /// record, discarding a trailing partial one, and rejects a
    /// non-positive dimension or a record of the wrong dimension.
    pub fn open(bytes: &Vec<u8>, dim: usize) -> (r: Result<BruteIndex, StoreError>)
        ensures
            r is Ok <==> (0 < dim <= u32::MAX && forall|i: int|
                0 <= i < decode_spec(bytes@).len() ==> (#[trigger] decode_spec(bytes@)[i]).len()
                    == dim),
            r matches Ok(idx) ==> idx.wf() && idx.dim == dim && idx.view_vectors() == decode_spec(
                bytes@),
            r matches Err(e) ==> e is Open,
    {
        if dim == 0 {
            return Err(StoreError::Open("index dimension must be positive".to_owned()));
        }
        if dim > 0xffff_ffff {
            return Err(StoreError::Open("index dimension does not fit a record header".to_owned()));
        }
        let vectors = decode_file(bytes);
        let mut i: usize = 0;
        while i < vectors.len()
            invariant
                i <= vectors@.len(),
                vectors.deep_view() == decode_spec(bytes@),
                forall|m: int| 0 <= m < i ==> (#[trigger] decode_spec(bytes@)[m]).len() == dim,
            decreases vectors@.len() - i,
        {
            if vectors[i].len() != dim {
                assert(decode_spec(bytes@)[i as int].len() != dim);
                return Err(StoreError::Open("corrupt vector file: record of wrong dimension".to_owned()));
            }
            assert(decode_spec(bytes@)[i as int].len() == dim);
            i = i + 1;
        }
        let idx = BruteIndex { dim, vectors };
        proof {
            assert forall|m: int|
                0 <= m < idx.vectors@.len() implies (#[trigger] idx.vectors@[m])@.len() == dim by {
                lemma_deep_view_index(idx.vectors, m);
                assert(decode_spec(bytes@)[m].len() == dim);
            }
        }
        Ok(idx)
    }

    /// The number of committed vectors.
    pub fn len(&self) -> (n: usize)
        ensures
            n == self.view_vectors().len(),
    {
        self.vectors.len()
    }

    /// Commits the vectors packed in `flat` — `n = flat.len() / dim` of them
    /// — and returns the record bytes to append to the backing file. Either
    /// all `n` become queryable or, on a rejected call, none. Ids, when
    /// given, must come one per vector; their values are the caller's
    /// responsibility and positions are authoritative here.
    pub fn add_batch(&mut self, flat: &Vec<u32>, ids: Option<&Vec<i64>>) -> (r: Result<
        Vec<u8>,
        StoreError,
    >)
        requires
            old(self).wf(),
        ensures
            final(self).wf(),
            final(self).dim == old(self).dim,
            r matches Err(e) ==> *final(self) == *old(self) && (e is DimensionMismatch || e
                is IdCountMismatch),
            r matches Err(StoreError::DimensionMismatch) <==> flat@.len() as int % (
            old(self).dim as int) != 0,
            r matches Err(StoreError::IdCountMismatch) <==> (flat@.len() as int % (old(self).dim as int)
                == 0 && (ids matches Some(l) && l@.len() as int != flat@.len() as int / (old(self).dim as int))),
            r matches Ok(bytes) ==> {
                &&& final(self).view_vectors() == old(self).view_vectors() + chunks_spec(
                    flat@,
                    old(self).dim as int,
                )
                &&& bytes@ == file_bytes(chunks_spec(flat@, old(self).dim as int))
                &&& final(self).view_vectors().len() == old(self).view_vectors().len() + flat@.len() as int
                    / (old(self).dim as int)
            },
    {
        let dim = self.dim;
        if flat.len() % dim != 0 {
            return Err(StoreError::DimensionMismatch);
        }
        let n = flat.len() / dim;
        match ids {
            Some(l) => {
                if l.len() != n {
                    return Err(StoreError::IdCountMismatch);
                }
            },
            None => {},
        }
        let ghost old_dv = self.vectors.deep_view();
        let mut bytes: Vec<u8> = Vec::new();
        let ghost mut added: Seq<Seq<u32>> = Seq::empty();
        let mut i: usize = 0;
        proof {
            assert(flat@.skip(0) =~= flat@);
            assert(old_dv + added =~= old_dv);
            assert(added + chunks_spec(flat@, dim as int) =~= chunks_spec(flat@, dim as int));
            assert(bytes@ =~= file_bytes(added));
        }
        while i < n
            invariant
                i <= n,
                self.dim == dim,
                0 < dim <= u32::MAX,
                n == flat@.len() as int / (dim as int),
                flat@.len() as int % (dim as int) == 0,
                flat@.len() <= usize::MAX,
                self.vectors.deep_view() == old_dv + added,
                added + chunks_spec(flat@.skip(i * dim), dim as int) == chunks_spec(
                    flat@,
                    dim as int,
                ),
                added.len() == i,
                bytes@ == file_bytes(added),
                forall|m: int| 0 <= m < added.len() ==> (#[trigger] added[m]).len() == dim,
            decreases n - i,
        {
            proof {
                lemma_chunk_bounds(flat@.len() as int, dim as int, i as int);
            }
            let start = i * dim;
            let rec = vstd::slice::slice_to_vec(vstd::slice::slice_subrange(
                flat.as_slice(),
                start,
                start + dim,
            ));
            let enc = encode_record(&rec);
            bytes.extend_from_slice(enc.as_slice());
            let ghost rv = rec@;
            let ghost pre = self.vectors;
            let ghost recg = rec;
            self.vectors.push(rec);
            proof {
                lemma_deep_view_push(self.vectors, pre, recg);
                lemma_chunks_step(flat@, dim as int, i as int);
                lemma_file_bytes_push(added, rv);
                assert(rv == flat@.subrange(i * dim, i * dim + dim));
                assert(self.vectors.deep_view() == (old_dv + added).push(rv));
                assert(self.vectors.deep_view() =~= old_dv + added.push(rv));
                assert(added.push(rv) + chunks_spec(flat@.skip((i + 1) * (dim as int)), dim as int)
                    =~= added + (seq![rv] + chunks_spec(flat@.skip((i + 1) * (dim as int)),
                    dim as int)));
                added = added.push(rv);
                assert(bytes@ =~= file_bytes(added));
            }
            i = i + 1;
        }
        proof {
            lemma_chunks_end(flat@, dim as int);
            assert(added + chunks_spec(flat@.skip(n * dim), dim as int) =~= added);
            assert(added == chunks_spec(flat@, dim as int));
            assert forall|m: int|
                0 <= m < self.vectors@.len() implies (#[trigger] self.vectors@[m])@.len()
                == dim by {
                lemma_deep_view_index(self.vectors, m);
                if m < old_dv.len() {
                    lemma_deep_view_index(old(self).vectors, m);
                    assert(old_dv[m] == old(self).vectors@[m]@);
                } else {
                    assert(added[m - old_dv.len()].len() == dim);
                }
            }
        }
        Ok(bytes)
    }

    /// Answers a search given each stored vector's similarity key: the `k`
    /// best ids with their keys, best first, ties by insertion order. The
    /// key list must cover the stored vectors exactly.
    pub fn search_select(&self, scores: &Vec<u64>, k: usize) -> (r: Result<
        Vec<(usize, u64)>,
        StoreError,
    >)
        ensures
            r is Ok <==> scores@.len() == self.view_vectors().len(),
            r matches Ok(hits) ==> top_k_valid(scores@, k as int, hits@),
            r matches Err(e) ==> e is DimensionMismatch,
    {
        if scores.len() != self.vectors.len() {
            return Err(StoreError::DimensionMismatch);
        }
        Ok(select_top_k(scores, k))
    }

    /// Releases the index. The brute-force backend holds no foreign
    /// resources, so this only consumes the value.
    pub fn close(self) {
    }
}

} // verus!
