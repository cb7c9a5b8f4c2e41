//! The brute-force backend's persistence format.
//!
//! The backing file is a sequence of variable-length records: a 4-byte
//! little-endian word count followed by that many 4-byte little-endian
//! words (one word per vector component). Vectors are implicitly numbered
//! by read order from the start of the file, so a vector's id is its 0-based
//! position. Appending one record is the only mutation; reopening replays
//! the file from offset 0 and discards a trailing partially-written record.

use vstd::prelude::*;
use vstd::bytes::{lemma_auto_spec_u32_to_from_le_bytes, spec_u32_from_le_bytes,
    spec_u32_to_le_bytes, u32_from_le_bytes, u32_to_le_bytes};
use vstd::slice::slice_subrange;

verus! {

/// The bytes of a vector's components, each as 4 little-endian bytes.
pub open spec fn words_bytes(v: Seq<u32>) -> Seq<u8>
    decreases v.len(),
{
    if v.len() == 0 {
        Seq::empty()
    } else {
        spec_u32_to_le_bytes(v[0]) + words_bytes(v.drop_first())
    }
}

/// The bytes of one record: the word count, then the components.
pub open spec fn record_bytes(v: Seq<u32>) -> Seq<u8>
    recommends
        v.len() <= u32::MAX,
{
    spec_u32_to_le_bytes(v.len() as u32) + words_bytes(v)
}

/// The bytes of a whole file: the records in order.
pub open spec fn file_bytes(vs: Seq<Seq<u32>>) -> Seq<u8>
    decreases vs.len(),
{
    if vs.len() == 0 {
        Seq::empty()
    } else {
        record_bytes(vs[0]) + file_bytes(vs.drop_first())
    }
}

/// Whether each record's word count fits in the 4-byte length field.
pub open spec fn wf_records(vs: Seq<Seq<u32>>) -> bool {
    forall|i: int| 0 <= i < vs.len() ==> #[trigger] vs[i].len() <= u32::MAX
}

/// The word count the first 4 bytes announce.
pub open spec fn first_record_len(b: Seq<u8>) -> int {
    spec_u32_from_le_bytes(b.take(4)) as int
}

/// Whether the bytes begin with one complete record.
pub open spec fn has_full_record(b: Seq<u8>) -> bool {
    b.len() >= 4 && b.len() >= 4 + 4 * first_record_len(b)
}

/// The words read from a run of 4-byte groups.
pub open spec fn words_of(b: Seq<u8>) -> Seq<u32>
    decreases b.len(),
{
    if b.len() >= 4 {
        seq![spec_u32_from_le_bytes(b.take(4))] + words_of(b.skip(4))
    } else {
        Seq::empty()
    }
}

/// What replaying a file yields: every complete record in order; a trailing
/// partial record — a crash's residue — is discarded.
pub open spec fn decode_spec(b: Seq<u8>) -> Seq<Seq<u32>>
    decreases b.len(),
{
    if has_full_record(b) {
        let l = first_record_len(b);
        seq![words_of(b.subrange(4, 4 + 4 * l))] + decode_spec(b.skip(4 + 4 * l))
    } else {
        Seq::empty()
    }
}

pub proof fn lemma_words_bytes_len(v: Seq<u32>)
    ensures
        words_bytes(v).len() == 4 * v.len(),
    decreases v.len(),
{
    lemma_auto_spec_u32_to_from_le_bytes();
    if v.len() > 0 {
        lemma_words_bytes_len(v.drop_first());
    }
}

pub proof fn lemma_words_bytes_push(v: Seq<u32>, w: u32)
    ensures
        words_bytes(v.push(w)) == words_bytes(v) + spec_u32_to_le_bytes(w),
    decreases v.len(),
{
    lemma_auto_spec_u32_to_from_le_bytes();
    if v.len() == 0 {
        reveal_with_fuel(words_bytes, 2);
        assert(v.push(w)[0] == w);
        assert(v.push(w).drop_first() =~= Seq::<u32>::empty());
        assert(words_bytes(v.push(w)) =~= spec_u32_to_le_bytes(w));
        assert(words_bytes(v) + spec_u32_to_le_bytes(w) =~= spec_u32_to_le_bytes(w));
    } else {
        lemma_words_bytes_push(v.drop_first(), w);
        assert(v.push(w)[0] == v[0]);
        assert(v.push(w).drop_first() =~= v.drop_first().push(w));
        assert(words_bytes(v.push(w)) =~= words_bytes(v) + spec_u32_to_le_bytes(w));
    }
}

pub proof fn lemma_file_bytes_push(vs: Seq<Seq<u32>>, v: Seq<u32>)
    ensures
        file_bytes(vs.push(v)) == file_bytes(vs) + record_bytes(v),
    decreases vs.len(),
{
    lemma_auto_spec_u32_to_from_le_bytes();
    if vs.len() == 0 {
        reveal_with_fuel(file_bytes, 2);
        assert(vs.push(v)[0] == v);
        assert(vs.push(v).drop_first() =~= Seq::<Seq<u32>>::empty());
        assert(file_bytes(vs.push(v)) =~= file_bytes(vs) + record_bytes(v));
    } else {
        lemma_file_bytes_push(vs.drop_first(), v);
        assert(vs.push(v)[0] == vs[0]);
        assert(vs.push(v).drop_first() =~= vs.drop_first().push(v));
        assert(file_bytes(vs.push(v)) =~= file_bytes(vs) + record_bytes(v));
    }
}

pub proof fn lemma_words_of_words_bytes(v: Seq<u32>)
    ensures
        words_of(words_bytes(v)) == v,
    decreases v.len(),
{
    lemma_auto_spec_u32_to_from_le_bytes();
    if v.len() == 0 {
        assert(words_of(words_bytes(v)) =~= v);
    } else {
        let b = words_bytes(v);
        lemma_words_bytes_len(v.drop_first());
        assert(b.take(4) =~= spec_u32_to_le_bytes(v[0]));
        assert(b.skip(4) =~= words_bytes(v.drop_first()));
        lemma_words_of_words_bytes(v.drop_first());
        assert(words_of(b) =~= v);
    }
}

/// Round trip: replaying a file written as `file_bytes(vs)` yields exactly
/// the records `vs`. With `lemma_file_bytes_push` this says any sequence of
/// appends is recovered, record for record, by the next open.
pub proof fn lemma_decode_file_bytes(vs: Seq<Seq<u32>>)
    requires
        wf_records(vs),
    ensures
        decode_spec(file_bytes(vs)) == vs,
    decreases vs.len(),
{
    lemma_auto_spec_u32_to_from_le_bytes();
    if vs.len() == 0 {
        assert(!has_full_record(file_bytes(vs)));
        assert(decode_spec(file_bytes(vs)) =~= vs);
    } else {
        let v0 = vs[0];
        let b = file_bytes(vs);
        lemma_words_bytes_len(v0);
        assert(b.take(4) =~= spec_u32_to_le_bytes(v0.len() as u32));
        assert(first_record_len(b) == v0.len());
        assert(has_full_record(b));
        assert(b.subrange(4, 4 + 4 * (v0.len() as int)) =~= words_bytes(v0));
        lemma_words_of_words_bytes(v0);
        assert(b.skip(4 + 4 * (v0.len() as int)) =~= file_bytes(vs.drop_first()));
        assert(wf_records(vs.drop_first()));
        lemma_decode_file_bytes(vs.drop_first());
        assert(decode_spec(b) =~= vs);
    }
}

/// Encodes one vector as one record of the backing file.
pub fn encode_record(v: &Vec<u32>) -> (out: Vec<u8>)
    requires
        v@.len() <= u32::MAX,
    ensures
        out@ == record_bytes(v@),
{
    let mut out: Vec<u8> = u32_to_le_bytes(v.len() as u32);
    let mut i: usize = 0;
    while i < v.len()
        invariant
            i <= v@.len(),
            v@.len() <= u32::MAX,
            out@ == spec_u32_to_le_bytes(v@.len() as u32) + words_bytes(v@.take(i as int)),
        decreases v@.len() - i,
    {
        let word = u32_to_le_bytes(v[i]);
        out.extend_from_slice(word.as_slice());
        proof {
            lemma_words_bytes_push(v@.take(i as int), v@[i as int]);
            assert(v@.take(i + 1) =~= v@.take(i as int).push(v@[i as int]));
            assert(out@ =~= spec_u32_to_le_bytes(v@.len() as u32) + words_bytes(
                v@.take(i + 1)));
        }
        i = i + 1;
    }
    proof {
        assert(v@.take(v@.len() as int) =~= v@);
    }
    out
}

proof fn lemma_words_of_take_succ(b: Seq<u8>, j: int)
    requires
        0 <= j,
        4 * (j + 1) <= b.len(),
    ensures
        words_of(b.take(4 * (j + 1))) == words_of(b.take(4 * j)).push(
            spec_u32_from_le_bytes(b.subrange(4 * j, 4 * j + 4))),
    decreases j,
{
    if j == 0 {
        reveal_with_fuel(words_of, 2);
        assert(b.take(4).take(4) =~= b.subrange(0, 4));
        assert(b.take(4).skip(4) =~= Seq::<u8>::empty());
        assert(words_of(b.take(0int)) =~= Seq::<u32>::empty());
        assert(words_of(b.take(4)) =~= seq![spec_u32_from_le_bytes(b.subrange(0, 4))]);
        assert(words_of(b.take(0int)).push(spec_u32_from_le_bytes(b.subrange(0, 4))) =~= seq![
            spec_u32_from_le_bytes(b.subrange(0, 4))]);
    } else {
        lemma_words_of_take_succ(b.skip(4), j - 1);
        let t1 = b.take(4 * (j + 1));
        let t0 = b.take(4 * j);
        assert(t1.take(4) =~= b.take(4));
        assert(t0.take(4) =~= b.take(4));
        assert(t1.skip(4) =~= b.skip(4).take(4 * j));
        assert(t0.skip(4) =~= b.skip(4).take(4 * (j - 1)));
        assert(b.skip(4).take(4 * ((j - 1) + 1)) == b.skip(4).take(4 * j));
        assert(b.skip(4).subrange(4 * (j - 1), 4 * (j - 1) + 4) =~= b.subrange(4 * j, 4 * j
            + 4));
        assert(words_of(t1) =~= words_of(t0).push(spec_u32_from_le_bytes(
            b.subrange(4 * j, 4 * j + 4))));
    }
}

/// Replays a backing file: returns every complete record in order and
/// discards a trailing partial record.
pub fn decode_file(bytes: &Vec<u8>) -> (out: Vec<Vec<u32>>)
    ensures
        out.deep_view() == decode_spec(bytes@),
{
    let mut out: Vec<Vec<u32>> = Vec::new();
    let mut pos: usize = 0;
    proof {
        assert(bytes@.skip(0) =~= bytes@);
        assert(out.deep_view() + decode_spec(bytes@) =~= decode_spec(bytes@));
    }
    loop
        invariant_except_break
            pos <= bytes@.len(),
            decode_spec(bytes@) == out.deep_view() + decode_spec(bytes@.skip(pos as int)),
        ensures
            out.deep_view() == decode_spec(bytes@),
        decreases bytes@.len() - pos,
    {
        let ghost rest = bytes@.skip(pos as int);
        if bytes.len() - pos < 4 {
            proof {
                assert(!has_full_record(rest));
                assert(out.deep_view() + decode_spec(rest) =~= out.deep_view());
            }
            break;
        }
        let header = slice_subrange(bytes.as_slice(), pos, pos + 4);
        let l = u32_from_le_bytes(header);
        proof {
            assert(rest.take(4) =~= bytes@.subrange(pos as int, pos + 4));
            assert(first_record_len(rest) == l as int);
        }
        let rem = bytes.len() - pos - 4;
        if (rem as u64) < 4u64 * (l as u64) {
            proof {
                assert(!has_full_record(rest));
                assert(out.deep_view() + decode_spec(rest) =~= out.deep_view());
            }
            break;
        }
        let lw = l as usize;
        proof {
            assert(4 * (lw as int) <= rem as int);
        }
        let ghost chunk = bytes@.subrange(pos + 4, pos + 4 + 4 * (lw as int));
        let mut rec: Vec<u32> = Vec::new();
        let mut j: usize = 0;
        proof {
            assert(rec@ =~= words_of(chunk.take(0int)));
        }
        while j < lw
            invariant
                j <= lw,
                pos + 4 + 4 * (lw as int) <= bytes@.len(),
                bytes@.len() <= usize::MAX,
                chunk == bytes@.subrange(pos + 4, pos + 4 + 4 * (lw as int)),
                rec@ == words_of(chunk.take(4 * (j as int))),
            decreases lw - j,
        {
            let word = slice_subrange(bytes.as_slice(), pos + 4 + 4 * j, pos + 4 + 4 * j + 4);
            let w = u32_from_le_bytes(word);
            rec.push(w);
            proof {
                lemma_words_of_take_succ(chunk, j as int);
                assert(chunk.subrange(4 * (j as int), 4 * (j as int) + 4) =~= bytes@.subrange(
                    pos + 4 + 4 * (j as int), pos + 4 + 4 * (j as int) + 4));
                assert(rec@ =~= words_of(chunk.take(4 * ((j as int) + 1))));
            }
            j = j + 1;
        }
        proof {
            assert(chunk.take(4 * (lw as int)) =~= chunk);
            assert(has_full_record(rest));
            assert(rest.subrange(4, 4 + 4 * (l as int)) =~= chunk);
            assert(rest.skip(4 + 4 * (l as int)) =~= bytes@.skip(pos + 4 + 4 * (lw as int)));
        }
        let ghost old_dv = out.deep_view();
        let ghost rv = rec@;
        proof {
            assert(rec.deep_view() =~= rv);
        }
        out.push(rec);
        pos = pos + 4 + 4 * lw;
        proof {
            assert(out.deep_view() =~= old_dv.push(rv));
            assert(decode_spec(rest) == seq![rv] + decode_spec(bytes@.skip(pos as int)));
            assert(old_dv.push(rv) + decode_spec(bytes@.skip(pos as int)) =~= old_dv + decode_spec(
                rest));
        }
    }
    out
}

} // verus!
