//! An embedding-indexed, append-only review store.
//!
//! Reviews are short text records stored together with a vector embedding of
//! their content. The store assigns stable vector identifiers, keeps the
//! metadata log and the vector-map log in lock-step with the vector index
//! (the alignment invariant), and answers similarity queries by joining
//! index candidates back to metadata in score order.

use vstd::prelude::*;

pub mod brute;
pub mod errors;
pub mod idalloc;
pub mod join;
pub mod jsonl;
pub mod native;
pub mod rank;
pub mod review;
pub mod store;
pub mod text;
pub mod vecfile;

verus! {

/// The number of results a search returns when the caller asks for fewer.
pub const RESULT_FLOOR: usize = 5;

/// An upper bound on how many candidates a search may request from the index.
pub const CANDIDATE_CAP: usize = 200;

/// The number of index candidates to fetch for a request of `top_k` results:
/// at least `RESULT_FLOOR` (so that dropped candidates still leave a usable
/// page) and at most `CANDIDATE_CAP`.
pub fn effective_k(top_k: Option<usize>) -> (k: usize)
    ensures
        k == spec_effective_k(top_k),
{
    let requested = match top_k {
        Some(k) => k,
        None => RESULT_FLOOR,
    };
    let floored = if requested < RESULT_FLOOR {
        RESULT_FLOOR
    } else {
        requested
    };
    if floored > CANDIDATE_CAP {
        CANDIDATE_CAP
    } else {
        floored
    }
}

/// What `effective_k` returns.
pub open spec fn spec_effective_k(top_k: Option<usize>) -> usize {
    let requested = match top_k {
        Some(k) => k,
        None => RESULT_FLOOR,
    };
    let floored = if requested < RESULT_FLOOR {
        RESULT_FLOOR
    } else {
        requested
    };
    if floored > CANDIDATE_CAP {
        CANDIDATE_CAP
    } else {
        floored
    }
}

} // verus!
