//! Decision layer of the native ANN engine adapter.
//!
//! The engine itself is an opaque foreign resource reached through a narrow
//! open/add-batch/search/save/close boundary; its handle lives with the
//! caller, outside this crate's reach. Everything the adapter decides —
//! argument validation before a call, what a returned status means — is
//! here, so a call is made exactly when these checks pass, and nothing is
//! committed when they fail.

use vstd::prelude::*;
use crate::errors::StoreError;
use crate::text::str_chars;

verus! {

/// Whether a string holds an interior NUL, which the foreign boundary's
/// C strings cannot carry.
pub open spec fn has_nul(s: Seq<char>) -> bool {
    exists|i: int| 0 <= i < s.len() && s[i] == '\u{0}'
}

fn contains_nul(s: &str) -> (r: bool)
    ensures
        r == has_nul(s@),
{
    let chars = str_chars(s);
    let mut i: usize = 0;
    while i < chars.len()
        invariant
            i <= chars@.len(),
            chars@ == s@,
            forall|j: int| 0 <= j < i ==> s@[j] != '\u{0}',
        decreases chars@.len() - i,
    {
        if chars[i] == '\u{0}' {
            assert(has_nul(s@));
            return true;
        }
        i = i + 1;
    }
    false
}

/// The adapter's model of one engine session: the configured dimension and
/// how many vectors this process has committed through it.
#[derive(Debug, Clone)]
pub struct Spfresh {
    pub dim: usize,
    pub committed: usize,
}

impl Spfresh {
    /// Well-formed: a positive dimension.
    pub open spec fn wf(&self) -> bool {
        self.dim > 0
    }

    /// Validates an open request and, when it passes, yields the session
    /// model under which the caller may open the engine at `index_dir`.
    /// Rejects a zero dimension and strings no C string can carry.
    pub fn open(index_dir: &str, dim: usize, params: &str) -> (r: Result<Spfresh, StoreError>)
        ensures
            r is Ok <==> (dim > 0 && !has_nul(index_dir@) && !has_nul(params@)),
            r matches Ok(s) ==> s.dim == dim && s.committed == 0 && s.wf(),
            r matches Err(e) ==> e is Open,
    {
        if dim == 0 {
            return Err(StoreError::Open("dim == 0".to_owned()));
        }
        if contains_nul(index_dir) {
            return Err(StoreError::Open("index_dir contains NUL".to_owned()));
        }
        if contains_nul(params) {
            return Err(StoreError::Open("params contains NUL".to_owned()));
        }
        Ok(Spfresh { dim, committed: 0 })
    }

    /// Records how many vectors the opened engine already holds, seeding
    /// the session's count.
    pub fn note_count(&mut self, n: usize)
        ensures
            final(self).committed == n,
            final(self).dim == old(self).dim,
    {
        self.committed = n;
    }

    /// Validates one add-batch call: the flat buffer must hold a whole
    /// number of vectors, and ids, when given, must come one per vector.
    /// Returns that number; nothing is committed by a rejected call.
    pub fn check_add_batch(&self, flat_len: usize, ids_len: Option<usize>) -> (r: Result<
        usize,
        StoreError,
    >)
        requires
            self.wf(),
        ensures
            r matches Ok(n) ==> flat_len as int % (self.dim as int) == 0 && n == flat_len as int
                / (self.dim as int) && (ids_len matches Some(l) ==> l == n),
            r matches Err(StoreError::DimensionMismatch) <==> flat_len as int % (self.dim as int)
                != 0,
            r matches Err(StoreError::IdCountMismatch) <==> (flat_len as int % (self.dim as int)
                == 0 && (ids_len matches Some(l) && l != flat_len / self.dim)),
            r matches Err(e) ==> e is DimensionMismatch || e is IdCountMismatch,
    {
        if flat_len % self.dim != 0 {
            return Err(StoreError::DimensionMismatch);
        }
        let n = flat_len / self.dim;
        match ids_len {
            Some(l) => {
                if l != n {
                    return Err(StoreError::IdCountMismatch);
                }
            },
            None => {},
        }
        Ok(n)
    }

    /// Records `n` vectors as committed, after the engine accepted them.
    pub fn record_committed(&mut self, n: usize)
        requires
            old(self).committed + n <= usize::MAX,
        ensures
            final(self).committed == old(self).committed + n,
            final(self).dim == old(self).dim,
    {
        self.committed = self.committed + n;
    }

    /// Validates one search call. `Ok(true)` means the engine should be
    /// asked for `k` results; `Ok(false)` means `k == 0`, owed an empty
    /// result with no call at all.
    pub fn check_search(&self, query_len: usize, k: usize) -> (r: Result<bool, StoreError>)
        requires
            self.wf(),
        ensures
            r is Ok <==> query_len == self.dim,
            r matches Ok(b) ==> (b <==> k > 0),
            r matches Err(e) ==> e is DimensionMismatch,
    {
        if query_len != self.dim {
            return Err(StoreError::DimensionMismatch);
        }
        Ok(k > 0)
    }

    /// The number of vectors committed in this session.
    pub fn len(&self) -> (n: usize)
        ensures
            n == self.committed,
    {
        self.committed
    }
}

/// Interprets a foreign status: code 0 is success; anything else surfaces
/// the engine's message, or a fixed note when the engine supplied none.
pub fn status_result(code: i32, message: Option<String>) -> (r: Result<(), StoreError>)
    ensures
        r is Ok <==> code == 0,
        r matches Err(e) ==> e matches StoreError::Engine(m) && (match message {
            Some(s) => m@ == s@,
            None => m@ == "unknown error"@,
        }),
{
    if code == 0 {
        return Ok(());
    }
    match message {
        Some(s) => Err(StoreError::Engine(s)),
        None => Err(StoreError::Engine("unknown error".to_owned())),
    }
}

} // verus!
