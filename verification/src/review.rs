//! Review records: user input, validation, and the stored form.
//!
//! A review is short text with a rating and an optional category. Validation
//! rejects bad shapes before any side effect; a validated input becomes a
//! `StoredReview` with a fresh review id and the vector id it was stored
//! under.

use vstd::prelude::*;
use crate::text::{alphanumeric_char, char_alphanumeric, str_chars, trim_str, trimmed_of};

verus! {

/// Tag for forward-compatible metadata evolution; stamped on every stored
/// record.
pub const SCHEMA_VERSION: &'static str = "v1";

/// A single review as supplied by a client.
#[derive(Debug, Clone)]
pub struct ReviewInput {
    pub review: String,
    pub rating: i32,
    /// Optional category: letters, numbers, space, '-' or '_', at most 32
    /// characters after trimming. Empty-after-trim is stored as absent.
    pub category: Option<String>,
}

/// A batch of review inputs.
#[derive(Debug, Clone)]
pub struct BulkReviews(pub Vec<ReviewInput>);

/// A similarity query: free text plus the requested page size.
#[derive(Debug, Clone)]
pub struct SearchRequest {
    pub query: String,
    pub top_k: Option<usize>,
}

/// Whether a character may appear in a trimmed category.
pub open spec fn category_char_ok(c: char) -> bool {
    alphanumeric_char(c) || c == ' ' || c == '-' || c == '_'
}

/// Whether every character of a trimmed category is allowed.
pub open spec fn category_chars_ok(s: Seq<char>) -> bool {
    forall|i: int| 0 <= i < s.len() ==> category_char_ok(s[i])
}

/// The outcome validation owes for a given input: `Ok` exactly when the
/// input is well-formed, and otherwise the message of the first failing
/// check.
pub open spec fn spec_validate(input: ReviewInput) -> Result<(), Seq<char>> {
    if trimmed_of(input.review@).len() == 0 {
        Err("review cannot be empty"@)
    } else if input.rating < 0 || input.rating > 5 {
        Err("rating must be 0..=5"@)
    } else {
        match input.category {
            Some(raw) => {
                let t = trimmed_of(raw@);
                if t.len() == 0 {
                    // Empty after trimming is stored as absent, not rejected.
                    Ok(())
                } else if t.len() > 32 {
                    Err("category must be at most 32 characters"@)
                } else if !category_chars_ok(t) {
                    Err("category may only contain letters, numbers, spaces, '-' or '_'"@)
                } else {
                    Ok(())
                }
            },
            None => Ok(()),
        }
    }
}

/// Whether an input passes validation.
pub open spec fn review_input_valid(input: ReviewInput) -> bool {
    spec_validate(input) is Ok
}

/// Whether an executable validation result agrees with the owed outcome,
/// message included.
pub open spec fn validation_matches(r: Result<(), String>, owed: Result<(), Seq<char>>) -> bool {
    match (r, owed) {
        (Ok(u), Ok(v)) => true,
        (Err(m), Err(s)) => m@ == s,
        _ => false,
    }
}

impl ReviewInput {
    /// Checks the input's shape: non-empty review text, rating in 0..=5, and
    /// a well-formed category when one is provided.
    pub fn validate(&self) -> (r: Result<(), String>)
        ensures
            validation_matches(r, spec_validate(*self)),
            r is Ok <==> review_input_valid(*self),
    {
        let t = trim_str(self.review.as_str());
        if t.is_empty() {
            return Err("review cannot be empty".to_owned());
        }
        if self.rating < 0 || self.rating > 5 {
            return Err("rating must be 0..=5".to_owned());
        }
        match &self.category {
            Some(raw) => {
                let tc = trim_str(raw.as_str());
                let chars = str_chars(tc);
                if chars.len() == 0 {
                    return Ok(());
                }
                if chars.len() > 32 {
                    return Err("category must be at most 32 characters".to_owned());
                }
                let mut i: usize = 0;
                while i < chars.len()
                    invariant
                        i <= chars.len(),
                        forall|j: int| 0 <= j < i ==> category_char_ok(chars@[j]),
                        self.category matches Some(rc) && chars@ == trimmed_of(rc@),
                        0 < chars@.len() <= 32,
                        trimmed_of(self.review@).len() > 0,
                        0 <= self.rating <= 5,
                    decreases chars.len() - i,
                {
                    let c = chars[i];
                    let ok = char_alphanumeric(c) || c == ' ' || c == '-' || c == '_';
                    if !ok {
                        assert(!category_chars_ok(chars@));
                        return Err(
                            "category may only contain letters, numbers, spaces, '-' or '_'".to_owned(),
                        );
                    }
                    i = i + 1;
                }
                assert(category_chars_ok(chars@));
                Ok(())
            },
            None => Ok(()),
        }
    }
}

/// A review as persisted in the metadata log: the input plus its identifiers
/// and schema tag. Append-only; never mutated after creation.
#[derive(Debug, Clone)]
pub struct StoredReview {
    pub id: String,
    pub review: String,
    pub rating: i32,
    pub category: Option<String>,
    pub schema_version: String,
    pub vector_id: usize,
}

/// The mathematical value of a stored review: each text field as its
/// character sequence.
pub struct ReviewView {
    pub id: Seq<char>,
    pub review: Seq<char>,
    pub rating: i32,
    pub category: Option<Seq<char>>,
    pub schema_version: Seq<char>,
    pub vector_id: usize,
}

impl View for StoredReview {
    type V = ReviewView;

    open spec fn view(&self) -> ReviewView {
        ReviewView {
            id: self.id@,
            review: self.review@,
            rating: self.rating,
            category: match self.category {
                Some(c) => Some(c@),
                None => None,
            },
            schema_version: self.schema_version@,
            vector_id: self.vector_id,
        }
    }
}

/// Copies a stored record, field for field.
pub fn clone_record(r: &StoredReview) -> (out: StoredReview)
    ensures
        out@ == r@,
{
    StoredReview {
        id: r.id.clone(),
        review: r.review.clone(),
        rating: r.rating,
        category: match &r.category {
            Some(c) => Some(c.clone()),
            None => None,
        },
        schema_version: r.schema_version.clone(),
        vector_id: r.vector_id,
    }
}

/// Relies on `uuid::Uuid::new_v4` and its `Display` form: a random
/// version-4 UUID rendered as 36 hyphenated lower-case hex characters.
#[verifier::external_body]
fn new_review_id() -> (r: String)
    ensures
        r@.len() == 36,
{
    uuid::Uuid::new_v4().to_string()
}

/// How a stored record must relate to the input it came from: same text and
/// rating, category normalized to trimmed-or-absent, the given vector id,
/// the current schema tag, and a fresh 36-character review id.
pub open spec fn stored_from(r: StoredReview, input: ReviewInput, vector_id: usize) -> bool {
    &&& r.review == input.review
    &&& r.rating == input.rating
    &&& r.vector_id == vector_id
    &&& r.schema_version@ == "v1"@
    &&& r.id@.len() == 36
    &&& match input.category {
        None => r.category is None,
        Some(c) => {
            if trimmed_of(c@).len() == 0 {
                r.category is None
            } else {
                r.category matches Some(t) && t@ == trimmed_of(c@)
            }
        },
    }
}

impl StoredReview {
    /// Builds the stored form of a validated input: assigns a fresh review
    /// id, normalizes the category, and stamps the schema version.
    pub fn from_input(input: ReviewInput, vector_id: usize) -> (r: StoredReview)
        ensures
            stored_from(r, input, vector_id),
    {
        let category = match input.category {
            Some(c) => {
                let t = trim_str(c.as_str());
                if t.is_empty() {
                    None
                } else {
                    Some(t.to_owned())
                }
            },
            None => None,
        };
        StoredReview {
            id: new_review_id(),
            review: input.review,
            rating: input.rating,
            category,
            schema_version: SCHEMA_VERSION.to_owned(),
            vector_id,
        }
    }
}

} // verus!
