//! Character-level helpers over `String` and `&str`.
//!
//! The store's contracts speak of strings as sequences of characters. The
//! functions here bridge to the handful of `std` string operations the store
//! needs; each is trusted with a contract that states no more than `std`'s
//! documentation promises.

use vstd::prelude::*;

verus! {

/// What `str::trim` returns for a given character sequence.
pub uninterp spec fn trimmed_of(s: Seq<char>) -> Seq<char>;

/// Whether `char::is_whitespace` holds of a character.
pub uninterp spec fn whitespace_char(c: char) -> bool;

/// Whether `char::is_alphanumeric` holds of a character.
pub uninterp spec fn alphanumeric_char(c: char) -> bool;

/// The result of trimming: a contiguous slice of the input, bounded by
/// whitespace on both sides, whose own ends — when any characters remain —
/// are not whitespace.
pub open spec fn trim_shape(s: Seq<char>, r: Seq<char>) -> bool {
    exists|a: int, b: int|
        #![trigger s.subrange(a, b)]
        0 <= a <= b <= s.len() && r == s.subrange(a, b) && (forall|k: int|
            0 <= k < a ==> whitespace_char(s[k])) && (forall|k: int|
            b <= k < s.len() ==> whitespace_char(s[k])) && (a < b ==> !whitespace_char(s[a])
            && !whitespace_char(s[b - 1]))
}

/// Relies on `str::trim`: returns the input with leading and trailing
/// whitespace removed. The result depends on the characters alone.
#[verifier::external_body]
pub fn trim_str(s: &str) -> (r: &str)
    ensures
        r@ == trimmed_of(s@),
        r@.len() <= s@.len(),
        r@.len() > 0 ==> !whitespace_char(r@[0]) && !whitespace_char(r@[r@.len() - 1]),
        trim_shape(s@, r@),
{
    s.trim()
}

/// Relies on `char::is_alphanumeric`: the result depends on the character
/// alone.
#[verifier::external_body]
pub fn char_alphanumeric(c: char) -> (r: bool)
    ensures
        r == alphanumeric_char(c),
{
    c.is_alphanumeric()
}

/// Relies on `str::chars` and `Iterator::collect`: yields exactly the
/// characters of the string, in order.
#[verifier::external_body]
pub fn str_chars(s: &str) -> (r: Vec<char>)
    ensures
        r@ == s@,
{
    s.chars().collect()
}

/// Relies on `String::from_iter` over characters: builds the string of
/// exactly those characters, in order.
#[verifier::external_body]
pub fn chars_to_string(cs: &Vec<char>) -> (r: String)
    ensures
        r@ == cs@,
{
    cs.iter().collect()
}

} // verus!
