//! Conversions between `String`/`&str` and character vectors.
//!
//! The library builds and inspects text as `Vec<char>`; these two bridges
//! move between that representation and Rust strings.

use vstd::prelude::*;

verus! {

/// Relies on `str::chars` and `Iterator::collect`: the collected vector
/// holds exactly the string's characters, in order.
#[verifier::external_body]
pub(crate) fn chars_of(s: &str) -> (r: Vec<char>)
    ensures
        r@ == s@,
{
    s.chars().collect()
}

/// Relies on `String`'s `FromIterator<char>` implementation: the collected
/// string holds exactly the given characters, in order.
#[verifier::external_body]
pub(crate) fn string_of(cs: Vec<char>) -> (r: String)
    ensures
        r@ == cs@,
{
    cs.into_iter().collect()
}

} // verus!
