//! Moving between text and characters.

use vstd::prelude::*;

verus! {

/// Collects characters into a `String` (std's `String::from_iter` over
/// `char`). Claimed: the string holds exactly those characters, in order.
#[verifier::external_body]
pub(crate) fn string_of_chars(chars: Vec<char>) -> (s: String)
    ensures
        s@ == chars@,
{
    String::from_iter(chars)
}

/// The characters of a string slice, in order.
#[verifier::spinoff_prover]
pub(crate) fn chars_of(s: &str) -> (v: Vec<char>)
    ensures
        v@ == s@,
{
    broadcast use vstd::string::axiom_spec_iter;

    let mut v: Vec<char> = Vec::new();
    for c in it: s.chars()
        invariant
            v@ == it.seq().take(it.index()),
            it.seq() == s@,
    {
        v.push(c);
    }
    v
}

} // verus!
