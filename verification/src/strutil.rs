use vstd::prelude::*;

verus! {

/// Relies on str::chars and Iterator::collect: the characters of a string
/// slice, in order, which are exactly its view.
#[verifier::external_body]
pub fn chars_of(s: &str) -> (v: Vec<char>)
    ensures
        v@ == s@,
{
    s.chars().collect()
}

/// Relies on Iterator::collect for String: a string built from a sequence
/// of characters holds exactly those characters, in order.
#[verifier::external_body]
pub fn string_of(v: &Vec<char>) -> (s: String)
    ensures
        s@ == v@,
{
    v.iter().collect()
}

} // verus!
