use vstd::prelude::*;

verus! {

/// Relies on `str::chars` collected into a `Vec`: the characters of `s`, in order.
#[verifier::external_body]
pub(crate) fn chars_of(s: &str) -> (r: Vec<char>)
    ensures
        r@ == s@,
{
    s.chars().collect()
}

/// Relies on `String: FromIterator<&char>`: a string of exactly these characters.
#[verifier::external_body]
pub(crate) fn string_of(v: &Vec<char>) -> (r: String)
    ensures
        r@ == v@,
{
    v.iter().collect()
}

} // verus!
