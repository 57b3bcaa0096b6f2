//! Helpers that hand ownership of a string to the caller.

use vstd::prelude::*;
use vstd::string::*;

verus! {

/// A freshly allocated string whose ownership passes to the caller.
pub fn gives_ownership() -> (r: String)
    ensures
        r@ == "I'm yours now!"@,
{
    String::from_str("I'm yours now!")
}

/// Takes ownership of `a_string` and hands the same string back.
pub fn takes_and_gives_back(a_string: String) -> (r: String)
    ensures
        r == a_string,
{
    a_string
}

} // verus!
