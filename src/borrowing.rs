//! Helpers that read or change a string through a reference.

use vstd::prelude::*;
use vstd::string::*;
use vstd::utf8::encode_utf8;

verus! {

/// The length of `s` in bytes, that is of its UTF-8 encoding; `s` is only read.
pub fn calculate_length(s: &String) -> (r: usize)
    ensures
        r == encode_utf8(s@).len() as usize,
{
    s.as_str().len()
}

/// Appends an exclamation mark to `s` in place.
pub fn add_exclamation(s: &mut String)
    ensures
        final(s)@ == old(s)@.push('!'),
{
    s.append("!");
    proof {
        reveal_strlit("!");
        assert(final(s)@ =~= old(s)@.push('!'));
    }
}

} // verus!
