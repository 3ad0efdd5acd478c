//! Building `String`s char by char.

use vstd::prelude::*;

verus! {

/// Appends `c` (`String::push`).
#[verifier::external_body]
pub(crate) fn push_char(s: &mut String, c: char)
    ensures
        final(s)@ == old(s)@.push(c),
{
    s.push(c)
}

} // verus!
