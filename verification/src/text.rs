//! Building the decoded text.

use vstd::prelude::*;

verus! {

/// `String::push`: appends one symbol to the end of the string.
#[verifier::external_body]
pub(crate) fn push_char(s: &mut String, c: char)
    ensures
        final(s)@ == old(s)@.push(c),
{
    s.push(c)
}

} // verus!
