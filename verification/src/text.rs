//! Building text one character at a time.
use vstd::prelude::*;

verus! {

/// `String::push`: appends one character at the end of the text.
#[verifier::external_body]
pub(crate) fn push_char(s: &mut String, c: char)
    ensures
        final(s)@ == old(s)@.push(c),
{
    s.push(c)
}

} // verus!
