use vstd::prelude::*;

verus! {

/// Calls `String::push`; claims that it appends `c` to `s` and changes
/// nothing else.
#[verifier::external_body]
pub(crate) fn push_char(s: &mut String, c: char)
    ensures
        final(s)@ == old(s)@.push(c),
{
    s.push(c)
}

} // verus!
