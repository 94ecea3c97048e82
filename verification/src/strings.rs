//! Two string constructors of the standard library.

use vstd::prelude::*;

verus! {

/// Calls `char::to_string`: the string that holds just `c`.
#[verifier::external_body]
pub(crate) fn char_to_string(c: char) -> (text: String)
    ensures
        text@ == seq![c],
{
    c.to_string()
}

/// Calls `String::with_capacity`: an empty string, with room for `capacity`
/// bytes.
#[verifier::external_body]
pub(crate) fn string_with_capacity(capacity: usize) -> (text: String)
    ensures
        text@ == Seq::<char>::empty(),
{
    String::with_capacity(capacity)
}

} // verus!
