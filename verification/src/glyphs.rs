use vstd::prelude::*;

verus! {

/// The blank symbol stored on the tape.
pub const SPACE: char = ' ';

/// The symbol used to display a blank cell.
pub const LAMBDA: char = 'λ';

/// Appends one character to a string (std `String::push`).
///
/// Claimed of `String::push`: the string afterwards is the old one with `c`
/// appended at its end.
#[verifier::external_body]
pub(crate) fn push_char(s: &mut String, c: char)
    ensures
        final(s)@ == old(s)@.push(c),
{
    s.push(c);
}

} // verus!
