//! Trusted bridges to the two string operations of std that vstd leaves
//! unspecified: appending one character, and Unicode lowercasing.

use vstd::prelude::*;

verus! {

/// Relies on `String::push`: appends exactly the given character at the end.
#[verifier::external_body]
pub(crate) fn push_char(s: &mut String, c: char)
    ensures
        final(s)@ == old(s)@.push(c),
{
    s.push(c);
}

/// The character sequence that `str::to_lowercase` produces for a given
/// character sequence; it depends on the characters alone.
pub uninterp spec fn lower_of(s: Seq<char>) -> Seq<char>;

/// Relies on `str::to_lowercase`: the result is a pure function of the
/// characters of the input.
#[verifier::external_body]
pub(crate) fn lowercase(s: &String) -> (r: String)
    ensures
        r@ == lower_of(s@),
{
    s.to_lowercase()
}

} // verus!
