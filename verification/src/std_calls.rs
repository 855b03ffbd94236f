//! The few standard-library functions that vstd gives no specification and
//! that the library calls.
use vstd::prelude::*;

verus! {

/// Appends `c` to `s` by `String::push`, which the standard library documents
/// as appending the given char to the end of the string.
#[verifier::external_body]
pub(crate) fn push_char(s: &mut String, c: char)
    ensures
        final(s)@ == old(s)@.push(c),
{
    s.push(c);
}

/// What `str::to_lowercase` returns: the lowercase equivalent of a string
/// under the Unicode Derived Core Property `Lowercase`.
pub uninterp spec fn lowercase(s: Seq<char>) -> Seq<char>;

/// `str::to_lowercase`. Its result depends on `s` alone; the Unicode case
/// mapping it applies is not restated here.
#[verifier::external_body]
pub(crate) fn to_lowercase(s: &str) -> (r: String)
    ensures
        r@ == lowercase(s@),
{
    s.to_lowercase()
}

/// Whether a character has the Unicode `Alphabetic` property
/// (`char::is_alphabetic`).
pub uninterp spec fn alphabetic(c: char) -> bool;

/// `char::is_alphabetic`. Its result depends on `c` alone; the Unicode table
/// it consults is not restated here.
#[verifier::external_body]
pub(crate) fn is_alphabetic(c: char) -> (b: bool)
    ensures
        b == alphabetic(c),
{
    c.is_alphabetic()
}

/// Whether a character has the Unicode `Alphabetic` or `Numeric` property
/// (`char::is_alphanumeric`).
pub uninterp spec fn alphanumeric(c: char) -> bool;

/// `char::is_alphanumeric`. Its result depends on `c` alone; the Unicode
/// tables it consults are not restated here.
#[verifier::external_body]
pub(crate) fn is_alphanumeric(c: char) -> (b: bool)
    ensures
        b == alphanumeric(c),
{
    c.is_alphanumeric()
}

/// `char::from_u32`: the character with the given code point, when the value
/// is a Unicode scalar value (at most `0x10FFFF` and not a surrogate), as the
/// standard library documents.
#[verifier::external_body]
pub(crate) fn char_from_u32(v: u32) -> (r: Option<char>)
    ensures
        r is Some <==> (v <= 0x10FFFF && (v < 0xD800 || v > 0xDFFF)),
        r matches Some(c) ==> c as u32 == v,
{
    char::from_u32(v)
}

} // verus!
