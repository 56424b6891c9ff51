//! Character classification used by the scanner's dispatch rules.
//!
//! Digits are the ASCII digits and are specified exactly. Identifier
//! characters go by Unicode's `Alphabetic` and alphanumeric classes, which
//! std computes; those classes are named here rather than written out.

use vstd::prelude::*;

verus! {

/// Whether `char::is_alphabetic` holds of `c`: the result depends on the
/// character alone.
pub uninterp spec fn unicode_alphabetic(c: char) -> bool;

/// Whether `char::is_alphanumeric` holds of `c`: the result depends on the
/// character alone.
pub uninterp spec fn unicode_alphanumeric(c: char) -> bool;

/// Relies on char::is_alphabetic: true exactly on Unicode `Alphabetic`
/// characters, a class that includes the ASCII letters.
#[verifier::external_body]
pub(crate) fn char_is_alphabetic(c: char) -> (r: bool)
    ensures
        r == unicode_alphabetic(c),
        97 <= c as u32 <= 122 || 65 <= c as u32 <= 90 ==> r,
{
    c.is_alphabetic()
}

/// Relies on char::is_alphanumeric: true exactly on characters that are
/// alphabetic or numeric, so it holds of every ASCII letter and digit and
/// fails on control characters such as the newline.
#[verifier::external_body]
pub(crate) fn char_is_alphanumeric(c: char) -> (r: bool)
    ensures
        r == unicode_alphanumeric(c),
        97 <= c as u32 <= 122 || 65 <= c as u32 <= 90 || 48 <= c as u32 <= 57 ==> r,
        c == '\n' ==> !r,
{
    c.is_alphanumeric()
}

/// An ASCII decimal digit.
pub open spec fn is_digit_char(c: char) -> bool {
    48 <= c as u32 <= 57
}

/// A character that may begin an identifier: an alphabetic character or the
/// underscore. ASCII letters always qualify.
pub open spec fn is_alpha_char(c: char) -> bool {
    c == '_' || 97 <= c as u32 <= 122 || 65 <= c as u32 <= 90 || unicode_alphabetic(c)
}

/// A character that may continue an identifier: an alphanumeric character or
/// the underscore. ASCII letters and digits always qualify; a newline never
/// does.
pub open spec fn is_ident_char(c: char) -> bool {
    c == '_' || (c != '\n' && (97 <= c as u32 <= 122 || 65 <= c as u32 <= 90 || 48 <= c as u32
        <= 57 || unicode_alphanumeric(c)))
}

/// Exact executable test for an ASCII decimal digit.
pub fn is_digit(c: char) -> (r: bool)
    ensures
        r == is_digit_char(c),
{
    let u = c as u32;
    48 <= u && u <= 57
}

/// Executable test for an identifier-starting character.
pub fn is_alpha(c: char) -> (r: bool)
    ensures
        r == is_alpha_char(c),
{
    c == '_' || char_is_alphabetic(c)
}

/// Executable test for an identifier-continuing character.
pub fn is_ident(c: char) -> (r: bool)
    ensures
        r == is_ident_char(c),
{
    c == '_' || char_is_alphanumeric(c)
}

} // verus!
