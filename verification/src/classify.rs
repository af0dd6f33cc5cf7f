//! Unicode character classification. The standard library's classification
//! of a character as numeric, alphabetic or whitespace is given by Unicode
//! tables; each is named here by an uninterpreted spec function, and a thin
//! trusted wrapper ties the library call to that name.

use vstd::prelude::*;

verus! {

pub uninterp spec fn is_numeric_char(c: char) -> bool;

pub uninterp spec fn is_alphabetic_char(c: char) -> bool;

pub uninterp spec fn is_whitespace_char(c: char) -> bool;

/// Relies on `char::is_numeric`: whether the character has a numeric Unicode
/// general category. The result depends on the character alone.
#[verifier::external_body]
pub(crate) fn char_is_numeric(c: char) -> (b: bool)
    ensures
        b == is_numeric_char(c),
{
    c.is_numeric()
}

/// Relies on `char::is_alphabetic`: whether the character has an alphabetic
/// Unicode general category. The result depends on the character alone.
#[verifier::external_body]
pub(crate) fn char_is_alphabetic(c: char) -> (b: bool)
    ensures
        b == is_alphabetic_char(c),
{
    c.is_alphabetic()
}

/// Relies on `char::is_whitespace`: whether the character has the Unicode
/// `White_Space` property. The result depends on the character alone.
#[verifier::external_body]
pub(crate) fn char_is_whitespace(c: char) -> (b: bool)
    ensures
        b == is_whitespace_char(c),
{
    c.is_whitespace()
}

/// Relies on `char::is_alphanumeric`, documented to return exactly
/// `is_alphabetic() || is_numeric()`.
#[verifier::external_body]
pub(crate) fn char_is_alphanumeric(c: char) -> (b: bool)
    ensures
        b == (is_alphabetic_char(c) || is_numeric_char(c)),
{
    c.is_alphanumeric()
}

} // verus!
