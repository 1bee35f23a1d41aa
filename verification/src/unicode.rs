//! Code-point predicates that the character classes are built from.
//!
//! The Unicode properties come from the standard library's tables. They are
//! named here and not defined: what is proved about a class holds for
//! whatever the tables say. The ASCII predicates are short enough to be
//! defined and computed here.

use vstd::prelude::*;

verus! {

/// The Unicode `Alphabetic` property of `c`, as `char::is_alphabetic` reports it.
pub uninterp spec fn alphabetic(c: char) -> bool;

/// Whether `c` is in one of the Unicode number categories, as
/// `char::is_numeric` reports it.
pub uninterp spec fn numeric(c: char) -> bool;

/// The Unicode `White_Space` property of `c`, as `char::is_whitespace`
/// reports it.
pub uninterp spec fn whitespace(c: char) -> bool;

/// The first code point of the lowercase mapping of `c`, as
/// `char::to_lowercase` yields it.
pub uninterp spec fn lowercase_head(c: char) -> Option<char>;

/// The first code point of the uppercase mapping of `c`, as
/// `char::to_uppercase` yields it.
pub uninterp spec fn uppercase_head(c: char) -> Option<char>;

/// `char::is_alphabetic`: the result is the `Alphabetic` property of `c`.
pub assume_specification[ char::is_alphabetic ](c: char) -> (b: bool)
    ensures
        b == alphabetic(c),
;

/// `char::is_numeric`: the result says whether `c` is a Unicode number.
pub assume_specification[ char::is_numeric ](c: char) -> (b: bool)
    ensures
        b == numeric(c),
;

/// `char::is_alphanumeric`: documented as `is_alphabetic() || is_numeric()`.
pub assume_specification[ char::is_alphanumeric ](c: char) -> (b: bool)
    ensures
        b == (alphabetic(c) || numeric(c)),
;

/// `char::is_whitespace`: the result is the `White_Space` property of `c`.
pub assume_specification[ char::is_whitespace ](c: char) -> (b: bool)
    ensures
        b == whitespace(c),
;

/// `char::to_lowercase`, of which only the first code point is taken.
#[verifier::external_body]
pub(crate) fn first_lowercase(c: char) -> (r: Option<char>)
    ensures
        r == lowercase_head(c),
{
    c.to_lowercase().next()
}

/// `char::to_uppercase`, of which only the first code point is taken.
#[verifier::external_body]
pub(crate) fn first_uppercase(c: char) -> (r: Option<char>)
    ensures
        r == uppercase_head(c),
{
    c.to_uppercase().next()
}

/// `c` is alphabetic or numeric.
pub open spec fn alphanumeric(c: char) -> bool {
    alphabetic(c) || numeric(c)
}

/// Lowercasing leaves `c` as it is.
pub open spec fn lowercase_fixed(c: char) -> bool {
    lowercase_head(c) == Some(c)
}

/// Uppercasing leaves `c` as it is.
pub open spec fn uppercase_fixed(c: char) -> bool {
    uppercase_head(c) == Some(c)
}

/// An ASCII control character: U+0000 to U+001F, or U+007F.
pub open spec fn ascii_control(c: char) -> bool {
    c <= '\u{1f}' || c == '\u{7f}'
}

/// An ASCII graphic character: U+0021 `!` to U+007E `~`.
pub open spec fn ascii_graphic(c: char) -> bool {
    '!' <= c <= '~'
}

/// An ASCII punctuation character: a graphic character that is neither a
/// letter nor a digit.
pub open spec fn ascii_punctuation(c: char) -> bool {
    ||| '!' <= c <= '/'
    ||| ':' <= c <= '@'
    ||| '[' <= c <= '`'
    ||| '{' <= c <= '~'
}

/// An ASCII hexadecimal digit: `0` to `9`, `A` to `F`, `a` to `f`.
pub open spec fn ascii_hexdigit(c: char) -> bool {
    ||| '0' <= c <= '9'
    ||| 'A' <= c <= 'F'
    ||| 'a' <= c <= 'f'
}

/// An ASCII lowercase letter: `a` to `z`.
pub open spec fn ascii_lowercase(c: char) -> bool {
    'a' <= c <= 'z'
}

pub fn is_lowercase_fixed(c: char) -> (b: bool)
    ensures
        b == lowercase_fixed(c),
{
    match first_lowercase(c) {
        Some(d) => d == c,
        None => false,
    }
}

pub fn is_uppercase_fixed(c: char) -> (b: bool)
    ensures
        b == uppercase_fixed(c),
{
    match first_uppercase(c) {
        Some(d) => d == c,
        None => false,
    }
}

pub fn is_ascii_control(c: char) -> (b: bool)
    ensures
        b == ascii_control(c),
{
    c <= '\u{1f}' || c == '\u{7f}'
}

pub fn is_ascii_graphic(c: char) -> (b: bool)
    ensures
        b == ascii_graphic(c),
{
    '!' <= c && c <= '~'
}

pub fn is_ascii_punctuation(c: char) -> (b: bool)
    ensures
        b == ascii_punctuation(c),
{
    ('!' <= c && c <= '/') || (':' <= c && c <= '@') || ('[' <= c && c <= '`') || ('{' <= c && c
        <= '~')
}

pub fn is_ascii_hexdigit(c: char) -> (b: bool)
    ensures
        b == ascii_hexdigit(c),
{
    ('0' <= c && c <= '9') || ('A' <= c && c <= 'F') || ('a' <= c && c <= 'f')
}

pub fn is_ascii_lowercase(c: char) -> (b: bool)
    ensures
        b == ascii_lowercase(c),
{
    'a' <= c && c <= 'z'
}

} // verus!
