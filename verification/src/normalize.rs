//! Normalization of raw lines: surrounding whitespace goes, ASCII capitals
//! become small letters.

use vstd::prelude::*;

verus! {

/// What `char::is_whitespace` returns for `c`: whether the character has the
/// Unicode property `White_Space`.
pub uninterp spec fn is_whitespace(c: char) -> bool;

/// The text without its leading whitespace.
pub open spec fn trim_start(text: Seq<char>) -> Seq<char>
    decreases text.len(),
{
    if text.len() > 0 && is_whitespace(text.first()) {
        trim_start(text.drop_first())
    } else {
        text
    }
}

/// The text without its trailing whitespace.
pub open spec fn trim_end(text: Seq<char>) -> Seq<char>
    decreases text.len(),
{
    if text.len() > 0 && is_whitespace(text.last()) {
        trim_end(text.drop_last())
    } else {
        text
    }
}

/// The text without its leading and trailing whitespace.
pub open spec fn trimmed(text: Seq<char>) -> Seq<char> {
    trim_end(trim_start(text))
}

/// The ASCII lower case form of a character: `A` to `Z` become `a` to `z`,
/// every other character stays.
pub open spec fn lower_char(c: char) -> char {
    if 'A' <= c && c <= 'Z' {
        ((c as u8 + 32) as u8) as char
    } else {
        c
    }
}

/// The text with every character in its ASCII lower case form.
pub open spec fn lowercase(text: Seq<char>) -> Seq<char> {
    Seq::new(text.len(), |i: int| lower_char(text[i]))
}

/// A raw line as the encoder sees it: trimmed, then lowercased.
pub open spec fn normalized(line: Seq<char>) -> Seq<char> {
    lowercase(trimmed(line))
}

/// `str::trim`: the slice of `line` that is left when the leading and the
/// trailing characters with the property `White_Space`, those for which
/// `char::is_whitespace` holds, are removed. What is left neither starts nor
/// ends with such a character.
#[verifier::external_body]
fn trim(line: &str) -> (inner: &str)
    ensures
        inner@ == trimmed(line@),
        inner@.len() > 0 ==> !is_whitespace(inner@.first()) && !is_whitespace(inner@.last()),
{
    line.trim()
}

/// `str::to_ascii_lowercase`: a copy of `text` in which `A` to `Z` are
/// replaced by `a` to `z` and every other character is unchanged.
#[verifier::external_body]
fn to_ascii_lowercase(text: &str) -> (lower: String)
    ensures
        lower@ == lowercase(text@),
{
    text.to_ascii_lowercase()
}

/// Normalizes a raw line: trims it and turns it to lower case.
pub fn normalize(line: &str) -> (word: String)
    ensures
        word@ == normalized(line@),
{
    to_ascii_lowercase(trim(line))
}

} // verus!
