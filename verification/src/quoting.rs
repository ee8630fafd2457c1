//! The quoting convention of itineraries written as text.
//!
//! Callers write strings between single quotes; the standard notation for structured values
//! wants double quotes.

use vstd::prelude::*;

verus! {

/// The text with each `from` replaced by `to`.
pub open spec fn requoted(text: Seq<char>, from: char, to: char) -> Seq<char> {
    text.map_values(
        |c: char|
            if c == from {
                to
            } else {
                c
            },
    )
}

/// Replaces each occurrence of one character by a string of one character.
///
/// Calls `str::replace` of the standard library with a character as the pattern. The
/// contract is taken on trust: every match of the pattern, that is every occurrence of
/// `from`, is replaced by `to`, and nothing else changes.
#[verifier::external_body]
fn replace_char(text: &str, from: char, to: &str) -> (replaced: String)
    requires
        to@.len() == 1,
    ensures
        replaced@ == requoted(text@, from, to@[0]),
{
    text.replace(from, to)
}

/// Turns single quotes into double quotes.
pub fn standard_quotes(text: &str) -> (quoted: String)
    ensures
        quoted@ == requoted(text@, '\'', '"'),
{
    proof {
        reveal_strlit("\"");
    }
    replace_char(text, '\'', "\"")
}

/// Turns double quotes into single quotes.
pub fn single_quotes(text: &str) -> (quoted: String)
    ensures
        quoted@ == requoted(text@, '"', '\''),
{
    proof {
        reveal_strlit("'");
    }
    replace_char(text, '"', "'")
}

} // verus!
