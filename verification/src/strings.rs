//! Two text operations of the standard library that the reader and the
//! error messages use.
use vstd::prelude::*;

verus! {

/// ASCII lower case of a character; other characters are unchanged.
pub open spec fn lower_char(c: char) -> char {
    if 'A' <= c && c <= 'Z' {
        ((c as u32) + 32) as char
    } else {
        c
    }
}

/// Every ASCII letter of `s` in lower case, the rest unchanged.
pub open spec fn lower_chars(s: Seq<char>) -> Seq<char> {
    s.map_values(|c: char| lower_char(c))
}

/// The text that `format!("{:?}", s)` gives for a string `s`: `s` in double
/// quotes with its special characters escaped.
pub uninterp spec fn debug_text(s: Seq<char>) -> Seq<char>;

/// Calls `str::to_ascii_lowercase`, which the standard library documents as
/// mapping 'A'..='Z' to 'a'..='z' and leaving every other character as it
/// is; the contract states exactly that.
#[verifier::external_body]
pub(crate) fn ascii_lowercase(s: &str) -> (r: String)
    ensures
        r@ == lower_chars(s@),
{
    s.to_ascii_lowercase()
}

/// Calls the standard library's `Debug` formatting of a `str`
/// (`format!("{:?}", s)`). The contract only names the result: it is
/// `debug_text` of the characters of `s`; the escaping rules are not stated.
#[verifier::external_body]
pub(crate) fn debug_string(s: &str) -> (r: String)
    ensures
        r@ == debug_text(s@),
{
    format!("{:?}", s)
}

} // verus!
