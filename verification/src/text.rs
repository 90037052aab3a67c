//! Conversions between bytes and text that the relay relies on.

use vstd::prelude::*;
use vstd::utf8::valid_utf8;
use vstd::utf8::decode_utf8;

verus! {

/// The text that `String::from_utf8_lossy` makes of `bytes`: the bytes decoded
/// as UTF-8, each ill-formed sequence replaced by U+FFFD.
pub uninterp spec fn utf8_lossy(bytes: Seq<u8>) -> Seq<char>;

/// Calls `String::from_utf8_lossy`. Claimed: the result is `utf8_lossy` of the
/// bytes, and, as the standard library documents, bytes that are valid UTF-8
/// are decoded unchanged.
#[verifier::external_body]
fn lossy_utf8(bytes: &[u8]) -> (text: String)
    ensures
        text@ == utf8_lossy(bytes@),
        valid_utf8(bytes@) ==> text@ == decode_utf8(bytes@),
{
    String::from_utf8_lossy(bytes).into_owned()
}

/// The bytes `v` read as UTF-8 text, ill-formed sequences replaced.
pub fn u8_to_str(v: &[u8]) -> (text: String)
    ensures
        text@ == utf8_lossy(v@),
        valid_utf8(v@) ==> text@ == decode_utf8(v@),
{
    lossy_utf8(v)
}

/// The ASCII lower case of one character: 'A' to 'Z' become 'a' to 'z'; any
/// other character stays as it is.
pub open spec fn ascii_lower(c: char) -> char {
    if 'A' <= c && c <= 'Z' {
        ((c as u32) + 32) as char
    } else {
        c
    }
}

/// Every character of `s` in ASCII lower case.
pub open spec fn ascii_lowercase(s: Seq<char>) -> Seq<char> {
    s.map_values(|c: char| ascii_lower(c))
}

/// Calls `str::to_ascii_lowercase`. Claimed, as its documentation says: each
/// character is mapped to its ASCII lower case, non-ASCII characters are
/// unchanged.
#[verifier::external_body]
pub(crate) fn to_ascii_lowercase(s: &str) -> (lower: String)
    ensures
        lower@ == ascii_lowercase(s@),
{
    s.to_ascii_lowercase()
}

/// The text that `str::to_lowercase` makes of `s`: its Unicode lower case.
pub uninterp spec fn unicode_lowercase(s: Seq<char>) -> Seq<char>;

/// Calls `str::to_lowercase`. Claimed: the result is `unicode_lowercase` of
/// the text; the Unicode case tables are not restated here.
#[verifier::external_body]
pub(crate) fn to_unicode_lowercase(s: &str) -> (lower: String)
    ensures
        lower@ == unicode_lowercase(s@),
{
    s.to_lowercase()
}

/// The text of an optional string.
pub open spec fn opt_text(s: Option<String>) -> Option<Seq<char>> {
    match s {
        Some(t) => Some(t@),
        None => None,
    }
}

} // verus!
