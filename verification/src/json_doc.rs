//! The JSON documents that the relay writes and reads, through the `json` crate.

use vstd::prelude::*;
use crate::text::opt_text;
use crate::lines::NEWLINE;
use vstd::utf8::valid_utf8;

verus! {

/// The views of the key/value pairs in `entries`.
pub open spec fn entry_views(entries: Seq<(String, String)>) -> Seq<(Seq<char>, Seq<char>)> {
    entries.map_values(|e: (String, String)| (e.0@, e.1@))
}

/// The bytes of the compact JSON text (`JsonValue::dump`) of the object that
/// the `json` crate builds by inserting, in order, each key with its string
/// value (a later insert of a key replaces the earlier value in place).
pub uninterp spec fn json_object_dump(entries: Seq<(Seq<char>, Seq<char>)>) -> Seq<u8>;

/// Builds a `json::object::Object` from the pairs (its `FromIterator` impl,
/// which calls `Object::insert` for each pair in order) and dumps it with
/// `JsonValue::dump`. Claimed: the bytes are `json_object_dump` of the pairs;
/// they hold no newline byte (the compact writer adds no line breaks and
/// escapes a newline inside a string as `\n`); and they are UTF-8, being the
/// bytes of a `String`. The rest of the crate's escaping is not restated.
#[verifier::external_body]
pub(crate) fn dump_json_object(entries: &Vec<(String, String)>) -> (text: Vec<u8>)
    ensures
        text@ == json_object_dump(entry_views(entries@)),
        !text@.contains(NEWLINE),
        valid_utf8(text@),
{
    json::JsonValue::Object(entries.iter().map(|e| (e.0.as_str(), e.1.as_str())).collect())
        .dump()
        .into_bytes()
}

/// What `json::parse(text)` gives at member `key`, where that is a string:
/// `Some(s)` where the text is a JSON object whose member `key` is the string
/// `s`; `None` where the text is not JSON, or the member is missing or not a
/// string.
pub uninterp spec fn json_member_string(text: Seq<char>, key: Seq<char>) -> Option<Seq<char>>;

/// Parses `text` with `json::parse` and reads member `key` of the result with
/// `Index<&str>` and `JsonValue::as_str`. Claimed: the result is
/// `json_member_string` of the text and key. What the parser accepts is not
/// restated.
#[verifier::external_body]
pub(crate) fn json_string_member(text: &str, key: &str) -> (member: Option<String>)
    ensures
        opt_text(member) == json_member_string(text@, key@),
{
    match json::parse(text) {
        Err(_) => None,
        Ok(doc) => match doc[key].as_str() {
            Some(s) => Some(s.to_string()),
            None => None,
        },
    }
}

} // verus!
