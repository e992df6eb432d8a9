use vstd::prelude::*;

verus! {

/// `serde_json::Value`, a JSON document, of which nothing is known here but
/// what `json_members` names.
#[verifier::external_type_specification]
#[verifier::external_body]
pub struct ExJsonValue(serde_json::Value);

/// `serde_json::Error`, which tells why a text is not one JSON document;
/// it is carried along and never looked into.
#[verifier::external_type_specification]
#[verifier::external_body]
pub struct ExJsonError(serde_json::Error);

/// The members of a JSON document, as far as this library reads them: each
/// key of an object with the text of its value where the value is a JSON
/// string, and with `None` where it is of another kind. A document that is no
/// object has no members.
pub uninterp spec fn json_members(document: serde_json::Value) -> Map<Seq<char>, Option<Seq<char>>>;

/// What `serde_json` reads from `text`: the members of the JSON document
/// that `text` spells, or `None` where it does not take `text` for one
/// document. It takes no text that is not JSON, nor one with anything but
/// blanks after the document, nor what goes beyond its limits, such as a
/// document nested more than 128 deep.
pub uninterp spec fn json_document(text: Seq<char>) -> Option<Map<Seq<char>, Option<Seq<char>>>>;

/// Calls `serde_json::from_str` for a `serde_json::Value`. The outcome
/// depends on the text alone, which is all that the contract claims: it is
/// an error exactly where `json_document` names none, and else a document
/// with the members that `json_document` names.
#[verifier::external_body]
pub(crate) fn parse_document(text: &str) -> (parsed: Result<serde_json::Value, serde_json::Error>)
    ensures
        match parsed {
            Ok(document) => json_document(text@) == Some(json_members(document)),
            Err(_) => json_document(text@) is None,
        },
{
    serde_json::from_str::<serde_json::Value>(text)
}

/// Calls `serde_json::Map::remove` on the members of an object: the member
/// under `key` leaves the document and is handed out, as its text where it is
/// a JSON string. `None` says that the document has no such member; a
/// document that is no object has none and stays as it is.
#[verifier::external_body]
pub(crate) fn take_member(document: &mut serde_json::Value, key: &str) -> (member: Option<
    Option<String>,
>)
    ensures
        json_members(*final(document)) == json_members(*old(document)).remove(key@),
        match member {
            Some(Some(text)) => json_members(*old(document)).contains_key(key@) && json_members(
                *old(document),
            )[key@] == Some(text@),
            Some(None) => json_members(*old(document)).contains_key(key@) && json_members(
                *old(document),
            )[key@] is None,
            None => !json_members(*old(document)).contains_key(key@),
        },
{
    match document {
        serde_json::Value::Object(members) => match members.remove(key) {
            Some(serde_json::Value::String(text)) => Some(Some(text)),
            Some(_) => Some(None),
            None => None,
        },
        _ => None,
    }
}

} // verus!
