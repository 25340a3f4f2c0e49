//! Reading single fields of JSON documents through `serde_json`.
use vstd::prelude::*;

verus! {

/// The text stored under `key` in the JSON document `bytes`: `Some` when
/// `bytes` is a JSON document whose top level is an object mapping `key`
/// to a string, and that string; `None` otherwise.
pub uninterp spec fn json_string_field(bytes: Seq<u8>, key: Seq<char>) -> Option<Seq<char>>;

/// `serde_json::from_slice::<serde_json::Value>`, then `Value::get(key)` and
/// `Value::as_str` on what it found. The result depends on the bytes and the
/// key alone; its exact value (JSON grammar) is left to the name.
#[verifier::external_body]
pub(crate) fn read_json_string_field(bytes: &[u8], key: &str) -> (field: Option<String>)
    ensures
        field matches Some(text) ==> json_string_field(bytes@, key@) == Some(text@),
        field is None ==> json_string_field(bytes@, key@) is None,
{
    let value = match serde_json::from_slice::<serde_json::Value>(bytes) {
        Ok(value) => value,
        Err(_) => return None,
    };
    match value.get(key) {
        Some(found) => found.as_str().map(str::to_string),
        None => None,
    }
}

} // verus!
