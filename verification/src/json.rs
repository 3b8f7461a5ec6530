//! JSON objects of `serde_json`, as far as the stored metadata needs them:
//! objects whose values are texts and whole numbers.

use vstd::prelude::*;

verus! {

/// `serde_json::Value`, a JSON value: carried, never looked into.
#[verifier::external_type_specification]
#[verifier::external_body]
pub struct ExValue(serde_json::Value);

/// `serde_json::Map`, a JSON object: what it holds is told by
/// `object_keys`, `object_texts` and `object_integers`.
#[verifier::external_type_specification]
#[verifier::external_body]
#[verifier::reject_recursive_types(K)]
#[verifier::reject_recursive_types(V)]
pub struct ExMap<K, V>(serde_json::Map<K, V>);

/// The keys of a JSON object, whatever stands under them.
pub uninterp spec fn object_keys(object: serde_json::Map<String, serde_json::Value>) -> Set<
    Seq<char>,
>;

/// The entries of a JSON object whose value is a string: key and text.
pub uninterp spec fn object_texts(object: serde_json::Map<String, serde_json::Value>) -> Map<
    Seq<char>,
    Seq<char>,
>;

/// The entries of a JSON object whose value is a whole number: key and
/// number. Numbers with a fraction or an exponent are not among them.
pub uninterp spec fn object_integers(object: serde_json::Map<String, serde_json::Value>) -> Map<
    Seq<char>,
    int,
>;

/// No keys.
pub open spec fn no_keys() -> Set<Seq<char>> {
    Set::empty()
}

/// No text entries.
pub open spec fn no_texts() -> Map<Seq<char>, Seq<char>> {
    Map::empty()
}

/// No number entries.
pub open spec fn no_integers() -> Map<Seq<char>, int> {
    Map::empty()
}

/// `serde_json::Map::new`: an object without entries.
#[verifier::external_body]
pub(crate) fn new_object() -> (object: serde_json::Map<String, serde_json::Value>)
    ensures
        object_keys(object) == no_keys(),
        object_texts(object) == no_texts(),
        object_integers(object) == no_integers(),
{
    serde_json::Map::new()
}

/// `serde_json::Map::insert` with a string for the value: the entry for
/// `key` is now that string, whatever it was before; no other entry changes.
#[verifier::external_body]
pub(crate) fn insert_text(
    object: &mut serde_json::Map<String, serde_json::Value>,
    key: &str,
    value: &str,
)
    ensures
        object_keys(*final(object)) == object_keys(*old(object)).insert(key@),
        object_texts(*final(object)) == object_texts(*old(object)).insert(key@, value@),
        object_integers(*final(object)) == object_integers(*old(object)).remove(key@),
{
    object.insert(key.to_string(), serde_json::Value::String(value.to_string()));
}

/// `serde_json::Map::insert` with a signed number for the value: the entry
/// for `key` is now that number, whatever it was before; no other entry
/// changes.
#[verifier::external_body]
pub(crate) fn insert_integer(
    object: &mut serde_json::Map<String, serde_json::Value>,
    key: &str,
    value: i64,
)
    ensures
        object_keys(*final(object)) == object_keys(*old(object)).insert(key@),
        object_integers(*final(object)) == object_integers(*old(object)).insert(key@, value as int),
        object_texts(*final(object)) == object_texts(*old(object)).remove(key@),
{
    object.insert(key.to_string(), serde_json::Value::from(value));
}

/// `serde_json::Map::insert` with an unsigned number for the value: the
/// entry for `key` is now that number, whatever it was before; no other
/// entry changes.
#[verifier::external_body]
pub(crate) fn insert_natural(
    object: &mut serde_json::Map<String, serde_json::Value>,
    key: &str,
    value: u64,
)
    ensures
        object_keys(*final(object)) == object_keys(*old(object)).insert(key@),
        object_integers(*final(object)) == object_integers(*old(object)).insert(key@, value as int),
        object_texts(*final(object)) == object_texts(*old(object)).remove(key@),
{
    object.insert(key.to_string(), serde_json::Value::from(value));
}

/// `Value::clone`, which `serde_json` derives: a copy that is the same
/// value.
pub assume_specification[ <serde_json::Value as Clone>::clone ](
    value: &serde_json::Value,
) -> (copy: serde_json::Value)
    ensures
        copy == *value,
;

/// `serde_json::Map::insert` with any JSON value: the object now has the
/// key `key`; what stands under any other key does not change. What kind
/// of entry stands under `key` is the value's own matter.
#[verifier::external_body]
pub(crate) fn insert_value(
    object: &mut serde_json::Map<String, serde_json::Value>,
    key: &str,
    value: serde_json::Value,
)
    ensures
        object_keys(*final(object)) == object_keys(*old(object)).insert(key@),
        object_texts(*final(object)).remove(key@) == object_texts(*old(object)).remove(key@),
        object_integers(*final(object)).remove(key@) == object_integers(*old(object)).remove(key@),
{
    object.insert(key.to_string(), value);
}

/// `Value::from` for a JSON object: the object as a JSON value.
#[verifier::external_body]
pub(crate) fn object_value(object: serde_json::Map<String, serde_json::Value>) -> serde_json::Value {
    serde_json::Value::from(object)
}

/// `serde_json::Map::get`, then `Value::as_str`: the text under `key`,
/// where the object has that key with a string for its value.
#[verifier::external_body]
pub(crate) fn get_text(object: &serde_json::Map<String, serde_json::Value>, key: &str) -> (text:
    Option<String>)
    ensures
        match text {
            Some(t) => object_texts(*object).contains_key(key@) && object_texts(*object)[key@]
                == t@,
            None => !object_texts(*object).contains_key(key@),
        },
{
    object.get(key).and_then(|value| value.as_str()).map(|text| text.to_string())
}

/// `serde_json::Map::get`, then `Value::as_i64`: the number under `key`,
/// where the object has that key with a whole number for its value that
/// an `i64` can hold.
#[verifier::external_body]
pub(crate) fn get_integer(object: &serde_json::Map<String, serde_json::Value>, key: &str) -> (number:
    Option<i64>)
    ensures
        match number {
            Some(n) => object_integers(*object).contains_key(key@) && object_integers(
                *object,
            )[key@] == n,
            None => !(object_integers(*object).contains_key(key@) && i64::MIN <= object_integers(
                *object,
            )[key@] <= i64::MAX),
        },
{
    object.get(key).and_then(|value| value.as_i64())
}

/// `serde_json::Map::get`, then `Value::as_u64`: the number under `key`,
/// where the object has that key with a whole number for its value that
/// is not negative.
#[verifier::external_body]
pub(crate) fn get_natural(object: &serde_json::Map<String, serde_json::Value>, key: &str) -> (number:
    Option<u64>)
    ensures
        match number {
            Some(n) => object_integers(*object).contains_key(key@) && object_integers(
                *object,
            )[key@] == n,
            None => !(object_integers(*object).contains_key(key@) && 0 <= object_integers(
                *object,
            )[key@] <= u64::MAX),
        },
{
    object.get(key).and_then(|value| value.as_u64())
}

} // verus!
