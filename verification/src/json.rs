//! A JSON document model, read with `serde_json`.
use vstd::prelude::*;
use crate::text::{chars_of, chars_eq};

verus! {

/// A JSON value as the channel list reader sees it.
///
/// Objects keep their members in the order `serde_json`'s map walks them
/// (sorted by key), and no key occurs twice in one object.
/// A number is kept as the `u64` it denotes when it is a non-negative
/// integer that fits, and as `None` otherwise.
#[derive(Debug)]
pub enum JsonValue {
    Null,
    Bool(bool),
    Number(Option<u64>),
    Str(String),
    Array(Vec<JsonValue>),
    Object(Vec<JsonMember>),
}

/// One `"key": value` member of a JSON object.
#[derive(Debug)]
pub struct JsonMember {
    pub key: String,
    pub value: JsonValue,
}

/// `serde_json::Value`, which only [`parse_json`] handles.
#[verifier::external_type_specification]
#[verifier::external_body]
pub struct ExJsonValue(serde_json::Value);

/// The document that `serde_json` reads from `text`, or `None` where it
/// refuses the text.
pub uninterp spec fn json_document(text: Seq<char>) -> Option<JsonValue>;

/// Calls `serde_json::from_str::<serde_json::Value>` on `text` and turns the
/// value tree it returns into a [`JsonValue`]; a parse error becomes `None`.
/// The contract claims only that the result depends on the text alone.
#[verifier::external_body]
pub(crate) fn parse_json(text: &str) -> (r: Option<JsonValue>)
    ensures
        r == json_document(text@),
{
    match serde_json::from_str::<serde_json::Value>(text) {
        Ok(v) => Some(model_of(v)),
        Err(_) => None,
    }
}

/// Moves a `serde_json::Value` into the library's model, variant for
/// variant; a number keeps what `serde_json::Number::as_u64` gives.
/// Used only by [`parse_json`], whose contract covers it.
#[verifier::external_body]
fn model_of(v: serde_json::Value) -> JsonValue {
    match v {
        serde_json::Value::Null => JsonValue::Null,
        serde_json::Value::Bool(b) => JsonValue::Bool(b),
        serde_json::Value::Number(n) => JsonValue::Number(n.as_u64()),
        serde_json::Value::String(s) => JsonValue::Str(s),
        serde_json::Value::Array(a) => JsonValue::Array(a.into_iter().map(model_of).collect()),
        serde_json::Value::Object(m) => JsonValue::Object(
            m.into_iter().map(|(key, value)| JsonMember { key, value: model_of(value) }).collect(),
        ),
    }
}

/// The value of the first member named `key`, or `Null` when none is.
pub open spec fn member_in(ms: Seq<JsonMember>, key: Seq<char>) -> JsonValue
    decreases ms.len(),
{
    if ms.len() == 0 {
        JsonValue::Null
    } else if ms[0].key@ == key {
        ms[0].value
    } else {
        member_in(ms.drop_first(), key)
    }
}

/// `value[key]`: the member `key` of an object, `Null` for a missing key
/// or a value that is not an object.
pub open spec fn member(v: JsonValue, key: Seq<char>) -> JsonValue {
    match v {
        JsonValue::Object(ms) => member_in(ms@, key),
        _ => JsonValue::Null,
    }
}

/// `value.as_str().unwrap_or("")`.
pub open spec fn text_or_empty(v: JsonValue) -> Seq<char> {
    match v {
        JsonValue::Str(s) => s@,
        _ => Seq::empty(),
    }
}

/// `value.as_u64()`.
pub open spec fn as_u64(v: JsonValue) -> Option<u64> {
    match v {
        JsonValue::Number(n) => n,
        _ => None,
    }
}

/// A missing member read as `Null`.
pub open spec fn or_null(v: Option<&JsonValue>) -> JsonValue {
    match v {
        Some(x) => *x,
        None => JsonValue::Null,
    }
}

/// Whether two strings hold the same characters.
pub fn same_text(a: &str, b: &str) -> (r: bool)
    ensures
        r == (a@ == b@),
{
    let av = chars_of(a);
    let bv = chars_of(b);
    chars_eq(&av, &bv)
}

/// `value.get(key)`: the member `key`, where `None` stands for `Null`.
pub fn member_ref<'a>(v: Option<&'a JsonValue>, key: &str) -> (r: Option<&'a JsonValue>)
    ensures
        or_null(r) == member(or_null(v), key@),
{
    match v {
        Some(JsonValue::Object(ms)) => {
            let mut i: usize = 0;
            assert(ms@.subrange(0, ms.len() as int) =~= ms@);
            while i < ms.len()
                invariant
                    i <= ms.len(),
                    member(or_null(v), key@) == member_in(ms@, key@),
                    member_in(ms@, key@) == member_in(ms@.subrange(i as int, ms.len() as int), key@),
                decreases ms.len() - i,
            {
                assert(ms@.subrange(i as int, ms.len() as int).drop_first() =~= ms@.subrange(
                    i + 1,
                    ms.len() as int,
                ));
                if same_text(ms[i].key.as_str(), key) {
                    assert(ms@.subrange(i as int, ms.len() as int)[0] == ms@[i as int]);
                    return Some(&ms[i].value);
                }
                i += 1;
            }
            None
        },
        _ => None,
    }
}

/// `value.as_str().unwrap_or("")`, owned.
pub fn text_at(v: Option<&JsonValue>) -> (r: String)
    ensures
        r@ == text_or_empty(or_null(v)),
{
    match v {
        Some(JsonValue::Str(s)) => s.clone(),
        _ => String::new(),
    }
}

/// `value.as_u64()`.
pub fn u64_at(v: Option<&JsonValue>) -> (r: Option<u64>)
    ensures
        r == as_u64(or_null(v)),
{
    match v {
        Some(JsonValue::Number(n)) => *n,
        _ => None,
    }
}

} // verus!
