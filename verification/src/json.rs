//! JSON values as plain data, read from and written to bytes by
//! `serde_json`, and the typed lookups the sidecar protocol uses.
use vstd::prelude::*;
use crate::text::str_eq;
use serde_json::{Number, Value};

verus! {

/// A JSON value. A number is kept as an integer when it is one (non-negative
/// ones as [`JsonValue::UInt`], negative ones as [`JsonValue::NegInt`]); a
/// number with a fraction or exponent as its text ([`JsonValue::Float`]).
#[derive(Debug)]
pub enum JsonValue {
    Null,
    Bool(bool),
    UInt(u64),
    NegInt(i64),
    Float(String),
    Str(String),
    Array(Vec<JsonValue>),
    /// Members in the order the document's object yields them.
    Object(Vec<(String, JsonValue)>),
}

#[verifier::external_type_specification]
#[verifier::external_body]
pub struct ExSerdeJsonValue(serde_json::Value);

/// The value `serde_json` reads from `bytes` (`None` when they are not one
/// JSON value).
pub uninterp spec fn json_document(bytes: Seq<u8>) -> Option<JsonValue>;

/// The bytes `serde_json::to_vec` writes for `v`.
pub uninterp spec fn json_bytes(v: JsonValue) -> Seq<u8>;

/// `serde_json::from_slice::<serde_json::Value>`: read one JSON value.
/// Numbers are kept as in [`JsonValue`].
#[verifier::external_body]
pub(crate) fn parse_json(bytes: &[u8]) -> (r: Result<JsonValue, String>)
    ensures
        match r {
            Ok(v) => json_document(bytes@) == Some(v),
            Err(_) => json_document(bytes@) is None,
        },
{
    match serde_json::from_slice::<serde_json::Value>(bytes) {
        Ok(v) => Ok(from_serde(&v)),
        Err(e) => Err(e.to_string()),
    }
}

/// The variant-by-variant conversion of [`parse_json`] (nothing is claimed
/// of it on its own).
#[verifier::external_body]
fn from_serde(v: &serde_json::Value) -> JsonValue {
    match v {
        serde_json::Value::Null => JsonValue::Null,
        serde_json::Value::Bool(b) => JsonValue::Bool(*b),
        serde_json::Value::Number(n) => match (n.as_u64(), n.as_i64()) {
            (Some(u), _) => JsonValue::UInt(u),
            (None, Some(i)) => JsonValue::NegInt(i),
            _ => JsonValue::Float(n.to_string()),
        },
        serde_json::Value::String(s) => JsonValue::Str(s.clone()),
        serde_json::Value::Array(a) => JsonValue::Array(a.iter().map(from_serde).collect()),
        serde_json::Value::Object(m) => JsonValue::Object(m.iter().map(|(k, x)| (k.clone(), from_serde(x))).collect()),
    }
}

/// `serde_json::to_vec` of `v`. A [`JsonValue::Float`] text is parsed by
/// `serde_json::Number`'s `FromStr` first; its error is the error here.
#[verifier::external_body]
pub(crate) fn encode_json(v: &JsonValue) -> (r: Result<Vec<u8>, String>)
    ensures
        r matches Ok(b) ==> b@ == json_bytes(*v),
{
    serde_json::to_vec(&to_serde(v)?).map_err(|e| e.to_string())
}

/// The variant-by-variant conversion of [`encode_json`] (nothing is claimed
/// of it on its own).
#[verifier::external_body]
fn to_serde(v: &JsonValue) -> Result<Value, String> {
    Ok(match v {
        JsonValue::Null => Value::Null,
        JsonValue::Float(t) => Value::Number(t.parse::<Number>().map_err(|e| e.to_string())?),
        JsonValue::Bool(b) => Value::Bool(*b),
        JsonValue::UInt(u) => Value::from(*u),
        JsonValue::NegInt(i) => Value::from(*i),
        JsonValue::Str(s) => Value::String(s.clone()),
        JsonValue::Array(a) => Value::Array(a.iter().map(to_serde).collect::<Result<_, _>>()?),
        JsonValue::Object(m) => object_to_serde(m)?,
    })
}

/// The object case of [`to_serde`] (nothing is claimed of it on its own).
#[verifier::external_body]
fn object_to_serde(m: &Vec<(String, JsonValue)>) -> Result<Value, String> {
    Ok(Value::Object(m.iter().map(|(k, x)| to_serde(x).map(|y| (k.clone(), y))).collect::<Result<_, _>>()?))
}

/// The value of the first member `key` of an object (`None` for a value
/// that is no object, as `serde_json::Value::get`).
pub open spec fn member(v: JsonValue, key: Seq<char>) -> Option<JsonValue> {
    match v {
        JsonValue::Object(m) => member_of(m@, key),
        _ => None,
    }
}

/// The value of the first pair with key `key`.
pub open spec fn member_of(m: Seq<(String, JsonValue)>, key: Seq<char>) -> Option<JsonValue>
    decreases m.len(),
{
    if m.len() == 0 {
        None
    } else if m[0].0@ == key {
        Some(m[0].1)
    } else {
        member_of(m.drop_first(), key)
    }
}

/// `serde_json::Value::get` with a string key.
pub fn get<'a>(v: &'a JsonValue, key: &str) -> (r: Option<&'a JsonValue>)
    ensures
        match r {
            Some(x) => member(*v, key@) == Some(*x),
            None => member(*v, key@) is None,
        },
{
    let m = match v {
        JsonValue::Object(m) => m,
        _ => {
            return None;
        },
    };
    let mut i: usize = 0;
    assert(m@.skip(0) =~= m@);
    while i < m.len()
        invariant
            i <= m@.len(),
            member(*v, key@) == member_of(m@, key@),
            member_of(m@, key@) == member_of(m@.skip(i as int), key@),
        decreases m@.len() - i,
    {
        assert(m@.skip(i as int).drop_first() =~= m@.skip(i + 1));
        if str_eq(m[i].0.as_str(), key) {
            return Some(&m[i].1);
        }
        i = i + 1;
    }
    None
}

/// `as_u64`: the value of a non-negative integer.
pub open spec fn as_u64(v: Option<JsonValue>) -> Option<u64> {
    match v {
        Some(JsonValue::UInt(u)) => Some(u),
        _ => None,
    }
}

/// `as_i64`: the value of an integer that fits in `i64`.
pub open spec fn as_i64(v: Option<JsonValue>) -> Option<i64> {
    match v {
        Some(JsonValue::UInt(u)) => if u <= i64::MAX { Some(u as i64) } else { None },
        Some(JsonValue::NegInt(i)) => Some(i),
        _ => None,
    }
}

/// `as_str`: the text of a string.
pub open spec fn as_text(v: Option<JsonValue>) -> Option<Seq<char>> {
    match v {
        Some(JsonValue::Str(s)) => Some(s@),
        _ => None,
    }
}

/// The member `key` of the object members `m`, taken out of them.
pub fn take_member(members: Vec<(String, JsonValue)>, key: &str) -> (r: Option<JsonValue>)
    ensures
        r == member_of(members@, key@),
{
    let ghost m0 = members@;
    let mut m = members;
    let mut i: usize = 0;
    assert(m0.skip(0) =~= m0);
    while i < m.len()
        invariant
            i <= m@.len(),
            m@ == m0,
            m0 == members@,
            member_of(m0, key@) == member_of(m0.skip(i as int), key@),
        decreases m@.len() - i,
    {
        assert(m0.skip(i as int).drop_first() =~= m0.skip(i + 1));
        if str_eq(m[i].0.as_str(), key) {
            assert(m0.skip(i as int)[0] == m0[i as int]);
            let pair = m.remove(i);
            return Some(pair.1);
        }
        i = i + 1;
    }
    None
}

} // verus!
