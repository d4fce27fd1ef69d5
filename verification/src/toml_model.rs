//! TOML documents as plain values, and the typed field lookups that
//! manifest and state files use.
use vstd::prelude::*;
use crate::text::str_eq;
use toml::Value;

verus! {

/// A TOML value. Floats and date-times, which no file of this program
/// uses, are kept only as [`TomlValue::Other`].
pub enum TomlValue {
    Str(String),
    Int(i64),
    Bool(bool),
    Array(Vec<TomlValue>),
    /// Key/value pairs in the order the document's table yields them.
    Table(Vec<(String, TomlValue)>),
    Other,
}

#[verifier::external_type_specification]
#[verifier::external_body]
pub struct ExTomlValue(toml::Value);

/// The value `toml` parses the document `text` into (`None` when `text`
/// is not valid TOML).
pub uninterp spec fn toml_document(text: Seq<char>) -> Option<TomlValue>;

/// `str::parse::<toml::Value>`: parse a TOML document. A document is a
/// table; the result is a function of the text alone.
#[verifier::external_body]
pub(crate) fn parse_toml(text: &str) -> (r: Result<TomlValue, String>)
    ensures
        match r {
            Ok(v) => toml_document(text@) == Some(v) && v is Table,
            Err(_) => toml_document(text@) is None,
        },
{
    match text.parse::<toml::Value>() {
        Ok(v) => Ok(toml_to_model(&v)),
        Err(e) => Err(e.to_string()),
    }
}

/// Converts a `toml::Value` variant by variant (the recursion of
/// [`parse_toml`]'s conversion; nothing is claimed of it on its own).
#[verifier::external_body]
fn toml_to_model(v: &toml::Value) -> TomlValue {
    match v {
        toml::Value::String(s) => TomlValue::Str(s.clone()),
        toml::Value::Integer(i) => TomlValue::Int(*i),
        toml::Value::Boolean(b) => TomlValue::Bool(*b),
        toml::Value::Array(a) => TomlValue::Array(a.iter().map(toml_to_model).collect()),
        toml::Value::Table(t) => TomlValue::Table(t.iter().map(|(k, x)| (k.clone(), toml_to_model(x))).collect()),
        _ => TomlValue::Other,
    }
}

/// Whether `v` holds only strings, integers, booleans, arrays and tables
/// (the values this program writes).
pub open spec fn writable(v: TomlValue) -> bool
    decreases v,
{
    match v {
        TomlValue::Other => false,
        TomlValue::Array(a) => forall|i: int| 0 <= i < a@.len() ==> writable(#[trigger] a@[i]),
        TomlValue::Table(t) => forall|i: int| 0 <= i < t@.len() ==> writable(#[trigger] t@[i].1),
        _ => true,
    }
}

/// The text `toml::to_string_pretty` writes for the value `v`.
pub uninterp spec fn toml_text(v: TomlValue) -> Seq<char>;

/// `toml::to_string_pretty` of `v` (tables become `toml::map::Map`s, so a
/// later pair with a repeated key replaces an earlier one).
#[verifier::external_body]
pub(crate) fn encode_toml(v: &TomlValue) -> (r: Result<String, String>)
    requires
        writable(*v),
    ensures
        r matches Ok(s) ==> s@ == toml_text(*v),
{
    toml::to_string_pretty(&model_to_toml(v)).map_err(|e| e.to_string())
}

/// Converts a [`TomlValue`] variant by variant (the recursion of
/// [`encode_toml`]'s conversion; [`TomlValue::Other`] never reaches it).
#[verifier::external_body]
fn model_to_toml(v: &TomlValue) -> Value {
    match v {
        TomlValue::Str(s) => Value::String(s.clone()),
        TomlValue::Int(i) => Value::Integer(*i),
        TomlValue::Bool(b) => Value::Boolean(*b),
        TomlValue::Array(a) => Value::Array(a.iter().map(model_to_toml).collect()),
        TomlValue::Table(t) => Value::Table(t.iter().map(|(k, x)| (k.clone(), model_to_toml(x))).collect()),
        TomlValue::Other => Value::Array(Vec::new()),
    }
}

/// The value of the first pair with key `key`.
pub open spec fn lookup_value(t: Seq<(String, TomlValue)>, key: Seq<char>) -> Option<TomlValue>
    decreases t.len(),
{
    if t.len() == 0 {
        None
    } else if t[0].0@ == key {
        Some(t[0].1)
    } else {
        lookup_value(t.drop_first(), key)
    }
}

/// The value of `key` in table `t`.
pub fn get<'a>(t: &'a Vec<(String, TomlValue)>, key: &str) -> (r: Option<&'a TomlValue>)
    ensures
        match r {
            Some(v) => lookup_value(t@, key@) == Some(*v),
            None => lookup_value(t@, key@) is None,
        },
{
    let mut i: usize = 0;
    assert(t@.skip(0) =~= t@);
    while i < t.len()
        invariant
            i <= t@.len(),
            lookup_value(t@, key@) == lookup_value(t@.skip(i as int), key@),
        decreases t@.len() - i,
    {
        assert(t@.skip(i as int).drop_first() =~= t@.skip(i + 1));
        if str_eq(t[i].0.as_str(), key) {
            return Some(&t[i].1);
        }
        i = i + 1;
    }
    None
}

/// A string field: absent, a string, or (as `Err`) another type.
pub open spec fn str_field(t: Seq<(String, TomlValue)>, key: Seq<char>) -> Result<Option<String>, ()> {
    match lookup_value(t, key) {
        None => Ok(None),
        Some(TomlValue::Str(s)) => Ok(Some(s)),
        Some(_) => Err(()),
    }
}

/// An integer field.
pub open spec fn int_field(t: Seq<(String, TomlValue)>, key: Seq<char>) -> Result<Option<i64>, ()> {
    match lookup_value(t, key) {
        None => Ok(None),
        Some(TomlValue::Int(i)) => Ok(Some(i)),
        Some(_) => Err(()),
    }
}

/// A boolean field.
pub open spec fn bool_field(t: Seq<(String, TomlValue)>, key: Seq<char>) -> Result<Option<bool>, ()> {
    match lookup_value(t, key) {
        None => Ok(None),
        Some(TomlValue::Bool(b)) => Ok(Some(b)),
        Some(_) => Err(()),
    }
}

/// All items are strings.
pub open spec fn all_strings(a: Seq<TomlValue>) -> bool {
    forall|i: int| 0 <= i < a.len() ==> a[i] is Str
}

/// An array-of-strings field (absent means empty).
pub open spec fn strs_field(t: Seq<(String, TomlValue)>, key: Seq<char>) -> Result<Seq<String>, ()> {
    match lookup_value(t, key) {
        None => Ok(Seq::empty()),
        Some(TomlValue::Array(a)) => if all_strings(a@) {
            Ok(Seq::new(a@.len(), |i: int| a@[i]->Str_0))
        } else {
            Err(())
        },
        Some(_) => Err(()),
    }
}

/// Read a string field; `Err` names the field.
pub fn string_field(t: &Vec<(String, TomlValue)>, key: &str) -> (r: Result<Option<String>, String>)
    ensures
        match r {
            Ok(v) => str_field(t@, key@) == Ok::<Option<String>, ()>(v),
            Err(_) => str_field(t@, key@) is Err,
        },
{
    match get(t, key) {
        None => Ok(None),
        Some(TomlValue::Str(s)) => Ok(Some(s.clone())),
        Some(_) => Err(crate::text::msg_join3("field '", key, "' must be a string")),
    }
}

/// Read an integer field.
pub fn integer_field(t: &Vec<(String, TomlValue)>, key: &str) -> (r: Result<Option<i64>, String>)
    ensures
        match r {
            Ok(v) => int_field(t@, key@) == Ok::<Option<i64>, ()>(v),
            Err(_) => int_field(t@, key@) is Err,
        },
{
    match get(t, key) {
        None => Ok(None),
        Some(TomlValue::Int(i)) => Ok(Some(*i)),
        Some(_) => Err(crate::text::msg_join3("field '", key, "' must be an integer")),
    }
}

/// Read a boolean field.
pub fn boolean_field(t: &Vec<(String, TomlValue)>, key: &str) -> (r: Result<Option<bool>, String>)
    ensures
        match r {
            Ok(v) => bool_field(t@, key@) == Ok::<Option<bool>, ()>(v),
            Err(_) => bool_field(t@, key@) is Err,
        },
{
    match get(t, key) {
        None => Ok(None),
        Some(TomlValue::Bool(b)) => Ok(Some(*b)),
        Some(_) => Err(crate::text::msg_join3("field '", key, "' must be a boolean")),
    }
}

/// The strings of an array whose items are all strings.
fn strings_of(a: &Vec<TomlValue>) -> (r: Option<Vec<String>>)
    ensures
        match r {
            Some(v) => all_strings(a@) && v@ == Seq::new(a@.len(), |i: int| a@[i]->Str_0),
            None => !all_strings(a@),
        },
{
    let n = a.len();
    let mut out: Vec<String> = Vec::new();
    let mut i: usize = 0;
    while i < n
        invariant
            i <= n,
            n == a@.len(),
            out@.len() == i,
            forall|j: int| 0 <= j < i ==> a@[j] is Str,
            forall|j: int| 0 <= j < i ==> #[trigger] out@[j] == a@[j]->Str_0,
        decreases n - i,
    {
        match &a[i] {
            TomlValue::Str(s) => {
                out.push(s.clone());
            },
            _ => {
                assert(!(a@[i as int] is Str));
                return None;
            },
        }
        i = i + 1;
    }
    assert(out@ =~= Seq::new(a@.len(), |j: int| a@[j]->Str_0));
    Some(out)
}

/// Read an array-of-strings field.
pub fn string_array_field(t: &Vec<(String, TomlValue)>, key: &str) -> (r: Result<Vec<String>, String>)
    ensures
        match r {
            Ok(v) => strs_field(t@, key@) == Ok::<Seq<String>, ()>(v@),
            Err(_) => strs_field(t@, key@) is Err,
        },
{
    match get(t, key) {
        None => {
            let v: Vec<String> = Vec::new();
            assert(v@ =~= Seq::<String>::empty());
            Ok(v)
        },
        Some(TomlValue::Array(a)) => match strings_of(a) {
            Some(out) => Ok(out),
            None => Err(crate::text::msg_join3("field '", key, "' must be an array of strings")),
        },
        Some(_) => Err(crate::text::msg_join3("field '", key, "' must be an array of strings")),
    }
}

} // verus!
