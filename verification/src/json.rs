//! JSON values, through `serde_json`.
//!
//! A `serde_json::Value` is opaque to the proofs. [`json_of`] names what it
//! holds, and the functions here say of each call how it reads or builds that
//! content. What a text parses to and how a value is written as text take the
//! whole JSON grammar to state, so those two are names as well.

use serde_json::Value;
use vstd::prelude::*;

use crate::number::Double;

verus! {

/// `serde_json::Value`.
#[verifier::external_type_specification]
#[verifier::external_body]
pub struct ExValue(Value);

/// A JSON number: a whole number from zero up, a whole number below zero, or a
/// finite number in double precision, by its bits.
pub enum Number {
    Natural(u64),
    Negative(i64),
    Real(u64),
}

/// The content of a JSON value.
pub enum Json {
    Null,
    Bool(bool),
    Number(Number),
    Text(Seq<char>),
    Array(Seq<Json>),
    Object(Map<Seq<char>, Json>),
}

/// What a JSON value holds.
pub uninterp spec fn json_of(v: Value) -> Json;

/// What a text parses to as JSON; `None` where it is no JSON.
pub uninterp spec fn json_parsed(s: Seq<char>) -> Option<Json>;

/// How a JSON value is written as text.
pub uninterp spec fn json_written(j: Json) -> Seq<char>;

/// A JSON number in double precision, by its bits.
pub uninterp spec fn real_of(n: Number) -> u64;

/// The shortest decimal text of a number in double precision, by its bits.
pub uninterp spec fn real_written(bits: u64) -> Seq<char>;

/// The bits of the double that a text stands for; `None` where it is no number.
pub uninterp spec fn real_parsed(s: Seq<char>) -> Option<u64>;

impl Json {
    pub open spec fn as_bool(self) -> Option<bool> {
        match self {
            Json::Bool(b) => Some(b),
            _ => None,
        }
    }

    pub open spec fn as_text(self) -> Option<Seq<char>> {
        match self {
            Json::Text(s) => Some(s),
            _ => None,
        }
    }

    /// The number as a 64-bit integer, where it is a whole number that fits.
    pub open spec fn as_int(self) -> Option<i64> {
        match self {
            Json::Number(Number::Natural(n)) => if n <= i64::MAX {
                Some(n as i64)
            } else {
                None
            },
            Json::Number(Number::Negative(n)) => Some(n),
            _ => None,
        }
    }

    /// The number in double precision, by its bits.
    pub open spec fn as_real(self) -> Option<u64> {
        match self {
            Json::Number(n) => Some(real_of(n)),
            _ => None,
        }
    }

    pub open spec fn as_array(self) -> Option<Seq<Json>> {
        match self {
            Json::Array(items) => Some(items),
            _ => None,
        }
    }

    /// The member of an object.
    pub open spec fn member(self, key: Seq<char>) -> Option<Json> {
        match self {
            Json::Object(members) => if members.contains_key(key) {
                Some(members[key])
            } else {
                None
            },
            _ => None,
        }
    }
}

/// The contents of a sequence of JSON values.
pub open spec fn jsons(v: Seq<Value>) -> Seq<Json> {
    v.map_values(|x: Value| json_of(x))
}

/// The content of an optional JSON value.
pub open spec fn opt_json(v: Option<Value>) -> Option<Json> {
    match v {
        Some(v) => Some(json_of(v)),
        None => None,
    }
}

/// The content of an integer.
pub open spec fn int_json(i: i64) -> Json {
    if i < 0 {
        Json::Number(Number::Negative(i))
    } else {
        Json::Number(Number::Natural(i as u64))
    }
}

/// How deep the arrays of a text may be nested for it to be parsed.
pub const MAX_NESTING: usize = 127;

/// Whether a JSON value holds nothing but nulls, booleans, whole numbers, texts,
/// and arrays of these that are nested at most so deep.
pub open spec fn plain(j: Json, depth: nat) -> bool
    decreases depth,
{
    match j {
        Json::Null | Json::Bool(_) | Json::Text(_) => true,
        Json::Number(n) => !(n is Real),
        Json::Array(items) => depth > 0 && forall|i: int|
            0 <= i < items.len() ==> plain(#[trigger] items[i], (depth - 1) as nat),
        Json::Object(_) => false,
    }
}

/// `serde_json::from_str`, at the type `Value`: the parsed value, or `None` on
/// a text that is no JSON.
#[verifier::external_body]
pub(crate) fn parse_value(text: &str) -> (r: Option<Value>)
    ensures
        opt_json(r) == json_parsed(text@),
{
    serde_json::from_str::<Value>(text).ok()
}

/// `Value::to_string`: the value as compact JSON text. A plain value, nested no
/// deeper than the parser goes, is what its text parses to. Of a value with a
/// number in double precision that is left unsaid: the parser may be off by the
/// last bit.
#[verifier::external_body]
pub(crate) fn value_text(v: &Value) -> (r: String)
    ensures
        r@ == json_written(json_of(*v)),
        plain(json_of(*v), MAX_NESTING as nat) ==> json_parsed(r@) == Some(json_of(*v)),
{
    v.to_string()
}

/// `Value::clone`: a value with the same content.
#[verifier::external_body]
pub(crate) fn value_copy(v: &Value) -> (r: Value)
    ensures
        json_of(r) == json_of(*v),
{
    v.clone()
}

/// `Value::as_bool`: the boolean that the value is.
#[verifier::external_body]
pub(crate) fn value_bool(v: &Value) -> (r: Option<bool>)
    ensures
        r == json_of(*v).as_bool(),
{
    v.as_bool()
}

/// `Value::as_str`: the text that the value is.
#[verifier::external_body]
pub(crate) fn value_str(v: &Value) -> (r: Option<String>)
    ensures
        crate::text::opt_view(r) == json_of(*v).as_text(),
{
    v.as_str().map(str::to_owned)
}

/// `Value::as_i64`: the integer that the value is, where it fits.
#[verifier::external_body]
pub(crate) fn value_int(v: &Value) -> (r: Option<i64>)
    ensures
        r == json_of(*v).as_int(),
{
    v.as_i64()
}

/// `Value::as_f64`: the number that the value is, in double precision. A number
/// that is held in double precision comes back as it is.
#[verifier::external_body]
pub(crate) fn value_real(v: &Value) -> (r: Option<Double>)
    ensures
        r is Some <==> json_of(*v) is Number,
        r is Some ==> r->0.bits == real_of(json_of(*v)->Number_0),
        r is Some ==> (json_of(*v)->Number_0 matches Number::Real(b) ==> r->0.bits == b),
{
    v.as_f64().map(|x| Double { bits: x.to_bits() })
}

/// `Value::from`, on the double that `Value::as_f64` gives: the same number,
/// held in double precision.
#[verifier::external_body]
pub(crate) fn value_as_real(v: &Value) -> (r: Option<Value>)
    ensures
        r is Some <==> json_of(*v).as_real() is Some,
        r is Some ==> json_of(r->0) == Json::Number(Number::Real(json_of(*v).as_real()->0)),
{
    v.as_f64().map(Value::from)
}

/// The decimal text of the double that `Value::as_f64` gives.
#[verifier::external_body]
pub(crate) fn value_real_text(v: &Value) -> (r: Option<String>)
    ensures
        r is Some <==> json_of(*v).as_real() is Some,
        r is Some ==> r->0@ == real_written(json_of(*v).as_real()->0),
{
    v.as_f64().map(|x| x.to_string())
}

/// `str::parse`, at double precision: the bits of the number.
#[verifier::external_body]
pub(crate) fn parse_real(text: &str) -> (r: Option<Double>)
    ensures
        r is Some <==> real_parsed(text@) is Some,
        r is Some ==> Some(r->0.bits) == real_parsed(text@),
{
    // `as_f64` fixes the type that the text is parsed at.
    let number = text.parse().ok().or(Value::Null.as_f64())?;
    Some(Double { bits: number.to_bits() })
}

/// `Value::is_object`.
#[verifier::external_body]
pub(crate) fn value_is_object(v: &Value) -> (r: bool)
    ensures
        r == (json_of(*v) is Object),
{
    v.is_object()
}

/// `Value::get`, at a text: the member of that name, where the value is an
/// object that has one.
#[verifier::external_body]
pub(crate) fn value_member<'a>(v: &'a Value, key: &str) -> (r: Option<&'a Value>)
    ensures
        r is Some <==> json_of(*v).member(key@) is Some,
        r is Some ==> Some(json_of(*r->0)) == json_of(*v).member(key@),
{
    v.get(key)
}

/// `Value::as_array`: the items of an array.
#[verifier::external_body]
pub(crate) fn value_items<'a>(v: &'a Value) -> (r: Option<&'a Vec<Value>>)
    ensures
        r is Some <==> json_of(*v).as_array() is Some,
        r is Some ==> Some(jsons(r->0@)) == json_of(*v).as_array(),
{
    v.as_array()
}

/// `Value::from`, on a text.
#[verifier::external_body]
pub(crate) fn text_value(s: String) -> (r: Value)
    ensures
        json_of(r) == Json::Text(s@),
{
    Value::from(s)
}

/// `Value::from`, on an integer.
#[verifier::external_body]
pub(crate) fn int_value(i: i64) -> (r: Value)
    ensures
        json_of(r) == int_json(i),
{
    Value::from(i)
}

/// `Value::from`, on a whole number from zero up.
#[verifier::external_body]
pub(crate) fn natural_value(n: u64) -> (r: Value)
    ensures
        json_of(r) == Json::Number(Number::Natural(n)),
{
    Value::from(n)
}

/// `Value::from`, on a boolean.
#[verifier::external_body]
pub(crate) fn bool_value(b: bool) -> (r: Value)
    ensures
        json_of(r) == Json::Bool(b),
{
    Value::from(b)
}

/// `Value::Array`: the array of some items.
#[verifier::external_body]
pub(crate) fn array_value(items: Vec<Value>) -> (r: Value)
    ensures
        json_of(r) == Json::Array(jsons(items@)),
{
    Value::Array(items)
}

/// `Value::Object`, on an empty map: the object without members.
#[verifier::external_body]
pub(crate) fn object_value() -> (r: Value)
    ensures
        json_of(r) == Json::Object(Map::empty()),
{
    Value::Object(serde_json::Map::new())
}

/// `serde_json::Map::insert`, on the members of an object: the member is set,
/// and replaces one of the same name.
#[verifier::external_body]
pub(crate) fn set_member(v: &mut Value, key: &str, item: Value)
    requires
        json_of(*old(v)) is Object,
    ensures
        json_of(*final(v)) == Json::Object(json_of(*old(v))->Object_0.insert(key@, json_of(item))),
{
    if let Some(members) = v.as_object_mut() {
        members.insert(key.to_owned(), item);
    }
}

/// The texts of a JSON array of texts.
pub open spec fn text_jsons(texts: Seq<Seq<char>>) -> Seq<Json> {
    texts.map_values(|t: Seq<char>| Json::Text(t))
}

/// The JSON array of some texts.
pub fn texts_value(texts: &Vec<String>) -> (r: Value)
    ensures
        json_of(r) == Json::Array(text_jsons(crate::text::views(texts@))),
{
    let ghost want = text_jsons(crate::text::views(texts@));
    let mut items: Vec<Value> = Vec::new();
    let mut i: usize = 0;
    while i < texts.len()
        invariant
            i <= texts.len(),
            want == text_jsons(crate::text::views(texts@)),
            jsons(items@) == want.take(i as int),
        decreases texts.len() - i,
    {
        let ghost before = jsons(items@);
        let item = text_value(texts[i].clone());
        items.push(item);
        assert(jsons(items@) =~= before.push(json_of(item)));
        assert(want.take(i + 1) =~= before.push(json_of(item)));
        i += 1;
    }
    assert(want.take(i as int) =~= want);
    array_value(items)
}

}
