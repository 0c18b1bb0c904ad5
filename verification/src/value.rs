//! Documents are JSON values. Their text is read and written by the
//! `serde_json` crate; all that the database itself looks at is held here as
//! plain data.

use serde_json::Value as RawValue;
use vstd::prelude::*;
use vstd::utf8::{decode_utf8, encode_utf8, encode_utf8_decode_utf8};

use crate::key_order::{key_equal, lex_lt};

verus! {

/// A JSON number. A float is held as the bits of a double.
#[derive(PartialEq, Eq, Debug, Clone, Copy, Structural)]
pub enum Number {
    PosInt(u64),
    /// Always less than zero.
    NegInt(i64),
    /// Always finite.
    Float(u64),
}

/// A JSON value. The fields of an object stand in ascending order of their names.
#[derive(Debug)]
pub enum Value {
    Null,
    Bool(bool),
    Number(Number),
    String(String),
    Array(Vec<Value>),
    Object(Vec<(String, Value)>),
}

/// A JSON value as a mathematical object.
#[verifier::ext_equal]
pub enum Json {
    Null,
    Bool(bool),
    Number(Number),
    String(Seq<char>),
    Array(Seq<Json>),
    Object(Seq<(Seq<char>, Json)>),
}

/// What a value stands for.
pub open spec fn json_of(value: Value) -> Json
    decreases value,
{
    match value {
        Value::Null => Json::Null,
        Value::Bool(b) => Json::Bool(b),
        Value::Number(n) => Json::Number(n),
        Value::String(s) => Json::String(s@),
        Value::Array(items) => Json::Array(
            Seq::new(
                items@.len(),
                |i: int|
                    if 0 <= i < items@.len() {
                        json_of(items@[i])
                    } else {
                        Json::Null
                    },
            ),
        ),
        Value::Object(fields) => Json::Object(
            Seq::new(
                fields@.len(),
                |i: int|
                    if 0 <= i < fields@.len() {
                        (fields@[i].0@, json_of(fields@[i].1))
                    } else {
                        (Seq::empty(), Json::Null)
                    },
            ),
        ),
    }
}

impl View for Value {
    type V = Json;

    open spec fn view(&self) -> Json {
        json_of(*self)
    }
}

/// An optional value, seen as a mathematical object.
pub open spec fn option_view(value: Option<Value>) -> Option<Json> {
    match value {
        Some(value) => Some(value@),
        None => None,
    }
}

pub open spec fn number_ok(n: Number) -> bool {
    match n {
        Number::PosInt(_) => true,
        Number::NegInt(i) => i < 0,
        Number::Float(bits) => bits / 0x10_0000_0000_0000 % 0x800 != 0x7ff,
    }
}

/// The value is one that a JSON text can stand for: its numbers are as they
/// should be, and the names of an object ascend.
pub open spec fn json_ok(json: Json) -> bool
    decreases json,
{
    match json {
        Json::Number(n) => number_ok(n),
        Json::Array(items) => forall|i: int| 0 <= i < items.len() ==> json_ok(#[trigger] items[i]),
        Json::Object(fields) => {
            &&& forall|i: int| 0 <= i < fields.len() ==> json_ok((#[trigger] fields[i]).1)
            &&& forall|i: int, j: int|
                0 <= i < j < fields.len() ==> lex_lt(
                    encode_utf8((#[trigger] fields[i]).0),
                    encode_utf8((#[trigger] fields[j]).0),
                )
        },
        _ => true,
    }
}

/// How deep arrays and objects may be nested in a text that can be read.
pub const MAX_NESTING: u8 = 127;

/// Arrays and objects are nested no deeper than `limit`.
pub open spec fn nested(json: Json, limit: nat) -> bool
    decreases json,
{
    match json {
        Json::Array(items) => limit > 0 && forall|i: int|
            0 <= i < items.len() ==> nested(#[trigger] items[i], (limit - 1) as nat),
        Json::Object(fields) => limit > 0 && forall|i: int|
            0 <= i < fields.len() ==> nested((#[trigger] fields[i]).1, (limit - 1) as nat),
        _ => true,
    }
}

/// The value can be stored as text and read back.
pub open spec fn storable(json: Json) -> bool {
    json_ok(json) && nested(json, MAX_NESTING as nat)
}

/// A value of the `serde_json` crate: JSON scalars in nested arrays and maps.
#[verifier::external_type_specification]
#[verifier::external_body]
pub struct ExJsonValue(RawValue);

/// What a value of the `serde_json` crate holds.
pub uninterp spec fn json_content(value: RawValue) -> Json;

/// The value that a JSON text stands for; `None` if it is no JSON text, or one
/// that is nested too deep.
pub uninterp spec fn json_parse(text: Seq<u8>) -> Option<Json>;

/// The JSON text of a value, without any space.
pub uninterp spec fn json_text(json: Json) -> Seq<u8>;

/// The `Debug` output for a value.
pub uninterp spec fn json_debug(json: Json) -> Seq<char>;

/// The bits of the double that is nearest to a number from 2^63 on. Between 2^63 and
/// 2^64 the doubles are 2048 apart; a number halfway between two of them goes to the
/// one whose last bit is zero.
pub open spec fn double_bits(n: u64) -> u64 {
    let below = n / 2048;
    let part = n % 2048;
    let up: int = if part > 1024 || (part == 1024 && below % 2 == 1) {
        1
    } else {
        0
    };
    (0x43e0_0000_0000_0000 + (below - 0x10_0000_0000_0000) + up) as u64
}

/// Calls `serde_json::from_slice`. What comes out is a function of the text
/// alone. A text that is nested deeper than 127 is refused.
#[verifier::external_body]
fn read_text(text: &[u8]) -> (result: Option<RawValue>)
    ensures
        match result {
            Some(value) => json_parse(text@) == Some(json_content(value)) && nested(
                json_content(value),
                MAX_NESTING as nat,
            ),
            None => json_parse(text@) is None,
        },
{
    serde_json::from_slice(text).ok()
}

/// Calls `serde_json::to_vec`. What comes out is a function of the value alone,
/// and `from_slice` reads it back as the same value, unless it is nested too deep.
#[verifier::external_body]
fn write_text(value: &RawValue) -> (text: Vec<u8>)
    ensures
        text@ == json_text(json_content(*value)),
        nested(json_content(*value), MAX_NESTING as nat) ==> json_parse(text@) == Some(
            json_content(*value),
        ),
{
    serde_json::to_vec(value).unwrap()
}

/// Calls `to_string` of `serde_json::Value`, which gives the same text as `to_vec`.
#[verifier::external_body]
fn write_string(value: &RawValue) -> (text: String)
    ensures
        encode_utf8(text@) == json_text(json_content(*value)),
{
    value.to_string()
}

/// Calls the `Debug` output of `serde_json::Value`, which is a function of the value alone.
#[verifier::external_body]
fn write_debug(value: &RawValue) -> (text: String)
    ensures
        text@ == json_debug(json_content(*value)),
{
    format!("{:?}", value)
}

/// Takes a `serde_json::Value` apart. Its integers are negative only where they
/// are held as such, its floats are finite, and its objects, which are
/// `BTreeMap`s, have their names in ascending order.
#[verifier::external_body]
fn import(value: RawValue) -> (result: Value)
    ensures
        result@ == json_content(value),
        json_ok(result@),
{
    match value {
        RawValue::Null => Value::Null,
        RawValue::Bool(b) => Value::Bool(b),
        RawValue::Number(n) => Value::Number(match (n.as_u64(), n.as_i64()) {
            (Some(u), _) => Number::PosInt(u),
            (None, Some(i)) => Number::NegInt(i),
            (None, None) => Number::Float(n.as_f64().unwrap().to_bits()),
        }),
        RawValue::String(s) => Value::String(s),
        RawValue::Array(items) => Value::Array(items.into_iter().map(import).collect()),
        RawValue::Object(fields) => {
            Value::Object(fields.into_iter().map(|f| (f.0, import(f.1))).collect())
        },
    }
}

/// Builds a `serde_json::Value` with the same contents.
#[verifier::external_body]
fn export(value: &Value) -> (result: RawValue)
    requires
        json_ok(value@),
    ensures
        json_content(result) == value@,
{
    match value {
        Value::Null => RawValue::Null,
        Value::Bool(b) => RawValue::Bool(*b),
        Value::Number(Number::PosInt(u)) => RawValue::from(*u),
        Value::Number(Number::NegInt(i)) => RawValue::from(*i),
        Value::Number(Number::Float(bits)) => RawValue::Number(
            serde_json::Number::from_f64(bytemuck::cast(*bits)).unwrap()),
        Value::String(s) => RawValue::String(s.clone()),
        Value::Array(items) => RawValue::Array(items.iter().map(export).collect()),
        Value::Object(fields) => {
            RawValue::Object(fields.iter().map(|f| (f.0.clone(), export(&f.1))).collect())
        },
    }
}

/// Calls `as_f64` of `serde_json::Number` for a number that is no signed
/// integer. That casts it to a double, which rounds to the nearest one, and to the
/// even one of two.
#[verifier::external_body]
pub(crate) fn as_double(n: u64) -> (bits: u64)
    requires
        n >= 0x8000_0000_0000_0000,
    ensures
        bits == double_bits(n),
{
    serde_json::Number::from(n).as_f64().unwrap().to_bits()
}

/// Reads a JSON text.
pub fn parse_document(text: &[u8]) -> (result: Option<Value>)
    ensures
        option_view(result) == json_parse(text@),
        result matches Some(value) ==> storable(value@),
{
    match read_text(text) {
        Some(value) => Some(import(value)),
        None => None,
    }
}

/// Writes a value as a JSON text.
pub fn document_text(value: &Value) -> (text: Vec<u8>)
    requires
        json_ok(value@),
    ensures
        text@ == json_text(value@),
        storable(value@) ==> json_parse(text@) == Some(value@),
{
    write_text(&export(value))
}

impl Value {
    /// The JSON text of the value.
    pub fn to_string(&self) -> (text: String)
        requires
            json_ok(self@),
        ensures
            encode_utf8(text@) == json_text(self@),
    {
        write_string(&export(self))
    }

    /// The value as it is shown to a programmer.
    pub fn to_debug_string(&self) -> (text: String)
        requires
            json_ok(self@),
        ensures
            text@ == json_debug(self@),
    {
        write_debug(&export(self))
    }
}

/// A copy of a value with all its parts.
fn copy_value(value: &Value) -> (copy: Value)
    ensures
        copy@ == value@,
    decreases value,
{
    match value {
        Value::Null => Value::Null,
        Value::Bool(b) => Value::Bool(*b),
        Value::Number(n) => Value::Number(*n),
        Value::String(s) => Value::String(s.clone()),
        Value::Array(items) => {
            let mut copies: Vec<Value> = Vec::new();
            let mut i: usize = 0;
            while i < items.len()
                invariant
                    i <= items@.len(),
                    copies@.len() == i,
                    *value == Value::Array(*items),
                    forall|j: int| 0 <= j < i ==> (#[trigger] copies@[j])@ == items@[j]@,
                decreases items@.len() - i,
            {
                assert(decreases_to!(*value => value->Array_0));
                assert(decreases_to!(value->Array_0 => value->Array_0@));
                assert(decreases_to!(value->Array_0@ => value->Array_0@[i as int]));
                let copy = copy_value(&items[i]);
                copies.push(copy);
                i = i + 1;
            }
            let copy = Value::Array(copies);
            assert(copy@->Array_0 =~= value@->Array_0);
            copy
        },
        Value::Object(fields) => {
            let mut copies: Vec<(String, Value)> = Vec::new();
            let mut i: usize = 0;
            while i < fields.len()
                invariant
                    i <= fields@.len(),
                    copies@.len() == i,
                    *value == Value::Object(*fields),
                    forall|j: int|
                        0 <= j < i ==> (#[trigger] copies@[j]).0@ == fields@[j].0@
                            && copies@[j].1@ == fields@[j].1@,
                decreases fields@.len() - i,
            {
                assert(decreases_to!(*value => value->Object_0));
                assert(decreases_to!(value->Object_0 => value->Object_0@));
                assert(decreases_to!(value->Object_0@ => value->Object_0@[i as int]));
                let copy = copy_value(&fields[i].1);
                copies.push((fields[i].0.clone(), copy));
                i = i + 1;
            }
            let copy = Value::Object(copies);
            assert(copy@->Object_0 =~= value@->Object_0);
            copy
        },
    }
}

impl Clone for Value {
    fn clone(&self) -> (copy: Self)
        ensures
            copy@ == self@,
    {
        copy_value(self)
    }
}

/// A double that is zero, of either sign.
pub open spec fn is_zero(bits: u64) -> bool {
    bits == 0 || bits == 0x8000_0000_0000_0000
}

/// Numbers are equal if they are of the same kind and have the same value.
pub open spec fn same_number(a: Number, b: Number) -> bool {
    match (a, b) {
        (Number::Float(x), Number::Float(y)) => x == y || (is_zero(x) && is_zero(y)),
        _ => a == b,
    }
}

/// Values are equal if they have the same parts.
pub open spec fn same_json(a: Json, b: Json) -> bool
    decreases a,
{
    match (a, b) {
        (Json::Number(x), Json::Number(y)) => same_number(x, y),
        (Json::Array(x), Json::Array(y)) => {
            &&& x.len() == y.len()
            &&& forall|i: int| 0 <= i < x.len() ==> same_json(#[trigger] x[i], y[i])
        },
        (Json::Object(x), Json::Object(y)) => {
            &&& x.len() == y.len()
            &&& forall|i: int|
                0 <= i < x.len() ==> (#[trigger] x[i]).0 == y[i].0 && same_json(x[i].1, y[i].1)
        },
        _ => a == b,
    }
}

/// Whether two strings are the same.
pub fn str_equal(a: &str, b: &str) -> (equal: bool)
    ensures
        equal == (a@ == b@),
{
    proof {
        encode_utf8_decode_utf8(a@);
        encode_utf8_decode_utf8(b@);
    }
    key_equal(a.as_bytes(), b.as_bytes())
}

/// Whether two values are equal.
pub fn value_equal(a: &Value, b: &Value) -> (equal: bool)
    ensures
        equal == same_json(a@, b@),
    decreases a,
{
    match (a, b) {
        (Value::Null, Value::Null) => true,
        (Value::Bool(x), Value::Bool(y)) => *x == *y,
        (Value::Number(x), Value::Number(y)) => number_equal(*x, *y),
        (Value::String(x), Value::String(y)) => str_equal(x.as_str(), y.as_str()),
        (Value::Array(x), Value::Array(y)) => {
            if x.len() != y.len() {
                return false;
            }
            let mut i: usize = 0;
            while i < x.len()
                invariant
                    i <= x@.len(),
                    x@.len() == y@.len(),
                    *a == Value::Array(*x),
                    *b == Value::Array(*y),
                    forall|j: int|
                        0 <= j < i ==> same_json(
                            #[trigger] a@->Array_0[j],
                            b@->Array_0[j],
                        ),
                decreases x@.len() - i,
            {
                assert(decreases_to!(*a => x@[i as int]));
                assert(a@->Array_0[i as int] == x@[i as int]@);
                assert(b@->Array_0[i as int] == y@[i as int]@);
                if !value_equal(&x[i], &y[i]) {
                    return false;
                }
                i = i + 1;
            }
            true
        },
        (Value::Object(x), Value::Object(y)) => {
            if x.len() != y.len() {
                return false;
            }
            let mut i: usize = 0;
            while i < x.len()
                invariant
                    i <= x@.len(),
                    x@.len() == y@.len(),
                    *a == Value::Object(*x),
                    *b == Value::Object(*y),
                    forall|j: int|
                        0 <= j < i ==> (#[trigger] a@->Object_0[j]).0 == b@->Object_0[j].0
                            && same_json(a@->Object_0[j].1, b@->Object_0[j].1),
                decreases x@.len() - i,
            {
                assert(decreases_to!(*a => x@[i as int].1));
                assert(a@->Object_0[i as int] == (x@[i as int].0@, x@[i as int].1@));
                assert(b@->Object_0[i as int] == (y@[i as int].0@, y@[i as int].1@));
                if !str_equal(x[i].0.as_str(), y[i].0.as_str()) {
                    return false;
                }
                if !value_equal(&x[i].1, &y[i].1) {
                    return false;
                }
                i = i + 1;
            }
            true
        },
        _ => false,
    }
}

fn number_equal(a: Number, b: Number) -> (equal: bool)
    ensures
        equal == same_number(a, b),
{
    match (a, b) {
        (Number::PosInt(x), Number::PosInt(y)) => x == y,
        (Number::NegInt(x), Number::NegInt(y)) => x == y,
        (Number::Float(x), Number::Float(y)) => {
            let zero_x: bool = x == 0 || x == 0x8000_0000_0000_0000;
            let zero_y: bool = y == 0 || y == 0x8000_0000_0000_0000;
            x == y || (zero_x && zero_y)
        },
        _ => false,
    }
}

impl Value {
    pub fn is_null(&self) -> (result: bool)
        ensures
            result == (self@ is Null),
    {
        matches!(self, Value::Null)
    }

    pub fn is_object(&self) -> (result: bool)
        ensures
            result == (self@ is Object),
    {
        matches!(self, Value::Object(_))
    }

    pub fn as_bool(&self) -> (result: Option<bool>)
        ensures
            result == (match self@ {
                Json::Bool(b) => Some(b),
                _ => None,
            }),
    {
        match self {
            Value::Bool(b) => Some(*b),
            _ => None,
        }
    }

    pub fn as_u64(&self) -> (result: Option<u64>)
        ensures
            result == (match self@ {
                Json::Number(Number::PosInt(n)) => Some(n),
                _ => None,
            }),
    {
        match self {
            Value::Number(Number::PosInt(n)) => Some(*n),
            _ => None,
        }
    }

    pub fn as_str(&self) -> (result: Option<&str>)
        ensures
            match self@ {
                Json::String(s) => result matches Some(text) && text@ == s,
                _ => result is None,
            },
    {
        match self {
            Value::String(s) => Some(s.as_str()),
            _ => None,
        }
    }

    pub fn as_array(&self) -> (result: Option<&Vec<Value>>)
        ensures
            match self@ {
                Json::Array(items) => result matches Some(values) && values@.len() == items.len()
                    && forall|i: int|
                    0 <= i < items.len() ==> (#[trigger] values@[i])@ == items[i],
                _ => result is None,
            },
    {
        match self {
            Value::Array(items) => Some(items),
            _ => None,
        }
    }

    /// The field of an object with the given name.
    pub fn get(&self, name: &str) -> (result: Option<&Value>)
        ensures
            match result {
                Some(value) => field_of(self@, name@) == Some(value@),
                None => field_of(self@, name@) is None,
            },
    {
        match self {
            Value::Object(fields) => {
                let mut i: usize = 0;
                while i < fields.len()
                    invariant
                        i <= fields@.len(),
                        *self == Value::Object(*fields),
                        forall|j: int| 0 <= j < i ==> (#[trigger] self@->Object_0[j]).0 != name@,
                    decreases fields@.len() - i,
                {
                    assert(self@->Object_0[i as int] == (fields@[i as int].0@, fields@[i as int].1@));
                    if str_equal(fields[i].0.as_str(), name) {
                        proof {
                            lemma_field_at(self@->Object_0, i as int, name@);
                        }
                        return Some(&fields[i].1);
                    }
                    i = i + 1;
                }
                proof {
                    lemma_no_field(self@->Object_0, name@);
                }
                None
            },
            _ => None,
        }
    }
}

/// The first field with the given name.
pub open spec fn find_field(fields: Seq<(Seq<char>, Json)>, name: Seq<char>) -> Option<Json>
    decreases fields.len(),
{
    if fields.len() == 0 {
        None
    } else if fields[0].0 == name {
        Some(fields[0].1)
    } else {
        find_field(fields.skip(1), name)
    }
}

/// The field of an object with the given name.
pub open spec fn field_of(json: Json, name: Seq<char>) -> Option<Json> {
    match json {
        Json::Object(fields) => find_field(fields, name),
        _ => None,
    }
}

/// The field at `i` is the first with the given name.
pub proof fn lemma_field_at(fields: Seq<(Seq<char>, Json)>, i: int, name: Seq<char>)
    requires
        0 <= i < fields.len(),
        fields[i].0 == name,
        forall|j: int| 0 <= j < i ==> (#[trigger] fields[j]).0 != name,
    ensures
        find_field(fields, name) == Some(fields[i].1),
    decreases fields.len(),
{
    if i > 0 {
        assert(fields[0].0 != name);
        let rest = fields.skip(1);
        assert forall|j: int| 0 <= j < i - 1 implies (#[trigger] rest[j]).0 != name by {
            assert(rest[j] == fields[j + 1]);
        }
        lemma_field_at(rest, i - 1, name);
    }
}

/// No field has the given name.
pub proof fn lemma_no_field(fields: Seq<(Seq<char>, Json)>, name: Seq<char>)
    requires
        forall|j: int| 0 <= j < fields.len() ==> (#[trigger] fields[j]).0 != name,
    ensures
        find_field(fields, name) is None,
    decreases fields.len(),
{
    if fields.len() > 0 {
        assert(fields[0].0 != name);
        let rest = fields.skip(1);
        assert forall|j: int| 0 <= j < rest.len() implies (#[trigger] rest[j]).0 != name by {
            assert(rest[j] == fields[j + 1]);
        }
        lemma_no_field(rest, name);
    }
}

/// The part of a value that can be stored can be stored.
pub proof fn lemma_field_ok(fields: Seq<(Seq<char>, Json)>, name: Seq<char>)
    requires
        forall|i: int| 0 <= i < fields.len() ==> json_ok((#[trigger] fields[i]).1),
    ensures
        find_field(fields, name) matches Some(json) ==> json_ok(json),
    decreases fields.len(),
{
    if fields.len() > 0 {
        assert(json_ok(fields[0].1));
        let rest = fields.skip(1);
        assert forall|i: int| 0 <= i < rest.len() implies json_ok((#[trigger] rest[i]).1) by {
            assert(rest[i] == fields[i + 1]);
        }
        lemma_field_ok(rest, name);
    }
}

/// The characters of the JSON text of a value.
pub open spec fn json_chars(json: Json) -> Seq<char> {
    decode_utf8(json_text(json))
}

/// The JSON text of a value.
pub fn value_text(value: &Value) -> (text: String)
    requires
        json_ok(value@),
    ensures
        text@ == json_chars(value@),
{
    let text = value.to_string();
    proof {
        encode_utf8_decode_utf8(text@);
    }
    text
}

/// A double that is zero, of either sign, occurs nowhere in the value.
pub open spec fn without_zeros(json: Json) -> bool
    decreases json,
{
    match json {
        Json::Number(Number::Float(bits)) => bits != 0 && bits != 0x8000_0000_0000_0000,
        Json::Array(items) => forall|i: int|
            0 <= i < items.len() ==> without_zeros(#[trigger] items[i]),
        Json::Object(fields) => forall|i: int|
            0 <= i < fields.len() ==> without_zeros((#[trigger] fields[i]).1),
        _ => true,
    }
}

/// Every value is equal to itself.
pub proof fn law_value_equals_itself(json: Json)
    ensures
        same_json(json, json),
    decreases json,
{
    match json {
        Json::Array(items) => {
            assert forall|i: int| 0 <= i < items.len() implies same_json(
                #[trigger] items[i],
                items[i],
            ) by {
                law_value_equals_itself(items[i]);
            }
        },
        Json::Object(fields) => {
            assert forall|i: int| 0 <= i < fields.len() implies (#[trigger] fields[i]).0
                == fields[i].0 && same_json(fields[i].1, fields[i].1) by {
                law_value_equals_itself(fields[i].1);
            }
        },
        _ => {},
    }
}

/// Only a value itself is equal to it, but for doubles that are zero: these are equal
/// whatever their signs.
pub proof fn law_equal_values_are_the_same(a: Json, b: Json)
    ensures
        same_json(a, b) && without_zeros(a) ==> a == b,
        same_json(
            Json::Number(Number::Float(0)),
            Json::Number(Number::Float(0x8000_0000_0000_0000)),
        ),
        same_json(
            Json::Number(Number::Float(0x8000_0000_0000_0000)),
            Json::Number(Number::Float(0)),
        ),
        a is Number && same_json(a, b) && a != b ==> {
            &&& a == Json::Number(Number::Float(0)) || a == Json::Number(
                Number::Float(0x8000_0000_0000_0000),
            )
            &&& b == Json::Number(Number::Float(0)) || b == Json::Number(
                Number::Float(0x8000_0000_0000_0000),
            )
        },
    decreases a,
{
    if same_json(a, b) && without_zeros(a) {
        match (a, b) {
            (Json::Array(x), Json::Array(y)) => {
                assert forall|i: int| 0 <= i < x.len() implies x[i] == y[i] by {
                    assert(same_json(x[i], y[i]));
                    law_equal_values_are_the_same(x[i], y[i]);
                }
                assert(x =~= y);
            },
            (Json::Object(x), Json::Object(y)) => {
                assert forall|i: int| 0 <= i < x.len() implies x[i] == y[i] by {
                    assert(x[i].0 == y[i].0 && same_json(x[i].1, y[i].1));
                    assert(without_zeros(x[i].1));
                    law_equal_values_are_the_same(x[i].1, y[i].1);
                }
                assert(x =~= y);
            },
            _ => {},
        }
    }
}

/// Arrays and objects are equal if their parts are, in the same order and under the same
/// names.
pub proof fn law_equal_parts_make_equal_values(
    x: Seq<Json>,
    y: Seq<Json>,
    p: Seq<(Seq<char>, Json)>,
    q: Seq<(Seq<char>, Json)>,
)
    ensures
        same_json(Json::Array(x), Json::Array(y)) == (x.len() == y.len() && forall|i: int|
            0 <= i < x.len() ==> same_json(#[trigger] x[i], y[i])),
        same_json(Json::Object(p), Json::Object(q)) == (p.len() == q.len() && forall|i: int|
            0 <= i < p.len() ==> (#[trigger] p[i]).0 == q[i].0 && same_json(p[i].1, q[i].1)),
{
}

/// A value is seen as what it is made of: its truth value, number or characters, or the
/// views of its items or fields, in order and under their names.
pub proof fn law_values_are_seen_as_they_are(value: Value)
    ensures
        match value {
            Value::Null => value@ == Json::Null,
            Value::Bool(b) => value@ == Json::Bool(b),
            Value::Number(n) => value@ == Json::Number(n),
            Value::String(s) => value@ == Json::String(s@),
            Value::Array(items) => value@ matches Json::Array(seen) && seen.len() == items@.len()
                && forall|i: int| 0 <= i < items@.len() ==> #[trigger] seen[i] == items@[i]@,
            Value::Object(fields) => value@ matches Json::Object(seen) && seen.len()
                == fields@.len() && forall|i: int|
                0 <= i < fields@.len() ==> (#[trigger] seen[i]).0 == fields@[i].0@ && seen[i].1
                    == fields@[i].1@,
        },
        option_view(Some(value)) == Some(value@),
        option_view(None) == None::<Json>,
{
}

/// An object has a field with a name if one of its fields has that name, and its value is that
/// of the first one. Other values have no fields.
pub proof fn law_field_is_found_by_its_name(json: Json, name: Seq<char>)
    ensures
        !(json is Object) ==> field_of(json, name) is None,
        json matches Json::Object(fields) ==> {
            &&& (forall|i: int| 0 <= i < fields.len() ==> (#[trigger] fields[i]).0 != name)
                ==> field_of(json, name) is None
            &&& forall|i: int|
                0 <= i < fields.len() && (#[trigger] fields[i]).0 == name && (forall|j: int|
                    0 <= j < i ==> (#[trigger] fields[j]).0 != name) ==> field_of(json, name)
                    == Some(fields[i].1)
        },
{
    if let Json::Object(fields) = json {
        if forall|i: int| 0 <= i < fields.len() ==> (#[trigger] fields[i]).0 != name {
            lemma_no_field(fields, name);
        }
        assert forall|i: int|
            0 <= i < fields.len() && (#[trigger] fields[i]).0 == name && (forall|j: int|
                0 <= j < i ==> (#[trigger] fields[j]).0 != name) implies field_of(json, name)
            == Some(fields[i].1) by {
            lemma_field_at(fields, i, name);
        }
    }
}

/// A value can be stored if its floats are finite, its negative integers negative and the
/// names of its objects in ascending order, at all depths, and if no more than 127 arrays and
/// objects lie within each other.
pub proof fn law_values_that_can_be_stored(
    items: Seq<Json>,
    fields: Seq<(Seq<char>, Json)>,
    n: Number,
    b: bool,
    text: Seq<char>,
    limit: nat,
)
    ensures
        storable(Json::Null) && storable(Json::Bool(b)) && storable(Json::String(text)),
        storable(Json::Number(n)) == match n {
            Number::PosInt(_) => true,
            Number::NegInt(i) => i < 0,
            Number::Float(bits) => bits / 0x10_0000_0000_0000 % 0x800 != 0x7ff,
        },
        nested(Json::Array(items), limit + 1) == forall|i: int|
            0 <= i < items.len() ==> nested(#[trigger] items[i], limit),
        nested(Json::Object(fields), limit + 1) == forall|i: int|
            0 <= i < fields.len() ==> nested((#[trigger] fields[i]).1, limit),
        !nested(Json::Array(items), 0) && !nested(Json::Object(fields), 0),
        storable(Json::Array(items)) == forall|i: int|
            0 <= i < items.len() ==> json_ok(#[trigger] items[i]) && nested(items[i], 126),
        storable(Json::Object(fields)) == {
            &&& forall|i: int|
                0 <= i < fields.len() ==> json_ok((#[trigger] fields[i]).1) && nested(
                    fields[i].1,
                    126,
                )
            &&& forall|i: int, j: int|
                0 <= i < j < fields.len() ==> lex_lt(
                    encode_utf8((#[trigger] fields[i]).0),
                    encode_utf8((#[trigger] fields[j]).0),
                )
        },
{
    let array = Json::Array(items);
    let object = Json::Object(fields);
    assert forall|deep: nat| #[trigger] nested(object, deep + 1) implies (forall|i: int|
        0 <= i < fields.len() ==> nested((#[trigger] fields[i]).1, deep)) by {
        assert forall|i: int| 0 <= i < fields.len() implies nested(
            (#[trigger] fields[i]).1,
            deep,
        ) by {
            assert(object->Object_0[i] == fields[i]);
        }
    }
    assert(nested(object, limit + 1) ==> forall|i: int|
        0 <= i < fields.len() ==> nested((#[trigger] fields[i]).1, limit));
    assert(nested(object, 126 + 1) ==> forall|i: int|
        0 <= i < fields.len() ==> nested((#[trigger] fields[i]).1, 126));
    assert(storable(array) == (json_ok(array) && nested(array, 127)));
    assert(storable(object) == (json_ok(object) && nested(object, 127)));
}

} // verus!
