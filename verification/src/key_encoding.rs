//! Keys for the B-trees of indices.
//!
//! B-tree keys must conform to two rules:
//!   1. They must be unique.
//!   2. Lexicographic byte order must match expected logical value order.
//!
//! However, collection indices don't obey these rules, allowing duplicate keys
//! and supporting encodings like floating point which are not lexicographically
//! ordered. To bridge this gap, an alternate encoding is used as keys in the
//! indices. This appends the document ID to enforce uniqueness and converts
//! non-lexicographic types to alternate forms: floats as sign-magnitude binary,
//! integers as unsigned offset binary. Strings are already in lexicographic
//! order, but since they are variable-length, the document ID must be separated
//! with a zero byte to preserve the sort order.
//!
//! Note: this encoding is one-way and not intended to be decoded. The same
//! one-way transform is done on keys when searching, and the unaltered version is
//! stored in the record body.

use vstd::prelude::*;
use vstd::utf8::{encode_utf8, encode_utf8_decode_utf8};

use crate::btree_node::MAX_RECORD_SIZE;
use crate::key_order::{group_lex_order, lemma_lex_lt_at, lex_lt, lex_lt_at};
use crate::util::{be64_bytes, get_u64, le64, le64_bytes, lemma_le64_roundtrip, set_u64};
use crate::value::{as_double, double_bits, json_ok, Json, Number, Value};

verus! {

/// Unique identifier (within a collection) for a specific document.
#[derive(PartialEq, Eq, PartialOrd, Ord, Debug, Clone, Copy, Hash, Structural)]
pub struct DocId(pub u64);

/// Tags keep key types apart in the event they are mixed in an index.
pub const TAG_BOOL: u8 = 1;

pub const TAG_INT: u8 = 2;

pub const TAG_FLOAT: u8 = 3;

pub const TAG_STRING: u8 = 4;

/// The longest string, in bytes, that can be a key.
pub const MAX_STRING_KEY: usize = MAX_RECORD_SIZE - 16;

/// The place of an integer among all integers of its size.
pub open spec fn int_offset(i: int) -> u64 {
    (i + 0x8000_0000_0000_0000) as u64
}

/// The place of a double among all doubles: negative ones come first, in
/// reverse order of their bits.
pub open spec fn float_offset(bits: u64) -> u64 {
    if bits >= 0x8000_0000_0000_0000 {
        (u64::MAX - bits) as u64
    } else {
        (bits + 0x8000_0000_0000_0000) as u64
    }
}

/// The number as an integer, if it is one that is not too large.
pub open spec fn number_int(n: Number) -> Option<int> {
    match n {
        Number::PosInt(u) => if u <= i64::MAX {
            Some(u as int)
        } else {
            None
        },
        Number::NegInt(i) => Some(i as int),
        Number::Float(_) => None,
    }
}

/// The bits of the number as a double, if it is not used as an integer.
pub open spec fn number_float(n: Number) -> u64 {
    match n {
        Number::PosInt(u) => double_bits(u),
        Number::NegInt(i) => 0,
        Number::Float(bits) => bits,
    }
}

/// The bytes that stand for a value, without the document.
pub open spec fn encode_value(json: Json) -> Result<Seq<u8>, Seq<char>> {
    match json {
        Json::Bool(b) => Ok(
            seq![
                TAG_BOOL,
                if b {
                    1u8
                } else {
                    0u8
                },
            ],
        ),
        Json::Number(n) => match number_int(n) {
            Some(i) => Ok(seq![TAG_INT] + be64_bytes(int_offset(i))),
            None => Ok(seq![TAG_FLOAT] + be64_bytes(float_offset(number_float(n)))),
        },
        Json::String(s) => if encode_utf8(s).len() > MAX_STRING_KEY {
            Err("Key is too large"@)
        } else {
            Ok(seq![TAG_STRING] + encode_utf8(s))
        },
        _ => Err("Unindexable field type"@),
    }
}

/// The key for a value in a document.
pub open spec fn encode(json: Json, docid: u64) -> Result<Seq<u8>, Seq<char>> {
    match encode_value(json) {
        Ok(bytes) => Ok(bytes + seq![0u8] + be64_bytes(docid)),
        Err(message) => Err(message),
    }
}

/// The bytes of a number, the most significant first.
pub fn to_be_bytes(v: u64) -> (bytes: [u8; 8])
    ensures
        bytes@ == be64_bytes(v),
        bytes@.len() == 8,
{
    let mut little: [u8; 8] = [0;8];
    set_u64(&mut little, 0, v);
    assert(little@ =~= le64_bytes(v));
    let bytes: [u8; 8] = [
        little[7],
        little[6],
        little[5],
        little[4],
        little[3],
        little[2],
        little[1],
        little[0],
    ];
    assert(bytes@ =~= be64_bytes(v));
    bytes
}

/// The number with the given bytes, the most significant first.
pub open spec fn be64(bytes: Seq<u8>) -> u64 {
    le64(bytes.reverse(), 0) as u64
}

pub fn from_be_bytes(bytes: &[u8]) -> (v: u64)
    requires
        bytes@.len() == 8,
    ensures
        v == be64(bytes@),
        be64_bytes(v) == bytes@,
{
    let little: [u8; 8] = [
        bytes[7],
        bytes[6],
        bytes[5],
        bytes[4],
        bytes[3],
        bytes[2],
        bytes[1],
        bytes[0],
    ];
    assert(little@ =~= bytes@.reverse());
    let v: u64 = get_u64(&little, 0);
    proof {
        lemma_le64_inverse(little@);
        assert(le64_bytes(v).reverse() =~= bytes@);
    }
    v
}

/// The bytes of the number that eight bytes stand for are those bytes.
pub proof fn lemma_le64_inverse(bytes: Seq<u8>)
    requires
        bytes.len() == 8,
    ensures
        0 <= le64(bytes, 0) <= u64::MAX,
        le64_bytes(le64(bytes, 0) as u64) == bytes,
{
    let v = le64(bytes, 0) as u64;
    lemma_le64_roundtrip(v);
    let b = le64_bytes(v);
    assert(le64(b, 0) == le64(bytes, 0));
    lemma_le64_digits(b, bytes);
    assert(b =~= bytes);
}

/// Eight bytes are determined by the number.
#[verifier::rlimit(60)]
#[verifier::spinoff_prover]
proof fn lemma_le64_digits(a: Seq<u8>, b: Seq<u8>)
    requires
        a.len() == 8,
        b.len() == 8,
        le64(a, 0) == le64(b, 0),
    ensures
        forall|i: int| 0 <= i < 8 ==> a[i] == b[i],
{
    assert(a[7] == b[7]);
    assert(a[6] == b[6]);
    assert(a[5] == b[5]);
    assert(a[4] == b[4]);
    assert(a[3] == b[3]);
    assert(a[2] == b[2]);
    assert(a[1] == b[1]);
    assert(a[0] == b[0]);
}

/// Eight bytes are the bytes of the number that they stand for.
pub proof fn lemma_be64_inverse(bytes: Seq<u8>)
    requires
        bytes.len() == 8,
    ensures
        be64_bytes(be64(bytes)) == bytes,
{
    lemma_le64_inverse(bytes.reverse());
    assert(bytes.reverse().reverse() =~= bytes);
}

/// The number comes back from its bytes.
pub proof fn lemma_be64(v: u64)
    ensures
        be64_bytes(v).len() == 8,
        be64(be64_bytes(v)) == v,
{
    lemma_le64_roundtrip(v);
    assert(be64_bytes(v).reverse() =~= le64_bytes(v));
}

/// The bytes of a smaller number come first.
pub proof fn law_number_bytes_keep_order(a: u64, b: u64)
    requires
        a < b,
    ensures
        lex_lt(be64_bytes(a), be64_bytes(b)),
{
    lemma_le64_roundtrip(a);
    lemma_le64_roundtrip(b);
    let la = le64_bytes(a);
    let lb = le64_bytes(b);
    let x = be64_bytes(a);
    let y = be64_bytes(b);
    assert forall|i: int| 0 <= i < 8 implies #[trigger] x[i] == la[7 - i] && y[i] == lb[7 - i] by {}
    let i = if la[7] != lb[7] {
        0int
    } else if la[6] != lb[6] {
        1
    } else if la[5] != lb[5] {
        2
    } else if la[4] != lb[4] {
        3
    } else if la[3] != lb[3] {
        4
    } else if la[2] != lb[2] {
        5
    } else if la[1] != lb[1] {
        6
    } else {
        7
    };
    assert(la[7 - i] < lb[7 - i]);
    assert forall|j: int| 0 <= j < i implies #[trigger] x[j] == y[j] by {
        assert(x[j] == la[7 - j] && y[j] == lb[7 - j]);
    }
    assert(lex_lt_at(x, y, i));
    lemma_lex_lt_at(x, y, i);
}

/// The bytes that stand for a number.
fn encode_number(n: Number) -> (encoded: Vec<u8>)
    ensures
        encode_value(Json::Number(n)) == Ok::<Seq<u8>, Seq<char>>(encoded@),
{
    // All encoded numbers are treated as bigendian
    let (tag, offset): (u8, u64) = match n {
        // Shift integers so that negative values sort before positive
        Number::PosInt(u) if u <= i64::MAX as u64 => (TAG_INT, u + 0x8000_0000_0000_0000),
        Number::NegInt(i) => (TAG_INT, (i as i128 + 0x8000_0000_0000_0000i128) as u64),
        Number::PosInt(u) => (TAG_FLOAT, mask_float(as_double(u))),
        Number::Float(bits) => (TAG_FLOAT, mask_float(bits)),
    };
    let mut encoded: Vec<u8> = vec![tag];
    encoded.extend_from_slice(&to_be_bytes(offset));
    assert(encoded@ =~= seq![tag] + be64_bytes(offset));
    encoded
}

/// Masks negative values so these will sort correctly.
fn mask_float(bits: u64) -> (masked: u64)
    ensures
        masked == float_offset(bits),
{
    if bits >= 0x8000_0000_0000_0000 {
        // Negative, flip all bits
        u64::MAX - bits
    } else {
        // Positive, flip sign bit
        bits + 0x8000_0000_0000_0000
    }
}

/// Converts a database field value into a byte array suitable for use as a
/// B-tree key.
pub fn encode_key(key: &Value, docid: DocId) -> (result: Result<Vec<u8>, String>)
    ensures
        match result {
            Ok(encoded) => encode(key@, docid.0) == Ok::<Seq<u8>, Seq<char>>(encoded@),
            Err(message) => encode(key@, docid.0) == Err::<Seq<u8>, Seq<char>>(message@),
        },
{
    let mut encoded: Vec<u8> = match key {
        Value::Bool(b) => {
            let byte: u8 = if *b {
                1
            } else {
                0
            };
            let bytes: Vec<u8> = vec![TAG_BOOL, byte];
            assert(bytes@ =~= seq![TAG_BOOL, byte]);
            bytes
        },
        Value::Number(n) => encode_number(*n),
        Value::String(s) => {
            let text = s.as_str().as_bytes();
            if text.len() > MAX_STRING_KEY {
                return Err("Key is too large".to_owned());
            }
            let mut bytes: Vec<u8> = vec![TAG_STRING];
            bytes.extend_from_slice(text);
            assert(bytes@ =~= seq![TAG_STRING] + encode_utf8(s@));
            bytes
        },
        _ => {
            return Err("Unindexable field type".to_owned());
        },
    };
    let ghost value_bytes = encoded@;

    // The delimiter ensures sort order is preserved even for variable length
    // keys.
    encoded.push(0);

    // Append document ID to serve as a tie breaker.
    encoded.extend_from_slice(&to_be_bytes(docid.0));
    assert(encoded@ =~= value_bytes + seq![0u8] + be64_bytes(docid.0));
    Ok(encoded)
}

/// The last eight bytes of a key are those of the document.
pub proof fn lemma_key_document(json: Json, docid: u64)
    requires
        encode(json, docid) is Ok,
    ensures
        ({
            let key = encode(json, docid)->Ok_0;
            &&& key.len() >= 9
            &&& key.subrange(key.len() - 8, key.len() as int) == be64_bytes(docid)
        }),
{
    lemma_be64(docid);
    let key = encode(json, docid)->Ok_0;
    assert(key.subrange(key.len() - 8, key.len() as int) =~= be64_bytes(docid));
}

/// Keys for different documents are different, whatever the values.
pub proof fn law_keys_are_unique(a: Json, x: u64, b: Json, y: u64)
    requires
        encode(a, x) is Ok,
        encode(b, y) is Ok,
        x != y,
    ensures
        encode(a, x) != encode(b, y),
{
    lemma_key_document(a, x);
    lemma_key_document(b, y);
    lemma_be64(x);
    lemma_be64(y);
}

/// If the first parts differ before either ends, what follows them does not matter.
proof fn lemma_first_parts(a: Seq<u8>, b: Seq<u8>, x: Seq<u8>, y: Seq<u8>)
    requires
        lex_lt(a, b),
        a.len() == b.len(),
    ensures
        lex_lt(a + x, b + y),
{
    reveal(lex_lt);
    let i = choose|i: int| lex_lt_at(a, b, i);
    assert(i < a.len());
    assert forall|j: int| 0 <= j < i implies #[trigger] (a + x)[j] == (b + y)[j] by {
        assert(a[j] == b[j]);
    }
    assert(lex_lt_at(a + x, b + y, i));
}

/// Behind the same first part, the order of the rest counts.
proof fn lemma_same_first_part(a: Seq<u8>, x: Seq<u8>, y: Seq<u8>)
    requires
        lex_lt(x, y),
    ensures
        lex_lt(a + x, a + y),
{
    reveal(lex_lt);
    let i = choose|i: int| lex_lt_at(x, y, i);
    assert forall|j: int| 0 <= j < a.len() + i implies #[trigger] (a + x)[j] == (a + y)[j] by {
        if j >= a.len() {
            assert(x[j - a.len()] == y[j - a.len()]);
        }
    }
    assert(lex_lt_at(a + x, a + y, a.len() + i));
}

/// Keys for the same value are in the order of the documents.
pub proof fn law_equal_values_are_ordered_by_document(json: Json, x: u64, y: u64)
    requires
        encode(json, x) is Ok,
        x < y,
    ensures
        encode(json, y) is Ok,
        lex_lt(encode(json, x)->Ok_0, encode(json, y)->Ok_0),
{
    law_number_bytes_keep_order(x, y);
    lemma_same_first_part(encode_value(json)->Ok_0 + seq![0u8], be64_bytes(x), be64_bytes(y));
}

/// Keys for integers are in the order of the integers.
pub proof fn law_integers_are_ordered(a: Number, b: Number, x: u64, y: u64)
    requires
        number_int(a) is Some,
        number_int(b) is Some,
        number_int(a)->Some_0 < number_int(b)->Some_0,
    ensures
        encode(Json::Number(a), x) is Ok,
        encode(Json::Number(b), y) is Ok,
        lex_lt(encode(Json::Number(a), x)->Ok_0, encode(Json::Number(b), y)->Ok_0),
{
    let i = int_offset(number_int(a)->Some_0);
    let j = int_offset(number_int(b)->Some_0);
    lemma_offsets_are_ordered(TAG_INT, i, j, x, y);
}

/// The integer that has the sign and the magnitude of a double's bits. Finite
/// doubles other than the two zeros compare as these integers do.
pub open spec fn sign_magnitude(bits: u64) -> int {
    if bits >= 0x8000_0000_0000_0000 {
        -(bits - 0x8000_0000_0000_0000) - 1
    } else {
        bits as int
    }
}

/// Keys for doubles are in the order of the doubles.
pub proof fn law_floats_are_ordered(a: Number, b: Number, x: u64, y: u64)
    requires
        number_int(a) is None,
        number_int(b) is None,
        sign_magnitude(number_float(a)) < sign_magnitude(number_float(b)),
    ensures
        encode(Json::Number(a), x) is Ok,
        encode(Json::Number(b), y) is Ok,
        lex_lt(encode(Json::Number(a), x)->Ok_0, encode(Json::Number(b), y)->Ok_0),
{
    let i = float_offset(number_float(a));
    let j = float_offset(number_float(b));
    lemma_offsets_are_ordered(TAG_FLOAT, i, j, x, y);
}

/// Keys for integers from 2^63 on, which become doubles, are in the order of the
/// integers, as far as they become different doubles.
pub proof fn law_large_integers_are_ordered(a: u64, b: u64, x: u64, y: u64)
    requires
        0x8000_0000_0000_0000 <= a < b,
    ensures
        double_bits(a) <= double_bits(b),
        double_bits(a) != double_bits(b) ==> lex_lt(
            encode(Json::Number(Number::PosInt(a)), x)->Ok_0,
            encode(Json::Number(Number::PosInt(b)), y)->Ok_0,
        ),
        a + 2048 < b ==> double_bits(a) != double_bits(b),
{
    if double_bits(a) != double_bits(b) {
        law_floats_are_ordered(Number::PosInt(a), Number::PosInt(b), x, y);
    }
}

/// Keys with the same tag and an offset behind it are in the order of the offsets.
proof fn lemma_offsets_are_ordered(tag: u8, i: u64, j: u64, x: u64, y: u64)
    requires
        i < j,
    ensures
        lex_lt(
            seq![tag] + be64_bytes(i) + seq![0u8] + be64_bytes(x),
            seq![tag] + be64_bytes(j) + seq![0u8] + be64_bytes(y),
        ),
{
    law_number_bytes_keep_order(i, j);
    lemma_be64(i);
    lemma_be64(j);
    let a = seq![tag] + be64_bytes(i);
    let b = seq![tag] + be64_bytes(j);
    lemma_same_first_part(seq![tag], be64_bytes(i), be64_bytes(j));
    let p = seq![0u8] + be64_bytes(x);
    let q = seq![0u8] + be64_bytes(y);
    lemma_first_parts(a, b, p, q);
    assert(a + p =~= a + seq![0u8] + be64_bytes(x));
    assert(b + q =~= b + seq![0u8] + be64_bytes(y));
}

/// The key for false comes before the key for true.
pub proof fn law_bools_are_ordered(x: u64, y: u64)
    ensures
        encode(Json::Bool(false), x) is Ok,
        encode(Json::Bool(true), y) is Ok,
        lex_lt(encode(Json::Bool(false), x)->Ok_0, encode(Json::Bool(true), y)->Ok_0),
{
    let a = encode(Json::Bool(false), x)->Ok_0;
    let b = encode(Json::Bool(true), y)->Ok_0;
    assert(a[0] == b[0]);
    assert(lex_lt_at(a, b, 1));
    lemma_lex_lt_at(a, b, 1);
}

/// Keys for strings are in the order of the strings' bytes, as long as no
/// string holds a zero byte.
pub proof fn law_strings_are_ordered(a: Seq<char>, b: Seq<char>, x: u64, y: u64)
    requires
        encode(Json::String(a), x) is Ok,
        encode(Json::String(b), y) is Ok,
        lex_lt(encode_utf8(a), encode_utf8(b)),
        forall|i: int| 0 <= i < encode_utf8(b).len() ==> #[trigger] encode_utf8(b)[i] != 0,
    ensures
        lex_lt(encode(Json::String(a), x)->Ok_0, encode(Json::String(b), y)->Ok_0),
{
    reveal(lex_lt);
    let s = encode_utf8(a);
    let t = encode_utf8(b);
    let i = choose|i: int| lex_lt_at(s, t, i);
    let p = encode(Json::String(a), x)->Ok_0;
    let q = encode(Json::String(b), y)->Ok_0;
    assert forall|j: int| 0 <= j < i + 1 implies #[trigger] p[j] == q[j] by {
        if j > 0 {
            assert(s[j - 1] == t[j - 1]);
            assert(p[j] == s[j - 1]);
            assert(q[j] == t[j - 1]);
        }
    }
    assert(q[i + 1] == t[i]);
    if i == s.len() {
        assert(p[i + 1] == 0);
    } else {
        assert(p[i + 1] == s[i]);
    }
    assert(lex_lt_at(p, q, i + 1));
}

/// Keys for values of different kinds are in the order of their tags.
pub proof fn law_kinds_are_ordered(a: Json, b: Json, x: u64, y: u64)
    requires
        encode(a, x) is Ok,
        encode(b, y) is Ok,
        encode_value(a)->Ok_0[0] < encode_value(b)->Ok_0[0],
    ensures
        lex_lt(encode(a, x)->Ok_0, encode(b, y)->Ok_0),
{
    let p = encode(a, x)->Ok_0;
    let q = encode(b, y)->Ok_0;
    assert(encode_value(a)->Ok_0.len() > 0);
    assert(encode_value(b)->Ok_0.len() > 0);
    assert(p[0] == encode_value(a)->Ok_0[0]);
    assert(q[0] == encode_value(b)->Ok_0[0]);
    assert(lex_lt_at(p, q, 0));
    lemma_lex_lt_at(p, q, 0);
}

/// Booleans and numbers can be keys, and strings of up to 2008 bytes. Nothing else can.
pub proof fn law_values_that_can_be_keys(json: Json, docid: u64)
    ensures
        match json {
            Json::Bool(_) | Json::Number(_) => encode(json, docid) is Ok,
            Json::String(text) => if encode_utf8(text).len() <= 2008 {
                encode(json, docid) is Ok
            } else {
                encode(json, docid) == Err::<Seq<u8>, Seq<char>>("Key is too large"@)
            },
            Json::Null | Json::Array(_) | Json::Object(_) => encode(json, docid) == Err::<
                Seq<u8>,
                Seq<char>,
            >("Unindexable field type"@),
        },
{
}

/// A key is as long as what stands for the value, a zero byte and eight bytes for the
/// document.
pub proof fn law_length_of_keys(json: Json, docid: u64)
    requires
        encode(json, docid) is Ok,
    ensures
        encode(json, docid)->Ok_0.len() == match json {
            Json::Bool(_) => 11,
            Json::Number(_) => 18,
            Json::String(text) => encode_utf8(text).len() + 10,
            _ => 0,
        },
{
    lemma_be64(docid);
    if let Json::Number(n) = json {
        match number_int(n) {
            Some(i) => lemma_be64(int_offset(i)),
            None => lemma_be64(float_offset(number_float(n))),
        }
    }
}

/// The key for one value comes before that for another, whatever the documents.
pub open spec fn key_before(a: Json, b: Json, x: u64, y: u64) -> bool {
    match (encode(a, x), encode(b, y)) {
        (Ok(p), Ok(q)) => lex_lt(p, q),
        _ => false,
    }
}

/// Keys for negative integers come in the order of the integers, and before those for
/// the others, which come in their order too.
pub proof fn law_integer_keys_follow_the_integers(
    i: i64,
    j: i64,
    u: u64,
    v: u64,
    x: u64,
    y: u64,
)
    ensures
        i < j < 0 ==> key_before(
            Json::Number(Number::NegInt(i)),
            Json::Number(Number::NegInt(j)),
            x,
            y,
        ),
        i < 0 && u <= i64::MAX ==> key_before(
            Json::Number(Number::NegInt(i)),
            Json::Number(Number::PosInt(u)),
            x,
            y,
        ),
        u < v <= i64::MAX ==> key_before(
            Json::Number(Number::PosInt(u)),
            Json::Number(Number::PosInt(v)),
            x,
            y,
        ),
{
    if i < j < 0 {
        law_integers_are_ordered(Number::NegInt(i), Number::NegInt(j), x, y);
    }
    if i < 0 && u <= i64::MAX {
        law_integers_are_ordered(Number::NegInt(i), Number::PosInt(u), x, y);
    }
    if u < v <= i64::MAX {
        law_integers_are_ordered(Number::PosInt(u), Number::PosInt(v), x, y);
    }
}

/// Keys for doubles come in the order of the doubles: first those with the sign bit,
/// the largest magnitude first, then the others, the smallest magnitude first.
pub proof fn law_float_keys_follow_the_doubles(a: u64, b: u64, x: u64, y: u64)
    ensures
        a < b < 0x8000_0000_0000_0000 ==> key_before(
            Json::Number(Number::Float(a)),
            Json::Number(Number::Float(b)),
            x,
            y,
        ),
        0x8000_0000_0000_0000 <= a < b ==> key_before(
            Json::Number(Number::Float(b)),
            Json::Number(Number::Float(a)),
            x,
            y,
        ),
        a < 0x8000_0000_0000_0000 <= b ==> key_before(
            Json::Number(Number::Float(b)),
            Json::Number(Number::Float(a)),
            x,
            y,
        ),
{
    if a < b < 0x8000_0000_0000_0000 {
        law_floats_are_ordered(Number::Float(a), Number::Float(b), x, y);
    }
    if 0x8000_0000_0000_0000 <= a < b || a < 0x8000_0000_0000_0000 <= b {
        law_floats_are_ordered(Number::Float(b), Number::Float(a), x, y);
    }
}

/// The key for an integer from 2^63 on is that for a double with bits that stand for `m`
/// times 2^11, which is as near to the integer as any such number; the even `m` counts if
/// two are as near.
pub proof fn law_large_integer_keys_are_those_of_doubles(n: u64, docid: u64) -> (m: int)
    requires
        n >= 0x8000_0000_0000_0000,
    ensures
        0x10_0000_0000_0000 <= m <= 0x20_0000_0000_0000,
        -1024 <= m * 2048 - n <= 1024,
        m * 2048 - n == 1024 || m * 2048 - n == -1024 ==> m % 2 == 0,
        encode(Json::Number(Number::PosInt(n)), docid) == encode(
            Json::Number(
                Number::Float((0x43e0_0000_0000_0000 + (m - 0x10_0000_0000_0000)) as u64),
            ),
            docid,
        ),
{
    let bits = double_bits(n);
    let m = bits - 0x43e0_0000_0000_0000 + 0x10_0000_0000_0000;
    m
}

/// Keys for values of different kinds are apart: booleans come first, then integers, then
/// doubles, then strings. Integers from 2^63 on count as doubles.
pub proof fn law_kinds_of_keys_are_apart(
    b: bool,
    i: Number,
    f: Number,
    text: Seq<char>,
    x: u64,
    y: u64,
)
    requires
        i matches Number::PosInt(u) ==> u <= i64::MAX,
        !(i is Float),
        f matches Number::PosInt(u) ==> u > i64::MAX,
        !(f is NegInt),
        encode_utf8(text).len() <= 2008,
    ensures
        key_before(Json::Bool(b), Json::Number(i), x, y),
        key_before(Json::Bool(b), Json::Number(f), x, y),
        key_before(Json::Bool(b), Json::String(text), x, y),
        key_before(Json::Number(i), Json::Number(f), x, y),
        key_before(Json::Number(i), Json::String(text), x, y),
        key_before(Json::Number(f), Json::String(text), x, y),
{
    law_kinds_are_ordered(Json::Bool(b), Json::Number(i), x, y);
    law_kinds_are_ordered(Json::Bool(b), Json::Number(f), x, y);
    law_kinds_are_ordered(Json::Bool(b), Json::String(text), x, y);
    law_kinds_are_ordered(Json::Number(i), Json::Number(f), x, y);
    law_kinds_are_ordered(Json::Number(i), Json::String(text), x, y);
    law_kinds_are_ordered(Json::Number(f), Json::String(text), x, y);
}

/// Keys for the same document are the same only if the values are: they have to be equal
/// but for an integer from 2^63 on, which may be the nearest one to a double or to another
/// such integer.
pub proof fn law_same_key_means_same_value(a: Json, b: Json, docid: u64)
    requires
        encode(a, docid) is Ok,
        encode(a, docid) == encode(b, docid),
        json_ok(a),
        json_ok(b),
    ensures
        a == b || {
            &&& a matches Json::Number(Number::PosInt(u)) ==> u > i64::MAX
            &&& b matches Json::Number(Number::PosInt(u)) ==> u > i64::MAX
            &&& a matches Json::Number(n) && !(n is NegInt)
            &&& b matches Json::Number(n) && !(n is NegInt)
        },
{
    broadcast use group_lex_order;

    let key = encode(a, docid)->Ok_0;
    law_length_of_keys(a, docid);
    law_length_of_keys(b, docid);
    match (a, b) {
        (Json::Bool(p), Json::Bool(q)) => {
            law_bools_are_ordered(docid, docid);
        },
        (Json::Number(m), Json::Number(n)) => {
            if number_int(m) is Some && number_int(n) is Some {
                let i = number_int(m)->Some_0;
                let j = number_int(n)->Some_0;
                if i < j {
                    law_integers_are_ordered(m, n, docid, docid);
                }
                if j < i {
                    law_integers_are_ordered(n, m, docid, docid);
                }
            } else if number_int(m) is Some {
                law_kinds_are_ordered(a, b, docid, docid);
            } else if number_int(n) is Some {
                law_kinds_are_ordered(b, a, docid, docid);
            } else if let (Number::Float(p), Number::Float(q)) = (m, n) {
                law_float_keys_follow_the_doubles(p, q, docid, docid);
                law_float_keys_follow_the_doubles(q, p, docid, docid);
            }
        },
        (Json::String(s), Json::String(t)) => {
            let p = encode_utf8(s);
            let q = encode_utf8(t);
            assert(p =~= key.subrange(1, key.len() - 9));
            assert(q =~= key.subrange(1, key.len() - 9));
            encode_utf8_decode_utf8(s);
            encode_utf8_decode_utf8(t);
        },
        _ => {
            if encode_value(a)->Ok_0[0] < encode_value(b)->Ok_0[0] {
                law_kinds_are_ordered(a, b, docid, docid);
            } else if encode_value(b)->Ok_0[0] < encode_value(a)->Ok_0[0] {
                law_kinds_are_ordered(b, a, docid, docid);
            }
        },
    }
}

/// The keys for one value differ only in the eight bytes of the document at their end.
pub proof fn law_keys_differ_only_in_the_document(json: Json, x: u64, y: u64)
    requires
        encode(json, x) is Ok,
    ensures
        encode(json, y) is Ok,
        ({
            let a = encode(json, x)->Ok_0;
            let b = encode(json, y)->Ok_0;
            &&& a.len() == b.len() && a.len() >= 9
            &&& a.take(a.len() - 8) == b.take(a.len() - 8)
            &&& a.skip(a.len() - 8) == be64_bytes(x)
        }),
{
    lemma_be64(x);
    lemma_be64(y);
    let a = encode(json, x)->Ok_0;
    let b = encode(json, y)->Ok_0;
    assert(a.take(a.len() - 8) =~= b.take(a.len() - 8));
    assert(a.skip(a.len() - 8) =~= be64_bytes(x));
}

} // verus!
