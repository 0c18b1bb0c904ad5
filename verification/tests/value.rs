use rustdb::field_path::{decimal_string, lookup_field, FieldPath};
use rustdb::key_encoding::{encode_key, from_be_bytes, to_be_bytes, DocId};
use rustdb::value::{document_text, parse_document, str_equal, value_equal, Number, Value};

fn json(text: &str) -> Value {
    parse_document(text.as_bytes()).expect("invalid JSON")
}

fn key(text: &str, docid: u64) -> Vec<u8> {
    encode_key(&json(text), DocId(docid)).unwrap()
}

const JSON_EXAMPLE: &str = r#"
    {
        "name": "Bob Dobalina",
        "age": 45,
        "phones": [
            {
                "number": "867-5309",
                "type": "home"
            },
            {
                "number": "+15551212",
                "type": "mobile"
            }
        ]
    }
"#;

#[test]
fn test_key_encodings() {
    assert!(key(r#""abc""#, 0) < key(r#""abcd""#, 0));
    assert!(key(r#""abce""#, 0) > key(r#""abcd""#, 0));

    // Ensure docID doesn't break sort order
    assert!(key(r#""abc""#, 0xffffffff_ffffffff) < key(r#""abcd""#, 0));

    // DocId as tiebreaker with dups
    assert!(key(r#""abc""#, 1) > key(r#""abc""#, 0));

    // Floating point
    assert!(key("123.5", 0) > key("123.4", 0));
    assert!(key("-1024.5", 0) < key("123.5", 0));
    assert!(key("-1024.5", 0) < key("-1023.5", 0));

    // Integer
    assert!(key("100", 0) > key("99", 0));
    assert!(key("-100", 0) < key("99", 0));
    assert!(key("-100", 0) < key("-99", 0));

    // Boolean
    assert!(key("true", 0) > key("false", 0));

    // Mixed types
    assert!(key("true", 0) < key("-223.4", 0));
    assert!(key("22.4", 0) > key("100", 0));
    assert!(key("100", 0) > key("true", 0));
}

#[test]
fn test_encode_key_bad_type() {
    assert_eq!(
        encode_key(&json(r#"{"foo": "bar"}"#), DocId(0)),
        Err("Unindexable field type".to_string())
    );
    assert_eq!(
        encode_key(&json("[1,2,3,4,5]"), DocId(0)),
        Err("Unindexable field type".to_string())
    );
}

#[test]
fn test_encode_key_too_large() {
    assert_eq!(
        encode_key(&Value::String("x".repeat(0x4000)), DocId(0)),
        Err("Key is too large".to_string())
    );
}

#[test]
fn test_path_display() {
    let path = FieldPath::new("phones[1].number").unwrap();
    assert_eq!(path.to_string(), "phones[1].number");
}

#[test]
fn test_lookup_field1() {
    let doc = json(JSON_EXAMPLE);

    let path = FieldPath::new("phones[1].number").unwrap();
    let fieldval = lookup_field(&path, &doc).unwrap();
    assert_eq!(fieldval.as_str().unwrap(), "+15551212".to_string());
}

#[test]
fn test_lookup_field2() {
    let doc = json(JSON_EXAMPLE);
    let path = FieldPath::new("age").unwrap();
    let fieldval = lookup_field(&path, &doc).unwrap();
    assert_eq!(fieldval.as_u64().unwrap(), 45u64);
}

fn lookup_error(path: &str) -> String {
    let doc = json(JSON_EXAMPLE);
    let path = FieldPath::new(path).unwrap();
    lookup_field(&path, &doc).unwrap_err()
}

#[test]
fn test_bad_lookup_not_array() {
    assert_eq!(lookup_error("age[2]"), "Indexed non-array age".to_string());
}

#[test]
fn test_bad_lookup_array_index_oob() {
    assert_eq!(
        lookup_error("phones[2]"),
        "Array index 2 out of bounds for phones".to_string()
    );
}

#[test]
fn test_bad_lookup_unknown_field() {
    assert_eq!(lookup_error("ssn"), "Unknown field ssn".to_string());
}

#[test]
fn test_bad_lookup_not_object() {
    assert_eq!(
        lookup_error("age.month"),
        "Attempt to access field month on non-object".to_string()
    );
}

#[test]
fn field_path_invalid_characters() {
    let path = FieldPath::new("age.$month");
    assert!(path.is_err());
    assert_eq!(path.err().unwrap(), "Invalid path element: $month".to_string());
}

#[test]
fn field_path_invalid_index() {
    let path = FieldPath::new("age[%%]");
    assert!(path.is_err());
    assert_eq!(path.err().unwrap(), "Invalid path element: age[%%]".to_string());
}

#[test]
fn field_path_empty_element() {
    let path = FieldPath::new("age..month");
    assert!(path.is_err());
    assert_eq!(path.err().unwrap(), "Empty path element".to_string());
}

// A path is read back from its text.
#[test]
fn test_path_round_trip() {
    for text in ["a", "a.b", "a[0]", "a[12].b[3].c", "long_name.x9"] {
        let path = FieldPath::new(text).unwrap();
        let again = FieldPath::new(&path.to_string()).unwrap();
        assert_eq!(path.to_string(), text);
        assert!(path.equals(&again));
    }
    assert!(!FieldPath::new("a.b").unwrap().equals(&FieldPath::new("a").unwrap()));
}

#[test]
fn test_path_index_limit() {
    let largest = format!("a[{}]", usize::MAX);
    assert_eq!(FieldPath::try_new(&largest).unwrap().unwrap().to_string(), largest);
    assert!(FieldPath::try_new("a[18446744073709551616]").is_none());
    assert!(FieldPath::try_new("a.b[99999999999999999999].c").is_none());
    // An error that comes first counts
    assert!(matches!(FieldPath::try_new("$.b[99999999999999999999]"), Some(Err(_))));
    assert!(matches!(FieldPath::try_new("a[007]"), Some(Ok(_))));
    assert_eq!(FieldPath::new("a[007]").unwrap().to_string(), "a[7]");
}

#[test]
fn test_decimal_string() {
    assert_eq!(decimal_string(0), "0");
    assert_eq!(decimal_string(7), "7");
    assert_eq!(decimal_string(10), "10");
    assert_eq!(decimal_string(u64::MAX), format!("{}", u64::MAX));
}

#[test]
fn test_key_bytes() {
    assert_eq!(
        key(r#""ab""#, 0x0102030405060708),
        vec![4, b'a', b'b', 0, 1, 2, 3, 4, 5, 6, 7, 8]
    );
    assert_eq!(key("true", 1).len(), key("false", 1).len());
    // Null has no key
    assert!(encode_key(&json("null"), DocId(0)).is_err());
    // An integer beyond the signed range is a double
    assert!(key("18446744073709551615", 0) > key("9223372036854775807", 0));
    assert_eq!(key("18446744073709551615", 3), key("18446744073709551615.0", 3));
    assert!(key("18446744073709551615", 0) < key("1e300", 0));
    assert_eq!(key("9223372036854775808", 0), key("9223372036854775808.0", 0));
}

#[test]
fn test_byte_order() {
    assert_eq!(to_be_bytes(0x0102030405060708), [1, 2, 3, 4, 5, 6, 7, 8]);
    assert_eq!(from_be_bytes(&[1, 2, 3, 4, 5, 6, 7, 8]), 0x0102030405060708);
}

#[test]
fn test_text_round_trip() {
    let text = r#"{"b": [1, -2, 2.5, null, true, "\u00e9\n"], "a": {"": {}}}"#;
    let value = json(text);
    assert_eq!(
        value.to_string(),
        "{\"a\":{\"\":{}},\"b\":[1,-2,2.5,null,true,\"\u{e9}\\n\"]}"
    );
    assert_eq!(document_text(&value), value.to_string().into_bytes());
    assert!(value_equal(&parse_document(&document_text(&value)).unwrap(), &value));
}

#[test]
fn test_bad_text() {
    assert!(parse_document(b"{").is_none());
    assert!(parse_document(b"").is_none());
    assert!(parse_document(b"[1,]").is_none());
    assert!(parse_document("[".repeat(1000).as_bytes()).is_none());
    let deep = |n: usize| "[".repeat(n) + &"]".repeat(n);
    assert!(parse_document(deep(127).as_bytes()).is_some());
    assert!(parse_document(deep(128).as_bytes()).is_none());
}

#[test]
fn test_debug_text() {
    assert_eq!(json(r#"["a",1]"#).to_debug_string(), r#"Array [String("a"), Number(1)]"#);
    assert_eq!(json("12").to_debug_string(), "Number(12)");
}

#[test]
fn test_numbers() {
    assert!(matches!(json("12"), Value::Number(Number::PosInt(12))));
    assert!(matches!(json("-12"), Value::Number(Number::NegInt(-12))));
    assert!(matches!(json("0"), Value::Number(Number::PosInt(0))));
    match json("1.5") {
        Value::Number(Number::Float(bits)) => assert_eq!(f64::from_bits(bits), 1.5),
        _ => panic!("not a float"),
    }
    // Integers and floats are never equal
    assert!(!value_equal(&json("1"), &json("1.0")));
    assert!(value_equal(&json("0.0"), &json("-0.0")));
}

#[test]
fn test_value_accessors() {
    let value = json(r#"{"a": [1], "b": null, "c": true, "d": "x"}"#);
    assert!(value.is_object());
    assert_eq!(value.get("a").unwrap().as_array().unwrap().len(), 1);
    assert!(value.get("b").unwrap().is_null());
    assert_eq!(value.get("c").unwrap().as_bool(), Some(true));
    assert_eq!(value.get("d").unwrap().as_str(), Some("x"));
    assert!(value.get("e").is_none());
    assert_eq!(value.as_u64(), None);
    assert!(str_equal("abc", "abc"));
    assert!(!str_equal("abc", "abd"));
}

// Numbers from 2^63 on become the nearest double, and the even one of two.
#[test]
fn test_large_numbers() {
    let bits = |n: u64| {
        let key = encode_key(&Value::Number(Number::PosInt(n)), DocId(0)).unwrap();
        assert_eq!(key[0], 3);
        let mut bytes = [0u8; 8];
        bytes.copy_from_slice(&key[1..9]);
        u64::from_be_bytes(bytes) - 0x8000_0000_0000_0000
    };
    let first = 0x8000_0000_0000_0000u64;
    assert_eq!(bits(first), 0x43e0_0000_0000_0000);
    assert_eq!(bits(first + 1024), 0x43e0_0000_0000_0000);
    assert_eq!(bits(first + 1025), 0x43e0_0000_0000_0001);
    assert_eq!(bits(first + 2048 + 1023), 0x43e0_0000_0000_0001);
    assert_eq!(bits(first + 2048 + 1024), 0x43e0_0000_0000_0002);
    assert_eq!(bits(u64::MAX - 1024), 0x43ef_ffff_ffff_ffff);
    assert_eq!(bits(u64::MAX), 0x43f0_0000_0000_0000);
}
