use json_commons::codec::decode_hex;
use json_commons::codec::encode_hex;
use json_commons::document::BinaryDocument;
use json_commons::document::DocumentValue;
use json_commons::errors::CodecError;
use json_commons::nesting::nesting_within_limit;
use json_commons::errors::ConversionError;
use json_commons::number::Number;
use json_commons::value::Value;
use json_commons::value::MAX_DEPTH;
use json_commons::wire::document_from;
use json_commons::wire::read_document;
use json_commons::wire::reads_back;
use json_commons::wire::write_document;
use json_commons::JsonCommons;

fn num(negative: bool, mantissa: u64, exponent: i16) -> Value {
    Value::Number(Number::Decimal { negative, mantissa, exponent })
}

fn entry(key: &str, value: Value) -> (String, Value) {
    (key.to_string(), value)
}

fn car() -> Value {
    Value::Object(vec![entry(
        "car",
        Value::Object(vec![
            entry("model", Value::String("Gurgel Itaipu E400".to_string())),
            entry("color", Value::String("red".to_string())),
        ]),
    )])
}

const CAR_HEX: &str = "3c000000036361720032000000026d6f64656c001300000047757267656c2049746169707520453430300002636f6c6f720004000000726564000000";

fn hex_of(document: &bson::Document) -> String {
    let mut bytes: Vec<u8> = Vec::new();
    document.to_writer(&mut bytes).unwrap();
    hex::encode(bytes)
}

#[test]
fn encode_hex_writes_the_document_bytes() {
    assert_eq!(encode_hex(&car()), Ok(CAR_HEX.to_string()));
    let jsonc = JsonCommons::new();
    assert_eq!(jsonc.serialize_to_bson_hex(car()), Ok(CAR_HEX.to_string()));
}

#[test]
fn decode_hex_reads_the_document_bytes() {
    assert_eq!(decode_hex(CAR_HEX), Ok(car()));
    assert_eq!(decode_hex(&CAR_HEX.to_uppercase()), Ok(car()));
    let jsonc = JsonCommons::new();
    assert_eq!(jsonc.json_from_bson_hex(CAR_HEX.to_string()), Ok(car()));
}

#[test]
fn empty_object_is_the_smallest_document() {
    assert_eq!(encode_hex(&Value::Object(vec![])), Ok("0500000000".to_string()));
    assert_eq!(decode_hex("0500000000"), Ok(Value::Object(vec![])));
}

#[test]
fn integer_is_written_as_sixty_four_bits() {
    let tree = Value::Object(vec![entry("a", num(false, 40000, -1))]);
    assert_eq!(encode_hex(&tree), Ok("10000000126100a00f00000000000000".to_string()));
}

#[test]
fn fraction_is_written_as_a_double() {
    let tree = Value::Object(vec![entry("a", num(false, 405, -1))]);
    let text = encode_hex(&tree).unwrap();
    let bytes = hex::decode(&text).unwrap();
    let document = bson::Document::from_reader(bytes.as_slice()).unwrap();
    assert_eq!(document.get("a"), Some(&bson::Bson::Double(40.5)));
    assert_eq!(decode_hex(&text), Ok(tree));
}

#[test]
fn double_is_read_as_the_decimal_it_is_written_as() {
    let mut document = bson::Document::new();
    document.insert("half", bson::Bson::Double(-0.5));
    document.insert("whole", bson::Bson::Double(3.0));
    document.insert("tiny", bson::Bson::Double(1.5e-7));
    let expected = Value::Object(vec![
        entry("half", num(true, 5, -1)),
        entry("whole", num(false, 3, 0)),
        entry("tiny", num(false, 15, -8)),
    ]);
    assert_eq!(decode_hex(&hex_of(&document)), Ok(expected));
}

#[test]
fn double_that_is_no_number_is_read_as_none() {
    let mut document = bson::Document::new();
    document.insert("nan", bson::Bson::Double(f64::NAN));
    document.insert("inf", bson::Bson::Double(f64::INFINITY));
    let expected = Value::Object(vec![
        entry("nan", Value::Number(Number::NotANumber)),
        entry("inf", Value::Number(Number::NotANumber)),
    ]);
    assert_eq!(decode_hex(&hex_of(&document)), Ok(expected));
}

#[test]
fn double_that_is_no_number_is_written_as_one() {
    let document = BinaryDocument {
        entries: vec![("x".to_string(), DocumentValue::Double(Number::NotANumber))],
    };
    let bytes = write_document(&document).unwrap();
    let parsed = bson::Document::from_reader(bytes.as_slice()).unwrap();
    match parsed.get("x") {
        Some(bson::Bson::Double(x)) => assert!(x.is_nan()),
        other => panic!("{:?}", other),
    }
}

#[test]
fn hex_round_trip_of_a_tree_of_integers() {
    let tree = Value::Object(vec![
        entry("n", Value::Null),
        entry("t", Value::Bool(true)),
        entry("f", Value::Bool(false)),
        entry("s", Value::String("päth \"quoted\"".to_string())),
        entry("i", num(true, 4000, 0)),
        entry("min", num(true, 9_223_372_036_854_775_808, 0)),
        entry("max", num(false, 9_223_372_036_854_775_807, 0)),
        entry(
            "a",
            Value::Array(vec![
                num(false, 1, 0),
                Value::Array(vec![]),
                Value::Object(vec![entry("deep", Value::Array(vec![Value::Null]))]),
            ]),
        ),
        entry("", Value::Object(vec![])),
    ]);
    let text = encode_hex(&tree).unwrap();
    assert_eq!(decode_hex(&text), Ok(tree));
}

#[test]
fn text_that_is_not_hexadecimal_is_invalid_hex() {
    assert_eq!(decode_hex("zz"), Err(CodecError::InvalidHex));
    assert_eq!(decode_hex("0"), Err(CodecError::InvalidHex));
    assert_eq!(decode_hex("050000000"), Err(CodecError::InvalidHex));
    assert_eq!(decode_hex("05 00"), Err(CodecError::InvalidHex));
    assert_eq!(decode_hex("é"), Err(CodecError::InvalidHex));
}

#[test]
fn bytes_that_are_no_document_are_malformed() {
    assert_eq!(decode_hex("00"), Err(CodecError::MalformedDocument));
    assert_eq!(decode_hex(""), Err(CodecError::MalformedDocument));
    assert_eq!(decode_hex("0500000001"), Err(CodecError::MalformedDocument));
    assert_eq!(decode_hex(&CAR_HEX[..CAR_HEX.len() - 2]), Err(CodecError::MalformedDocument));
}

#[test]
fn element_of_another_kind_is_unsupported() {
    let mut document = bson::Document::new();
    document.insert("a", bson::Bson::Int64(1));
    document.insert("b", bson::Bson::Array(vec![bson::Bson::MaxKey]));
    assert_eq!(decode_hex(&hex_of(&document)), Err(CodecError::Unsupported));
    assert_eq!(document_from(&document), Err(CodecError::Unsupported));
}

#[test]
fn thirty_two_bit_integer_is_widened() {
    let mut document = bson::Document::new();
    document.insert("a", bson::Bson::Int32(-5));
    assert_eq!(decode_hex(&hex_of(&document)), Ok(Value::Object(vec![entry("a", num(true, 5, 0))])));
    assert_eq!(
        document_from(&document),
        Ok(BinaryDocument { entries: vec![("a".to_string(), DocumentValue::Int64(-5))] })
    );
}

#[test]
fn too_deep_document_is_not_read() {
    let mut inner = bson::Document::new();
    for _ in 1..MAX_DEPTH {
        let mut outer = bson::Document::new();
        outer.insert("k", bson::Bson::Document(inner));
        inner = outer;
    }
    assert!(document_from(&inner).is_ok());
    let mut deeper = bson::Document::new();
    deeper.insert("k", bson::Bson::Document(inner));
    assert_eq!(document_from(&deeper), Err(CodecError::TooDeep));
    assert_eq!(decode_hex(&hex_of(&deeper)), Err(CodecError::TooDeep));
}

fn nested_bytes(levels: usize) -> Vec<u8> {
    let mut bytes: Vec<u8> = Vec::new();
    let mut level = levels;
    while level > 1 {
        let size = (5 + 8 * (level - 1)) as u32;
        bytes.extend_from_slice(&size.to_le_bytes());
        bytes.extend_from_slice(&[0x03, b'k', 0]);
        level -= 1;
    }
    bytes.extend_from_slice(&[5, 0, 0, 0, 0]);
    for _ in 1..levels {
        bytes.push(0);
    }
    bytes
}

#[test]
fn nesting_is_read_from_the_bytes() {
    assert!(nesting_within_limit(&nested_bytes(1)));
    assert!(nesting_within_limit(&nested_bytes(MAX_DEPTH)));
    assert!(!nesting_within_limit(&nested_bytes(MAX_DEPTH + 1)));
    assert!(read_document(&nested_bytes(MAX_DEPTH)).is_ok());
    assert_eq!(read_document(&nested_bytes(MAX_DEPTH + 1)), Err(CodecError::TooDeep));
    assert!(nesting_within_limit(&vec![]));
    assert!(nesting_within_limit(&vec![1, 2, 3]));
    assert!(nesting_within_limit(&hex::decode(CAR_HEX).unwrap()));
}

#[test]
fn very_deep_bytes_are_refused_before_they_are_read() {
    let bytes = nested_bytes(200_000);
    assert!(!nesting_within_limit(&bytes));
    assert_eq!(read_document(&bytes), Err(CodecError::TooDeep));
    assert_eq!(decode_hex(&hex::encode(&bytes)), Err(CodecError::TooDeep));
}

#[test]
fn nesting_counts_arrays_and_the_scope_of_code() {
    let mut inner = bson::Bson::Array(vec![]);
    for _ in 2..MAX_DEPTH {
        inner = bson::Bson::Array(vec![bson::Bson::Int32(3), inner]);
    }
    let mut document = bson::Document::new();
    document.insert("text", bson::Bson::String("\u{3}\u{4}".repeat(300)));
    document.insert("a", inner.clone());
    let mut bytes: Vec<u8> = Vec::new();
    document.to_writer(&mut bytes).unwrap();
    assert!(nesting_within_limit(&bytes));
    let mut deeper = bson::Document::new();
    deeper.insert("a", bson::Bson::Array(vec![inner]));
    let mut bytes: Vec<u8> = Vec::new();
    deeper.to_writer(&mut bytes).unwrap();
    assert!(!nesting_within_limit(&bytes));
    let mut scope = bson::Document::new();
    for _ in 2..MAX_DEPTH {
        let mut outer = bson::Document::new();
        outer.insert("k", bson::Bson::Document(scope));
        scope = outer;
    }
    let code = bson::JavaScriptCodeWithScope { code: "f()".to_string(), scope };
    let mut with_code = bson::Document::new();
    with_code.insert("c", bson::Bson::JavaScriptCodeWithScope(code.clone()));
    let mut bytes: Vec<u8> = Vec::new();
    with_code.to_writer(&mut bytes).unwrap();
    assert!(nesting_within_limit(&bytes));
    let mut wrapped = bson::Document::new();
    wrapped.insert("d", bson::Bson::Document(with_code));
    let mut bytes: Vec<u8> = Vec::new();
    wrapped.to_writer(&mut bytes).unwrap();
    assert!(!nesting_within_limit(&bytes));
}

#[test]
fn nesting_follows_every_kind_of_element() {
    let mut document = bson::Document::new();
    document.insert("double", bson::Bson::Double(1.5));
    document.insert("string", bson::Bson::String("abc".to_string()));
    document.insert("binary", bson::Bson::Binary(bson::Binary {
        subtype: bson::spec::BinarySubtype::Generic,
        bytes: vec![3, 4, 3, 4],
    }));
    document.insert("undefined", bson::Bson::Undefined);
    document.insert("oid", bson::Bson::ObjectId(bson::oid::ObjectId::from_bytes([3; 12])));
    document.insert("bool", bson::Bson::Boolean(true));
    document.insert("date", bson::Bson::DateTime(bson::DateTime::from_millis(3)));
    document.insert("null", bson::Bson::Null);
    document.insert("regex", bson::Bson::RegularExpression(bson::Regex {
        pattern: "a.b".to_string(),
        options: "i".to_string(),
    }));
    document.insert("code", bson::Bson::JavaScriptCode("f()".to_string()));
    document.insert("symbol", bson::Bson::Symbol("s".to_string()));
    document.insert("int32", bson::Bson::Int32(3));
    document.insert("timestamp", bson::Bson::Timestamp(bson::Timestamp { time: 3, increment: 4 }));
    document.insert("int64", bson::Bson::Int64(3));
    document.insert("max", bson::Bson::MaxKey);
    document.insert("min", bson::Bson::MinKey);
    let mut deep = bson::Bson::Document(bson::Document::new());
    for _ in 2..MAX_DEPTH {
        let mut outer = bson::Document::new();
        outer.insert("k", deep);
        deep = bson::Bson::Document(outer);
    }
    document.insert("last", deep.clone());
    let mut bytes: Vec<u8> = Vec::new();
    document.to_writer(&mut bytes).unwrap();
    assert!(nesting_within_limit(&bytes));
    let mut wrapped = bson::Document::new();
    wrapped.insert("w", deep);
    document.insert("last", bson::Bson::Document(wrapped));
    let mut bytes: Vec<u8> = Vec::new();
    document.to_writer(&mut bytes).unwrap();
    assert!(!nesting_within_limit(&bytes));
}

#[test]
fn too_deep_comes_before_unsupported() {
    let mut inner = bson::Document::new();
    for _ in 0..MAX_DEPTH {
        let mut outer = bson::Document::new();
        outer.insert("k", bson::Bson::Document(inner));
        inner = outer;
    }
    let mut document = bson::Document::new();
    document.insert("first", bson::Bson::MinKey);
    document.insert("second", bson::Bson::Document(inner));
    assert_eq!(document_from(&document), Err(CodecError::TooDeep));
}

#[test]
fn encode_hex_passes_the_errors_of_the_conversion_on() {
    assert_eq!(encode_hex(&Value::Null), Err(ConversionError::NotAnObject));
    assert_eq!(encode_hex(&Value::Array(vec![])), Err(ConversionError::NotAnObject));
    let mut deep = Value::Object(vec![]);
    for _ in 0..MAX_DEPTH {
        deep = Value::Object(vec![entry("k", deep)]);
    }
    assert_eq!(encode_hex(&deep), Err(ConversionError::TooDeep));
}

#[test]
fn key_with_a_zero_character_has_no_bytes() {
    let tree = Value::Object(vec![entry("a\0b", Value::Null)]);
    assert_eq!(encode_hex(&tree), Err(ConversionError::Unwritable));
}

#[test]
fn key_that_comes_again_replaces_its_value() {
    let tree = Value::Object(vec![
        entry("k", num(false, 1, 0)),
        entry("other", Value::Null),
        entry("k", num(false, 2, 0)),
    ]);
    let merged = Value::Object(vec![entry("k", num(false, 2, 0)), entry("other", Value::Null)]);
    let text = encode_hex(&tree).unwrap();
    assert_eq!(text, encode_hex(&merged).unwrap());
    assert_eq!(decode_hex(&text), Ok(merged));
}

#[test]
fn write_and_read_document() {
    let document = BinaryDocument {
        entries: vec![
            ("a".to_string(), DocumentValue::Int64(7)),
            ("b".to_string(), DocumentValue::Array(vec![DocumentValue::Bool(true)])),
        ],
    };
    let bytes = write_document(&document).unwrap();
    assert_eq!(bytes.len(), 28);
    assert_eq!(read_document(&bytes), Ok(document));
    assert_eq!(read_document(&vec![1, 2, 3]), Err(CodecError::MalformedDocument));
}

#[test]
fn written_document_is_read_back_or_not() {
    let document = BinaryDocument {
        entries: vec![
            ("a".to_string(), DocumentValue::Int64(7)),
            ("s".to_string(), DocumentValue::String("text".to_string())),
            (
                "d".to_string(),
                DocumentValue::Double(Number::Decimal { negative: false, mantissa: 405, exponent: -1 }),
            ),
            (
                "n".to_string(),
                DocumentValue::Document(vec![(
                    "b".to_string(),
                    DocumentValue::Array(vec![DocumentValue::Bool(true), DocumentValue::Null]),
                )]),
            ),
        ],
    };
    assert!(reads_back(&document));
    let marked = BinaryDocument {
        entries: vec![(
            "id".to_string(),
            DocumentValue::Document(vec![(
                "$oid".to_string(),
                DocumentValue::String("507f1f77bcf86cd799439011".to_string()),
            )]),
        )],
    };
    assert!(!reads_back(&marked));
    let unwritable = BinaryDocument {
        entries: vec![("a\0b".to_string(), DocumentValue::Null)],
    };
    assert!(!reads_back(&unwritable));
}

#[test]
fn too_deep_document_is_not_written() {
    let mut member = DocumentValue::Document(vec![]);
    for _ in 1..MAX_DEPTH {
        member = DocumentValue::Document(vec![("k".to_string(), member)]);
    }
    let document = BinaryDocument { entries: vec![("k".to_string(), member)] };
    assert_eq!(write_document(&document), Err(ConversionError::TooDeep));
}
