use json_commons::bridge::to_document_value;
use json_commons::document::DocumentValue;
use json_commons::errors::ConversionError;
use json_commons::errors::ParseError;
use json_commons::number::Number;
use json_commons::text::digits_within_limit;
use json_commons::text::fractions_within_limit;
use json_commons::text::parse_text;
use json_commons::text::MAX_DIGITS;
use json_commons::text::to_text;
use json_commons::text::value_from;
use json_commons::value::Value;
use json_commons::value::MAX_DEPTH;
use json_commons::JsonCommons;

fn num(negative: bool, mantissa: u64, exponent: i16) -> Value {
    Value::Number(Number::Decimal { negative, mantissa, exponent })
}

fn entry(key: &str, value: Value) -> (String, Value) {
    (key.to_string(), value)
}

const CAR_TEXT: &str = "{\"car\":{\"model\":\"Gurgel Itaipu E400\",\"color\":\"red\"}}";

fn car() -> Value {
    Value::Object(vec![entry(
        "car",
        Value::Object(vec![
            entry("model", Value::String("Gurgel Itaipu E400".to_string())),
            entry("color", Value::String("red".to_string())),
        ]),
    )])
}

#[test]
fn read_str_parses_an_object() {
    let jsonc = JsonCommons::new();
    assert_eq!(jsonc.read_str(CAR_TEXT), Ok(car()));
    assert_eq!(
        jsonc.read_str("{\"car\": {\"model\": \"Gurgel Itaipu E400\", \"color\": \"red\"}}"),
        Ok(car())
    );
}

#[test]
fn read_str_parses_every_kind() {
    let expected = Value::Array(vec![
        Value::Null,
        Value::Bool(true),
        Value::Bool(false),
        num(false, 12, 0),
        num(true, 7, 0),
        Value::String("a long string that is not kept in place, by far".to_string()),
        Value::String("".to_string()),
        Value::Array(vec![]),
        Value::Object(vec![]),
    ]);
    assert_eq!(
        parse_text(
            "[null, true, false, 12, -7, \"a long string that is not kept in place, by far\", \"\", [], {}]"
        ),
        Ok(expected)
    );
}

#[test]
fn read_str_refuses_what_is_not_json() {
    let jsonc = JsonCommons::new();
    assert_eq!(jsonc.read_str("{\"car\": "), Err(ParseError::Syntax));
    assert_eq!(jsonc.read_str(""), Err(ParseError::Syntax));
    assert_eq!(jsonc.read_str("{car: 1}"), Err(ParseError::Syntax));
}

#[test]
fn read_str_refuses_a_tree_that_is_too_deep() {
    let open = "[".repeat(MAX_DEPTH);
    let close = "]".repeat(MAX_DEPTH);
    assert!(parse_text(&format!("{}{}", open, close)).is_ok());
    assert_eq!(parse_text(&format!("[{}{}]", open, close)), Err(ParseError::TooDeep));
}

#[test]
fn read_str_tells_the_depth_limit_of_the_parser_apart() {
    let text = format!("{}{}", "[".repeat(600), "]".repeat(600));
    assert_eq!(parse_text(&text), Err(ParseError::TooDeep));
    let broken = format!("{}1{}", "[".repeat(10), "]".repeat(9));
    assert_eq!(parse_text(&broken), Err(ParseError::Syntax));
}

#[test]
fn read_str_refuses_a_fraction_that_is_too_long() {
    let zeros = format!("0.{}", "0".repeat(40000));
    assert_eq!(parse_text(&zeros), Err(ParseError::DigitsTooLong));
    assert!(!fractions_within_limit(&zeros));
    let inside = format!("[1, 2.5{}]", "7".repeat(MAX_DIGITS));
    assert_eq!(parse_text(&inside), Err(ParseError::DigitsTooLong));
    let most = format!("0.{}", "0".repeat(MAX_DIGITS));
    assert!(fractions_within_limit(&most));
    assert_eq!(
        parse_text(&most),
        Ok(Value::Number(Number::Decimal { negative: false, mantissa: 0, exponent: -32767 }))
    );
}

#[test]
fn read_str_reads_long_runs_of_digits_that_are_no_fraction() {
    let digits = "1".repeat(MAX_DIGITS + 1);
    assert!(fractions_within_limit(&digits));
    assert!(!digits_within_limit(&digits));
    assert_eq!(
        parse_text(&format!("\"{}\"", digits)),
        Ok(Value::String(digits.clone()))
    );
    assert_eq!(
        parse_text(&format!("\".{}\"", digits)),
        Err(ParseError::DigitsTooLong)
    );
    assert!(parse_text(&digits).is_ok());
    let apart = format!("[{}, {}]", "1".repeat(30000), "2".repeat(30000));
    assert!(parse_text(&apart).is_ok());
}

#[test]
fn read_str_refuses_an_integer_that_the_parser_gives_up() {
    let digits = "9".repeat(40000);
    assert_eq!(parse_text(&digits), Err(ParseError::DigitsTooLong));
}

#[test]
fn parsed_numbers_convert_by_their_value() {
    let parsed = parse_text("[4000.0, 4000, 4e3, 40.5, -0.0, 1e30]").unwrap();
    assert_eq!(
        to_document_value(&parsed),
        Ok(DocumentValue::Array(vec![
            DocumentValue::Int64(4000),
            DocumentValue::Int64(4000),
            DocumentValue::Int64(4000),
            DocumentValue::Double(Number::Decimal { negative: false, mantissa: 405, exponent: -1 }),
            DocumentValue::Int64(0),
            DocumentValue::Int64(i64::MAX),
        ]))
    );
}

#[test]
fn serialize_writes_compact_text() {
    let jsonc = JsonCommons::new();
    assert_eq!(jsonc.serialize(car()), Ok(CAR_TEXT.to_string()));
    assert_eq!(to_text(&Value::Null), Ok("null".to_string()));
    assert_eq!(to_text(&Value::Array(vec![])), Ok("[]".to_string()));
    assert_eq!(to_text(&Value::Object(vec![])), Ok("{}".to_string()));
    assert_eq!(
        to_text(&Value::Array(vec![Value::Bool(true), Value::String("a\"b".to_string())])),
        Ok("[true,\"a\\\"b\"]".to_string())
    );
}

#[test]
fn serialize_writes_numbers_in_short_form() {
    assert_eq!(to_text(&num(false, 4000, 0)), Ok("4000".to_string()));
    assert_eq!(to_text(&num(true, 405, -1)), Ok("-40.5".to_string()));
    assert_eq!(to_text(&num(false, 150, -2)), Ok("1.5".to_string()));
    assert_eq!(to_text(&num(false, 40000, -1)), Ok("4000".to_string()));
    assert_eq!(to_text(&num(false, 0, -3)), Ok("0".to_string()));
    assert_eq!(to_text(&num(false, 4, 3)), Ok("4000".to_string()));
    assert_eq!(to_text(&Value::Number(Number::NotANumber)), Ok("null".to_string()));
}

#[test]
fn serialize_keeps_the_order_of_insertion() {
    let tree = Value::Object(vec![
        entry("z", num(false, 1, 0)),
        entry("a", num(false, 2, 0)),
        entry("m", num(false, 3, 0)),
    ]);
    assert_eq!(to_text(&tree), Ok("{\"z\":1,\"a\":2,\"m\":3}".to_string()));
}

#[test]
fn serialize_lets_a_key_that_comes_again_replace_its_value() {
    let tree = Value::Object(vec![
        entry("k", num(false, 1, 0)),
        entry("other", Value::Null),
        entry("k", num(false, 2, 0)),
    ]);
    assert_eq!(to_text(&tree), Ok("{\"k\":2,\"other\":null}".to_string()));
}

#[test]
fn serialize_refuses_a_tree_that_is_too_deep() {
    let mut tree = Value::Array(vec![]);
    for _ in 1..MAX_DEPTH {
        tree = Value::Array(vec![tree]);
    }
    assert!(to_text(&tree).is_ok());
    assert_eq!(to_text(&Value::Array(vec![tree])), Err(ConversionError::TooDeep));
}

#[test]
fn text_round_trip() {
    let tree = Value::Object(vec![
        entry("n", Value::Null),
        entry("b", Value::Bool(true)),
        entry("s", Value::String("line\nbreak and a string longer than thirty characters".to_string())),
        entry("i", num(true, 4000, 0)),
        entry("x", num(false, 405, -1)),
        entry("a", Value::Array(vec![num(false, 1, 0), Value::Object(vec![])])),
    ]);
    let text = to_text(&tree).unwrap();
    assert_eq!(parse_text(&text), Ok(tree));
}

#[test]
fn value_from_takes_a_parsed_value() {
    let parsed = json::parse("{\"a\":[1,{\"b\":null}]}").unwrap();
    let expected = Value::Object(vec![entry(
        "a",
        Value::Array(vec![num(false, 1, 0), Value::Object(vec![entry("b", Value::Null)])]),
    )]);
    assert_eq!(value_from(&parsed), Ok(expected));
    assert_eq!(
        value_from(&json::JsonValue::Number(json::number::NAN)),
        Ok(Value::Number(Number::NotANumber))
    );
}
