use json_commons::bridge::classify_double;
use json_commons::bridge::convert_number;
use json_commons::bridge::from_document;
use json_commons::bridge::has_exact_numbers;
use json_commons::bridge::is_read_exactly;
use json_commons::bridge::to_document;
use json_commons::bridge::to_document_value;
use json_commons::bridge::to_value;
use json_commons::document::BinaryDocument;
use json_commons::document::DocumentValue;
use json_commons::errors::ConversionError;
use json_commons::number::decimal_integer;
use json_commons::number::double_integer;
use json_commons::number::double_is_fractional;
use json_commons::number::double_truncate;
use json_commons::number::Number;
use json_commons::value::Value;
use json_commons::wire::read_double;
use json_commons::value::MAX_DEPTH;
use json_commons::JsonCommons;

fn dec(negative: bool, mantissa: u64, exponent: i16) -> Number {
    Number::Decimal { negative, mantissa, exponent }
}

fn num(negative: bool, mantissa: u64, exponent: i16) -> Value {
    Value::Number(dec(negative, mantissa, exponent))
}

fn nested(levels: usize) -> Value {
    let mut tree = Value::Object(vec![]);
    for _ in 1..levels {
        tree = Value::Object(vec![("k".to_string(), tree)]);
    }
    tree
}

#[test]
fn integral_float_becomes_an_integer() {
    assert_eq!(to_document_value(&num(false, 40000, -1)), Ok(DocumentValue::Int64(4000)));
    assert_eq!(to_document_value(&num(false, 4000, 0)), Ok(DocumentValue::Int64(4000)));
    assert_eq!(to_document_value(&num(false, 4, 3)), Ok(DocumentValue::Int64(4000)));
}

#[test]
fn fraction_stays_a_double() {
    assert_eq!(
        to_document_value(&num(false, 405, -1)),
        Ok(DocumentValue::Double(dec(false, 405, -1)))
    );
    assert_eq!(
        to_document_value(&num(true, 1, -30)),
        Ok(DocumentValue::Double(dec(true, 1, -30)))
    );
}

#[test]
fn double_fraction_is_read_from_the_bits() {
    assert!(!double_is_fractional(4000.0f64.to_bits()));
    assert!(double_is_fractional(40.5f64.to_bits()));
    assert!(!double_is_fractional(0.0f64.to_bits()));
    assert!(!double_is_fractional((-0.0f64).to_bits()));
    assert!(double_is_fractional(0.5f64.to_bits()));
    assert!(double_is_fractional(f64::MIN_POSITIVE.to_bits()));
    assert!(double_is_fractional(5e-324f64.to_bits()));
    assert!(double_is_fractional(1.0000000000000002f64.to_bits()));
    assert!(!double_is_fractional(1.0f64.to_bits()));
    assert!(!double_is_fractional(4503599627370496.0f64.to_bits()));
    assert!(double_is_fractional(4503599627370495.5f64.to_bits()));
    assert!(!double_is_fractional(9007199254740993.0f64.to_bits()));
    assert!(!double_is_fractional(1e300f64.to_bits()));
    assert!(!double_is_fractional(f64::MAX.to_bits()));
    assert!(double_is_fractional(f64::INFINITY.to_bits()));
    assert!(double_is_fractional(f64::NEG_INFINITY.to_bits()));
    assert!(double_is_fractional(f64::NAN.to_bits()));
}

#[test]
fn double_truncation_cuts_toward_zero_and_saturates() {
    assert_eq!(double_truncate(4000.0f64.to_bits()), 4000);
    assert_eq!(double_truncate(40.5f64.to_bits()), 40);
    assert_eq!(double_truncate((-40.5f64).to_bits()), -40);
    assert_eq!(double_truncate(0.999f64.to_bits()), 0);
    assert_eq!(double_truncate((-0.999f64).to_bits()), 0);
    assert_eq!(double_truncate((-0.0f64).to_bits()), 0);
    assert_eq!(double_truncate(5e-324f64.to_bits()), 0);
    assert_eq!(double_truncate(1.0f64.to_bits()), 1);
    assert_eq!(double_truncate(18014398509481985.0f64.to_bits()), 18014398509481984);
    assert_eq!(double_truncate(9223372036854774784.0f64.to_bits()), 9223372036854774784);
    assert_eq!(double_truncate(9223372036854775808.0f64.to_bits()), i64::MAX);
    assert_eq!(double_truncate((-9223372036854775808.0f64).to_bits()), i64::MIN);
    assert_eq!(double_truncate((-9223372036854774784.0f64).to_bits()), -9223372036854774784);
    assert_eq!(double_truncate(1e30f64.to_bits()), i64::MAX);
    assert_eq!(double_truncate((-1e30f64).to_bits()), i64::MIN);
    assert_eq!(double_truncate(f64::INFINITY.to_bits()), i64::MAX);
    assert_eq!(double_truncate(f64::NEG_INFINITY.to_bits()), i64::MIN);
    for x in [0.0f64, 1.5, -2.75, 123456789.0, -987654321.125, 4503599627370497.0, 1e18] {
        assert_eq!(double_truncate(x.to_bits()), x as i64);
        assert_eq!(double_is_fractional(x.to_bits()), x.fract() != 0.0);
    }
}

#[test]
fn classify_double_picks_the_kind_by_the_bits() {
    let n = dec(false, 40000, -1);
    assert_eq!(classify_double(n, 4000.0f64.to_bits()), DocumentValue::Int64(4000));
    let m = dec(false, 405, -1);
    assert_eq!(classify_double(m, 40.5f64.to_bits()), DocumentValue::Double(m));
    assert_eq!(classify_double(m, (-7.0f64).to_bits()), DocumentValue::Int64(-7));
    assert_eq!(classify_double(m, f64::NAN.to_bits()), DocumentValue::Double(m));
}

#[test]
fn read_double_gives_the_bits_of_the_nearest_double() {
    assert_eq!(read_double(dec(false, 405, -1)), Some(40.5f64.to_bits()));
    assert_eq!(read_double(dec(true, 4, 3)), Some((-4000.0f64).to_bits()));
    assert_eq!(read_double(dec(false, 1, -1)), Some(0.1f64.to_bits()));
    assert_eq!(read_double(dec(false, 18014398509481985, 0)), Some(18014398509481984.0f64.to_bits()));
    assert_eq!(read_double(dec(false, 1, 400)), Some(f64::INFINITY.to_bits()));
    assert_eq!(read_double(dec(false, 1, -400)), Some(0.0f64.to_bits()));
    assert_eq!(read_double(dec(true, 0, 0)), Some((-0.0f64).to_bits()));
    assert!(f64::from_bits(read_double(Number::NotANumber).unwrap()).is_nan());
}

#[test]
fn decimal_integer_is_exact_or_none() {
    assert_eq!(decimal_integer(dec(false, 4000, 0)), Some(4000));
    assert_eq!(decimal_integer(dec(true, 40000, -1)), Some(-4000));
    assert_eq!(decimal_integer(dec(false, 4, 3)), Some(4000));
    assert_eq!(decimal_integer(dec(false, 405, -1)), None);
    assert_eq!(decimal_integer(dec(true, 0, -30000)), Some(0));
    assert_eq!(decimal_integer(dec(false, 1, -30000)), None);
    assert_eq!(decimal_integer(dec(false, 0, 30000)), Some(0));
    assert_eq!(decimal_integer(dec(false, 1, 19)), None);
    assert_eq!(decimal_integer(dec(false, 9_223_372_036_854_775_807, 0)), Some(i64::MAX));
    assert_eq!(decimal_integer(dec(false, 9_223_372_036_854_775_808, 0)), None);
    assert_eq!(decimal_integer(dec(true, 9_223_372_036_854_775_808, 0)), Some(i64::MIN));
    assert_eq!(decimal_integer(dec(true, 9_223_372_036_854_775_809, 0)), None);
    assert_eq!(decimal_integer(dec(false, 922_337_203_685_477_580, 1)), Some(9_223_372_036_854_775_800));
    assert_eq!(decimal_integer(dec(false, 922_337_203_685_477_581, 1)), None);
    assert_eq!(decimal_integer(Number::NotANumber), None);
}

#[test]
fn double_integer_is_exact_or_none() {
    assert_eq!(double_integer(4000.0f64.to_bits()), Some(4000));
    assert_eq!(double_integer((-0.0f64).to_bits()), Some(0));
    assert_eq!(double_integer(40.5f64.to_bits()), None);
    assert_eq!(double_integer(18014398509481984.0f64.to_bits()), Some(18014398509481984));
    assert_eq!(double_integer(9223372036854774784.0f64.to_bits()), Some(9223372036854774784));
    assert_eq!(double_integer(9223372036854775808.0f64.to_bits()), None);
    assert_eq!(double_integer((-9223372036854775808.0f64).to_bits()), Some(i64::MIN));
    assert_eq!(double_integer((-9223372036854777856.0f64).to_bits()), None);
    assert_eq!(double_integer(1e300f64.to_bits()), None);
    assert_eq!(double_integer(f64::INFINITY.to_bits()), None);
    assert_eq!(double_integer(f64::NAN.to_bits()), None);
}

#[test]
fn exact_numbers_are_those_that_come_back() {
    assert!(is_read_exactly(dec(false, 4000, 0)));
    assert!(is_read_exactly(dec(true, 4, 3)));
    assert!(is_read_exactly(dec(false, 9007199254740992, 0)));
    assert!(!is_read_exactly(dec(false, 9007199254740993, 0)));
    assert!(!is_read_exactly(dec(false, 18014398509481985, 0)));
    assert!(!is_read_exactly(dec(false, 405, -1)));
    assert!(!is_read_exactly(dec(false, 1, 30)));
    assert!(!is_read_exactly(Number::NotANumber));
    let good = Value::Object(vec![
        ("a".to_string(), Value::Array(vec![num(false, 1, 0), Value::Null])),
        ("b".to_string(), Value::Object(vec![("c".to_string(), num(true, 7, 2))])),
    ]);
    assert!(has_exact_numbers(&good));
    let bad = Value::Object(vec![
        ("a".to_string(), Value::Array(vec![num(false, 1, 0), num(false, 5, -1)])),
    ]);
    assert!(!has_exact_numbers(&bad));
    assert!(has_exact_numbers(&Value::Null));
}

#[test]
fn number_is_taken_as_the_double_it_is_read_as() {
    assert_eq!(
        to_document_value(&num(false, 18014398509481985, 0)),
        Ok(DocumentValue::Int64(18014398509481984))
    );
    assert_eq!(
        to_document_value(&num(false, 45035996273704965, -1)),
        Ok(DocumentValue::Int64(4503599627370496))
    );
    assert_eq!(to_document_value(&num(false, 1, -400)), Ok(DocumentValue::Int64(0)));
    assert_eq!(to_document_value(&num(false, 1, 30)), Ok(DocumentValue::Int64(i64::MAX)));
    assert_eq!(to_document_value(&num(true, 1, 30)), Ok(DocumentValue::Int64(i64::MIN)));
    assert_eq!(to_document_value(&num(true, 0, 0)), Ok(DocumentValue::Int64(0)));
    assert_eq!(
        to_document_value(&num(false, 1, 400)),
        Ok(DocumentValue::Double(dec(false, 1, 400)))
    );
}

#[test]
fn from_i64_keeps_sign_and_magnitude() {
    assert_eq!(Number::from_i64(0), dec(false, 0, 0));
    assert_eq!(Number::from_i64(4000), dec(false, 4000, 0));
    assert_eq!(Number::from_i64(-7), dec(true, 7, 0));
    assert_eq!(Number::from_i64(i64::MAX), dec(false, 9_223_372_036_854_775_807, 0));
    assert_eq!(Number::from_i64(i64::MIN), dec(true, 9_223_372_036_854_775_808, 0));
}

#[test]
fn from_parts_builds_the_number() {
    assert_eq!(Number::from_parts(false, true, 405, -1), dec(false, 405, -1));
    assert_eq!(Number::from_parts(false, false, 405, -1), dec(true, 405, -1));
    assert_eq!(Number::from_parts(true, true, 405, -1), Number::NotANumber);
}

#[test]
fn convert_number_picks_the_kind() {
    assert_eq!(convert_number(dec(false, 15, -1)), Ok(DocumentValue::Double(dec(false, 15, -1))));
    assert_eq!(convert_number(dec(true, 150, -1)), Ok(DocumentValue::Int64(-15)));
    assert_eq!(convert_number(Number::NotANumber), Ok(DocumentValue::Double(Number::NotANumber)));
}

#[test]
fn scalars_and_containers_map_member_by_member() {
    let tree = Value::Object(vec![
        ("n".to_string(), Value::Null),
        ("b".to_string(), Value::Bool(true)),
        ("s".to_string(), Value::String("red".to_string())),
        ("a".to_string(), Value::Array(vec![num(false, 1, 0), Value::Null, Value::Array(vec![])])),
        ("o".to_string(), Value::Object(vec![("x".to_string(), num(false, 25, -1))])),
    ]);
    let expected = DocumentValue::Document(vec![
        ("n".to_string(), DocumentValue::Null),
        ("b".to_string(), DocumentValue::Bool(true)),
        ("s".to_string(), DocumentValue::String("red".to_string())),
        (
            "a".to_string(),
            DocumentValue::Array(vec![
                DocumentValue::Int64(1),
                DocumentValue::Null,
                DocumentValue::Array(vec![]),
            ]),
        ),
        (
            "o".to_string(),
            DocumentValue::Document(vec![("x".to_string(), DocumentValue::Double(dec(false, 25, -1)))]),
        ),
    ]);
    assert_eq!(to_document_value(&tree), Ok(expected));
}

#[test]
fn not_a_number_is_a_double() {
    assert_eq!(
        to_document_value(&Value::Number(Number::NotANumber)),
        Ok(DocumentValue::Double(Number::NotANumber))
    );
}

#[test]
fn too_deep_tree_is_refused() {
    assert!(to_document(&nested(MAX_DEPTH)).is_ok());
    assert_eq!(to_document(&nested(MAX_DEPTH + 1)), Err(ConversionError::TooDeep));
    assert_eq!(to_document_value(&nested(MAX_DEPTH + 1)), Err(ConversionError::TooDeep));
}

#[test]
fn only_an_object_has_a_document() {
    assert_eq!(to_document(&Value::Null), Err(ConversionError::NotAnObject));
    assert_eq!(to_document(&Value::Array(vec![])), Err(ConversionError::NotAnObject));
    assert_eq!(to_document(&num(false, 1, 0)), Err(ConversionError::NotAnObject));
    assert_eq!(to_document(&Value::Object(vec![])), Ok(BinaryDocument { entries: vec![] }));
}

#[test]
fn both_document_numbers_become_numbers() {
    assert_eq!(to_value(&DocumentValue::Int64(-12)), Ok(num(true, 12, 0)));
    assert_eq!(to_value(&DocumentValue::Double(dec(false, 405, -1))), Ok(num(false, 405, -1)));
    assert_eq!(
        to_value(&DocumentValue::Double(Number::NotANumber)),
        Ok(Value::Number(Number::NotANumber))
    );
}

#[test]
fn too_deep_document_is_refused() {
    let mut tree = DocumentValue::Array(vec![]);
    for _ in 1..MAX_DEPTH {
        tree = DocumentValue::Array(vec![tree]);
    }
    assert!(to_value(&tree).is_ok());
    let deeper = DocumentValue::Array(vec![tree]);
    assert_eq!(to_value(&deeper), Err(ConversionError::TooDeep));
    let document = BinaryDocument { entries: vec![("k".to_string(), deeper)] };
    assert_eq!(from_document(&document), Err(ConversionError::TooDeep));
}

#[test]
fn round_trip_of_a_tree_of_integers() {
    let tree = Value::Object(vec![
        ("n".to_string(), Value::Null),
        ("b".to_string(), Value::Bool(false)),
        ("s".to_string(), Value::String("text".to_string())),
        ("i".to_string(), num(true, 4000, 0)),
        (
            "a".to_string(),
            Value::Array(vec![
                num(false, 1, 0),
                Value::Object(vec![("deep".to_string(), Value::Array(vec![Value::Null]))]),
            ]),
        ),
    ]);
    let document = to_document(&tree).unwrap();
    assert_eq!(from_document(&document), Ok(tree));
}

#[test]
fn round_trip_keeps_the_value_of_a_number_not_its_form() {
    let tree = Value::Object(vec![("i".to_string(), num(false, 40000, -1))]);
    let document = to_document(&tree).unwrap();
    assert_eq!(
        from_document(&document),
        Ok(Value::Object(vec![("i".to_string(), num(false, 4000, 0))]))
    );
}

#[test]
fn facade_converts_like_the_bridge() {
    let jsonc = JsonCommons::new();
    let tree = Value::Object(vec![("x".to_string(), num(false, 4000, 0))]);
    let document = jsonc.parse_to_document(tree.clone()).unwrap();
    assert_eq!(
        document,
        BinaryDocument { entries: vec![("x".to_string(), DocumentValue::Int64(4000))] }
    );
    assert_eq!(
        jsonc.parse_to_bson(tree.clone()),
        Ok(DocumentValue::Document(vec![("x".to_string(), DocumentValue::Int64(4000))]))
    );
    assert_eq!(jsonc.parse_to_bson(Value::Null), Err(ConversionError::NotAnObject));
    assert_eq!(jsonc.json_from_document(document), Ok(tree));
    assert_eq!(jsonc.json_from_bson(DocumentValue::Int64(3)), Ok(num(false, 3, 0)));
}
