use json_commons::number::Number;
use json_commons::path::parse_index;
use json_commons::path::resolve_path;
use json_commons::path::split_path;
use json_commons::value::Value;
use json_commons::JsonCommons;

fn text(s: &str) -> Value {
    Value::String(s.to_string())
}

fn whole(i: u64) -> Value {
    Value::Number(Number::Decimal { negative: false, mantissa: i, exponent: 0 })
}

fn object(entries: Vec<(&str, Value)>) -> Value {
    Value::Object(entries.into_iter().map(|(k, v)| (k.to_string(), v)).collect())
}

fn cars() -> Value {
    object(vec![(
        "cars",
        Value::Array(vec![
            object(vec![("model", text("A"))]),
            object(vec![("model", text("B"))]),
        ]),
    )])
}

#[test]
fn index_segment_selects_array_member() {
    let jsonc = JsonCommons::new();
    assert_eq!(jsonc.get_path("cars.1.model", cars()), Some(text("B")));
    assert_eq!(jsonc.get_path("cars.0.model", cars()), Some(text("A")));
}

#[test]
fn index_past_the_end_is_absent() {
    let jsonc = JsonCommons::new();
    assert_eq!(jsonc.get_path("cars.5.model", cars()), None);
    assert_eq!(jsonc.get_path("cars.2", cars()), None);
}

#[test]
fn non_numeric_index_is_absent() {
    let jsonc = JsonCommons::new();
    assert_eq!(jsonc.get_path("cars.x.model", cars()), None);
    assert_eq!(jsonc.get_path("cars.-1.model", cars()), None);
    assert_eq!(jsonc.get_path("cars..model", cars()), None);
    assert_eq!(jsonc.get_path("cars.1x.model", cars()), None);
}

#[test]
fn empty_path_is_absent() {
    let jsonc = JsonCommons::new();
    assert_eq!(jsonc.get_path("", cars()), None);
    assert_eq!(jsonc.get_path("", object(vec![("", whole(1))])), None);
    assert_eq!(jsonc.get_path("", Value::Null), None);
}

#[test]
fn missing_key_is_absent() {
    let jsonc = JsonCommons::new();
    assert_eq!(jsonc.get_path("missing.key", cars()), None);
    assert_eq!(jsonc.get_path("missing", cars()), None);
    assert_eq!(jsonc.get_path("cars.0.colour", cars()), None);
    assert_eq!(jsonc.get_path("missing.key", Value::Null), None);
}

#[test]
fn path_may_end_at_an_array_or_a_member() {
    let jsonc = JsonCommons::new();
    let members = Value::Array(vec![
        object(vec![("model", text("A"))]),
        object(vec![("model", text("B"))]),
    ]);
    assert_eq!(jsonc.get_path("cars", cars()), Some(members));
    assert_eq!(jsonc.get_path("cars.1", cars()), Some(object(vec![("model", text("B"))])));
}

#[test]
fn numeric_segment_is_a_key_of_an_object() {
    let jsonc = JsonCommons::new();
    let tree = object(vec![("a", object(vec![("0", text("zero"))]))]);
    assert_eq!(jsonc.get_path("a.0", tree), Some(text("zero")));
}

#[test]
fn an_array_is_entered_only_below_a_key() {
    let jsonc = JsonCommons::new();
    assert_eq!(jsonc.get_path("0", Value::Array(vec![whole(1)])), None);
    let nested = object(vec![("a", Value::Array(vec![Value::Array(vec![whole(7)])]))]);
    assert_eq!(jsonc.get_path("a.0", nested.clone()), Some(Value::Array(vec![whole(7)])));
    assert_eq!(jsonc.get_path("a.0.0", nested), None);
}

#[test]
fn a_scalar_has_nothing_below_it() {
    let jsonc = JsonCommons::new();
    let tree = object(vec![("a", whole(1))]);
    assert_eq!(jsonc.get_path("a", tree.clone()), Some(whole(1)));
    assert_eq!(jsonc.get_path("a.b", tree), None);
}

#[test]
fn plus_sign_and_leading_zeros_write_an_index() {
    let jsonc = JsonCommons::new();
    assert_eq!(jsonc.get_path("cars.+1.model", cars()), Some(text("B")));
    assert_eq!(jsonc.get_path("cars.001.model", cars()), Some(text("B")));
    assert_eq!(jsonc.get_path("cars.+.model", cars()), None);
}

#[test]
fn same_segment_twice_on_a_path() {
    let jsonc = JsonCommons::new();
    let tree = object(vec![("a", object(vec![("b", object(vec![("a", object(vec![("c", whole(5))]))]))]))]);
    assert_eq!(jsonc.get_path("a.b.a.c", tree), Some(whole(5)));
}

#[test]
fn first_entry_under_a_key_is_found() {
    let tree = object(vec![("k", whole(1)), ("k", whole(2))]);
    assert_eq!(resolve_path("k", &tree), Some(whole(1)));
}

#[test]
fn empty_segment_is_a_key_below_the_top() {
    let tree = object(vec![("a", object(vec![("", whole(3))]))]);
    assert_eq!(resolve_path("a.", &tree), Some(whole(3)));
}

#[test]
fn path_exists_follows_get_path() {
    let jsonc = JsonCommons::new();
    assert!(jsonc.path_exists("cars.1.model", cars()));
    assert!(jsonc.path_exists("cars", cars()));
    assert!(!jsonc.path_exists("cars.5.model", cars()));
    assert!(!jsonc.path_exists("", cars()));
    assert!(!jsonc.path_exists("missing.key", cars()));
}

#[test]
fn resolved_node_is_a_copy_and_the_tree_stays() {
    let tree = cars();
    let found = resolve_path("cars.0", &tree);
    assert_eq!(found, Some(object(vec![("model", text("A"))])));
    assert_eq!(tree, cars());
}

#[test]
fn split_path_cuts_at_every_dot() {
    assert_eq!(split_path("a.b.c"), vec!["a".to_string(), "b".to_string(), "c".to_string()]);
    assert_eq!(split_path(""), vec!["".to_string()]);
    assert_eq!(split_path("a..b"), vec!["a".to_string(), "".to_string(), "b".to_string()]);
    assert_eq!(split_path(".a."), vec!["".to_string(), "a".to_string(), "".to_string()]);
    assert_eq!(split_path("é.ü"), vec!["é".to_string(), "ü".to_string()]);
}

#[test]
fn parse_index_reads_decimal_digits() {
    assert_eq!(parse_index("0"), Some(0));
    assert_eq!(parse_index("42"), Some(42));
    assert_eq!(parse_index("+42"), Some(42));
    assert_eq!(parse_index("0042"), Some(42));
    assert_eq!(parse_index(""), None);
    assert_eq!(parse_index("+"), None);
    assert_eq!(parse_index("-1"), None);
    assert_eq!(parse_index("4 2"), None);
    assert_eq!(parse_index("４"), None);
    assert_eq!(parse_index("18446744073709551615"), Some(18446744073709551615));
    assert_eq!(parse_index("18446744073709551616"), None);
    assert_eq!(parse_index("99999999999999999999999"), None);
}

#[test]
fn to_sequence_of_a_non_array_is_empty() {
    let jsonc = JsonCommons::new();
    assert!(jsonc.parse_to_vec(Value::Null).is_empty());
    assert!(jsonc.parse_to_vec(text("abc")).is_empty());
    assert!(jsonc.parse_to_vec(cars()).is_empty());
}

#[test]
fn to_sequence_of_an_empty_array_is_empty() {
    let jsonc = JsonCommons::new();
    assert!(jsonc.parse_to_vec(Value::Array(vec![])).is_empty());
}

#[test]
fn to_sequence_keeps_members_in_order() {
    let jsonc = JsonCommons::new();
    let queue = jsonc.parse_to_vec(Value::Array(vec![whole(1), whole(2), whole(3)]));
    assert_eq!(queue.into_iter().collect::<Vec<Value>>(), vec![whole(1), whole(2), whole(3)]);
}

#[test]
fn to_sequence_keeps_empty_members() {
    let jsonc = JsonCommons::new();
    let members = vec![Value::Null, Value::Array(vec![]), Value::Object(vec![]), whole(1)];
    let queue = jsonc.parse_to_vec(Value::Array(members.clone()));
    assert_eq!(queue.into_iter().collect::<Vec<Value>>(), members);
}

#[test]
fn duplicate_and_depth() {
    let mut deep = Value::Null;
    for _ in 0..5 {
        deep = Value::Array(vec![deep]);
    }
    assert!(deep.fits_depth(5));
    assert!(!deep.fits_depth(4));
    assert!(Value::Null.fits_depth(0));
    assert!(!Value::Object(vec![]).fits_depth(0));
    assert!(Value::Object(vec![]).fits_depth(1));
    assert_eq!(deep.duplicate(), deep);
    assert_eq!(cars().clone(), cars());
}
