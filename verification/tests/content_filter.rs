use soroban_notify::content_filter::{
    compare, contains, decide_equal, decide_order, ordered_compare, parse_truth, regex_error,
    regex_matches, scalar_to_string, values_equal, ContentFilter, FilterOp,
};
use soroban_notify::double::{Double, NumberReadings};
use soroban_notify::json::JsonValue;
use soroban_notify::text::Order;

fn convert(value: &serde_json::Value) -> JsonValue {
    match value {
        serde_json::Value::Null => JsonValue::Null,
        serde_json::Value::Bool(b) => JsonValue::Bool(*b),
        serde_json::Value::Number(n) => JsonValue::Number(n.to_string()),
        serde_json::Value::String(s) => JsonValue::String(s.clone()),
        serde_json::Value::Array(items) => JsonValue::Array(items.iter().map(convert).collect()),
        serde_json::Value::Object(fields) => {
            JsonValue::Object(fields.iter().map(|(k, v)| (k.clone(), convert(v))).collect())
        }
    }
}

fn json(text: &str) -> JsonValue {
    convert(&serde_json::from_str(text).expect("valid JSON"))
}

fn read(texts: &[String]) -> NumberReadings {
    let mut readings = NumberReadings::new();
    for text in texts {
        if let Ok(x) = text.parse::<f64>() {
            readings.record(text.clone(), Double { bits: x.to_bits() });
        }
    }
    readings
}

fn evaluate(filter: &ContentFilter, data: &str) -> bool {
    let data = json(data);
    let readings = read(&filter.numeric_texts(&data));
    filter.evaluate(&data, &readings)
}

fn filter(path: &str, op: FilterOp, value: &str) -> ContentFilter {
    ContentFilter { path: path.to_string(), op, value: value.to_string() }
}

#[test]
fn gt_delivers_only_high_value_events() {
    let f = filter("$.amount", FilterOp::Gt, "1000000");
    assert!(evaluate(&f, r#"{ "amount": "2000000" }"#));
    assert!(evaluate(&f, r#"{ "amount": 1500000 }"#));
    assert!(!evaluate(&f, r#"{ "amount": "500000" }"#));
    assert!(!evaluate(&f, r#"{ "amount": 1000000 }"#));
}

#[test]
fn comparison_operators() {
    assert!(evaluate(&filter("$.n", FilterOp::Eq, "5"), r#"{"n": 5}"#));
    assert!(evaluate(&filter("$.n", FilterOp::Ne, "5"), r#"{"n": 6}"#));
    assert!(evaluate(&filter("$.n", FilterOp::Lt, "10"), r#"{"n": 9}"#));
    assert!(evaluate(&filter("$.n", FilterOp::Gte, "10"), r#"{"n": 10}"#));
    assert!(evaluate(&filter("$.n", FilterOp::Lte, "10"), r#"{"n": 10}"#));
    assert!(!evaluate(&filter("$.n", FilterOp::Gte, "10"), r#"{"n": 9}"#));
}

#[test]
fn string_equality_and_inequality() {
    assert!(evaluate(&filter("$.status", FilterOp::Eq, "ok"), r#"{"status": "ok"}"#));
    assert!(evaluate(&filter("$.status", FilterOp::Ne, "ok"), r#"{"status": "fail"}"#));
}

#[test]
fn contains_on_string_and_array() {
    assert!(evaluate(&filter("$.memo", FilterOp::Contains, "swap"), r#"{"memo": "token swap"}"#));
    assert!(evaluate(
        &filter("$.tags", FilterOp::Contains, "defi"),
        r#"{"tags": ["defi", "amm"]}"#
    ));
    assert!(!evaluate(&filter("$.tags", FilterOp::Contains, "nft"), r#"{"tags": ["defi"]}"#));
}

#[test]
fn matches_uses_regex() {
    let f = filter("$.account", FilterOp::Matches, "^G[A-Z0-9]+$");
    assert!(evaluate(&f, r#"{"account": "GABC123"}"#));
    assert!(!evaluate(&f, r#"{"account": "invalid"}"#));
}

#[test]
fn nested_and_indexed_paths() {
    let data = r#"{ "transfer": { "to": "GDEST" }, "amounts": [10, 250] }"#;
    assert!(evaluate(&filter("$.transfer.to", FilterOp::Eq, "GDEST"), data));
    assert!(evaluate(&filter("$.amounts[1]", FilterOp::Gt, "100"), data));
}

#[test]
fn absent_field_does_not_match_except_ne() {
    let data = r#"{ "other": 1 }"#;
    assert!(!evaluate(&filter("$.amount", FilterOp::Gt, "100"), data));
    assert!(!evaluate(&filter("$.amount", FilterOp::Eq, "100"), data));
    assert!(evaluate(&filter("$.amount", FilterOp::Ne, "100"), data));
}

#[test]
fn validate_rejects_bad_path_and_regex() {
    assert!(filter("amount", FilterOp::Eq, "1").validate().is_err());
    assert!(filter("$", FilterOp::Eq, "1").validate().is_err());
    assert!(filter("$.account", FilterOp::Matches, "[unclosed").validate().is_err());
}

#[test]
fn validate_accepts_well_formed_filters() {
    assert!(filter("$.amount", FilterOp::Gt, "1000000").validate().is_ok());
    assert!(filter("$.account", FilterOp::Matches, "^G.*$").validate().is_ok());
    assert!(filter("$.a.b[0]", FilterOp::Eq, "x").validate().is_ok());
}

#[test]
fn deserializes_from_issue_example() {
    let value: serde_json::Value =
        serde_json::from_str(r#"{"path": "$.amount", "op": "gt", "value": "1000000"}"#)
            .expect("valid filter");
    let op = match value["op"].as_str().expect("valid filter") {
        "gt" => FilterOp::Gt,
        other => panic!("unexpected operator {}", other),
    };
    let f = filter(
        value["path"].as_str().expect("valid filter"),
        op,
        value["value"].as_str().expect("valid filter"),
    );
    assert_eq!(f.op, FilterOp::Gt);
    assert!(evaluate(&f, r#"{"amount": "2000000"}"#));
}

#[test]
fn validation_messages() {
    assert_eq!(
        filter("amount", FilterOp::Eq, "1").validate(),
        Err("content_filter path must start with '$' (got 'amount')".to_string())
    );
    for path in ["$", "$.", "$x", "$[", "$['']", "$.a..b", "$.a[0"] {
        assert_eq!(
            filter(path, FilterOp::Eq, "1").validate(),
            Err(format!("content_filter path '{}' does not select a field", path))
        );
    }
    let rejected = filter("$.a", FilterOp::Matches, "[unclosed").validate().unwrap_err();
    let expected = regex::Regex::new("[unclosed").unwrap_err();
    assert_eq!(rejected, format!("content_filter value is not a valid regex: {}", expected));
    // The pattern only counts where it is used.
    assert!(filter("$.a", FilterOp::Eq, "[unclosed").validate().is_ok());
    assert_eq!(
        filter("$.a", FilterOp::Matches, "x").validate_given(Some("no".to_string())),
        Err("content_filter value is not a valid regex: no".to_string())
    );
    assert_eq!(filter("$.a", FilterOp::Eq, "x").validate_given(Some("no".to_string())), Ok(()));
}

#[test]
fn malformed_paths_deliver_nothing() {
    for op in [FilterOp::Eq, FilterOp::Ne, FilterOp::Contains, FilterOp::Matches] {
        assert!(!evaluate(&filter("n", op, "1"), r#"{"n": 1}"#));
        assert!(!evaluate(&filter("$.n[", op, "1"), r#"{"n": 1}"#));
    }
    // A path without segments selects the whole value.
    assert!(evaluate(&filter("$", FilterOp::Eq, "1"), "1"));
}

#[test]
fn numbers_compare_by_value() {
    assert!(evaluate(&filter("$.n", FilterOp::Eq, "1.50"), r#"{"n": 1.5}"#));
    assert!(evaluate(&filter("$.n", FilterOp::Eq, " 1e3 "), r#"{"n": " 1000 "}"#));
    assert!(evaluate(&filter("$.n", FilterOp::Eq, "-0"), r#"{"n": 0}"#));
    assert!(evaluate(&filter("$.n", FilterOp::Lt, "-1"), r#"{"n": -2}"#));
    assert!(evaluate(&filter("$.n", FilterOp::Lt, "inf"), r#"{"n": 1e308}"#));
    // As texts, "9" would come after "10".
    assert!(evaluate(&filter("$.n", FilterOp::Lt, "10"), r#"{"n": "9"}"#));
    // Nothing is equal to, or ordered with, what is not a number.
    assert!(!evaluate(&filter("$.n", FilterOp::Eq, "NaN"), r#"{"n": "NaN"}"#));
    assert!(evaluate(&filter("$.n", FilterOp::Ne, "NaN"), r#"{"n": "NaN"}"#));
    assert!(!evaluate(&filter("$.n", FilterOp::Lte, "NaN"), r#"{"n": 1}"#));
    assert!(!evaluate(&filter("$.n", FilterOp::Gte, "NaN"), r#"{"n": 1}"#));
}

#[test]
fn texts_compare_where_numbers_do_not() {
    assert!(evaluate(&filter("$.s", FilterOp::Gt, "abc"), r#"{"s": "abd"}"#));
    assert!(evaluate(&filter("$.s", FilterOp::Lt, "abc"), r#"{"s": "ab"}"#));
    assert!(evaluate(&filter("$.s", FilterOp::Lte, "abc"), r#"{"s": "abc"}"#));
    assert!(evaluate(&filter("$.s", FilterOp::Gt, "9"), r#"{"s": "abc"}"#));
    assert!(!evaluate(&filter("$.s", FilterOp::Eq, "ok"), r#"{"s": "ok "}"#));
}

#[test]
fn truth_values_and_null() {
    assert!(evaluate(&filter("$.b", FilterOp::Eq, "true"), r#"{"b": true}"#));
    assert!(!evaluate(&filter("$.b", FilterOp::Eq, "false"), r#"{"b": true}"#));
    assert!(!evaluate(&filter("$.b", FilterOp::Eq, " true"), r#"{"b": true}"#));
    assert!(evaluate(&filter("$.b", FilterOp::Eq, "null"), r#"{"b": null}"#));
    assert!(!evaluate(&filter("$.b", FilterOp::Contains, "ul"), r#"{"b": null}"#));
    assert_eq!(parse_truth("true"), Some(true));
    assert_eq!(parse_truth("false"), Some(false));
    assert_eq!(parse_truth("TRUE"), None);
}

#[test]
fn compound_values_compare_in_compact_form() {
    let data = r#"{"o": {"b": [1, "x"], "a": null}}"#;
    assert!(evaluate(&filter("$.o", FilterOp::Eq, r#"{"a":null,"b":[1,"x"]}"#), data));
    assert!(!evaluate(&filter("$.o", FilterOp::Contains, r#"[1,"x"]"#), data));
    assert!(evaluate(&filter("$.o.b", FilterOp::Contains, "1.0"), data));
    assert!(evaluate(&filter("$.o.b", FilterOp::Matches, r#"^\[1,"#), data));
    assert_eq!(scalar_to_string(&json(r#"{"b": 1.0}"#)), r#"{"b":1.0}"#);
    assert_eq!(scalar_to_string(&JsonValue::String("a\"b".to_string())), "a\"b");
    assert_eq!(scalar_to_string(&JsonValue::Null), "null");
    assert_eq!(scalar_to_string(&JsonValue::Bool(false)), "false");
}

#[test]
fn contains_is_for_strings_and_arrays() {
    let f = filter("$.n", FilterOp::Contains, "2");
    assert!(!evaluate(&f, r#"{"n": 123}"#));
    assert!(!evaluate(&f, r#"{"n": {"k": "2"}}"#));
    assert!(!evaluate(&filter("$.n", FilterOp::Contains, "ru"), r#"{"n": true}"#));
    assert!(evaluate(&f, r#"{"n": "123"}"#));
    assert!(!evaluate(&f, r#"{"n": [123]}"#));
    assert!(evaluate(&f, r#"{"n": [1, 2, 3]}"#));
}

#[test]
fn regular_expressions() {
    assert_eq!(regex_error("a+"), None);
    assert_eq!(
        regex_error("(").expect("rejected"),
        regex::Regex::new("(").unwrap_err().to_string()
    );
    assert!(regex_matches("b+", "abbc"));
    assert!(!regex_matches("^b", "abbc"));
    assert!(!regex_matches("(", "("));
    assert!(!evaluate(&filter("$.s", FilterOp::Matches, "("), r#"{"s": "("}"#));
    assert!(evaluate(&filter("$.n", FilterOp::Matches, "^1\\.5$"), r#"{"n": 1.5}"#));
}

#[test]
fn comparisons_on_given_readings() {
    let none = NumberReadings::new();
    let seven = JsonValue::Number("7".to_string());
    // Without readings, texts decide.
    assert!(values_equal(&seven, "7", &none));
    assert!(!values_equal(&seven, "7.0", &none));
    let read_both = read(&["7".to_string(), "7.0".to_string()]);
    assert!(values_equal(&seven, "7.0", &read_both));
    assert!(ordered_compare(&seven, FilterOp::Gte, "7.0", &read_both));
    assert!(!ordered_compare(&seven, FilterOp::Gt, "7.0", &read_both));
    assert!(contains(&JsonValue::Array(vec![JsonValue::Null, seven.clone()]), "7.0", &read_both));
    assert!(!contains(&JsonValue::Array(vec![]), "7.0", &read_both));
    assert!(compare(&seven, FilterOp::Ne, "8", &none));
}

#[test]
fn decisions_on_given_outcomes() {
    let one = Double { bits: 1.0f64.to_bits() };
    let two = Double { bits: 2.0f64.to_bits() };
    let nan = Double { bits: f64::NAN.to_bits() };
    assert!(decide_equal(Some(one), Some(one), None, "a", "b"));
    assert!(!decide_equal(Some(one), Some(two), None, "a", "a"));
    assert!(decide_equal(None, Some(two), Some(true), "true", "true"));
    assert!(decide_equal(None, None, None, "a", "a"));
    assert_eq!(decide_order(Some(one), Some(two), "b", "a"), Some(Order::Less));
    assert_eq!(decide_order(Some(one), Some(nan), "b", "a"), None);
    assert_eq!(decide_order(Some(one), None, "b", "a"), Some(Order::Greater));
    assert_eq!(decide_order(None, None, "a", "a"), Some(Order::Equal));
}

#[test]
fn only_consulted_texts_are_listed() {
    let data = json(r#"{"n": " 12 ", "a": [1, "x", true], "s": "y"}"#);
    assert_eq!(filter("$.n", FilterOp::Gt, " 3").numeric_texts(&data), vec!["12", "3"]);
    assert_eq!(filter("$.missing", FilterOp::Gt, "3").numeric_texts(&data), Vec::<String>::new());
    assert_eq!(filter("$.s", FilterOp::Matches, "3").numeric_texts(&data), Vec::<String>::new());
    assert!(filter("$.a", FilterOp::Contains, "x")
        .numeric_texts(&data)
        .contains(&"1".to_string()));
}
