use soroban_notify::double::{Double, NumberReadings};
use soroban_notify::json::{copy_items, resolve, to_compact, to_pretty, JsonValue};
use soroban_notify::path::{is_rooted, parse_path, Segment};
use soroban_notify::text::{
    contains_text, join, order_text, push_decimal, read_index, same_text, to_ascii_lower, to_chars,
    to_hex, trim_text, unquote, Order,
};

fn double(x: f64) -> Double {
    Double { bits: x.to_bits() }
}

fn describe(path: &str) -> Option<Vec<String>> {
    parse_path(path).map(|segments| {
        segments
            .iter()
            .map(|segment| match segment {
                Segment::Key(key) => format!("key {}", key),
                Segment::Index(index) => format!("index {}", index),
            })
            .collect()
    })
}

fn some(parts: &[&str]) -> Option<Vec<String>> {
    Some(parts.iter().map(|s| s.to_string()).collect())
}

#[test]
fn paths_are_read() {
    assert_eq!(describe("$"), some(&[]));
    assert_eq!(describe("$.a.b"), some(&["key a", "key b"]));
    assert_eq!(describe("$.a[0]"), some(&["key a", "index 0"]));
    assert_eq!(describe("$['a']"), some(&["key a"]));
    assert_eq!(describe("$[ \"a.b[\" ]"), some(&["key a.b["]));
    assert_eq!(describe("$['0']"), some(&["key 0"]));
    assert_eq!(describe("$[+7].x y"), some(&["index 7", "key x y"]));
    assert_eq!(describe("$[key]"), some(&["key key"]));
    assert_eq!(describe("$[-1]"), some(&["key -1"]));
    assert_eq!(
        describe("$[18446744073709551615]"),
        some(&["index 18446744073709551615"])
    );
    assert_eq!(
        describe("$[18446744073709551616]"),
        some(&["key 18446744073709551616"])
    );
    for malformed in ["", "a", "$a", "$.", "$..a", "$.a.", "$[", "$[0", "$[]", "$['']", "$[ ]", "$.a]b["] {
        assert_eq!(describe(malformed), None, "{}", malformed);
    }
    assert_eq!(describe("$.a]b"), some(&["key a]b"]));
    assert!(is_rooted("$x"));
    assert!(!is_rooted(""));
}

#[test]
fn values_are_found_along_paths() {
    let data = JsonValue::Object(vec![
        ("a".to_string(), JsonValue::Bool(false)),
        (
            "a".to_string(),
            JsonValue::Array(vec![JsonValue::Null, JsonValue::String("x".to_string())]),
        ),
    ]);
    let find = |path: &str| resolve(&data, &parse_path(path).expect("path")).map(to_compact);
    assert_eq!(find("$"), Some(r#"{"a":[null,"x"]}"#.to_string()));
    assert_eq!(find("$.a[1]"), Some(r#""x""#.to_string()));
    assert_eq!(find("$.a[2]"), None);
    assert_eq!(find("$.a.b"), None);
    assert_eq!(find("$[0]"), None);
}

#[test]
fn json_texts() {
    let value = JsonValue::Object(vec![
        ("n".to_string(), JsonValue::Number("1.50".to_string())),
        ("bad".to_string(), JsonValue::Number("one".to_string())),
        ("e".to_string(), JsonValue::Array(vec![])),
    ]);
    assert_eq!(to_compact(&value), r#"{"bad":null,"e":[],"n":1.5}"#);
    assert_eq!(
        to_pretty(&value),
        Some("{\n  \"bad\": null,\n  \"e\": [],\n  \"n\": 1.5\n}".to_string())
    );
    assert_eq!(to_compact(&JsonValue::Bool(true)), "true");
    assert_eq!(to_compact(&JsonValue::Bool(false)), "false");
    assert_eq!(to_compact(&JsonValue::String("a\"\n".to_string())), r#""a\"\n""#);
    let items = vec![value.clone(), JsonValue::Null];
    let copies = copy_items(&items);
    assert_eq!(copies.len(), 2);
    assert_eq!(to_compact(&copies[0]), to_compact(&items[0]));
}

#[test]
fn doubles_are_ordered_as_numbers() {
    let numbers = [
        f64::NEG_INFINITY,
        f64::MIN,
        -1.5,
        -f64::MIN_POSITIVE,
        -5e-324,
        -0.0,
        0.0,
        5e-324,
        f64::MIN_POSITIVE,
        1.0,
        1.0 + f64::EPSILON,
        1e308,
        f64::MAX,
        f64::INFINITY,
        f64::NAN,
        -f64::NAN,
    ];
    for a in numbers {
        for b in numbers {
            let expected = a.partial_cmp(&b).map(|o| match o {
                std::cmp::Ordering::Less => Order::Less,
                std::cmp::Ordering::Equal => Order::Equal,
                std::cmp::Ordering::Greater => Order::Greater,
            });
            assert_eq!(double(a).order(&double(b)), expected, "{} {}", a, b);
            assert_eq!(double(a).equals(&double(b)), a == b, "{} {}", a, b);
        }
    }
}

#[test]
fn readings_keep_the_last_record() {
    let mut readings = NumberReadings::new();
    assert!(readings.get("1").is_none());
    readings.record("1".to_string(), double(2.0));
    readings.record("x".to_string(), double(3.0));
    readings.record("1".to_string(), double(1.0));
    assert_eq!(readings.get("1").map(|d| d.bits), Some(1.0f64.to_bits()));
    assert_eq!(readings.get("x").map(|d| d.bits), Some(3.0f64.to_bits()));
    assert!(readings.get("").is_none());
}

#[test]
fn white_space_is_that_of_unicode() {
    for c in '\u{0}'..=char::MAX {
        let s = format!("{}x{}", c, c);
        assert_eq!(trim_text(&s), s.trim());
    }
}

#[test]
fn texts() {
    assert_eq!(trim_text("\u{2003} a b\t\n"), "a b");
    assert_eq!(trim_text(" \u{200b} "), "\u{200b}");
    assert_eq!(unquote(&to_chars("'\"a'b\"")), ['a', '\'', 'b']);
    assert_eq!(to_ascii_lower(&to_chars("AZ[\u{c9}")), ['a', 'z', '[', '\u{c9}']);
    assert!(contains_text("abc", ""));
    assert!(contains_text("aab", "ab"));
    assert!(!contains_text("ab", "abc"));
    assert!(same_text("\u{e9}", "\u{e9}"));
    assert!(!same_text("e\u{301}", "\u{e9}"));
    assert_eq!(order_text("\u{ffff}", "\u{10000}"), Order::Less);
    assert_eq!("\u{ffff}".cmp("\u{10000}"), std::cmp::Ordering::Less);
    assert_eq!(order_text("b", "abc"), Order::Greater);
    let mut out = "n=".to_string();
    push_decimal(&mut out, 0);
    push_decimal(&mut out, u64::MAX);
    assert_eq!(out, "n=018446744073709551615");
    assert_eq!(to_hex(&[0, 10, 255]), "000aff");
    assert_eq!(join(&vec!["a".to_string(), "".to_string(), "b".to_string()], ", "), "a, , b");
    assert_eq!(join(&vec![], ","), "");
    assert_eq!(read_index(&to_chars("007")), Some(7));
    assert_eq!(read_index(&to_chars("")), None);
    assert_eq!(read_index(&to_chars("+")), None);
    assert_eq!(read_index(&to_chars("1a")), None);
}
