use holo_proxy::json::{array_of, object_of, object_with, set_member, Json};
use holo_proxy::text::{
    byte_length, count_covering, count_within, decimal_text, find_text, find_text_lower, join,
    same_text_ignoring_case, split_ready, stripped_end, trimmed, with_char_removed,
    with_char_swapped,
};
use holo_proxy::tools::ToolTable;
use holo_proxy::types::ToolDef;

#[test]
fn bytes_and_characters() {
    assert_eq!(byte_length("aé界😀"), 10);
    assert_eq!(count_within("aé界😀", 3), 2);
    assert_eq!(count_within("aé界😀", 5), 2);
    assert_eq!(count_within("aé界😀", 6), 3);
    assert_eq!(count_covering("aé界😀", 4), 3);
    assert_eq!(count_covering("aé界😀", 3), 2);
    assert_eq!(count_covering("ab", 9), 2);
}

#[test]
fn searching() {
    assert_eq!(find_text("a界b界", "界"), Some(1));
    assert_eq!(find_text("abc", ""), Some(0));
    assert_eq!(find_text("abc", "d"), None);
    assert_eq!(find_text_lower("xABy", "ab"), Some(1));
    assert_eq!(find_text_lower("xy", "ab"), None);
    assert!(same_text_ignoring_case("BaSh", "bash"));
    assert!(!same_text_ignoring_case("É", "é"));
}

#[test]
fn changing() {
    assert_eq!(trimmed(" \t\u{3000}a b\n"), "a b");
    assert_eq!(stripped_end("x//", '/'), "x");
    assert_eq!(with_char_swapped("a▁b", '▁', '_'), "a_b");
    assert_eq!(with_char_removed("-a-b-", '-'), "ab");
    assert_eq!(join(&vec!["a".into(), "b".into()], ", "), "a, b");
    assert_eq!(decimal_text(0), "0");
    assert_eq!(decimal_text(u64::MAX), "18446744073709551615");
}

#[test]
fn complete_lines_and_the_rest() {
    let (lines, rest) = split_ready("a\n\nb\nc");
    assert_eq!(lines, vec!["a", "", "b"]);
    assert_eq!(rest, "c");
    let (lines, rest) = split_ready("none");
    assert!(lines.is_empty());
    assert_eq!(rest, "none");
}

#[test]
fn json_in_and_out() {
    let j = Json::parse(" { \"b\" : [1, 2.50, null], \"a\" : \"x\\n\" } ").unwrap();
    assert_eq!(j.text, r#"{"a":"x\n","b":[1,2.5,null]}"#);
    assert_eq!(j.get_str("a").unwrap(), "x\n");
    assert_eq!(j.get("b").unwrap().items().unwrap(), vec!["1", "2.5", "null"]);
    assert_eq!(j.get("b").unwrap().first_item().unwrap().text, "1");
    assert!(j.has("b") && !j.has("c"));
    assert!(j.items().is_none());
    assert!(j.as_str().is_none());
    assert!(Json::parse("{").is_none());
    let mut m = vec![];
    for (k, v) in [("b", "1"), ("a", "2"), ("c", "3"), ("b", "4"), ("ab", "5")] {
        set_member(&mut m, k.to_string(), v.to_string());
    }
    assert_eq!(object_of(&m).text, r#"{"a":2,"ab":5,"b":4,"c":3}"#);
    assert_eq!(array_of(&vec!["1".into(), "{}".into()]).text, "[1,{}]");
    assert_eq!(object_with("k\"", "\u{1}\u{8}\u{c}\r\t\\é").text, "{\"k\\\"\":\"\\u0001\\b\\f\\r\\t\\\\é\"}");
}

#[test]
fn a_table_of_tools() {
    let tool = |name: &str, schema: &str| ToolDef {
        name: name.into(),
        description: None,
        input_schema: Json::parse(schema),
    };
    let mut t = ToolTable::of(&vec![
        tool("a", r#"{"properties":{"x":1}}"#),
        tool("b", "{}"),
        tool("a", r#"{"properties":{"y":1,"z":2}}"#),
    ]);
    assert_eq!(t.len(), 2);
    assert_eq!(t.name_at(0), "a");
    assert_eq!(t.properties_at(0).unwrap().len(), 2);
    assert!(t.properties_at(1).is_none());
    assert_eq!(t.position("b"), Some(1));
    assert!(!t.contains("c"));
    t.insert("c".into(), tool("c", "{}"));
    assert!(t.contains("c"));
    assert!(ToolTable::new().is_empty());
}
