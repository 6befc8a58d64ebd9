use holo_proxy::fallback::{
    args_of_content, args_value_of, call_of_elements, first_brace_block, first_value_of,
    gen_tool_id, parse_fallback_tool, tool_id_of,
};
use holo_proxy::json::Json;
use holo_proxy::tools::ToolTable;
use holo_proxy::types::ToolDef;

fn bash() -> ToolTable {
    ToolTable::of(&vec![ToolDef {
        name: "Bash".into(),
        description: Some("Run commands".into()),
        input_schema: Json::parse(r#"{"properties": {"command": {"type": "string"}}}"#),
    }])
}

fn call(t: &str, tools: &ToolTable) -> (String, String) {
    let (name, args) = parse_fallback_tool(t, tools);
    (name, args.text)
}

fn pair(name: &str, args: &str) -> (String, String) {
    (name.to_string(), args.to_string())
}

#[test]
fn test_parse_fallback_tool_json_block() {
    let valid_tools = ToolTable::new();
    let input = r#"{"name": "Bash", "arguments": {"command": "ls"}}"#;
    let (name, args) = parse_fallback_tool(input, &valid_tools);
    assert_eq!(name, "Bash");
    assert_eq!(args.get("command").unwrap().as_str().unwrap(), "ls");
}

#[test]
fn test_parse_fallback_tool_xml() {
    let valid_tools = bash();
    let input = "<tool_call>\n{\"name\": \"Bash\", \"arguments\": {\"command\": \"ls -la\"}}\n</tool_call>";
    let (name, _args) = parse_fallback_tool(input, &valid_tools);
    assert_eq!(name, "Bash");
}

#[test]
fn test_parse_fallback_tool_dsml() {
    let valid_tools = bash();
    let input = "<｜tool▁call▁begin｜>function<｜tool▁sep｜>Bash<｜tool▁call▁argument▁begin｜>{\"command\":\"ls -la\"}<｜tool▁call▁end｜>";
    let (name, args) = parse_fallback_tool(input, &valid_tools);
    assert_eq!(name, "Bash");
    assert_eq!(args.get("command").unwrap().as_str().unwrap(), "ls -la");
}

#[test]
fn test_parse_fallback_tool_dsml_case_insensitive() {
    let valid_tools = bash();
    let input = "<｜tool▁call▁begin｜>function<｜tool▁sep｜>bash<｜tool▁call▁argument▁begin｜>{\"command\":\"ls\"}<｜tool▁call▁end｜>";
    let (name, _args) = parse_fallback_tool(input, &valid_tools);
    assert_eq!(name, "Bash");
}

#[test]
fn test_gen_tool_id() {
    let id = gen_tool_id();
    assert!(id.starts_with("toolu_"));
    assert_eq!(id.len(), 30);
}

#[test]
fn identifiers_are_hexadecimal_and_differ() {
    let id = gen_tool_id();
    assert!(id[6..].chars().all(|c| c.is_ascii_hexdigit() && !c.is_ascii_uppercase()));
    assert_ne!(gen_tool_id(), id);
    assert_eq!(
        tool_id_of("01234567-89ab-4def-8123-456789abcdef"),
        "toolu_0123456789ab4def81234567"
    );
}

#[test]
fn raw_calls_with_wrapped_arguments() {
    let raw = |args: &str| {
        format!("<｜tool_sep｜>bash<｜tool_call_argument_begin｜>{}<｜tool_call_end｜>rest", args)
    };
    assert_eq!(call(&raw("```json\n{\"a\":{\"b\":1}}\n```"), &bash()), pair("Bash", r#"{"a":{"b":1}}"#));
    assert_eq!(call(&raw("nothing"), &bash()), pair("Bash", "{}"));
    assert_eq!(call(&raw("[ 1, 2 ]"), &ToolTable::new()), pair("bash", "[1,2]"));
    let open = "<｜tool_sep｜>x<｜tool_call_argument_begin｜> {\"a\":1}";
    assert_eq!(call(open, &bash()), pair("x", r#"{"a":1}"#));
}

#[test]
fn invoke_elements() {
    let t = "text <INVOKE name=\"Bash\"><parameter name=\"command\"> dir </Parameter>\
             <parameter name=\"a b\" x=\"y\">1</parameter><parameter name=\"\">no</parameter>\
             <parameter name=\"c\"></parameter></invoke><parameter name=\"late\">x</parameter>";
    assert_eq!(call(t, &ToolTable::new()), pair("Bash", r#"{"a b":"1","command":"dir"}"#));
    let twice = "<invoke name=\"X\"><parameter name=\"p\">1</parameter><parameter name=\"p\">2</parameter>";
    assert_eq!(call(twice, &ToolTable::new()), pair("X", r#"{"p":"2"}"#));
    let broken = "<invoke name=\"X\"><parameter ><parameter name=\"p\">1</parameter>";
    assert_eq!(call(broken, &ToolTable::new()), pair("X", r#"{"p":"1"}"#));
    let open = "<invoke name=\"X\"><parameter name=\"p\">all the rest";
    assert_eq!(call(open, &ToolTable::new()), pair("X", r#"{"p":"all the rest"}"#));
    assert_eq!(call("<invoke name=\"X\"></invoke>", &ToolTable::new()), pair("unknown", "{}"));
}

#[test]
fn dsml_elements() {
    let t = "<DSML｜tool_name｜> Bash </｜x><DSML｜tool_arguments｜>{\"command\": \"ls\"}</｜y>";
    assert_eq!(call(t, &ToolTable::new()), pair("Bash", r#"{"command":"ls"}"#));
    let name = call_of_elements(Some(" n ".into()), Json::parse("[1]")).unwrap();
    assert_eq!((name.0, name.1.text), pair("n", "[1]"));
    assert!(call_of_elements(None, Json::parse("1")).is_none());
    assert!(call_of_elements(Some("n".into()), None).is_none());
}

#[test]
fn json_blocks() {
    let t = "see {\"name\": \"X\", \"arguments\": [1, {\"a\": \"}\"}]} end";
    assert_eq!(first_brace_block("a {b{c}d} e}").unwrap(), "{b{c}d}");
    assert!(first_brace_block("a {b").is_none());
    assert!(first_brace_block("a } b").is_none());
    assert_eq!(first_brace_block("{\"a\\\"}\": 1} }").unwrap(), "{\"a\\\"}\": 1}");
    assert!(first_brace_block("{\"open}").is_none());
    assert_eq!(call(t, &ToolTable::new()), pair("X", r#"[1,{"a":"}"}]"#));
    let t = r#"{"name":"Bash","arguments":{"command":"echo }"}}"#;
    assert_eq!(call(t, &ToolTable::new()), pair("Bash", r#"{"command":"echo }"}"#));
    let t = "see {\"arguments\": null, \"name\": \"X\"}";
    assert_eq!(call(t, &ToolTable::new()), pair("X", "null"));
    assert_eq!(call("{\"name\": 1, \"arguments\": {}}", &ToolTable::new()), pair("unknown", "{}"));
    assert_eq!(args_value_of("x {\"a\": 1} y").text, r#"{"a":1}"#);
    assert_eq!(args_value_of("x").text, "{}");
    assert_eq!(first_value_of(None, Json::parse("2")).text, "2");
}

#[test]
fn elements_named_like_a_tool() {
    assert_eq!(call("<BASH x>ls -l</bash>", &bash()), pair("Bash", r#"{"command":"ls -l"}"#));
    assert_eq!(call("<bash>open end", &bash()), pair("Bash", r#"{"command":"open end"}"#));
    let dotted = ToolTable::of(&vec![ToolDef {
        name: "a.b".into(),
        description: None,
        input_schema: Json::parse(r#"{"properties": {"x": {}}}"#),
    }]);
    assert_eq!(call("<a.b>1</a.b>", &dotted), pair("a.b", r#"{"x":"1"}"#));
    assert_eq!(call("<axb>1</axb>", &dotted), pair("unknown", "{}"));
    let props = |keys: &[&str]| {
        Some(keys.iter().map(|k| (k.to_string(), "{}".to_string())).collect::<Vec<_>>())
    };
    assert_eq!(args_of_content(&props(&["x"]), "v").unwrap().text, r#"{"x":"v"}"#);
    assert_eq!(args_of_content(&props(&["command", "x"]), "v").unwrap().text, r#"{"command":"v"}"#);
    assert!(args_of_content(&props(&["x", "y"]), "v").is_none());
    assert!(args_of_content(&None, "v").is_none());
}
