use holo_proxy::converter::{
    clean_recovery_garbage, complete_schema, convert_message, convert_to_openai_req,
    parameters_of, sanitize_messages, tool_message_of,
};
use holo_proxy::json::Json;
use holo_proxy::types::{
    AnthropicContent, AnthropicMessage, AnthropicRequest, ContentBlock, FloatBits, LLMConfig,
    OpenAIMessage, SystemPrompt, TextBlock, ToolDef,
};

fn test_config() -> LLMConfig {
    LLMConfig {
        base_url: "http://localhost:8000/v1".into(),
        model_name: "test".into(),
        context_max_length: "200k".into(),
        verify_ssl: false,
        api_key: "none".into(),
        auth_header: "Authorization".into(),
        auth_prefix: "Bearer ".into(),
        supports_native_function_calling: false,
        supports_reasoning_content: false,
        thinking: true,
        reasoning_effort: "max".into(),
        stream: true,
    }
}

fn request(messages: Vec<AnthropicMessage>, tools: Vec<ToolDef>) -> AnthropicRequest {
    AnthropicRequest {
        model: "sonnet".into(),
        messages,
        system: None,
        tools,
        stream: true,
        max_tokens: None,
        temperature: None,
        top_p: None,
        stop_sequences: None,
    }
}

fn block(kind: &str) -> ContentBlock {
    ContentBlock {
        block_type: kind.into(),
        text: None,
        id: None,
        name: None,
        input: None,
        tool_use_id: None,
        content: None,
        is_error: None,
    }
}

fn text_block(t: &str) -> ContentBlock {
    let mut b = block("text");
    b.text = Some(t.into());
    b
}

fn json(t: &str) -> Json {
    Json::parse(t).unwrap()
}

fn converted(role: &str, blocks: Vec<ContentBlock>) -> Vec<OpenAIMessage> {
    let mut out = Vec::new();
    let m = AnthropicMessage { role: role.into(), content: AnthropicContent::Blocks(blocks) };
    convert_message(&m, &mut out);
    out
}

fn said(role: &str, t: &str) -> Vec<OpenAIMessage> {
    let mut out = Vec::new();
    let m = AnthropicMessage { role: role.into(), content: AnthropicContent::String(t.into()) };
    convert_message(&m, &mut out);
    out
}

#[test]
fn test_clean_recovery() {
    assert!(!clean_recovery_garbage("[holoProxy Recovery ...]").contains("[holoProxy"));
    assert_eq!(clean_recovery_garbage("normal"), "normal");
}

#[test]
fn test_convert_simple() {
    let req = AnthropicRequest {
        model: "sonnet".into(),
        messages: vec![AnthropicMessage {
            role: "user".into(),
            content: AnthropicContent::String("Hello".into()),
        }],
        system: Some(SystemPrompt::String("Be helpful.".into())),
        tools: vec![],
        stream: true,
        max_tokens: Some(1024),
        temperature: None,
        top_p: None,
        stop_sequences: None,
    };
    let oa = convert_to_openai_req(&req, &test_config());
    assert_eq!(oa.messages.len(), 2);
    assert_eq!(oa.messages[0].role, "system");
}

#[test]
fn test_tools_instruction() {
    let req = AnthropicRequest {
        model: "sonnet".into(),
        messages: vec![AnthropicMessage {
            role: "user".into(),
            content: AnthropicContent::String("Hi".into()),
        }],
        system: None,
        tools: vec![ToolDef {
            name: "Bash".into(),
            description: None,
            input_schema: Some(json(
                r#"{"type":"object","properties":{"command":{"type":"string"}}}"#,
            )),
        }],
        stream: true,
        max_tokens: None,
        temperature: None,
        top_p: None,
        stop_sequences: None,
    };
    let oa = convert_to_openai_req(&req, &test_config());
    assert!(oa.tools.is_some());
    assert!(oa.messages[0].content.as_ref().unwrap().contains("[Tools Instruction]"));
}

#[test]
fn cleaning_twice_is_cleaning_once() {
    let once = clean_recovery_garbage("before [holoProxy Recovery Injected] after");
    assert_eq!(once, "(Previous auto-recovery signal omitted to save context)");
    assert_eq!(clean_recovery_garbage(&once), once);
}

#[test]
fn the_request_keeps_its_limits() {
    let mut req = request(vec![], vec![]);
    req.max_tokens = Some(100_000);
    req.temperature = Some(FloatBits { bits: 0.5f32.to_bits() });
    req.stop_sequences = Some(vec!["a".into(), "b".into(), "c".into(), "d".into(), "e".into()]);
    let oa = convert_to_openai_req(&req, &test_config());
    assert_eq!(oa.model, "test");
    assert!(oa.stream);
    assert_eq!(oa.max_tokens, Some(8192));
    assert_eq!(oa.temperature.unwrap().bits, 0.5f32.to_bits());
    assert!(oa.top_p.is_none());
    assert_eq!(oa.stop.unwrap(), vec!["a", "b", "c", "d"]);
    assert!(oa.tools.is_none());
    assert!(oa.messages.is_empty());
    req.max_tokens = Some(1024);
    assert_eq!(convert_to_openai_req(&req, &test_config()).max_tokens, Some(1024));
}

#[test]
fn a_system_prompt_of_blocks_joins_its_texts() {
    let mut req = request(vec![], vec![]);
    req.system = Some(SystemPrompt::Blocks(vec![
        TextBlock { block_type: "text".into(), text: "one".into() },
        TextBlock { block_type: "image".into(), text: "x".into() },
        TextBlock { block_type: "text".into(), text: "two".into() },
    ]));
    let oa = convert_to_openai_req(&req, &test_config());
    assert_eq!(oa.messages.len(), 1);
    assert_eq!(oa.messages[0].content.as_deref(), Some("one two"));
}

#[test]
fn a_model_with_native_calls_is_not_instructed() {
    let tool = ToolDef { name: "Bash".into(), description: Some("runs".into()), input_schema: None };
    let req = request(vec![], vec![tool]);
    let mut config = test_config();
    config.supports_native_function_calling = true;
    let oa = convert_to_openai_req(&req, &config);
    assert!(oa.messages.is_empty());
    let tools = oa.tools.unwrap();
    assert_eq!(tools[0].tool_type, "function");
    assert_eq!(tools[0].function.name, "Bash");
    assert_eq!(tools[0].function.description, "runs");
    assert_eq!(tools[0].function.parameters.text, r#"{"properties":{},"type":"object"}"#);
}

#[test]
fn a_schema_keeps_what_it_has() {
    let schema = json(r#"{"type":"array","x":1}"#);
    assert_eq!(parameters_of(&Some(schema)).text, r#"{"properties":{},"type":"array","x":1}"#);
    assert_eq!(parameters_of(&Some(json("[1]"))).text, "[1]");
    let mut members = vec![("a".to_string(), "1".to_string()), ("z".to_string(), "2".to_string())];
    complete_schema(&mut members);
    let keys: Vec<&str> = members.iter().map(|m| m.0.as_str()).collect();
    assert_eq!(keys, vec!["a", "properties", "type", "z"]);
}

#[test]
fn texts_and_tool_results_of_the_user() {
    let mut result = block("tool_result");
    result.tool_use_id = Some("t1".into());
    result.content = Some(json(r#"[{"type":"text","text":"a"},{"type":"image"},{"text":"b"}]"#));
    let mut failed = block("tool_result");
    failed.is_error = Some(true);
    failed.content = Some(json(r#""oops""#));
    let out = converted(
        "user",
        vec![
            text_block("one"),
            text_block("two"),
            result,
            block("image"),
            failed,
            text_block("three"),
        ],
    );
    let seen: Vec<(&str, &str)> =
        out.iter().map(|m| (m.role.as_str(), m.content.as_deref().unwrap())).collect();
    assert_eq!(
        seen,
        vec![
            ("user", "one two"),
            ("tool", "a b"),
            ("tool", "Error: \"oops\""),
            ("user", "three"),
        ]
    );
    assert_eq!(out[1].tool_call_id.as_deref(), Some("t1"));
    assert_eq!(out[2].tool_call_id.as_deref(), Some("unknown"));
}

#[test]
fn an_empty_tool_result_says_so() {
    let m = tool_message_of(String::new(), None, &Some("x".into()));
    assert_eq!(m.content.as_deref(), Some("(empty tool result)"));
    assert_eq!(m.tool_call_id.as_deref(), Some("x"));
    let m = tool_message_of(String::new(), Some(true), &None);
    assert_eq!(m.content.as_deref(), Some("Error: "));
    assert_eq!(m.tool_call_id.as_deref(), Some("unknown"));
}

#[test]
fn texts_and_calls_of_the_assistant() {
    let mut call = block("tool_use");
    call.id = Some("c1".into());
    call.name = Some("Bash".into());
    call.input = Some(json(r#"{"command":"ls"}"#));
    let out = converted("assistant", vec![text_block("[holoProxy Recovery x]"), call]);
    assert_eq!(out.len(), 1);
    assert_eq!(
        out[0].content.as_deref(),
        Some("(Previous auto-recovery signal omitted to save context)")
    );
    let calls = out[0].tool_calls.as_ref().unwrap();
    assert_eq!(calls[0].id, "c1");
    assert_eq!(calls[0].call_type, "function");
    assert_eq!(calls[0].function.name, "Bash");
    assert_eq!(calls[0].function.arguments, r#"{"command":"ls"}"#);

    let out = converted("assistant", vec![block("tool_use")]);
    assert_eq!(out[0].content.as_deref(), Some(""));
    assert_eq!(out[0].tool_calls.as_ref().unwrap()[0].function.arguments, "{}");

    let out = converted("assistant", vec![text_block("")]);
    assert_eq!(out[0].content.as_deref(), Some("(empty)"));
    assert!(converted("assistant", vec![block("thinking")]).is_empty());
}

#[test]
fn messages_of_other_roles_and_plain_messages() {
    let out = converted("system", vec![text_block("a"), block("x"), text_block("b")]);
    assert_eq!(out[0].content.as_deref(), Some("a b"));
    let out = converted("system", vec![]);
    assert_eq!(out[0].content.as_deref(), Some("(empty)"));
    assert_eq!(said("user", "")[0].content.as_deref(), Some("(empty)"));
    assert_eq!(said("user", "[holoProxy Recovery")[0].content.as_deref(), Some("[holoProxy Recovery"));
    assert_eq!(
        said("assistant", "[holoProxy Recovery")[0].content.as_deref(),
        Some("(Previous auto-recovery signal omitted to save context)")
    );
}

#[test]
fn sanitizing_makes_messages_valid_and_is_done_once() {
    let bare = |role: &str, content: Option<&str>| OpenAIMessage {
        role: role.into(),
        content: content.map(|c| c.to_string()),
        tool_calls: None,
        tool_call_id: None,
    };
    let mut m = vec![
        bare("user", Some(" \n")),
        bare("system", None),
        bare("assistant", None),
        bare("assistant", Some("")),
        bare("tool", Some("\t")),
        bare("other", None),
        bare("user", Some("hi")),
    ];
    for _ in 0..2 {
        sanitize_messages(&mut m);
        let seen: Vec<Option<&str>> = m.iter().map(|x| x.content.as_deref()).collect();
        assert_eq!(
            seen,
            vec![
                Some("(empty)"),
                Some("(empty)"),
                Some("(empty)"),
                Some(""),
                Some("(empty tool result)"),
                None,
                Some("hi")
            ]
        );
        assert_eq!(m[4].tool_call_id.as_deref(), Some("unknown"));
    }
}
