use holo_proxy::json::Json;
use holo_proxy::recovery::{
    answer_of, build_recovery_args, hardcoded_checks, judge, judge_request, keyword_in,
    pick_answer, pick_recovery_tool, reason_of_answer, should_recover_async, shown_part, Inquiry,
    JudgeReply, SendFailure,
};
use holo_proxy::tools::ToolTable;
use holo_proxy::types::{LLMConfig, ToolDef};
use holo_proxy::upstream::failure_message;

fn config() -> LLMConfig {
    LLMConfig {
        base_url: "http://localhost:8000/v1/".into(),
        model_name: "judge".into(),
        context_max_length: "200k".into(),
        verify_ssl: true,
        api_key: "key".into(),
        auth_header: "Authorization".into(),
        auth_prefix: "Bearer ".into(),
        supports_native_function_calling: true,
        supports_reasoning_content: false,
        thinking: true,
        reasoning_effort: "max".into(),
        stream: true,
    }
}

fn tool(name: &str, schema: &str) -> ToolDef {
    ToolDef { name: name.into(), description: None, input_schema: Json::parse(schema) }
}

fn picked(tools: Vec<ToolDef>) -> Option<(String, String)> {
    pick_recovery_tool(&ToolTable::of(&tools)).map(|(n, a)| (n, a.text))
}

const FAKE: &str = r#"{"command":"echo \"Fake tool calling ...\" && pwd && ls -la || cd && dir"}"#;

#[test]
fn test_should_recover_length() {
    assert!(hardcoded_checks("some text", "length").is_some());
}

#[test]
fn test_prevent_infinite_loop() {
    assert!(hardcoded_checks("[holoProxy Recovery] some text", "stop").is_none());
}

#[test]
fn test_empty_text_recovery() {
    assert!(hardcoded_checks("", "stop").is_some());
    assert!(hardcoded_checks(" \n\t ", "stop").is_some());
}

#[test]
fn test_api_error_intercept() {
    assert!(hardcoded_checks("API Error: The operation timed out.", "stop").is_some());
    assert!(hardcoded_checks("API Error: API returned an empty or malformed response (HTTP 200)", "stop").is_some());
    assert!(hardcoded_checks("Some normal text. API Error occurred.", "stop").is_some());
    assert!(hardcoded_checks("502 Bad Gateway", "stop").is_some());
    assert!(hardcoded_checks("Connection refused", "stop").is_some());
    assert!(hardcoded_checks("Internal Server Error", "stop").is_some());
}

#[test]
fn reasons_in_words() {
    assert_eq!(hardcoded_checks("x", "length").unwrap(), "stop_reason=length");
    assert_eq!(hardcoded_checks("[holoProxy Error] x", "length").unwrap(), "stop_reason=length");
    assert!(hardcoded_checks("[holoProxy Error] 502", "stop").is_none());
    assert_eq!(
        hardcoded_checks("NETWORK ERROR, GATEWAY", "stop").unwrap(),
        "detected API error keyword: gateway"
    );
    assert_eq!(hardcoded_checks("\u{3000}", "stop").unwrap(), "empty or whitespace-only text");
    assert!(hardcoded_checks("All done.", "stop").is_none());
    assert_eq!(keyword_in("a connection reset").unwrap(), "connection");
    assert!(keyword_in("fine").is_none());
}

#[test]
fn a_long_reply_is_shown_from_its_end() {
    assert_eq!(shown_part("short"), "short");
    let long = format!("{}{}", "a".repeat(10), "b".repeat(2000));
    assert_eq!(
        shown_part(&long),
        format!("... [truncated, showing last 2000 bytes] ...\n{}", "b".repeat(2000))
    );
    // 700 characters of three bytes: the cut falls inside one, which goes.
    let wide = "界".repeat(700);
    assert_eq!(
        shown_part(&wide),
        format!("... [truncated, showing last 2000 bytes] ...\n{}", "界".repeat(666))
    );
}

#[test]
fn the_question_to_the_judge() {
    let q = judge_request("say \"x\"", &config());
    assert_eq!(q.url, "http://localhost:8000/v1/chat/completions");
    assert_eq!(q.auth_header, "Authorization");
    assert_eq!(q.auth_value, "Bearer key");
    let body: serde_json::Value = serde_json::from_str(&q.body.text).unwrap();
    assert_eq!(body.to_string(), q.body.text);
    assert_eq!(body["model"], "judge");
    assert_eq!(body["max_tokens"], 10);
    assert_eq!(body["temperature"], 0.0);
    assert_eq!(body["stream"], false);
    assert_eq!(body["messages"][0]["role"], "system");
    assert!(body["messages"][0]["content"].as_str().unwrap().ends_with("just the word."));
    assert_eq!(body["messages"][1]["role"], "user");
    assert_eq!(
        body["messages"][1]["content"],
        "Analyze this assistant output:\n\nsay \"x\""
    );
}

#[test]
fn where_the_answer_stands() {
    let answer = |t: &str| answer_of(&Json::parse(t).unwrap());
    assert_eq!(answer(r#"{"choices":[{"message":{"content":" COMPLETE\n"}}]}"#), "COMPLETE");
    assert_eq!(answer(r#"{"choices":[{"message":{"content":{"text":"a"}}}]}"#), "a");
    assert_eq!(answer(r#"{"choices":[{"message":{"content":null},"text":"b"}]}"#), "b");
    assert_eq!(answer(r#"{"choices":[]}"#), "");
    assert_eq!(answer("5"), "");
    assert_eq!(pick_answer(None, Some(" n ".into()), Some("p".into())), "n");
    assert_eq!(pick_answer(None, None, None), "");
}

#[test]
fn verdicts() {
    let verdict = |t: &str| judge(&JudgeReply::Answer(Json::parse(t).unwrap()));
    assert_eq!(
        verdict(r#"{"choices":[{"message":{"content":"Incomplete"}}]}"#).unwrap(),
        "LLM judged as INCOMPLETE: Incomplete"
    );
    assert!(verdict(r#"{"choices":[{"message":{"content":"COMPLETE"}}]}"#).is_none());
    assert_eq!(
        verdict(r#"{"choices":[{"message":{"content":"maybe"}}]}"#).unwrap(),
        "LLM response unrecognizable: maybe, conservative recovery"
    );
    assert_eq!(verdict("{}").unwrap(), "LLM returned empty content, conservative recovery");
    assert!(reason_of_answer("Complete", "complete").is_none());
}

#[test]
fn a_judge_that_does_not_answer() {
    assert_eq!(
        judge(&JudgeReply::Failed(SendFailure::Timeout)).unwrap(),
        "LLM request failed (timeout), conservative recovery"
    );
    assert_eq!(
        judge(&JudgeReply::Failed(SendFailure::Connect)).unwrap(),
        "LLM request failed (connect_error), conservative recovery"
    );
    assert_eq!(
        judge(&JudgeReply::Failed(SendFailure::Request)).unwrap(),
        "LLM request failed (request_error), conservative recovery"
    );
    assert_eq!(
        judge(&JudgeReply::Failed(SendFailure::Other)).unwrap(),
        "LLM request failed (other), conservative recovery"
    );
    assert_eq!(
        judge(&JudgeReply::Refused("500 Internal Server Error".into())).unwrap(),
        "LLM API returned non-success status 500 Internal Server Error, conservative recovery"
    );
    assert_eq!(
        judge(&JudgeReply::Unreadable("eof".into())).unwrap(),
        "LLM response parse failed: eof, conservative recovery"
    );
}

#[test]
fn deciding_with_and_without_a_model() {
    match should_recover_async("fine", "length", &None) {
        Inquiry::Settled(Some(r)) => assert_eq!(r, "stop_reason=length"),
        _ => panic!("settled"),
    }
    match should_recover_async("fine", "stop", &None) {
        Inquiry::Settled(Some(r)) => assert_eq!(r, "no active LLM config, conservative recovery"),
        _ => panic!("settled"),
    }
    match should_recover_async("fine", "stop", &Some(config())) {
        Inquiry::Ask(q) => assert_eq!(q.auth_value, "Bearer key"),
        _ => panic!("asked"),
    }
}

#[test]
fn which_tool_a_recovery_calls() {
    assert!(picked(vec![]).is_none());
    let bash = tool("Bash", r#"{"properties":{"command":{}}}"#);
    let read = tool("Read", r#"{"properties":{"path":{}}}"#);
    assert_eq!(picked(vec![read.clone(), bash]).unwrap(), ("Bash".into(), FAKE.into()));
    let runner = tool("Runner", r#"{"properties":{"command":{},"x":{}}}"#);
    assert_eq!(picked(vec![read.clone(), runner]).unwrap(), ("Runner".into(), FAKE.into()));
    assert_eq!(picked(vec![read]).unwrap(), ("Read".into(), r#"{"path":"./"}"#.into()));
}

#[test]
fn arguments_of_a_recovery() {
    let args = |keys: &[&str]| {
        let v = keys.iter().map(|k| (k.to_string(), "{}".to_string())).collect();
        build_recovery_args(&Some(v)).text
    };
    assert_eq!(args(&["a", "command"]), FAKE);
    assert_eq!(args(&["query"]), r#"{"query":"*"}"#);
    assert_eq!(args(&["b", "c"]), r#"{"b":"echo recovery"}"#);
    assert_eq!(args(&[]), "{}");
    assert_eq!(build_recovery_args(&None).text, "{}");
}

#[test]
fn what_the_proxy_itself_says_is_not_recovered() {
    let note = "Half a sent[holoProxy Recovery Injected]";
    assert!(hardcoded_checks(note, "stop").is_none());
    assert!(hardcoded_checks(&failure_message("connection refused"), "stop").is_none());
    assert!(hardcoded_checks(note, "length").is_some());
    for marked in [note, "[holoProxy Error] x"] {
        assert!(matches!(should_recover_async(marked, "stop", &None), Inquiry::Settled(None)));
        assert!(matches!(
            should_recover_async(marked, "stop", &Some(config())),
            Inquiry::Settled(None)
        ));
        assert!(matches!(
            should_recover_async(marked, "length", &None),
            Inquiry::Settled(Some(_))
        ));
    }
}
