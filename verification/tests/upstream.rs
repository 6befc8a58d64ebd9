use holo_proxy::json::Json;
use holo_proxy::types::{
    AnthropicContent, AnthropicMessage, AnthropicRequest, LLMConfig, ToolDef,
};
use holo_proxy::upstream::{
    after_attempt, api_url, auth_header_for, authorization, configure, failure_message, is_live,
    is_success, message_id_at, prepare_message_body, prepare_messages, prepare_raw_body,
    raw_failure_message, NextStep, Outcome, MAX_RETRIES,
};

fn config() -> LLMConfig {
    LLMConfig {
        base_url: "http://x/v1".into(),
        model_name: "m".into(),
        context_max_length: "200k".into(),
        verify_ssl: true,
        api_key: "key".into(),
        auth_header: "X-Auth".into(),
        auth_prefix: "Token ".into(),
        supports_native_function_calling: true,
        supports_reasoning_content: false,
        thinking: true,
        reasoning_effort: "low".into(),
        stream: false,
    }
}

#[test]
fn addresses() {
    assert_eq!(api_url("http://x/v1"), "http://x/v1/chat/completions");
    assert_eq!(api_url("http://x/v1//"), "http://x/v1/chat/completions");
    assert_eq!(api_url("http://x/chat/completions/"), "http://x/chat/completions");
    assert_eq!(api_url(""), "/chat/completions");
}

#[test]
fn the_authorization_header() {
    let mut c = config();
    assert_eq!(authorization(&c).unwrap(), ("X-Auth".to_string(), "Token key".to_string()));
    c.api_key = "None".into();
    assert!(authorization(&c).is_none());
    c.api_key = String::new();
    assert!(authorization(&c).is_none());
    c.api_key = "KEY".into();
    assert_eq!(auth_header_for(&c, "key").unwrap().1, "Token KEY");
    assert!(auth_header_for(&c, "none").is_none());
}

#[test]
fn what_the_configuration_adds_to_a_request() {
    let body = Json::parse(r#"{"z":1,"stream":true,"model":"other"}"#).unwrap();
    let mut c = config();
    assert_eq!(
        prepare_message_body(&body, &c).text,
        r#"{"chat_template_kwargs":{"reasoning_effort":"low","thinking":true},"model":"other","stream":false,"z":1}"#
    );
    assert_eq!(
        prepare_raw_body(&body, &c).text,
        r#"{"chat_template_kwargs":{"reasoning_effort":"low","thinking":true},"model":"m","stream":false,"z":1}"#
    );
    c.thinking = false;
    assert_eq!(prepare_message_body(&body, &c).text, r#"{"model":"other","stream":false,"z":1}"#);
    assert_eq!(prepare_raw_body(&body, &c).text, r#"{"model":"m","stream":false,"z":1}"#);
    let list = Json::parse("[1]").unwrap();
    assert_eq!(prepare_raw_body(&list, &c).text, "[1]");
    let mut members = vec![];
    configure(&mut members, &c);
    assert_eq!(members, vec![("stream".to_string(), "false".to_string())]);
}

#[test]
fn a_request_made_ready() {
    let mut req = AnthropicRequest {
        model: "sonnet".into(),
        messages: vec![],
        system: None,
        tools: vec![
            ToolDef { name: "A".into(), description: None, input_schema: None },
            ToolDef { name: "A".into(), description: Some("later".into()), input_schema: None },
        ],
        stream: true,
        max_tokens: None,
        temperature: None,
        top_p: None,
        stop_sequences: None,
    };
    for i in 0..10 {
        req.messages.push(AnthropicMessage {
            role: "user".into(),
            content: AnthropicContent::String(format!("message {}", i)),
        });
    }
    let mut c = config();
    let p = prepare_messages(&req, &c);
    assert!(p.is_agent_mode);
    assert_eq!(p.tools.len(), 1);
    assert_eq!(p.request.messages.len(), 10);
    assert_eq!(p.request.model, "m");
    assert_eq!(p.url, "http://x/v1/chat/completions");
    assert_eq!(p.timeout_secs, 60);
    c.context_max_length = "10".into();
    req.tools.clear();
    let p = prepare_messages(&req, &c);
    assert!(!p.is_agent_mode);
    assert_eq!(p.request.messages.len(), 2);
    assert_eq!(p.request.messages[1].content.as_deref(), Some("message 9"));
}

#[test]
fn message_identifiers() {
    assert_eq!(message_id_at(0), "msg_0");
    assert_eq!(message_id_at(1700000000), "msg_1700000000");
    assert_eq!(message_id_at(-12), "msg_-12");
    assert_eq!(message_id_at(i64::MIN), "msg_-9223372036854775808");
}

#[test]
fn connections_live_five_minutes() {
    assert!(is_live(299));
    assert!(!is_live(300));
}

#[test]
fn statuses_of_success() {
    assert!(!is_success(199));
    assert!(is_success(200));
    assert!(is_success(299));
    assert!(!is_success(300));
    assert!(!is_success(503));
}

fn given_up(o: Outcome) -> String {
    match after_attempt(MAX_RETRIES, &o, 60) {
        NextStep::GiveUp(e) => e,
        _ => panic!("given up"),
    }
}

#[test]
fn attempts_are_repeated_until_the_last() {
    assert!(matches!(after_attempt(1, &Outcome::Delivered, 60), NextStep::Finished));
    assert!(matches!(after_attempt(3, &Outcome::Delivered, 60), NextStep::Finished));
    assert!(matches!(after_attempt(1, &Outcome::Empty, 60), NextStep::Retry(2)));
    assert!(matches!(after_attempt(2, &Outcome::TimedOut, 60), NextStep::Retry(3)));
    assert_eq!(given_up(Outcome::Empty), "empty response");
    assert_eq!(given_up(Outcome::Refused(503)), "empty response");
    assert_eq!(given_up(Outcome::Failed("no route".into())), "no route");
    assert_eq!(given_up(Outcome::TimedOut), "timeout 60s");
}

#[test]
fn what_a_client_is_told_of_an_error() {
    assert_eq!(failure_message("x"), "[holoProxy Error] 下游 LLM 连接失败 (已重试3次): x");
    assert_eq!(
        raw_failure_message("x"),
        "data: [ERROR] downstream unavailable after 3 retries: x\n\n"
    );
}
