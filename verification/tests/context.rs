use holo_proxy::context::{
    calc_timeout_secs, context_length_of, estimate_single_msg_tokens, estimate_token_count,
    estimate_tokens, parse_context_length, should_trim, trim_messages,
};
use holo_proxy::types::{OpenAIFunctionCall, OpenAIMessage, OpenAIToolCall};

fn message(role: &str, content: &str) -> OpenAIMessage {
    OpenAIMessage {
        role: role.into(),
        content: Some(content.into()),
        tool_calls: None,
        tool_call_id: None,
    }
}

fn contents(messages: &[OpenAIMessage]) -> Vec<String> {
    messages.iter().map(|m| m.content.clone().unwrap()).collect()
}

#[test]
fn test_estimate_tokens() {
    assert_eq!(estimate_tokens("hello world!"), 3);
    assert_eq!(estimate_tokens("你好世界啊"), 6);
}

#[test]
fn test_trim_optimization() {
    let mut msgs = vec![OpenAIMessage {
        role: "system".into(),
        content: Some("sys".into()),
        tool_calls: None,
        tool_call_id: None,
    }];
    for _ in 0..100 {
        msgs.push(OpenAIMessage {
            role: "user".into(),
            content: Some("a".repeat(100)),
            tool_calls: None,
            tool_call_id: None,
        });
    }
    trim_messages(&mut msgs, 600);
    assert_eq!(msgs[0].role, "system");
    assert!(msgs.len() < 100);
}

#[test]
fn a_text_has_at_least_one_token() {
    assert_eq!(estimate_tokens(""), 1);
    assert_eq!(estimate_tokens("a"), 1);
    assert_eq!(estimate_tokens("abcde"), 2);
    assert_eq!(estimate_tokens("你"), 2);
    assert_eq!(estimate_tokens("a你"), 2);
}

#[test]
fn a_message_counts_its_content_its_calls_and_its_overhead() {
    let mut m = message("assistant", "hello world!");
    assert_eq!(estimate_single_msg_tokens(&m), 7);
    m.tool_calls = Some(vec![OpenAIToolCall {
        id: "1".into(),
        call_type: "function".into(),
        function: OpenAIFunctionCall { name: "Bash".into(), arguments: "{\"a\":\"b\"}".into() },
    }]);
    assert_eq!(estimate_single_msg_tokens(&m), 7 + 1 + 3);
    m.content = None;
    assert_eq!(estimate_single_msg_tokens(&m), 4 + 1 + 3);
    assert_eq!(estimate_token_count(&vec![message("user", "hello world!"), m]), 7 + 8);
    assert_eq!(estimate_token_count(&vec![]), 0);
}

#[test]
fn context_lengths_in_millions_thousands_and_plain() {
    assert_eq!(parse_context_length("200k"), 200_000);
    assert_eq!(parse_context_length("1m"), 1_000_000);
    assert_eq!(parse_context_length(" 1.5M "), 1_500_000);
    assert_eq!(parse_context_length("0.5k"), 500);
    assert_eq!(parse_context_length("128000"), 128_000);
    assert_eq!(parse_context_length("+7"), 7);
    assert_eq!(parse_context_length("2e2k"), 200_000);
    assert_eq!(parse_context_length(".5m"), 500_000);
    assert_eq!(parse_context_length("5.k"), 5_000);
    assert_eq!(parse_context_length("12345e-3k"), 12_345);
    assert_eq!(parse_context_length("0.0005m"), 500);
}

#[test]
fn context_lengths_that_cannot_be_read() {
    assert_eq!(parse_context_length(""), 200_000);
    assert_eq!(parse_context_length("m"), 200_000);
    assert_eq!(parse_context_length("abck"), 200_000);
    assert_eq!(parse_context_length(".k"), 200_000);
    assert_eq!(parse_context_length("1e k"), 200_000);
    assert_eq!(parse_context_length("-5"), 200_000);
    assert_eq!(parse_context_length("99999999999999999999999999"), 200_000);
    assert_eq!(parse_context_length("1.5"), 200_000);
}

#[test]
fn context_lengths_out_of_range() {
    assert_eq!(context_length_of("-1k"), 0);
    assert_eq!(context_length_of("infm"), usize::MAX);
    assert_eq!(context_length_of("-infinityk"), 0);
    assert_eq!(context_length_of("nank"), 0);
    assert_eq!(context_length_of("1e99k"), usize::MAX);
    assert_eq!(context_length_of("1e9999999999999999999999999999999999999999k"), usize::MAX);
    assert_eq!(context_length_of("1e-9999999999999999999999999999999999999999k"), 0);
    assert_eq!(context_length_of("0e9999999999999999999999999999999999999999k"), 0);
}

#[test]
fn timeouts_grow_with_the_request() {
    assert_eq!(calc_timeout_secs(0), 60);
    assert_eq!(calc_timeout_secs(200_000), 60);
    assert_eq!(calc_timeout_secs(400_000), 120);
    assert_eq!(calc_timeout_secs(1_000_000), 300);
}

#[test]
fn trimming_is_due_above_four_fifths() {
    let m = vec![message("user", "hello world!")];
    assert!(!should_trim(&m, 10));
    assert!(should_trim(&m, 8));
}

#[test]
fn trimming_keeps_the_system_and_the_last_two() {
    let mut m = vec![
        message("system", "s"),
        message("user", "one"),
        message("assistant", "two"),
        message("user", "three"),
        message("assistant", "four"),
        message("user", "five"),
    ];
    trim_messages(&mut m, 0);
    assert_eq!(contents(&m), vec!["s", "four", "five"]);
}

#[test]
fn trimming_stops_when_the_rest_fits() {
    // Each message counts 5 or 6: the system 5, "one" 5, "two" 5, "three" 6, "four" 5, "five" 5.
    let mut m = vec![
        message("system", "s"),
        message("user", "one"),
        message("assistant", "two"),
        message("user", "three"),
        message("assistant", "four"),
        message("user", "five"),
    ];
    assert_eq!(estimate_token_count(&m), 31);
    // The limit is 24: without "one" 26 are left, without "two" as well 21.
    trim_messages(&mut m, 30);
    assert_eq!(contents(&m), vec!["s", "three", "four", "five"]);
    assert_eq!(estimate_token_count(&m), 21);
    trim_messages(&mut m, 30);
    assert_eq!(m.len(), 4);
    // What fits stays as it is.
    trim_messages(&mut m, 27);
    assert_eq!(m.len(), 4);
}

#[test]
fn trimming_without_a_system_message() {
    let mut m = vec![message("user", "one"), message("user", "two"), message("user", "three")];
    trim_messages(&mut m, 0);
    assert_eq!(contents(&m), vec!["two", "three"]);
    trim_messages(&mut m, 0);
    assert_eq!(contents(&m), vec!["two", "three"]);
}
