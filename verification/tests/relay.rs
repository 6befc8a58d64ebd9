use holo_proxy::json::Json;
use holo_proxy::recovery::Inquiry;
use holo_proxy::relay::{read_line, MessageRelay, SseLine};
use holo_proxy::stream::StreamContext;
use holo_proxy::tools::ToolTable;
use holo_proxy::types::{
    OpenAIChoice, OpenAIDelta, OpenAIFunctionDelta, OpenAISseChunk, OpenAIToolCallDelta, ToolDef,
};

fn relay(tools: Vec<ToolDef>) -> MessageRelay {
    MessageRelay::new(StreamContext::new(
        "msg_1".into(),
        "m".into(),
        !tools.is_empty(),
        ToolTable::of(&tools),
    ))
}

fn delta() -> OpenAIDelta {
    OpenAIDelta { content: None, reasoning: None, reasoning_content: None, tool_calls: None }
}

fn chunk(d: OpenAIDelta, finish_reason: Option<&str>) -> OpenAISseChunk {
    OpenAISseChunk {
        choices: vec![OpenAIChoice {
            delta: Some(d),
            finish_reason: finish_reason.map(|s| s.to_string()),
        }],
    }
}

#[test]
fn lines_of_a_stream() {
    assert!(matches!(read_line(""), SseLine::Skip));
    assert!(matches!(read_line(": keepalive"), SseLine::Skip));
    assert!(matches!(read_line("data:"), SseLine::Skip));
    assert!(matches!(read_line(" data: [DONE] "), SseLine::Done));
    match read_line("data: {}\r") {
        SseLine::Data(d) => assert_eq!(d, "{}"),
        _ => panic!("data"),
    }
}

#[test]
fn data_comes_when_its_line_is_complete() {
    let mut r = relay(vec![]);
    assert!(r.handle_text("data: {\"a\"").is_empty());
    assert_eq!(r.handle_text(":1}\n\ndata: 2\nda"), vec!["{\"a\":1}", "2"]);
    assert_eq!(r.handle_bytes(&b"ta: 3\n".to_vec()), vec!["3"]);
    assert_eq!(r.handle_text("data: 4\ndata: [DONE]\ndata: 5\n"), vec!["4"]);
    assert!(!r.has_data());
    r.settle(&None);
    r.finish(false);
    assert!(r.take_output().is_empty());
}

#[test]
fn data_does_not_depend_on_how_the_stream_is_cut() {
    let all = "data: 1\n: x\ndata: 界\n\ndata: 3\n";
    let expected = relay(vec![]).handle_text(all);
    let mut r = relay(vec![]);
    let mut seen = vec![];
    for c in all.chars() {
        seen.extend(r.handle_text(&c.to_string()));
    }
    assert_eq!(seen, expected);
    assert_eq!(seen, vec!["1", "界", "3"]);
}

/// The events of a body that comes in these pieces, and whether a chunk came.
/// Data that begins with `!` is no chunk, other data is content.
fn relayed(pieces: &[String]) -> (String, bool) {
    let mut r = relay(vec![]);
    for p in pieces {
        for data in r.handle_text(p) {
            if !data.starts_with('!') {
                let mut d = delta();
                d.content = Some(data);
                r.handle_chunk(&chunk(d, None));
            }
        }
    }
    r.settle(&None);
    r.finish(false);
    let has_data = r.has_data();
    (r.take_output().concat(), has_data)
}

#[test]
fn events_do_not_depend_on_how_the_body_is_cut() {
    let long = "w".repeat(70);
    for (body, has_data) in [
        (format!("data: 1\n: x\ndata: {}\n\ndata: !\ndata: 3\ndata: [DONE]\n\n", long), true),
        ("data: !\ndata: [DONE]\n".to_string(), false),
        ("data: [DONE]\n".to_string(), false),
        (String::new(), false),
    ] {
        let whole = relayed(&[body.clone()]);
        assert_eq!(whole.1, has_data);
        let chars: Vec<String> = body.chars().map(|c| c.to_string()).collect();
        assert_eq!(relayed(&chars), whole);
        for cut in 0..body.len() {
            let (a, b) = body.split_at(cut);
            assert_eq!(relayed(&[a.to_string(), b.to_string()]), whole);
        }
    }
}

#[test]
fn chunks_are_taken_into_the_stream() {
    let mut r = relay(vec![]);
    let mut d = delta();
    d.reasoning = Some("r1 ".into());
    d.reasoning_content = Some("r2".into());
    d.content = Some("text".into());
    r.handle_chunk(&chunk(d, None));
    let mut d = delta();
    d.content = Some(String::new());
    d.tool_calls = Some(vec![OpenAIToolCallDelta {
        index: None,
        id: Some("c".into()),
        function: Some(OpenAIFunctionDelta { name: Some("Bash".into()), arguments: None }),
    }]);
    r.handle_chunk(&chunk(d, Some("tool_calls")));
    assert!(r.has_data());
    assert!(matches!(r.settle(&None), Inquiry::Settled(None)));
    r.finish(false);
    let out: String = r.take_output().concat();
    let order = ["r1 ", "r2", "\"text\":\"text\"", "\"name\":\"Bash\"", "tool_use", "message_stop"];
    let mut at = 0;
    for part in order {
        at += out[at..].find(part).unwrap();
    }
    assert!(r.take_output().is_empty());
}

#[test]
fn a_reply_that_was_cut_off_is_in_question() {
    let tools = vec![ToolDef {
        name: "Bash".into(),
        description: None,
        input_schema: Json::parse("{}"),
    }];
    let mut r = relay(tools);
    let mut d = delta();
    d.content = Some("half a sent".into());
    r.handle_chunk(&chunk(d, Some("length")));
    match r.settle(&None) {
        Inquiry::Settled(Some(reason)) => assert_eq!(reason, "stop_reason=length"),
        _ => panic!("settled"),
    }
    r.finish(true);
    assert!(r.take_output().concat().contains("\"stop_reason\":\"tool_use\""));
}
