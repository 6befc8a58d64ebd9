use holo_proxy::json::Json;
use holo_proxy::stream::{find_end_tag, find_first_tag, StreamContext, Tag};
use holo_proxy::tools::ToolTable;
use holo_proxy::types::{OpenAIFunctionDelta, OpenAIToolCallDelta, ToolDef};

fn bash() -> Vec<ToolDef> {
    vec![ToolDef {
        name: "Bash".into(),
        description: None,
        input_schema: Json::parse(r#"{"properties":{"command":{}}}"#),
    }]
}

fn context(tools: Vec<ToolDef>) -> StreamContext {
    StreamContext::new("msg_1".into(), "m".into(), !tools.is_empty(), ToolTable::of(&tools))
}

/// The events so far, in short.
fn events(ctx: &mut StreamContext) -> Vec<String> {
    ctx.take_output()
        .iter()
        .map(|e| {
            let (name, data) =
                e.strip_prefix("event: ").unwrap().split_once("\ndata: ").unwrap();
            assert!(data.ends_with("\n\n"));
            let v: serde_json::Value = serde_json::from_str(data).unwrap();
            assert_eq!(v["type"], name);
            let index = v["index"].as_u64().map(|i| i.to_string()).unwrap_or_default();
            match name {
                "content_block_start" => {
                    let b = &v["content_block"];
                    format!("start {} {} {}", index, b["type"].as_str().unwrap(), b["name"].as_str().unwrap_or(""))
                }
                "content_block_delta" => {
                    let d = &v["delta"];
                    let t = d["text"].as_str().or(d["thinking"].as_str()).or(d["partial_json"].as_str());
                    format!("delta {} {}", index, t.unwrap())
                }
                "content_block_stop" => format!("stop {}", index),
                "message_delta" => format!("end {}", v["delta"]["stop_reason"].as_str().unwrap()),
                other => other.to_string(),
            }
        })
        .collect()
}

fn native(index: Option<u32>, id: Option<&str>, name: Option<&str>, args: Option<&str>) -> OpenAIToolCallDelta {
    OpenAIToolCallDelta {
        index,
        id: id.map(|s| s.to_string()),
        function: Some(OpenAIFunctionDelta {
            name: name.map(|s| s.to_string()),
            arguments: args.map(|s| s.to_string()),
        }),
    }
}

#[test]
fn a_plain_reply() {
    let mut ctx = context(vec![]);
    assert_eq!(events(&mut ctx), vec!["message_start"]);
    let long = "x".repeat(60);
    ctx.handle_content(&long);
    // Fifty bytes are held back.
    assert_eq!(events(&mut ctx), vec!["start 0 text ".to_string(), format!("delta 0 {}", "x".repeat(10))]);
    assert!(!ctx.settle());
    ctx.finish(false);
    assert_eq!(
        events(&mut ctx),
        vec![
            format!("delta 0 {}", "x".repeat(50)),
            "stop 0".to_string(),
            "end end_turn".to_string(),
            "message_stop".to_string(),
        ]
    );
    assert_eq!(ctx.generated_text(), long);
    assert!(events(&mut ctx).is_empty());
}

#[test]
fn a_short_reply_is_said_as_it_is() {
    let mut ctx = context(vec![]);
    ctx.handle_content("Hello");
    ctx.settle();
    ctx.finish(true);
    assert_eq!(
        events(&mut ctx),
        vec![
            "message_start", "start 0 text ", "delta 0 Hello", "stop 0", "end end_turn", "message_stop"
        ]
    );
    assert_eq!(ctx.generated_text(), "Hello");
}

#[test]
fn an_empty_reply_is_a_blank() {
    let mut ctx = context(vec![]);
    ctx.settle();
    ctx.finish(false);
    assert_eq!(
        events(&mut ctx),
        vec!["message_start", "start 0 text ", "delta 0  ", "stop 0", "end end_turn", "message_stop"]
    );
    // Not one with a thinking block, though that says nothing.
    let mut ctx = context(vec![]);
    ctx.handle_reasoning("");
    ctx.settle();
    ctx.finish(false);
    assert_eq!(
        events(&mut ctx),
        vec![
            "message_start", "start 0 thinking ", "delta 0 ", "stop 0", "end end_turn",
            "message_stop"
        ]
    );
    // A reply whose only markup is dropped is a blank too.
    let mut ctx = context(vec![]);
    ctx.handle_content("<invoke name=\"Other\"></invoke>");
    ctx.settle();
    assert_eq!(ctx.generated_text(), " ");
}

#[test]
fn text_without_brackets_goes_out_in_one_block() {
    let text = "界 a > b & c ".repeat(12);
    let mut ctx = context(bash());
    let mut sent = String::new();
    let mut come = String::new();
    events(&mut ctx);
    for c in text.chars() {
        ctx.handle_content(&c.to_string());
        come.push(c);
        for e in events(&mut ctx) {
            if e != "start 0 text " {
                sent.push_str(e.strip_prefix("delta 0 ").unwrap());
            }
        }
        assert!(come.starts_with(&sent));
        assert!(come.len() - sent.len() <= 53);
        assert_eq!(ctx.generated_text(), sent);
    }
    ctx.settle();
    assert_eq!(ctx.generated_text(), text);
    assert_eq!(events(&mut ctx).last().unwrap(), "stop 0");
}

#[test]
fn held_back_text_is_cut_between_characters() {
    let mut ctx = context(vec![]);
    let wide = "界".repeat(20);
    ctx.handle_content(&wide);
    // Of sixty bytes at least fifty stay: three characters go.
    assert_eq!(
        events(&mut ctx),
        vec!["message_start".to_string(), "start 0 text ".to_string(), "delta 0 界界界".to_string()]
    );
}

#[test]
fn reasoning_goes_into_a_thinking_block() {
    let mut ctx = context(vec![]);
    ctx.handle_reasoning("one");
    ctx.handle_reasoning("two");
    ctx.handle_content("answer");
    ctx.settle();
    ctx.finish(false);
    assert_eq!(
        events(&mut ctx),
        vec![
            "message_start", "start 0 thinking ", "delta 0 one", "delta 0 two", "stop 0",
            "start 1 text ", "delta 1 answer", "stop 1", "end end_turn", "message_stop"
        ]
    );
    assert_eq!(ctx.generated_text(), "onetwoanswer");
}

#[test]
fn native_calls_become_tool_blocks() {
    let mut ctx = context(bash());
    ctx.handle_content("Let me look.");
    ctx.handle_tool_call(&native(Some(0), Some("call_1"), Some("Bash"), None));
    ctx.handle_tool_call(&native(Some(0), None, None, Some("{\"a\"")));
    ctx.handle_tool_call(&native(None, None, None, Some(":1}")));
    ctx.handle_tool_call(&native(Some(1), None, None, Some("{}")));
    assert!(!ctx.settle());
    ctx.finish(true);
    assert_eq!(
        events(&mut ctx),
        vec![
            "message_start", "start 0 text ", "delta 0 Let me look.", "stop 0",
            "start 1 tool_use Bash", "delta 1 {\"a\"", "delta 1 :1}", "stop 1",
            "start 2 tool_use unknown", "delta 2 {}", "stop 2", "end tool_use", "message_stop"
        ]
    );
}

#[test]
fn raw_markup_becomes_a_tool_block() {
    let mut ctx = context(bash());
    ctx.handle_content("See: <｜tool_calls_begin｜><｜tool_call_begin｜>function<｜tool_sep｜>");
    ctx.handle_content("bash<｜tool_call_argument_begin｜>{\"command\":\"ls\"}<｜tool_call_end｜>");
    assert!(!ctx.settle());
    ctx.finish(false);
    assert_eq!(
        events(&mut ctx),
        vec![
            "message_start", "start 0 text ", "delta 0 See: ", "stop 0", "start 1 tool_use Bash",
            "delta 1 {\"command\":\"ls\"}", "stop 1", "end tool_use", "message_stop"
        ]
    );
}

#[test]
fn markup_that_ends_is_sent_at_once() {
    let mut ctx = context(bash());
    ctx.handle_content("<tool_calls>{\"name\":\"Bash\",\"arguments\":{}}<｜tool_calls_end｜>");
    ctx.handle_content(" ");
    assert_eq!(
        events(&mut ctx),
        vec!["message_start", "start 0 tool_use Bash", "delta 0 {}", "stop 0"]
    );
}

#[test]
fn invoke_markup_becomes_a_tool_block() {
    let mut ctx = context(bash());
    ctx.handle_content("Now <invoke name=\"Bash\"><parameter name=\"command\">");
    ctx.handle_content("ls</parameter></invoke>");
    assert!(!ctx.settle());
    ctx.finish(false);
    assert_eq!(
        events(&mut ctx),
        vec![
            "message_start", "start 0 text ", "delta 0 Now ", "stop 0", "start 1 tool_use Bash",
            "delta 1 {\"command\":\"ls\"}", "stop 1", "end tool_use", "message_stop"
        ]
    );
    assert_eq!(ctx.generated_text(), "Now ");
}

#[test]
fn an_end_tag_ends_the_markup() {
    let call = "<invoke name=\"Bash\"><parameter name=\"command\">ls</parameter></invoke>";
    for (open, close) in [
        ("", ""),
        ("<tool_calls>", "</tool_calls>"),
        ("<|DSML|tool_calls>", "<|DSML|/tool_calls>"),
        ("＜tool_calls＞", "＜/tool_calls＞"),
    ] {
        let mut ctx = context(bash());
        let markup = format!("{}{}{}", open, call, close);
        let (head, tail) = markup.split_at(20);
        ctx.handle_content(head);
        ctx.handle_content(tail);
        ctx.handle_content(" done");
        ctx.settle();
        assert_eq!(
            events(&mut ctx),
            vec![
                "message_start", "start 0 tool_use Bash", "delta 0 {\"command\":\"ls\"}", "stop 0",
                "start 1 text ", "delta 1  done", "stop 1"
            ]
        );
    }
    // The end tag itself may come in pieces.
    let mut ctx = context(bash());
    for c in format!("{}ok", call).chars() {
        ctx.handle_content(&c.to_string());
    }
    ctx.settle();
    assert_eq!(ctx.generated_text(), "ok");
}

#[test]
fn a_tool_call_element_becomes_a_tool_block() {
    let call = "<tool_call>\n{\"name\": \"Bash\", \"arguments\": {\"command\": \"ls\"}}\n</tool_call>";
    for cut in [3, 11, 30, call.len() - 5] {
        let mut ctx = context(bash());
        ctx.handle_content("Hi ");
        ctx.handle_content(&call[..cut]);
        ctx.handle_content(&call[cut..]);
        ctx.handle_content(" done");
        assert!(!ctx.settle());
        assert_eq!(
            events(&mut ctx),
            vec![
                "message_start", "start 0 text ", "delta 0 Hi ", "stop 0", "start 1 tool_use Bash",
                "delta 1 {\"command\":\"ls\"}", "stop 1", "start 2 text ", "delta 2  done", "stop 2"
            ]
        );
    }
}

#[test]
fn markup_for_a_tool_that_is_not_offered_is_dropped() {
    let mut ctx = context(bash());
    ctx.handle_reasoning("hm");
    ctx.handle_content("<invoke name=\"Other\"><parameter name=\"x\">1</parameter></invoke>");
    assert!(ctx.settle());
    ctx.finish(false);
    assert_eq!(
        events(&mut ctx),
        vec![
            "message_start", "start 0 thinking ", "delta 0 hm", "stop 0", "end end_turn",
            "message_stop"
        ]
    );
}

#[test]
fn a_reply_that_broke_off_is_recovered() {
    let mut ctx = context(bash());
    ctx.handle_reasoning("hm");
    assert!(ctx.settle());
    ctx.finish(true);
    let seen = events(&mut ctx);
    assert_eq!(
        seen[..8],
        [
            "message_start", "start 0 thinking ", "delta 0 hm", "stop 0", "start 1 text ",
            "delta 1 [holoProxy Recovery Injected]", "stop 1", "start 2 tool_use Bash"
        ]
    );
    assert!(seen[8].contains("Fake tool calling"));
    assert_eq!(seen[9..], ["stop 2", "end tool_use", "message_stop"]);
}

#[test]
fn an_error_is_a_complete_message() {
    let mut ctx = context(vec![]);
    ctx.send_error("broken");
    assert_eq!(
        events(&mut ctx),
        vec![
            "message_start", "start 0 text ", "delta 0 broken", "stop 0", "end end_turn",
            "message_stop"
        ]
    );
    let mut ctx = context(bash());
    ctx.send_error("broken");
    let seen = events(&mut ctx);
    assert_eq!(
        seen[..7],
        [
            "message_start", "start 0 text ", "delta 0 broken", "stop 0", "start 1 text ",
            "delta 1 [holoProxy Recovery Injected]", "stop 1"
        ]
    );
    assert_eq!(seen[seen.len() - 2..], ["end tool_use", "message_stop"]);
}

#[test]
fn a_call_read_from_markup() {
    let mut ctx = context(bash());
    ctx.handle_markup_call("Bash".into(), "{\"x\":1}");
    ctx.handle_markup_call("unknown".into(), "{}");
    ctx.handle_markup_call("Other".into(), "{}");
    assert_eq!(
        events(&mut ctx),
        vec!["message_start", "start 0 tool_use Bash", "delta 0 {\"x\":1}", "stop 0"]
    );
}

#[test]
fn looking_through_held_back_text() {
    let mut ctx = context(bash());
    ctx.handle_content("ab<x");
    ctx.scan("AB<invoke", 2);
    ctx.handle_content(" name=\"Bash\"><parameter name=\"command\">pwd</parameter>");
    ctx.settle();
    assert_eq!(events(&mut ctx), vec!["message_start", "start 0 text ", "delta 0 AB", "stop 0"]);
}

#[test]
fn the_first_tag_wins() {
    assert!(find_first_tag("none").is_none());
    let (at, tag) = find_first_tag("a<parameter <invoke <tool_calls").unwrap();
    assert_eq!(at, 1);
    assert_eq!(tag, Tag::Parameter);
    assert_eq!(find_first_tag("<invoke").unwrap().1, Tag::Invoke);
    assert_eq!(find_first_tag("<tool_calls").unwrap().1, Tag::ToolCalls);
    assert_eq!(find_first_tag("<tool_call>").unwrap().1, Tag::ToolCall);
    assert_eq!(find_end_tag("<invoke></invoke >x", Tag::Invoke).unwrap(), "</invoke >");
    assert_eq!(find_end_tag("<tool_call></tool_call>x", Tag::ToolCall).unwrap(), "</tool_call>");
    assert!(find_end_tag("<invoke></invoke", Tag::Invoke).is_none());
}

#[test]
fn a_reply_in_pieces_is_said_as_it_is() {
    let text = "Nothing here is markup: a < b, 界 and so on, for more than fifty bytes in all.";
    let mut ctx = context(vec![]);
    for c in text.chars() {
        ctx.handle_content(&c.to_string());
    }
    ctx.settle();
    ctx.finish(false);
    assert_eq!(ctx.generated_text(), text);
    let seen = events(&mut ctx);
    assert_eq!(seen[1], "start 0 text ");
    let said: String =
        seen.iter().filter_map(|e| e.strip_prefix("delta 0 ")).collect::<Vec<_>>().concat();
    assert_eq!(said, text);
}
