use holo_proxy::passthrough::{find_first_opening, RawForwarder, RawPiece};

fn chunk(content: &str) -> String {
    format!("data: {{\"choices\":[{{\"delta\":{{\"content\":{}}}}}]}}\n\n", serde_json::to_string(content).unwrap())
}

fn reasoning(t: &str) -> String {
    format!("data: {{\"choices\":[{{\"delta\":{{\"reasoning\":{}}}}}]}}\n", serde_json::to_string(t).unwrap())
}

fn content(t: &str) -> String {
    format!("data: {{\"choices\":[{{\"delta\":{{\"content\":{}}}}}]}}\n", serde_json::to_string(t).unwrap())
}

fn passed(f: &mut RawForwarder, t: &str) -> String {
    f.handle_text(t);
    f.take_output()
}

#[test]
fn pieces_on_the_wire() {
    assert_eq!(RawPiece::Line("a\n".into()).encode_with("i"), "a\n");
    assert_eq!(RawPiece::Native("b\n".into()).encode_with("i"), "b\n");
    assert_eq!(RawPiece::Done.encode_with("i"), "data: [DONE]\n\n");
    let content = |closes| RawPiece::Content { closes, text: "a\"".into() }.encode_with("i");
    assert_eq!(content(false), chunk("a\""));
    assert_eq!(content(true), chunk("</thinking>a\""));
    let reasoning = |opens| RawPiece::Reasoning { opens, text: "r".into() }.encode_with("i");
    assert_eq!(reasoning(false), chunk("r"));
    assert_eq!(reasoning(true), chunk("<thinking>r"));
    assert_eq!(
        RawPiece::Call { name: "Bash".into(), args: "{\"a\":1}".into(), markup: "m".into() }
            .encode_with("toolu_1"),
        "data: {\"choices\":[{\"delta\":{\"tool_calls\":[{\"function\":{\"arguments\":\"{\\\"a\\\":1}\",\"name\":\"Bash\"},\"id\":\"toolu_1\",\"index\":0,\"type\":\"function\"}]}}]}\n\n"
    );
}

#[test]
fn other_lines_go_through() {
    let mut f = RawForwarder::new();
    assert_eq!(passed(&mut f, "\n: keepalive\nevent: x\ndata: not json\n"), "\n: keepalive\nevent: x\ndata: not json\n");
    assert_eq!(passed(&mut f, "unfinished"), "");
    assert_eq!(passed(&mut f, " line \n"), "unfinished line\n");
}

#[test]
fn content_is_held_back_and_sent_at_the_end() {
    let mut f = RawForwarder::new();
    assert_eq!(passed(&mut f, &content("short")), "");
    assert_eq!(passed(&mut f, &content(&"x".repeat(40))), chunk(&format!("short{}", "x".repeat(5))));
    assert_eq!(
        passed(&mut f, "data: [DONE]\n"),
        format!("{}data: [DONE]\n\n", chunk(&"x".repeat(35)))
    );
}

#[test]
fn reasoning_stands_between_tags() {
    let mut f = RawForwarder::new();
    assert_eq!(passed(&mut f, &reasoning("one")), chunk("<thinking>one"));
    assert_eq!(passed(&mut f, &reasoning("two")), chunk("two"));
    assert_eq!(passed(&mut f, &content(&"y".repeat(36))), chunk("</thinking>y"));
    let both = "data: {\"choices\":[{\"delta\":{\"reasoning\":\"a\",\"reasoning_content\":\"b\"}}]}\n";
    assert_eq!(passed(&mut f, both), chunk("<thinking>ab"));
    assert_eq!(
        passed(&mut f, "data: [DONE]\n"),
        format!("{}data: [DONE]\n\n", chunk(&format!("</thinking>{}", "y".repeat(35))))
    );
}

#[test]
fn the_end_of_the_stream_ends_the_thinking() {
    let mut f = RawForwarder::new();
    let out = passed(&mut f, &format!("{}{}data: [DONE]\n", reasoning("r"), content("Hi")));
    assert_eq!(out, format!("{}{}data: [DONE]\n\n", chunk("<thinking>r"), chunk("</thinking>Hi")));
    let mut f = RawForwarder::new();
    let out = passed(&mut f, &format!("{}data: [DONE]\n", reasoning("r")));
    assert_eq!(out, format!("{}{}data: [DONE]\n\n", chunk("<thinking>r"), chunk("</thinking>")));
}

/// The name and the arguments of the tool call that a chunk carries.
fn call_in(chunk: &str) -> (String, String) {
    let v: serde_json::Value =
        serde_json::from_str(chunk.strip_prefix("data: ").unwrap()).unwrap();
    let tc = &v["choices"][0]["delta"]["tool_calls"][0];
    assert!(tc["id"].as_str().unwrap().starts_with("toolu_"));
    let text = |key: &str| tc["function"][key].as_str().unwrap().to_string();
    (text("name"), text("arguments"))
}

fn bash_ls() -> (String, String) {
    ("Bash".to_string(), "{\"command\":\"ls\"}".to_string())
}

#[test]
fn a_call_in_one_piece_is_passed_at_once() {
    let markup = [
        "<invoke name=\"Bash\"><parameter name=\"command\">ls</parameter></invoke>",
        "<tool_call>{\"name\":\"Bash\",\"arguments\":{\"command\":\"ls\"}}</tool_call>",
        "```json\n{\"name\":\"Bash\",\"arguments\":{\"command\":\"ls\"}}\n```",
    ];
    for m in markup {
        let mut f = RawForwarder::new();
        let out = passed(&mut f, &content(m));
        let (call, rest) = out.split_once("\n\n").unwrap();
        assert_eq!(call_in(call), bash_ls());
        assert_eq!(rest, "");
        assert_eq!(passed(&mut f, "data: [DONE]\n"), "data: [DONE]\n\n");
        // Two of them, with text around them, after reasoning.
        let mut f = RawForwarder::new();
        passed(&mut f, &reasoning("r"));
        let out = passed(&mut f, &content(&format!("{}a{}b", m, m)));
        let parts: Vec<&str> = out.split("\n\n").collect();
        assert_eq!(format!("{}\n\n", parts[0]), chunk("</thinking>"));
        assert_eq!(call_in(parts[1]), bash_ls());
        assert_eq!(format!("{}\n\n", parts[2]), chunk("a"));
        assert_eq!(call_in(parts[3]), bash_ls());
        assert_eq!(format!("{}\n\n", parts[4]), chunk("b"));
        assert_eq!(parts[5..], [""]);
    }
}

#[test]
fn what_is_collected_is_not_lost_at_the_end() {
    let mut f = RawForwarder::new();
    assert_eq!(passed(&mut f, &content("See <invoke and more")), chunk("See "));
    assert_eq!(
        passed(&mut f, "data: [DONE]\n"),
        format!("{}data: [DONE]\n\n", chunk("<invoke and more"))
    );
    let mut f = RawForwarder::new();
    passed(&mut f, &content("<tool_call>{\"name\":\"Bash\",\"arguments\":{\"command\":\"ls\"}}"));
    let out = passed(&mut f, "data: [DONE]\n");
    let (call, rest) = out.split_once("\n\n").unwrap();
    assert_eq!(call_in(call), bash_ls());
    assert_eq!(rest, "data: [DONE]\n\n");
}

#[test]
fn native_calls_go_through() {
    let mut f = RawForwarder::new();
    passed(&mut f, &reasoning("r"));
    let line = "data: {\"choices\":[{\"delta\":{\"tool_calls\":[{\"index\":0}]}}]}";
    assert_eq!(
        passed(&mut f, &format!("{}\n", line)),
        format!("{}{}\n", chunk("</thinking>"), line)
    );
    assert_eq!(passed(&mut f, &format!("{}\n", line)), format!("{}\n", line));
    assert_eq!(passed(&mut f, "data: [DONE]\n"), "data: [DONE]\n\n");
    let none = "data: {\"choices\":[{\"delta\":{\"tool_calls\":[]},\"finish_reason\":\"stop\"}]}\n";
    assert_eq!(passed(&mut f, none), "");
}

#[test]
fn markup_becomes_a_call() {
    let mut f = RawForwarder::new();
    assert_eq!(passed(&mut f, &content("See <tool_call>{\"name\":\"Bash\",")), chunk("See "));
    let out = passed(&mut f, &content("\"arguments\":{\"command\":\"ls\"}}</tool_call> and more"));
    let (call, rest) = out.split_once("\n\n").unwrap();
    let v: serde_json::Value = serde_json::from_str(call.strip_prefix("data: ").unwrap()).unwrap();
    let tc = &v["choices"][0]["delta"]["tool_calls"][0];
    assert_eq!(tc["function"]["name"], "Bash");
    assert_eq!(tc["function"]["arguments"], "{\"command\":\"ls\"}");
    assert!(tc["id"].as_str().unwrap().starts_with("toolu_"));
    assert_eq!(rest, chunk(" and more"));
}

#[test]
fn markup_that_is_no_call_goes_through() {
    let mut f = RawForwarder::new();
    let t = "<parameter x>1</parameter>a<invoke";
    assert_eq!(
        passed(&mut f, &content(t)),
        format!("{}{}", chunk("<parameter x>1</parameter>"), chunk("a"))
    );
    assert_eq!(passed(&mut f, &content(" y>")), "");
}

#[test]
fn markup_handed_over_with_what_was_read() {
    let mut f = RawForwarder::new();
    f.handle_markup("<x>", "unknown".into(), "{}".into());
    assert_eq!(f.take_output(), chunk("<x>"));
    f.handle_markup("<x>", "Run".into(), "{}".into());
    assert!(f.take_output().contains("\"name\":\"Run\""));
    f.handle_chunk("line", "think", true, "ignored");
    assert_eq!(f.take_output(), format!("{}{}line\n", chunk("<thinking>think"), chunk("</thinking>")));
}

#[test]
fn how_the_stream_is_cut_does_not_matter() {
    let all = format!("{}{}: x\n\n{}data: [DONE]\n", reasoning("r"), content(&"z".repeat(50)), content("tail"));
    let mut whole = RawForwarder::new();
    let expected = passed(&mut whole, &all);
    let mut cut = RawForwarder::new();
    let mut seen = String::new();
    for c in all.chars() {
        seen.push_str(&passed(&mut cut, &c.to_string()));
    }
    assert_eq!(seen, expected);
}

#[test]
fn bytes_are_decoded() {
    let mut f = RawForwarder::new();
    f.handle_bytes(&"event: 界\n".as_bytes().to_vec());
    f.handle_bytes(&vec![b'a', 0xff, b'\n']);
    assert_eq!(f.take_output(), "event: 界\na\u{fffd}\n");
}

#[test]
fn the_first_trigger_wins() {
    assert!(find_first_opening("plain").is_none());
    assert_eq!(find_first_opening("a```json <invoke").unwrap(), (1, ("```json".to_string(), "```".to_string())));
    assert_eq!(find_first_opening("界<｜tool_call｜>").unwrap(), (1, ("<｜tool_call｜>".to_string(), "</｜tool_call｜>".to_string())));
    assert_eq!(find_first_opening("<ツtool_callsツ>").unwrap(), (0, ("<ツtool_callsツ>".to_string(), "</ツtool_callsツ>".to_string())));
}
