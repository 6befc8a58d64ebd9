use holo_proxy::events::{Kind, SseEvent};

#[test]
fn events_on_the_wire() {
    let start = SseEvent::MessageStart { message: "msg_1".into(), model: "m\"".into() };
    assert_eq!(
        start.encode_with("x"),
        "event: message_start\ndata: {\"message\":{\"content\":[],\"id\":\"msg_1\",\"model\":\"m\\\"\",\"role\":\"assistant\",\"stop_reason\":null,\"stop_sequence\":null,\"type\":\"message\",\"usage\":{\"input_tokens\":0,\"output_tokens\":0}},\"type\":\"message_start\"}\n\n"
    );
    assert_eq!(
        SseEvent::TextStart { index: 12 }.encode_with("x"),
        "event: content_block_start\ndata: {\"content_block\":{\"text\":\"\",\"type\":\"text\"},\"index\":12,\"type\":\"content_block_start\"}\n\n"
    );
    assert_eq!(
        SseEvent::ThinkingStart { index: 0 }.encode_with("x"),
        "event: content_block_start\ndata: {\"content_block\":{\"thinking\":\"\",\"type\":\"thinking\"},\"index\":0,\"type\":\"content_block_start\"}\n\n"
    );
    let delta = |kind: Kind| SseEvent::Delta { index: 3, kind, text: "a\nb".into() }.encode_with("x");
    assert_eq!(
        delta(Kind::Text),
        "event: content_block_delta\ndata: {\"delta\":{\"text\":\"a\\nb\",\"type\":\"text_delta\"},\"index\":3,\"type\":\"content_block_delta\"}\n\n"
    );
    assert_eq!(
        delta(Kind::Thinking),
        "event: content_block_delta\ndata: {\"delta\":{\"thinking\":\"a\\nb\",\"type\":\"thinking_delta\"},\"index\":3,\"type\":\"content_block_delta\"}\n\n"
    );
    assert_eq!(
        delta(Kind::Tool),
        "event: content_block_delta\ndata: {\"delta\":{\"partial_json\":\"a\\nb\",\"type\":\"input_json_delta\"},\"index\":3,\"type\":\"content_block_delta\"}\n\n"
    );
    assert_eq!(
        SseEvent::BlockStop { index: 3 }.encode_with("x"),
        "event: content_block_stop\ndata: {\"index\":3,\"type\":\"content_block_stop\"}\n\n"
    );
    assert_eq!(
        SseEvent::MessageDelta { tool_use: true }.encode_with("x"),
        "event: message_delta\ndata: {\"delta\":{\"stop_reason\":\"tool_use\",\"stop_sequence\":null},\"type\":\"message_delta\",\"usage\":{\"output_tokens\":0}}\n\n"
    );
    assert!(SseEvent::MessageDelta { tool_use: false }.encode().contains("\"end_turn\""));
    assert_eq!(
        SseEvent::MessageStop.encode(),
        "event: message_stop\ndata: {\"type\":\"message_stop\"}\n\n"
    );
}

#[test]
fn a_tool_block_has_its_own_identifier_or_a_fresh_one() {
    let given = SseEvent::ToolStart { index: 1, id: Some("call_1".into()), name: "Bash".into() };
    assert_eq!(
        given.encode(),
        "event: content_block_start\ndata: {\"content_block\":{\"id\":\"call_1\",\"input\":{},\"name\":\"Bash\",\"type\":\"tool_use\"},\"index\":1,\"type\":\"content_block_start\"}\n\n"
    );
    let fresh = SseEvent::ToolStart { index: 1, id: None, name: "Bash".into() };
    assert!(fresh.encode_with("toolu_x").contains("\"id\":\"toolu_x\""));
    assert!(fresh.encode().contains("\"id\":\"toolu_"));
    assert_ne!(fresh.encode(), fresh.encode());
}
