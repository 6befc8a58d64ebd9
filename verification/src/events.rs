//! The events of an Anthropic message stream, how they are written, and the
//! order in which a client expects them.
use vstd::prelude::*;
use vstd::string::*;

use crate::fallback;
use crate::json;
use crate::text;
use crate::types;

verus! {

// ---------------------------------------------------------------------------
// Events
// ---------------------------------------------------------------------------

/// The kind of a content block.
#[derive(Clone, Copy, PartialEq, Eq, Structural, Debug)]
pub enum Kind {
    Text,
    Thinking,
    Tool,
}

/// One event of the stream. A tool block without an identifier of its own gets
/// a fresh one when it is written.
pub enum SseEvent {
    MessageStart { message: String, model: String },
    TextStart { index: u32 },
    ThinkingStart { index: u32 },
    ToolStart { index: u32, id: Option<String>, name: String },
    Delta { index: u32, kind: Kind, text: String },
    BlockStop { index: u32 },
    MessageDelta { tool_use: bool },
    MessageStop,
}

/// The mathematical counterpart of `SseEvent`.
pub ghost enum EventView {
    MessageStart { message: Seq<char>, model: Seq<char> },
    TextStart { index: u32 },
    ThinkingStart { index: u32 },
    ToolStart { index: u32, id: Option<Seq<char>>, name: Seq<char> },
    Delta { index: u32, kind: Kind, text: Seq<char> },
    BlockStop { index: u32 },
    MessageDelta { tool_use: bool },
    MessageStop,
}

impl View for SseEvent {
    type V = EventView;

    open spec fn view(&self) -> EventView {
        match *self {
            SseEvent::MessageStart { message, model } => EventView::MessageStart {
                message: message@,
                model: model@,
            },
            SseEvent::TextStart { index } => EventView::TextStart { index },
            SseEvent::ThinkingStart { index } => EventView::ThinkingStart { index },
            SseEvent::ToolStart { index, id, name } => EventView::ToolStart {
                index,
                id: types::opt_text(id),
                name: name@,
            },
            SseEvent::Delta { index, kind, text } => EventView::Delta { index, kind, text: text@ },
            SseEvent::BlockStop { index } => EventView::BlockStop { index },
            SseEvent::MessageDelta { tool_use } => EventView::MessageDelta { tool_use },
            SseEvent::MessageStop => EventView::MessageStop,
        }
    }
}

pub open spec fn event_views(v: Seq<SseEvent>) -> Seq<EventView> {
    v.map_values(|e: SseEvent| e@)
}

// ---------------------------------------------------------------------------
// Writing
// ---------------------------------------------------------------------------

/// The name of an event.
pub open spec fn event_name(e: EventView) -> Seq<char> {
    match e {
        EventView::MessageStart { .. } => "message_start"@,
        EventView::TextStart { .. } => "content_block_start"@,
        EventView::ThinkingStart { .. } => "content_block_start"@,
        EventView::ToolStart { .. } => "content_block_start"@,
        EventView::Delta { .. } => "content_block_delta"@,
        EventView::BlockStop { .. } => "content_block_stop"@,
        EventView::MessageDelta { .. } => "message_delta"@,
        EventView::MessageStop => "message_stop"@,
    }
}

/// The name that a delta of a kind goes by.
pub open spec fn delta_name(kind: Kind) -> Seq<char> {
    match kind {
        Kind::Text => "text_delta"@,
        Kind::Thinking => "thinking_delta"@,
        Kind::Tool => "input_json_delta"@,
    }
}

/// What a delta of a kind carries.
pub open spec fn delta_body(kind: Kind, t: Seq<char>) -> Seq<char> {
    let name = json::quoted(delta_name(kind));
    match kind {
        Kind::Text => json::object2("text"@, json::quoted(t), "type"@, name),
        Kind::Thinking => json::object2("thinking"@, json::quoted(t), "type"@, name),
        Kind::Tool => json::object2("partial_json"@, json::quoted(t), "type"@, name),
    }
}

/// The message that a stream starts with: empty, of the assistant.
pub open spec fn message_body(id: Seq<char>, model: Seq<char>) -> Seq<char> {
    json::object_text(
        seq![
            ("content"@, "[]"@),
            ("id"@, json::quoted(id)),
            ("model"@, json::quoted(model)),
            ("role"@, json::quoted("assistant"@)),
            ("stop_reason"@, "null"@),
            ("stop_sequence"@, "null"@),
            ("type"@, json::quoted("message"@)),
            ("usage"@, json::object2("input_tokens"@, "0"@, "output_tokens"@, "0"@)),
        ],
    )
}

/// The block that a tool block starts with: no input yet.
pub open spec fn tool_body(id: Seq<char>, name: Seq<char>) -> Seq<char> {
    json::object_text(
        seq![
            ("id"@, json::quoted(id)),
            ("input"@, json::empty_object()),
            ("name"@, json::quoted(name)),
            ("type"@, json::quoted("tool_use"@)),
        ],
    )
}

/// The data of an event; `fresh` is the identifier of a tool block that has
/// none of its own.
pub open spec fn event_data(e: EventView, fresh: Seq<char>) -> Seq<char> {
    let kind = json::quoted(event_name(e));
    match e {
        EventView::MessageStart { message, model } => json::object2(
            "message"@,
            message_body(message, model),
            "type"@,
            kind,
        ),
        EventView::TextStart { index } => json::object3(
            "content_block"@,
            json::object2("text"@, json::quoted(""@), "type"@, json::quoted("text"@)),
            "index"@,
            text::decimal(index as nat),
            "type"@,
            kind,
        ),
        EventView::ThinkingStart { index } => json::object3(
            "content_block"@,
            json::object2("thinking"@, json::quoted(""@), "type"@, json::quoted("thinking"@)),
            "index"@,
            text::decimal(index as nat),
            "type"@,
            kind,
        ),
        EventView::ToolStart { index, id, name } => json::object3(
            "content_block"@,
            tool_body(
                match id {
                    Some(given) => given,
                    None => fresh,
                },
                name,
            ),
            "index"@,
            text::decimal(index as nat),
            "type"@,
            kind,
        ),
        EventView::Delta { index, kind: k, text } => json::object3(
            "delta"@,
            delta_body(k, text),
            "index"@,
            text::decimal(index as nat),
            "type"@,
            kind,
        ),
        EventView::BlockStop { index } => json::object2(
            "index"@,
            text::decimal(index as nat),
            "type"@,
            kind,
        ),
        EventView::MessageDelta { tool_use } => json::object3(
            "delta"@,
            json::object2(
                "stop_reason"@,
                json::quoted(
                    if tool_use {
                        "tool_use"@
                    } else {
                        "end_turn"@
                    },
                ),
                "stop_sequence"@,
                "null"@,
            ),
            "type"@,
            kind,
            "usage"@,
            json::object_text(seq![("output_tokens"@, "0"@)]),
        ),
        EventView::MessageStop => json::object_text(seq![("type"@, kind)]),
    }
}

/// An event as it goes over the wire.
pub open spec fn event_text(e: EventView, fresh: Seq<char>) -> Seq<char> {
    "event: "@ + event_name(e) + "\ndata: "@ + event_data(e, fresh) + "\n\n"@
}

/// Whether `t` is `e` as it goes over the wire, with some identifier where a
/// fresh one is needed.
pub open spec fn is_event_text(e: EventView, t: Seq<char>) -> bool {
    exists|fresh: Seq<char>| fallback::is_tool_id(fresh) && t == #[trigger] event_text(e, fresh)
}

fn name_of(e: &SseEvent) -> (r: String)
    ensures
        r@ == event_name(e@),
{
    match e {
        SseEvent::MessageStart { .. } => "message_start".to_owned(),
        SseEvent::TextStart { .. } => "content_block_start".to_owned(),
        SseEvent::ThinkingStart { .. } => "content_block_start".to_owned(),
        SseEvent::ToolStart { .. } => "content_block_start".to_owned(),
        SseEvent::Delta { .. } => "content_block_delta".to_owned(),
        SseEvent::BlockStop { .. } => "content_block_stop".to_owned(),
        SseEvent::MessageDelta { .. } => "message_delta".to_owned(),
        SseEvent::MessageStop => "message_stop".to_owned(),
    }
}

fn write_message(id: &str, model: &str) -> (r: String)
    ensures
        r@ == message_body(id@, model@),
{
    let mut entries: Vec<(String, String)> = Vec::new();
    json::put(&mut entries, "content", "[]".to_owned());
    json::put(&mut entries, "id", json::quote_json(id));
    json::put(&mut entries, "model", json::quote_json(model));
    json::put(&mut entries, "role", json::quote_json("assistant"));
    json::put(&mut entries, "stop_reason", "null".to_owned());
    json::put(&mut entries, "stop_sequence", "null".to_owned());
    json::put(&mut entries, "type", json::quote_json("message"));
    json::put(
        &mut entries,
        "usage",
        json::write2("input_tokens", "0".to_owned(), "output_tokens", "0".to_owned()),
    );
    assert(json::pair_views(entries@) =~= seq![
        ("content"@, "[]"@),
        ("id"@, json::quoted(id@)),
        ("model"@, json::quoted(model@)),
        ("role"@, json::quoted("assistant"@)),
        ("stop_reason"@, "null"@),
        ("stop_sequence"@, "null"@),
        ("type"@, json::quoted("message"@)),
        ("usage"@, json::object2("input_tokens"@, "0"@, "output_tokens"@, "0"@)),
    ]);
    json::object_of(&entries).text
}

fn write_tool(id: &str, name: &str) -> (r: String)
    ensures
        r@ == tool_body(id@, name@),
{
    let mut entries: Vec<(String, String)> = Vec::new();
    json::put(&mut entries, "id", json::quote_json(id));
    json::put(&mut entries, "input", json::object_without_members().text);
    json::put(&mut entries, "name", json::quote_json(name));
    json::put(&mut entries, "type", json::quote_json("tool_use"));
    assert(json::pair_views(entries@) =~= seq![
        ("id"@, json::quoted(id@)),
        ("input"@, json::empty_object()),
        ("name"@, json::quoted(name@)),
        ("type"@, json::quoted("tool_use"@)),
    ]);
    json::object_of(&entries).text
}

fn write_delta(kind: Kind, t: &str) -> (r: String)
    ensures
        r@ == delta_body(kind, t@),
{
    let content = json::quote_json(t);
    match kind {
        Kind::Text => json::write2("text", content, "type", json::quote_json("text_delta")),
        Kind::Thinking => json::write2("thinking", content, "type", json::quote_json("thinking_delta")),
        Kind::Tool => json::write2("partial_json", content, "type", json::quote_json("input_json_delta")),
    }
}

impl SseEvent {
    /// The event as it goes over the wire; `fresh` is the identifier of a tool
    /// block that has none of its own.
    pub fn encode_with(&self, fresh: &str) -> (r: String)
        ensures
            r@ == event_text(self@, fresh@),
    {
        let name = name_of(self);
        let kind = json::quote_json(name.as_str());
        let data = match self {
            SseEvent::MessageStart { message, model } => json::write2(
                "message",
                write_message(message.as_str(), model.as_str()),
                "type",
                kind,
            ),
            SseEvent::TextStart { index } => json::write3(
                "content_block",
                json::write2("text", json::quote_json(""), "type", json::quote_json("text")),
                "index",
                text::decimal_text(*index as u64),
                "type",
                kind,
            ),
            SseEvent::ThinkingStart { index } => json::write3(
                "content_block",
                json::write2("thinking", json::quote_json(""), "type", json::quote_json("thinking")),
                "index",
                text::decimal_text(*index as u64),
                "type",
                kind,
            ),
            SseEvent::ToolStart { index, id, name } => json::write3(
                "content_block",
                match id {
                    Some(given) => write_tool(given.as_str(), name.as_str()),
                    None => write_tool(fresh, name.as_str()),
                },
                "index",
                text::decimal_text(*index as u64),
                "type",
                kind,
            ),
            SseEvent::Delta { index, kind: k, text } => json::write3(
                "delta",
                write_delta(*k, text.as_str()),
                "index",
                text::decimal_text(*index as u64),
                "type",
                kind,
            ),
            SseEvent::BlockStop { index } => json::write2(
                "index",
                text::decimal_text(*index as u64),
                "type",
                kind,
            ),
            SseEvent::MessageDelta { tool_use } => json::write3(
                "delta",
                json::write2(
                    "stop_reason",
                    if *tool_use {
                        json::quote_json("tool_use")
                    } else {
                        json::quote_json("end_turn")
                    },
                    "stop_sequence",
                    "null".to_owned(),
                ),
                "type",
                kind,
                "usage",
                json::write1("output_tokens", "0".to_owned()),
            ),
            SseEvent::MessageStop => json::write1("type", kind),
        };
        let mut r = text::cat("event: ", name.as_str());
        r.append("\ndata: ");
        r.append(data.as_str());
        r.append("\n\n");
        r
    }

    /// The event as it goes over the wire.
    pub fn encode(&self) -> (r: String)
        ensures
            is_event_text(self@, r@),
    {
        let fresh = fallback::gen_tool_id();
        self.encode_with(fresh.as_str())
    }
}

// ---------------------------------------------------------------------------
// The order that a client expects
// ---------------------------------------------------------------------------

/// How far a client has come in a stream.
pub ghost enum Phase {
    /// Nothing has come.
    Before,
    /// Between two blocks: the index of the next one, whether a block has come,
    /// and whether a tool block has come.
    Between { next: u32, any: bool, tool: bool },
    /// Inside a block: its index and kind, and whether a tool block has come.
    Inside { index: u32, kind: Kind, tool: bool },
    /// The reason for the stop has come.
    Closing,
    /// The message is complete.
    Done,
}

/// The index after `i`.
pub open spec fn next_index(i: u32) -> u32 {
    if i == u32::MAX {
        0
    } else {
        (i + 1) as u32
    }
}

/// Where an event takes a client; `None` where it does not expect the event.
pub open spec fn advance(p: Phase, e: EventView) -> Option<Phase> {
    match (p, e) {
        (Phase::Before, EventView::MessageStart { .. }) => Some(
            Phase::Between { next: 0, any: false, tool: false },
        ),
        (Phase::Between { next, any, tool }, EventView::TextStart { index }) => if index == next {
            Some(Phase::Inside { index, kind: Kind::Text, tool })
        } else {
            None
        },
        (Phase::Between { next, any, tool }, EventView::ThinkingStart { index }) => if index
            == next {
            Some(Phase::Inside { index, kind: Kind::Thinking, tool })
        } else {
            None
        },
        (Phase::Between { next, any, tool }, EventView::ToolStart { index, .. }) => if index
            == next {
            Some(Phase::Inside { index, kind: Kind::Tool, tool: true })
        } else {
            None
        },
        (
            Phase::Inside { index, kind, tool },
            EventView::Delta { index: i, kind: k, .. },
        ) => if i == index && k == kind {
            Some(p)
        } else {
            None
        },
        (Phase::Inside { index, kind, tool }, EventView::BlockStop { index: i }) => if i == index {
            Some(Phase::Between { next: next_index(index), any: true, tool })
        } else {
            None
        },
        (Phase::Between { next, any, tool }, EventView::MessageDelta { tool_use }) => if any
            && tool_use == tool {
            Some(Phase::Closing)
        } else {
            None
        },
        (Phase::Closing, EventView::MessageStop) => Some(Phase::Done),
        _ => None,
    }
}

/// Where a sequence of events takes a client.
pub open spec fn reached(events: Seq<EventView>) -> Option<Phase>
    decreases events.len(),
{
    if events.len() == 0 {
        Some(Phase::Before)
    } else {
        match reached(events.drop_last()) {
            Some(p) => advance(p, events.last()),
            None => None,
        }
    }
}

/// What the text and thinking deltas among the events say, one after the other.
pub open spec fn spoken(events: Seq<EventView>) -> Seq<char>
    decreases events.len(),
{
    if events.len() == 0 {
        Seq::empty()
    } else {
        let before = spoken(events.drop_last());
        match events.last() {
            EventView::Delta { kind, text, .. } => if kind == Kind::Tool {
                before
            } else {
                before + text
            },
            _ => before,
        }
    }
}

/// Before the first block nothing is said.
pub proof fn lemma_nothing_said(events: Seq<EventView>)
    ensures
        reached(events) == Some(Phase::Before) ==> spoken(events).len() == 0,
        reached(events) matches Some(Phase::Between { any: false, .. }) ==> spoken(events).len()
            == 0,
    decreases events.len(),
{
    if events.len() > 0 {
        lemma_nothing_said(events.drop_last());
    }
}

/// One more event.
pub proof fn lemma_reached_push(events: Seq<EventView>, e: EventView)
    ensures
        reached(events.push(e)) == (match reached(events) {
            Some(p) => advance(p, e),
            None => None,
        }),
        spoken(events.push(e)) == (match e {
            EventView::Delta { kind, text, .. } => if kind == Kind::Tool {
                spoken(events)
            } else {
                spoken(events) + text
            },
            _ => spoken(events),
        }),
{
    assert(events.push(e).drop_last() =~= events);
}

} // verus!
