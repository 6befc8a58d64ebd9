//! What a client finds in events and chunks as they go over the wire.
use vstd::prelude::*;

use crate::events;
use crate::events::{EventView, Kind};
use crate::fallback;
use crate::json;
use crate::passthrough;
use crate::text;

verus! {

/// Whether a member with the name and the value is among the members.
pub open spec fn has_member(
    m: Seq<(Seq<char>, Seq<char>)>,
    key: Seq<char>,
    value: Seq<char>,
) -> bool {
    exists|i: int| 0 <= i < m.len() && #[trigger] m[i] == (key, value)
}

proof fn lemma_has_member(
    m: Seq<(Seq<char>, Seq<char>)>,
    i: int,
    key: Seq<char>,
    value: Seq<char>,
)
    requires
        0 <= i < m.len(),
        m[i] == (key, value),
    ensures
        has_member(m, key, value),
{
}

/// Whether an object has a member with the name and the value, however the
/// others are.
pub open spec fn object_with(x: Seq<char>, key: Seq<char>, value: Seq<char>) -> bool {
    exists|m: Seq<(Seq<char>, Seq<char>)>|
        x == #[trigger] json::object_text(m) && has_member(m, key, value)
}

/// An object has the members that it is written of.
pub proof fn lemma_object_with(
    m: Seq<(Seq<char>, Seq<char>)>,
    i: int,
    key: Seq<char>,
    value: Seq<char>,
)
    requires
        0 <= i < m.len(),
        m[i] == (key, value),
    ensures
        object_with(json::object_text(m), key, value),
{
    lemma_has_member(m, i, key, value);
}

/// An event is two lines and a blank one: its name, and the data, an object
/// with the name as its type.
pub proof fn law_event_framed(e: EventView, fresh: Seq<char>) -> (m: Seq<(Seq<char>, Seq<char>)>)
    ensures
        events::event_text(e, fresh) == "event: "@ + events::event_name(e) + "\ndata: "@
            + json::object_text(m) + "\n\n"@,
        has_member(m, "type"@, json::quoted(events::event_name(e))),
        e matches EventView::TextStart { index } ==> has_member(
            m,
            "index"@,
            text::decimal(index as nat),
        ),
        e matches EventView::ThinkingStart { index } ==> has_member(
            m,
            "index"@,
            text::decimal(index as nat),
        ),
        e matches EventView::ToolStart { index, .. } ==> has_member(
            m,
            "index"@,
            text::decimal(index as nat),
        ),
        e matches EventView::Delta { index, .. } ==> has_member(
            m,
            "index"@,
            text::decimal(index as nat),
        ),
        e matches EventView::BlockStop { index } ==> has_member(
            m,
            "index"@,
            text::decimal(index as nat),
        ),
{
    let kind = json::quoted(events::event_name(e));
    match e {
        EventView::MessageStart { message, model } => {
            let m = seq![("message"@, events::message_body(message, model)), ("type"@, kind)];
            lemma_has_member(m, 1, "type"@, kind);
            m
        },
        EventView::TextStart { index } => {
            let b = json::object2("text"@, json::quoted(""@), "type"@, json::quoted("text"@));
            let m = seq![
                ("content_block"@, b),
                ("index"@, text::decimal(index as nat)),
                ("type"@, kind),
            ];
            lemma_has_member(m, 1, "index"@, text::decimal(index as nat));
            lemma_has_member(m, 2, "type"@, kind);
            m
        },
        EventView::ThinkingStart { index } => {
            let b = json::object2(
                "thinking"@,
                json::quoted(""@),
                "type"@,
                json::quoted("thinking"@),
            );
            let m = seq![
                ("content_block"@, b),
                ("index"@, text::decimal(index as nat)),
                ("type"@, kind),
            ];
            lemma_has_member(m, 1, "index"@, text::decimal(index as nat));
            lemma_has_member(m, 2, "type"@, kind);
            m
        },
        EventView::ToolStart { index, id, name } => {
            let b = events::tool_body(
                match id {
                    Some(given) => given,
                    None => fresh,
                },
                name,
            );
            let m = seq![
                ("content_block"@, b),
                ("index"@, text::decimal(index as nat)),
                ("type"@, kind),
            ];
            lemma_has_member(m, 1, "index"@, text::decimal(index as nat));
            lemma_has_member(m, 2, "type"@, kind);
            m
        },
        EventView::Delta { index, kind: k, text } => {
            let m = seq![
                ("delta"@, events::delta_body(k, text)),
                ("index"@, text::decimal(index as nat)),
                ("type"@, kind),
            ];
            lemma_has_member(m, 1, "index"@, text::decimal(index as nat));
            lemma_has_member(m, 2, "type"@, kind);
            m
        },
        EventView::BlockStop { index } => {
            let m = seq![("index"@, text::decimal(index as nat)), ("type"@, kind)];
            lemma_has_member(m, 0, "index"@, text::decimal(index as nat));
            lemma_has_member(m, 1, "type"@, kind);
            m
        },
        EventView::MessageDelta { tool_use } => {
            let reason = json::quoted(
                if tool_use {
                    "tool_use"@
                } else {
                    "end_turn"@
                },
            );
            let d = json::object2("stop_reason"@, reason, "stop_sequence"@, "null"@);
            let m = seq![
                ("delta"@, d),
                ("type"@, kind),
                ("usage"@, json::object_text(seq![("output_tokens"@, "0"@)])),
            ];
            lemma_has_member(m, 1, "type"@, kind);
            m
        },
        EventView::MessageStop => {
            let m = seq![("type"@, kind)];
            lemma_has_member(m, 0, "type"@, kind);
            m
        },
    }
}

/// Events of one step have one name: the starts of blocks, whatever their kind,
/// the deltas, and the ends of blocks.
pub proof fn law_event_names(i: u32, id: Option<Seq<char>>, t: Seq<char>, kind: Kind, used: bool)
    ensures
        events::event_name(EventView::MessageStart { message: t, model: t }) == "message_start"@,
        events::event_name(EventView::TextStart { index: i }) == "content_block_start"@,
        events::event_name(EventView::ThinkingStart { index: i }) == "content_block_start"@,
        events::event_name(EventView::ToolStart { index: i, id, name: t })
            == "content_block_start"@,
        events::event_name(EventView::Delta { index: i, kind, text: t }) == "content_block_delta"@,
        events::event_name(EventView::BlockStop { index: i }) == "content_block_stop"@,
        events::event_name(EventView::MessageDelta { tool_use: used }) == "message_delta"@,
        events::event_name(EventView::MessageStop) == "message_stop"@,
{
}

/// The member in which a delta of a kind carries its text.
pub open spec fn carried_as(kind: Kind) -> Seq<char> {
    match kind {
        Kind::Text => "text"@,
        Kind::Thinking => "thinking"@,
        Kind::Tool => "partial_json"@,
    }
}

/// A delta carries its whole text, as the member that its kind has for it, and
/// says of which kind it is.
pub proof fn law_delta_carries(index: u32, kind: Kind, t: Seq<char>, fresh: Seq<char>) -> (d: Seq<
    char,
>)
    ensures
        object_with(
            events::event_data(EventView::Delta { index, kind, text: t }, fresh),
            "delta"@,
            d,
        ),
        object_with(d, carried_as(kind), json::quoted(t)),
        kind == Kind::Text ==> object_with(d, "type"@, json::quoted("text_delta"@)),
        kind == Kind::Thinking ==> object_with(d, "type"@, json::quoted("thinking_delta"@)),
        kind == Kind::Tool ==> object_with(d, "type"@, json::quoted("input_json_delta"@)),
{
    let d = events::delta_body(kind, t);
    let name = json::quoted(events::delta_name(kind));
    let inner = seq![(carried_as(kind), json::quoted(t)), ("type"@, name)];
    assert(d == json::object_text(inner));
    lemma_object_with(inner, 0, carried_as(kind), json::quoted(t));
    lemma_object_with(inner, 1, "type"@, name);
    let e = EventView::Delta { index, kind, text: t };
    let outer = seq![
        ("delta"@, d),
        ("index"@, text::decimal(index as nat)),
        ("type"@, json::quoted(events::event_name(e))),
    ];
    lemma_object_with(outer, 0, "delta"@, d);
    d
}

/// A tool block starts with the name of the tool and the identifier that it was
/// given, or else a fresh one; its input is still empty.
pub proof fn law_tool_announced(
    index: u32,
    id: Option<Seq<char>>,
    name: Seq<char>,
    fresh: Seq<char>,
) -> (b: Seq<char>)
    ensures
        object_with(
            events::event_data(EventView::ToolStart { index, id, name }, fresh),
            "content_block"@,
            b,
        ),
        object_with(b, "type"@, json::quoted("tool_use"@)),
        object_with(b, "name"@, json::quoted(name)),
        object_with(b, "input"@, json::empty_object()),
        id matches Some(given) ==> object_with(b, "id"@, json::quoted(given)),
        id is None ==> object_with(b, "id"@, json::quoted(fresh)),
{
    let known = match id {
        Some(given) => given,
        None => fresh,
    };
    let b = events::tool_body(known, name);
    let inner = seq![
        ("id"@, json::quoted(known)),
        ("input"@, json::empty_object()),
        ("name"@, json::quoted(name)),
        ("type"@, json::quoted("tool_use"@)),
    ];
    lemma_object_with(inner, 0, "id"@, json::quoted(known));
    lemma_object_with(inner, 1, "input"@, json::empty_object());
    lemma_object_with(inner, 2, "name"@, json::quoted(name));
    lemma_object_with(inner, 3, "type"@, json::quoted("tool_use"@));
    let e = EventView::ToolStart { index, id, name };
    let outer = seq![
        ("content_block"@, b),
        ("index"@, text::decimal(index as nat)),
        ("type"@, json::quoted(events::event_name(e))),
    ];
    lemma_object_with(outer, 0, "content_block"@, b);
    b
}

/// A block of text or of thinking starts empty, and says of which kind it is.
pub proof fn law_block_announced(index: u32, fresh: Seq<char>) -> (r: (Seq<char>, Seq<char>))
    ensures
        object_with(
            events::event_data(EventView::TextStart { index }, fresh),
            "content_block"@,
            r.0,
        ),
        object_with(r.0, "type"@, json::quoted("text"@)),
        object_with(r.0, "text"@, json::quoted(""@)),
        object_with(
            events::event_data(EventView::ThinkingStart { index }, fresh),
            "content_block"@,
            r.1,
        ),
        object_with(r.1, "type"@, json::quoted("thinking"@)),
        object_with(r.1, "thinking"@, json::quoted(""@)),
{
    let kind = json::quoted("content_block_start"@);
    let at = text::decimal(index as nat);
    let a = seq![("text"@, json::quoted(""@)), ("type"@, json::quoted("text"@))];
    let b = seq![("thinking"@, json::quoted(""@)), ("type"@, json::quoted("thinking"@))];
    let x = json::object_text(a);
    let y = json::object_text(b);
    lemma_object_with(a, 0, "text"@, json::quoted(""@));
    lemma_object_with(a, 1, "type"@, json::quoted("text"@));
    lemma_object_with(b, 0, "thinking"@, json::quoted(""@));
    lemma_object_with(b, 1, "type"@, json::quoted("thinking"@));
    lemma_object_with(
        seq![("content_block"@, x), ("index"@, at), ("type"@, kind)],
        0,
        "content_block"@,
        x,
    );
    lemma_object_with(
        seq![("content_block"@, y), ("index"@, at), ("type"@, kind)],
        0,
        "content_block"@,
        y,
    );
    (x, y)
}

/// The start of a message gives its identifier and the name of the model; it is
/// one of the assistant.
pub proof fn law_message_announced(message: Seq<char>, model: Seq<char>, fresh: Seq<char>) -> (b:
    Seq<char>)
    ensures
        object_with(
            events::event_data(EventView::MessageStart { message, model }, fresh),
            "message"@,
            b,
        ),
        object_with(b, "id"@, json::quoted(message)),
        object_with(b, "model"@, json::quoted(model)),
        object_with(b, "role"@, json::quoted("assistant"@)),
        object_with(b, "type"@, json::quoted("message"@)),
        object_with(b, "content"@, "[]"@),
{
    let b = events::message_body(message, model);
    let inner = seq![
        ("content"@, "[]"@),
        ("id"@, json::quoted(message)),
        ("model"@, json::quoted(model)),
        ("role"@, json::quoted("assistant"@)),
        ("stop_reason"@, "null"@),
        ("stop_sequence"@, "null"@),
        ("type"@, json::quoted("message"@)),
        ("usage"@, json::object2("input_tokens"@, "0"@, "output_tokens"@, "0"@)),
    ];
    lemma_object_with(inner, 0, "content"@, "[]"@);
    lemma_object_with(inner, 1, "id"@, json::quoted(message));
    lemma_object_with(inner, 2, "model"@, json::quoted(model));
    lemma_object_with(inner, 3, "role"@, json::quoted("assistant"@));
    lemma_object_with(inner, 6, "type"@, json::quoted("message"@));
    let outer = seq![("message"@, b), ("type"@, json::quoted("message_start"@))];
    lemma_object_with(outer, 0, "message"@, b);
    b
}

/// A message that used a tool stops for it; any other ends the turn.
pub proof fn law_stop_told(tool_use: bool, fresh: Seq<char>) -> (d: Seq<char>)
    ensures
        object_with(
            events::event_data(EventView::MessageDelta { tool_use }, fresh),
            "delta"@,
            d,
        ),
        tool_use ==> object_with(d, "stop_reason"@, json::quoted("tool_use"@)),
        !tool_use ==> object_with(d, "stop_reason"@, json::quoted("end_turn"@)),
{
    let reason = json::quoted(
        if tool_use {
            "tool_use"@
        } else {
            "end_turn"@
        },
    );
    let inner = seq![("stop_reason"@, reason), ("stop_sequence"@, "null"@)];
    let d = json::object_text(inner);
    lemma_object_with(inner, 0, "stop_reason"@, reason);
    let outer = seq![
        ("delta"@, d),
        ("type"@, json::quoted("message_delta"@)),
        ("usage"@, json::object_text(seq![("output_tokens"@, "0"@)])),
    ];
    lemma_object_with(outer, 0, "delta"@, d);
    d
}

// ---------------------------------------------------------------------------
// Lines
// ---------------------------------------------------------------------------

/// Whether the text is one line.
pub open spec fn one_line(s: Seq<char>) -> bool {
    !s.contains('\n')
}

proof fn lemma_one_line(a: Seq<char>, b: Seq<char>)
    requires
        one_line(a),
        one_line(b),
    ensures
        one_line(a + b),
{
    if (a + b).contains('\n') {
        let i = choose|i: int| 0 <= i < (a + b).len() && (a + b)[i] == '\n';
        if i < a.len() {
            assert(a.contains(a[i]));
        } else {
            assert(b.contains(b[i - a.len()]));
        }
    }
}

proof fn lemma_escaped_line(s: Seq<char>)
    ensures
        one_line(json::escaped(s)),
    decreases s.len(),
{
    if s.len() > 0 {
        lemma_escaped_line(s.drop_first());
        let c = s[0];
        let v = c as u32;
        if v < 32 {
            assert(json::hex_digit((v / 16) as nat) != '\n');
            assert(json::hex_digit((v % 16) as nat) != '\n');
        }
        assert('\n' as u32 == 10);
        assert(one_line(json::escaped_char(c)));
        lemma_one_line(json::escaped_char(c), json::escaped(s.drop_first()));
    }
}

/// A string, whatever is in it, is written on one line.
pub proof fn law_quoted_line(s: Seq<char>)
    ensures
        one_line(json::quoted(s)),
{
    lemma_escaped_line(s);
    let q = seq!['"'];
    assert(one_line(q));
    lemma_one_line(q, json::escaped(s));
    lemma_one_line(q + json::escaped(s), q);
}

proof fn lemma_joined_line(parts: Seq<Seq<char>>, sep: Seq<char>)
    requires
        one_line(sep),
        forall|i: int| 0 <= i < parts.len() ==> one_line(#[trigger] parts[i]),
    ensures
        one_line(text::joined(parts, sep)),
    decreases parts.len(),
{
    if parts.len() > 1 {
        let front = parts.drop_last();
        assert forall|i: int| 0 <= i < front.len() implies one_line(#[trigger] front[i]) by {
            assert(front[i] == parts[i]);
        }
        lemma_joined_line(front, sep);
        assert(one_line(parts[parts.len() - 1]));
        lemma_one_line(text::joined(front, sep), sep);
        lemma_one_line(text::joined(front, sep) + sep, parts.last());
    } else if parts.len() == 1 {
        assert(one_line(parts[0]));
    }
}

/// An object whose values are written on one line is so too.
proof fn lemma_object_line(m: Seq<(Seq<char>, Seq<char>)>)
    requires
        forall|i: int| 0 <= i < m.len() ==> one_line((#[trigger] m[i]).1),
    ensures
        one_line(json::object_text(m)),
{
    let parts = m.map_values(|e: (Seq<char>, Seq<char>)| json::member_text(e));
    assert forall|i: int| 0 <= i < parts.len() implies one_line(#[trigger] parts[i]) by {
        let e = m[i];
        law_quoted_line(e.0);
        assert(one_line(seq![':']));
        lemma_one_line(json::quoted(e.0), seq![':']);
        lemma_one_line(json::quoted(e.0) + seq![':'], e.1);
    }
    assert(one_line(seq![',']));
    lemma_joined_line(parts, seq![',']);
    assert(one_line(seq!['{']));
    assert(one_line(seq!['}']));
    lemma_one_line(seq!['{'], text::joined(parts, seq![',']));
    lemma_one_line(seq!['{'] + text::joined(parts, seq![',']), seq!['}']);
}

proof fn lemma_decimal_line(n: nat)
    ensures
        one_line(text::decimal(n)),
    decreases n,
{
    if n >= 10 {
        lemma_decimal_line(n / 10);
        let d = seq![text::digit(n % 10)];
        assert(one_line(d));
        lemma_one_line(text::decimal(n / 10), d);
        assert(text::decimal(n) =~= text::decimal(n / 10) + d);
    }
}

proof fn lemma_two_line(k1: Seq<char>, v1: Seq<char>, k2: Seq<char>, v2: Seq<char>)
    requires
        one_line(v1),
        one_line(v2),
    ensures
        one_line(json::object2(k1, v1, k2, v2)),
{
    lemma_object_line(seq![(k1, v1), (k2, v2)]);
}

proof fn lemma_three_line(
    k1: Seq<char>,
    v1: Seq<char>,
    k2: Seq<char>,
    v2: Seq<char>,
    k3: Seq<char>,
    v3: Seq<char>,
)
    requires
        one_line(v1),
        one_line(v2),
        one_line(v3),
    ensures
        one_line(json::object3(k1, v1, k2, v2, k3, v3)),
{
    lemma_object_line(seq![(k1, v1), (k2, v2), (k3, v3)]);
}

proof fn lemma_one_member_line(k: Seq<char>, v: Seq<char>)
    requires
        one_line(v),
    ensures
        one_line(json::object_text(seq![(k, v)])),
{
    lemma_object_line(seq![(k, v)]);
}

proof fn lemma_literals_line()
    ensures
        one_line("[]"@),
        one_line("null"@),
        one_line("0"@),
{
    reveal_strlit("[]");
    reveal_strlit("null");
    reveal_strlit("0");
}

proof fn lemma_message_line(message: Seq<char>, model: Seq<char>)
    ensures
        one_line(events::message_body(message, model)),
{
    lemma_literals_line();
    law_quoted_line(message);
    law_quoted_line(model);
    law_quoted_line("assistant"@);
    law_quoted_line("message"@);
    lemma_two_line("input_tokens"@, "0"@, "output_tokens"@, "0"@);
    lemma_object_line(
        seq![
            ("content"@, "[]"@),
            ("id"@, json::quoted(message)),
            ("model"@, json::quoted(model)),
            ("role"@, json::quoted("assistant"@)),
            ("stop_reason"@, "null"@),
            ("stop_sequence"@, "null"@),
            ("type"@, json::quoted("message"@)),
            ("usage"@, json::object2("input_tokens"@, "0"@, "output_tokens"@, "0"@)),
        ],
    );
}

proof fn lemma_tool_line(id: Seq<char>, name: Seq<char>)
    ensures
        one_line(events::tool_body(id, name)),
{
    law_quoted_line(id);
    law_quoted_line(name);
    law_quoted_line("tool_use"@);
    json::lemma_empty_object();
    assert(one_line(json::empty_object()));
    lemma_object_line(
        seq![
            ("id"@, json::quoted(id)),
            ("input"@, json::empty_object()),
            ("name"@, json::quoted(name)),
            ("type"@, json::quoted("tool_use"@)),
        ],
    );
}

/// The data of an event is one line, whatever the texts in it are: a blank line
/// comes only after the event.
pub proof fn law_event_lines(e: EventView, fresh: Seq<char>)
    ensures
        one_line(events::event_data(e, fresh)),
{
    let kind = json::quoted(events::event_name(e));
    law_quoted_line(events::event_name(e));
    match e {
        EventView::MessageStart { message, model } => {
            lemma_message_line(message, model);
            lemma_two_line("message"@, events::message_body(message, model), "type"@, kind);
        },
        EventView::TextStart { index } => {
            law_quoted_line(""@);
            law_quoted_line("text"@);
            lemma_decimal_line(index as nat);
            lemma_two_line("text"@, json::quoted(""@), "type"@, json::quoted("text"@));
            let b = json::object2("text"@, json::quoted(""@), "type"@, json::quoted("text"@));
            lemma_three_line(
                "content_block"@,
                b,
                "index"@,
                text::decimal(index as nat),
                "type"@,
                kind,
            );
        },
        EventView::ThinkingStart { index } => {
            law_quoted_line(""@);
            law_quoted_line("thinking"@);
            lemma_decimal_line(index as nat);
            let k = json::quoted("thinking"@);
            lemma_two_line("thinking"@, json::quoted(""@), "type"@, k);
            let b = json::object2("thinking"@, json::quoted(""@), "type"@, k);
            lemma_three_line(
                "content_block"@,
                b,
                "index"@,
                text::decimal(index as nat),
                "type"@,
                kind,
            );
        },
        EventView::ToolStart { index, id, name } => {
            let known = match id {
                Some(given) => given,
                None => fresh,
            };
            lemma_decimal_line(index as nat);
            lemma_tool_line(known, name);
            lemma_three_line(
                "content_block"@,
                events::tool_body(known, name),
                "index"@,
                text::decimal(index as nat),
                "type"@,
                kind,
            );
        },
        EventView::Delta { index, kind: k, text } => {
            law_quoted_line(text);
            law_quoted_line(events::delta_name(k));
            lemma_decimal_line(index as nat);
            lemma_two_line(
                carried_as(k),
                json::quoted(text),
                "type"@,
                json::quoted(events::delta_name(k)),
            );
            lemma_three_line(
                "delta"@,
                events::delta_body(k, text),
                "index"@,
                text::decimal(index as nat),
                "type"@,
                kind,
            );
        },
        EventView::BlockStop { index } => {
            lemma_decimal_line(index as nat);
            lemma_two_line("index"@, text::decimal(index as nat), "type"@, kind);
        },
        EventView::MessageDelta { tool_use } => {
            lemma_literals_line();
            let reason = if tool_use {
                "tool_use"@
            } else {
                "end_turn"@
            };
            law_quoted_line(reason);
            lemma_two_line("stop_reason"@, json::quoted(reason), "stop_sequence"@, "null"@);
            lemma_one_member_line("output_tokens"@, "0"@);
            lemma_three_line(
                "delta"@,
                json::object2("stop_reason"@, json::quoted(reason), "stop_sequence"@, "null"@),
                "type"@,
                kind,
                "usage"@,
                json::object_text(seq![("output_tokens"@, "0"@)]),
            );
        },
        EventView::MessageStop => {
            lemma_one_member_line("type"@, kind);
        },
    }
}

/// An identifier is given to a tool block that has none, and it is of the form
/// that clients know; one that the block has is kept.
pub proof fn law_tool_identified(index: u32, id: Option<Seq<char>>, name: Seq<char>, t: Seq<char>)
    requires
        events::is_event_text(EventView::ToolStart { index, id, name }, t),
    ensures
        exists|known: Seq<char>|
            (id matches Some(given) ==> known == given) && (id is None ==> fallback::is_tool_id(
                known,
            )) && t == #[trigger] events::event_text(
                EventView::ToolStart { index, id: Some(known), name },
                Seq::empty(),
            ),
{
    let e = EventView::ToolStart { index, id, name };
    let fresh = choose|fresh: Seq<char>|
        fallback::is_tool_id(fresh) && t == #[trigger] events::event_text(e, fresh);
    let known = match id {
        Some(given) => given,
        None => fresh,
    };
    let f = EventView::ToolStart { index, id: Some(known), name };
    assert(events::event_text(f, Seq::empty()) == t);
}

// ---------------------------------------------------------------------------
// Numbers
// ---------------------------------------------------------------------------

/// The number that digits write.
pub open spec fn number(s: Seq<char>) -> int
    decreases s.len(),
{
    if s.len() == 0 {
        0
    } else {
        number(s.drop_last()) * 10 + (s.last() as u32 - 48)
    }
}

/// An index is written in digits that give it back.
pub proof fn law_decimal(n: nat)
    ensures
        number(text::decimal(n)) == n,
        forall|i: int|
            0 <= i < text::decimal(n).len() ==> '0' <= #[trigger] text::decimal(n)[i] <= '9',
        text::decimal(n).len() > 0,
    decreases n,
{
    reveal_with_fuel(number, 2);
    if n < 10 {
        assert(text::decimal(n).drop_last() =~= Seq::<char>::empty());
    } else {
        law_decimal(n / 10);
        let front = text::decimal(n / 10);
        assert(text::decimal(n).drop_last() =~= front);
        assert forall|i: int| 0 <= i < text::decimal(n).len() implies '0' <= #[trigger] text::decimal(
            n,
        )[i] <= '9' by {
            if i < front.len() {
                assert(text::decimal(n)[i] == front[i]);
            }
        }
    }
}

// ---------------------------------------------------------------------------
// Chunks
// ---------------------------------------------------------------------------

/// Whether an array has an item and no other.
pub open spec fn only_item(x: Seq<char>, item: Seq<char>) -> bool {
    x == json::array_text(seq![item])
}

/// A tool call that was read from markup goes to an OpenAI client as the one call
/// of the one choice of a chunk: with its identifier, its name and all its
/// arguments, as a string.
pub proof fn law_call_chunk(id: Seq<char>, name: Seq<char>, args: Seq<char>) -> (r: (
    Seq<char>,
    Seq<char>,
    Seq<char>,
    Seq<char>,
    Seq<char>,
    Seq<char>,
    Seq<char>,
))
    ensures
        ({
            let (data, choices, choice, delta, calls, call, function) = r;
            &&& passthrough::call_chunk(id, name, args) == "data: "@ + data + "\n\n"@
            &&& object_with(data, "choices"@, choices)
            &&& only_item(choices, choice)
            &&& object_with(choice, "delta"@, delta)
            &&& object_with(delta, "tool_calls"@, calls)
            &&& only_item(calls, call)
            &&& object_with(call, "id"@, json::quoted(id))
            &&& object_with(call, "type"@, json::quoted("function"@))
            &&& object_with(call, "index"@, "0"@)
            &&& object_with(call, "function"@, function)
            &&& object_with(function, "name"@, json::quoted(name))
            &&& object_with(function, "arguments"@, json::quoted(args))
        }),
{
    let f = seq![("arguments"@, json::quoted(args)), ("name"@, json::quoted(name))];
    let function = json::object_text(f);
    lemma_object_with(f, 0, "arguments"@, json::quoted(args));
    lemma_object_with(f, 1, "name"@, json::quoted(name));
    let c = seq![
        ("function"@, function),
        ("id"@, json::quoted(id)),
        ("index"@, "0"@),
        ("type"@, json::quoted("function"@)),
    ];
    let call = json::object_text(c);
    lemma_object_with(c, 0, "function"@, function);
    lemma_object_with(c, 1, "id"@, json::quoted(id));
    lemma_object_with(c, 2, "index"@, "0"@);
    lemma_object_with(c, 3, "type"@, json::quoted("function"@));
    let calls = json::array_text(seq![call]);
    let d = seq![("tool_calls"@, calls)];
    let delta = json::object_text(d);
    lemma_object_with(d, 0, "tool_calls"@, calls);
    let h = seq![("delta"@, delta)];
    let choice = json::object_text(h);
    lemma_object_with(h, 0, "delta"@, delta);
    let choices = json::array_text(seq![choice]);
    let b = seq![("choices"@, choices)];
    lemma_object_with(b, 0, "choices"@, choices);
    (json::object_text(b), choices, choice, delta, calls, call, function)
}

/// Content goes to an OpenAI client on one line, whatever is in it.
pub proof fn law_content_chunk_line(t: Seq<char>)
    ensures
        ({
            let x = passthrough::content_chunk(t);
            &&& x.len() > 2
            &&& x.skip(x.len() - 2) == seq!['\n', '\n']
            &&& one_line(x.take(x.len() - 2))
        }),
{
    reveal_strlit("data: {\"choices\":[{\"delta\":{\"content\":");
    reveal_strlit("}}]}\n\n");
    let a = "data: {\"choices\":[{\"delta\":{\"content\":"@;
    let z = seq!['}', '}', ']', '}'];
    let x = passthrough::content_chunk(t);
    law_quoted_line(t);
    assert(one_line(a));
    assert(one_line(z));
    lemma_one_line(a, json::quoted(t));
    lemma_one_line(a + json::quoted(t), z);
    assert(x.take(x.len() - 2) =~= a + json::quoted(t) + z);
    assert(x.skip(x.len() - 2) =~= seq!['\n', '\n']);
}

} // verus!
