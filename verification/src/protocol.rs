//! What holds of every stream: the events come in the order that a client
//! expects, nothing that was said is taken back, and every message ends.
use vstd::prelude::*;

use crate::converter;
use crate::dsml;
use crate::events;
use crate::events::{EventView, Kind, Phase};
use crate::fallback;
use crate::recovery;
use crate::stream;
use crate::stream::{CallDelta, StreamView};
use crate::text;
use crate::tools;
use crate::tools::ToolEntry;

verus! {

// ---------------------------------------------------------------------------
// Invariants
// ---------------------------------------------------------------------------

/// A client has followed the stream this far: it is inside the block that is
/// open, or between two blocks, it expects the next index, and it knows whether
/// a tool was used.
pub open spec fn ordered(s: StreamView) -> bool {
    match s.open {
        Some(kind) => events::reached(s.out) == Some(
            Phase::Inside { index: s.index, kind, tool: s.tool_used },
        ),
        None => match events::reached(s.out) {
            Some(Phase::Between { next, any, tool }) => next == s.index && tool == s.tool_used && (
            tool ==> any),
            _ => false,
        },
    }
}

/// What the stream remembers as said is what its deltas say.
pub open spec fn remembered(s: StreamView) -> bool {
    s.generated == events::spoken(s.out)
}

/// Both hold.
pub open spec fn consistent(s: StreamView) -> bool {
    ordered(s) && remembered(s)
}

/// At least one block has been opened.
pub open spec fn has_block(s: StreamView) -> bool {
    match events::reached(s.out) {
        Some(Phase::Between { any, .. }) => any,
        Some(Phase::Inside { .. }) => true,
        _ => false,
    }
}

/// `b` comes after `a` in one stream: the same message and tools, every event
/// of `a` in its place, a use of a tool not forgotten.
pub open spec fn follows(a: StreamView, b: StreamView) -> bool {
    &&& b.msg_id == a.msg_id
    &&& b.model == a.model
    &&& b.agent == a.agent
    &&& b.tools == a.tools
    &&& b.taken == a.taken
    &&& a.out.len() <= b.out.len()
    &&& b.out.take(a.out.len() as int) == a.out
    &&& a.tool_used ==> b.tool_used
    &&& has_block(a) && consistent(a) ==> has_block(b)
}

/// Every tool block is of a tool that is offered.
pub open spec fn offered_only(s: StreamView) -> bool {
    forall|i: int|
        0 <= i < s.out.len() ==> ((#[trigger] s.out[i]) matches EventView::ToolStart { name, .. }
            ==> tools::has_tool(s.tools, name))
}

/// What every step of a stream keeps.
pub open spec fn step(a: StreamView, b: StreamView) -> bool {
    &&& follows(a, b)
    &&& consistent(a) ==> consistent(b)
}

/// A step that opens no block of a tool that is not offered.
pub open spec fn safe_step(a: StreamView, b: StreamView) -> bool {
    &&& step(a, b)
    &&& offered_only(a) ==> offered_only(b)
}

proof fn lemma_safe_step_trans(a: StreamView, b: StreamView, c: StreamView)
    requires
        safe_step(a, b),
        safe_step(b, c),
    ensures
        safe_step(a, c),
{
    lemma_step_trans(a, b, c);
}

proof fn lemma_step_trans(a: StreamView, b: StreamView, c: StreamView)
    requires
        step(a, b),
        step(b, c),
    ensures
        step(a, c),
{
    assert(c.out.take(a.out.len() as int) =~= c.out.take(b.out.len() as int).take(
        a.out.len() as int,
    ));
}

proof fn lemma_same(a: StreamView, b: StreamView)
    requires
        b.msg_id == a.msg_id,
        b.model == a.model,
        b.agent == a.agent,
        b.tools == a.tools,
        b.taken == a.taken,
        b.out == a.out,
        b.open == a.open,
        b.index == a.index,
        b.tool_used == a.tool_used,
        b.generated == a.generated,
    ensures
        safe_step(a, b),
{
    assert(b.out.take(a.out.len() as int) =~= a.out);
}

/// A step that sends one event.
proof fn lemma_sent(a: StreamView, b: StreamView, e: EventView)
    requires
        b.msg_id == a.msg_id,
        b.model == a.model,
        b.agent == a.agent,
        b.tools == a.tools,
        b.taken == a.taken,
        b.out == a.out.push(e),
    ensures
        b.out.take(a.out.len() as int) == a.out,
        !(e is ToolStart) && offered_only(a) ==> offered_only(b),
        events::reached(b.out) == (match events::reached(a.out) {
            Some(p) => events::advance(p, e),
            None => None,
        }),
        events::spoken(b.out) == (match e {
            EventView::Delta { kind, text, .. } => if kind == Kind::Tool {
                events::spoken(a.out)
            } else {
                events::spoken(a.out) + text
            },
            _ => events::spoken(a.out),
        }),
{
    events::lemma_reached_push(a.out, e);
    assert(b.out.take(a.out.len() as int) =~= a.out);
    assert forall|i: int| !(e is ToolStart) && offered_only(a) && 0 <= i < b.out.len() implies ((
    #[trigger] b.out[i]) matches EventView::ToolStart { name, .. } ==> tools::has_tool(
        b.tools,
        name,
    )) by {
        if i < a.out.len() {
            assert(b.out[i] == a.out[i]);
        }
    }
}

pub proof fn lemma_closed(s: StreamView)
    ensures
        safe_step(s, stream::closed(s)),
        s.open is Some && consistent(s) ==> has_block(stream::closed(s)),
        stream::closed(s).open is None,
{
    if s.open is Some {
        lemma_sent(s, stream::closed(s), EventView::BlockStop { index: s.index });
    } else {
        lemma_same(s, s);
    }
}

pub proof fn lemma_text_sent(s: StreamView, t: Seq<char>)
    ensures
        safe_step(s, stream::text_sent(s, t)),
        t.len() > 0 && consistent(s) ==> has_block(stream::text_sent(s, t)),
        stream::text_sent(s, t).generated == s.generated + t,
        t.len() > 0 ==> stream::text_sent(s, t).open == Some(Kind::Text),
        stream::text_sent(s, t).text_buffer == s.text_buffer,
        stream::text_sent(s, t).intercept == s.intercept,
        stream::text_sent(s, t).intercept_buffer == s.intercept_buffer,
{
    if t.len() == 0 {
        lemma_same(s, s);
        assert(s.generated + t =~= s.generated);
    } else {
        let c = stream::closed(s);
        lemma_closed(s);
        let o0 = stream::text_opened(s);
        if s.open == Some(Kind::Text) {
            lemma_same(s, o0);
        } else {
            lemma_sent(c, o0, EventView::TextStart { index: c.index });
            lemma_safe_step_trans(s, c, o0);
        }
        let o = stream::text_opened(StreamView { generated: s.generated + t, ..s });
        assert(o == StreamView { generated: s.generated + t, ..o0 });
        let r = stream::text_sent(s, t);
        lemma_sent(o0, r, EventView::Delta { index: o.index, kind: Kind::Text, text: t });
        lemma_safe_step_trans(s, o0, r);
    }
}

pub proof fn lemma_flushed(s: StreamView)
    ensures
        safe_step(s, stream::flushed(s)),
        stream::flushed(s).intercept == s.intercept,
        s.intercept is None ==> stream::flushed(s).text_buffer.len() == 0,
        s.intercept is None ==> stream::flushed(s).generated == s.generated + s.text_buffer,
{
    if s.text_buffer.len() > 0 && s.intercept is None {
        let e = StreamView { text_buffer: Seq::empty(), ..s };
        lemma_same(s, e);
        lemma_text_sent(e, s.text_buffer);
        lemma_safe_step_trans(s, e, stream::flushed(s));
    } else {
        lemma_same(s, s);
        if s.text_buffer.len() == 0 {
            assert(s.generated + s.text_buffer =~= s.generated);
        }
    }
}

proof fn lemma_tool_opened(s: StreamView, id: Option<Seq<char>>, name: Seq<char>)
    ensures
        step(s, stream::tool_opened(s, id, name)),
        tools::has_tool(s.tools, name) ==> safe_step(s, stream::tool_opened(s, id, name)),
{
    let f = stream::flushed(s);
    let c = stream::closed(f);
    lemma_flushed(s);
    lemma_closed(f);
    lemma_safe_step_trans(s, f, c);
    let r = stream::tool_opened(s, id, name);
    let e = EventView::ToolStart { index: c.index, id, name };
    lemma_sent(c, r, e);
    lemma_step_trans(s, c, r);
    if tools::has_tool(s.tools, name) && offered_only(s) {
        assert forall|i: int| 0 <= i < r.out.len() implies ((
        #[trigger] r.out[i]) matches EventView::ToolStart { name, .. } ==> tools::has_tool(
            r.tools,
            name,
        )) by {
            if i < c.out.len() {
                assert(r.out[i] == c.out[i]);
            }
        }
    }
}

proof fn lemma_args_sent(s: StreamView, args: Seq<char>)
    ensures
        safe_step(s, stream::args_sent(s, args)),
{
    if s.open == Some(Kind::Tool) && args.len() > 0 {
        lemma_sent(
            s,
            stream::args_sent(s, args),
            EventView::Delta { index: s.index, kind: Kind::Tool, text: args },
        );
    } else {
        lemma_same(s, s);
    }
}

proof fn lemma_call_sent(s: StreamView, name: Seq<char>, args: Seq<char>)
    requires
        tools::has_tool(s.tools, name),
    ensures
        safe_step(s, stream::call_sent(s, name, args)),
        stream::call_sent(s, name, args).tool_used,
        stream::call_sent(s, name, args).open is None,
{
    let o = stream::tool_opened(s, None, name);
    let a = stream::args_sent(o, args);
    lemma_tool_opened(s, None, name);
    lemma_args_sent(o, args);
    lemma_closed(a);
    lemma_safe_step_trans(s, o, a);
    lemma_safe_step_trans(s, a, stream::call_sent(s, name, args));
}

/// Sending markup keeps the order of events.
pub proof fn lemma_markup_sent(s: StreamView, markup: Seq<char>)
    ensures
        safe_step(s, stream::markup_sent(s, markup)),
{
    let call = fallback::fallback_call(markup, s.tools);
    if call.0 != fallback::UNKNOWN@ && tools::has_tool(s.tools, call.0) {
        lemma_call_sent(s, call.0, call.1);
    } else {
        lemma_same(s, s);
    }
}

/// Looking through text keeps the order of events.
pub proof fn lemma_scanned(s: StreamView)
    ensures
        safe_step(s, stream::scanned(s)),
{
    let r = stream::scanned(s);
    if s.intercept is Some {
        lemma_same(s, s);
    } else {
        let norm = dsml::normalized(s.text_buffer);
        let n = text::byte_len(s.text_buffer);
        match stream::first_tag(norm) {
            Some((i, t)) => {
                let x = stream::text_sent(s, norm.take(i));
                lemma_text_sent(s, norm.take(i));
                lemma_same(x, r);
                lemma_safe_step_trans(s, x, r);
            },
            None => {
                if n > stream::HOLD_BACK {
                    let k = text::chars_within(s.text_buffer, n - stream::HOLD_BACK) as int;
                    let x = stream::text_sent(s, s.text_buffer.take(k));
                    lemma_text_sent(s, s.text_buffer.take(k));
                    lemma_same(x, r);
                    lemma_safe_step_trans(s, x, r);
                } else {
                    lemma_same(s, s);
                }
            },
        }
    }
}

/// Taking up what was collected keeps the order of events.
pub proof fn lemma_taken_up(s: StreamView, collected: Seq<char>, k: int)
    ensures
        safe_step(s, stream::taken_up(s, collected, k)),
{
    let m = stream::markup_sent(s, collected.take(k));
    let next = StreamView {
        intercept: None,
        intercept_buffer: Seq::empty(),
        text_buffer: collected.skip(k),
        ..m
    };
    lemma_markup_sent(s, collected.take(k));
    lemma_same(m, next);
    lemma_safe_step_trans(s, m, next);
    lemma_scanned(next);
    if collected.skip(k).len() > 0 {
        lemma_safe_step_trans(s, next, stream::taken_up(s, collected, k));
    }
}

/// Taking in a piece of text keeps the order of events, takes nothing back, and
/// calls no tool that is not offered.
pub proof fn law_content_taken(s: StreamView, content: Seq<char>)
    ensures
        safe_step(s, stream::content_taken(s, content)),
{
    match s.intercept {
        Some(t) => {
            let collected = s.intercept_buffer + content;
            match stream::markup_end(collected, t) {
                Some(k) => {
                    lemma_taken_up(s, collected, k);
                },
                None => {
                    lemma_same(s, StreamView { intercept_buffer: collected, ..s });
                },
            }
        },
        None => {
            let x = StreamView { text_buffer: s.text_buffer + content, ..s };
            lemma_same(s, x);
            lemma_scanned(x);
            lemma_safe_step_trans(s, x, stream::scanned(x));
        },
    }
}

proof fn lemma_finalized(s: StreamView)
    ensures
        safe_step(s, stream::finalized(s)),
        stream::finalized(s).intercept is None,
    decreases s.intercept_buffer.len(),
{
    match s.intercept {
        Some(t) => {
            let collected = s.intercept_buffer;
            let k = match stream::markup_end(collected, t) {
                Some(k) => k,
                None => collected.len() as int,
            };
            let next = stream::taken_up(s, collected, k);
            lemma_taken_up(s, collected, k);
            stream::lemma_taken_up_shrinks(s, t);
            if next.intercept is Some {
                lemma_finalized(next);
                lemma_safe_step_trans(s, next, stream::finalized(next));
            }
        },
        None => {
            lemma_same(s, s);
        },
    }
}

/// With nothing collected and nothing held back.
pub proof fn lemma_cleared(s: StreamView)
    ensures
        safe_step(s, stream::flushed(stream::finalized(s))),
        stream::flushed(stream::finalized(s)).text_buffer.len() == 0,
        stream::flushed(stream::finalized(s)).intercept is None,
{
    let f = stream::finalized(s);
    lemma_finalized(s);
    lemma_flushed(f);
    lemma_safe_step_trans(s, f, stream::flushed(f));
}

/// Taking in a piece of reasoning keeps the order of events, takes nothing
/// back, and calls no tool that is not offered. The piece goes into a thinking
/// block.
pub proof fn law_reasoning_taken(s: StreamView, t: Seq<char>)
    ensures
        safe_step(s, stream::reasoning_taken(s, t)),
        stream::reasoning_taken(s, t).open == Some(Kind::Thinking),
        stream::reasoning_taken(s, t).out.last() == (EventView::Delta {
            index: stream::reasoning_taken(s, t).index,
            kind: Kind::Thinking,
            text: t,
        }),
{
    let o = if s.open == Some(Kind::Thinking) {
        s
    } else {
        let f = stream::flushed(stream::finalized(s));
        let c = stream::closed(f);
        StreamView {
            open: Some(Kind::Thinking),
            ..stream::emitted(c, EventView::ThinkingStart { index: c.index })
        }
    };
    if s.open == Some(Kind::Thinking) {
        lemma_same(s, o);
    } else {
        let f = stream::flushed(stream::finalized(s));
        let c = stream::closed(f);
        lemma_cleared(s);
        lemma_closed(f);
        lemma_safe_step_trans(s, f, c);
        lemma_sent(c, o, EventView::ThinkingStart { index: c.index });
        lemma_safe_step_trans(s, c, o);
    }
    let r = stream::reasoning_taken(s, t);
    lemma_sent(o, r, EventView::Delta { index: o.index, kind: Kind::Thinking, text: t });
    lemma_safe_step_trans(s, o, r);
}

/// Taking in a native tool call keeps the order of events and takes nothing
/// back.
pub proof fn law_call_taken(s: StreamView, c: CallDelta)
    ensures
        step(s, stream::call_taken(s, c)),
        stream::call_taken(s, c).native.contains(c.index),
{
    let f = stream::flushed(stream::finalized(s));
    lemma_cleared(s);
    let name = match c.name {
        Some(n) => n,
        None => fallback::UNKNOWN@,
    };
    let x = stream::tool_opened(f, c.id, name);
    let o = if f.native.contains(c.index) {
        f
    } else {
        StreamView { native: f.native.insert(c.index), ..x }
    };
    if !f.native.contains(c.index) {
        lemma_tool_opened(f, c.id, name);
        lemma_step_trans(s, f, x);
        lemma_same(x, o);
        lemma_step_trans(s, x, o);
    }
    match c.arguments {
        Some(args) => {
            lemma_args_sent(o, args);
            lemma_step_trans(s, o, stream::args_sent(o, args));
        },
        None => {},
    }
}

/// Settling keeps the order of events, takes nothing back, and leaves nothing
/// open or held back; at least one block has been sent.
pub proof fn law_settled(s: StreamView)
    ensures
        safe_step(s, stream::settled(s)),
        stream::settled(s).open is None,
        stream::settled(s).text_buffer.len() == 0,
        stream::settled(s).intercept is None,
        consistent(s) ==> has_block(stream::settled(s)),
{
    reveal_strlit(" ");
    let f = stream::flushed(stream::finalized(s));
    lemma_cleared(s);
    let filled = if f.open is None && f.generated.len() == 0 && !f.tool_used {
        stream::text_sent(f, " "@)
    } else {
        f
    };
    lemma_text_sent(f, " "@);
    lemma_same(f, f);
    lemma_safe_step_trans(s, f, filled);
    events::lemma_nothing_said(f.out);
    assert(consistent(f) ==> has_block(filled));
    let c = stream::closed(filled);
    lemma_closed(filled);
    lemma_safe_step_trans(s, filled, c);
    lemma_same(c, stream::settled(s));
    lemma_safe_step_trans(s, c, stream::settled(s));
}

proof fn lemma_recovered(s: StreamView)
    ensures
        safe_step(s, stream::recovered(s)),
        s.tools.len() > 0 ==> stream::recovered(s).tool_used,
        s.open is None ==> stream::recovered(s).open is None,
{
    recovery::law_recovery_call_offered(s.tools);
    match recovery::recovery_call(s.tools) {
        Some((name, args)) => {
            let t = stream::text_sent(s, stream::RECOVERY_NOTE@);
            let c = stream::closed(t);
            lemma_text_sent(s, stream::RECOVERY_NOTE@);
            lemma_closed(t);
            lemma_safe_step_trans(s, t, c);
            lemma_call_sent(c, name, args);
            lemma_safe_step_trans(s, c, stream::recovered(s));
        },
        None => {
            lemma_same(s, s);
        },
    }
}

/// A message that is ended once nothing is open is complete: the client has
/// followed it to its end, and the stop reason says whether a tool was used.
/// Where a recovery is due and a tool is offered, one was.
pub proof fn law_concluded(s: StreamView, recover: bool)
    requires
        consistent(s),
        has_block(s),
        s.open is None,
    ensures
        ({
            let r = stream::concluded(s, recover);
            &&& events::reached(r.out) == Some(Phase::Done)
            &&& remembered(r)
            &&& r.out.take(s.out.len() as int) == s.out
            &&& r.out.last() == EventView::MessageStop
            &&& r.out[r.out.len() - 2] == (EventView::MessageDelta { tool_use: r.tool_used })
            &&& offered_only(s) ==> offered_only(r)
            &&& recover && stream::in_question(s) && s.tools.len() > 0 ==> r.tool_used
            &&& !recover ==> r.out.len() == s.out.len() + 2
        }),
{
    let r = if recover && stream::in_question(s) {
        stream::recovered(s)
    } else {
        s
    };
    lemma_recovered(s);
    lemma_same(s, s);
    let d = EventView::MessageDelta { tool_use: r.tool_used };
    let a = stream::emitted(r, d);
    lemma_sent(r, a, d);
    let b = stream::emitted(a, EventView::MessageStop);
    lemma_sent(a, b, EventView::MessageStop);
    assert(b.out.take(s.out.len() as int) =~= r.out.take(s.out.len() as int));
}

/// Reporting an error keeps the order of events, takes nothing back, and says
/// the message. A client that was offered tools gets a tool call.
pub proof fn law_error_sent(s: StreamView, msg: Seq<char>)
    ensures
        safe_step(s, stream::error_sent(s, msg)),
        s.agent && s.tools.len() > 0 ==> stream::error_sent(s, msg).tool_used,
{
    let f = stream::flushed(s);
    let t = stream::text_sent(f, msg);
    lemma_flushed(s);
    lemma_text_sent(f, msg);
    lemma_safe_step_trans(s, f, t);
    let c = if t.open == Some(Kind::Tool) {
        t
    } else {
        stream::closed(t)
    };
    lemma_closed(t);
    if t.open != Some(Kind::Tool) {
        lemma_safe_step_trans(s, t, c);
    }
    lemma_recovered(c);
    if stream::in_question(c) {
        lemma_safe_step_trans(s, c, stream::recovered(c));
    }
}

/// An error message is a complete message, and says nothing but what was held
/// back, the message, and the note of a recovery. A client that was offered
/// tools is always told to go on with one.
pub proof fn law_error_complete(s: StreamView, msg: Seq<char>)
    requires
        consistent(s),
    ensures
        ({
            let r = stream::concluded(stream::settled(stream::error_sent(s, msg)), false);
            &&& events::reached(r.out) == Some(Phase::Done)
            &&& s.agent && s.tools.len() > 0 ==> r.out[r.out.len() - 2] == (
            EventView::MessageDelta { tool_use: true })
            &&& s.intercept is None && msg.len() > 0 ==> r.generated == s.generated + s.text_buffer
                + msg + (if stream::in_question(s) && s.tools.len() > 0 {
                stream::RECOVERY_NOTE@
            } else {
                Seq::empty()
            })
        }),
{
    let e = stream::error_sent(s, msg);
    law_error_sent(s, msg);
    law_settled(e);
    law_concluded(stream::settled(e), false);
    if s.intercept is None && msg.len() > 0 {
        let f = stream::flushed(s);
        let t = stream::text_sent(f, msg);
        lemma_flushed(s);
        lemma_text_sent(f, msg);
        let c = stream::closed(t);
        assert(t.generated == s.generated + s.text_buffer + msg);
        assert(t.generated + Seq::<char>::empty() =~= t.generated);
        recovery::law_recovery_call_offered(s.tools);
        lemma_text_sent(c, stream::RECOVERY_NOTE@);
        law_plain_text_settled(e);
        assert(e.generated + e.text_buffer =~= e.generated);
    }
}

/// What a recovery says is marked: the reply is not recovered again, unless it
/// was cut off, and in the history it is left out.
pub proof fn law_recovery_is_marked(said: Seq<char>, stop_reason: Seq<char>, model: bool)
    requires
        stop_reason != "length"@,
    ensures
        recovery::decision(said + stream::RECOVERY_NOTE@, stop_reason, model)
            == recovery::Decision::Settled(None),
        converter::cleaned(said + stream::RECOVERY_NOTE@) == converter::OMITTED@,
{
    reveal_strlit("[holoProxy Recovery Injected]");
    reveal_strlit("[holoProxy Recovery");
    let note = stream::RECOVERY_NOTE@;
    let mark = recovery::RECOVERY_MARK@;
    assert(note.subrange(0, mark.len() as int) =~= mark);
    text::lemma_holds_in(said, note, mark);
}

// ---------------------------------------------------------------------------
// Whole streams
// ---------------------------------------------------------------------------

/// One piece of a reply.
pub ghost enum Piece {
    Content(Seq<char>),
    Reasoning(Seq<char>),
    Call(CallDelta),
}

pub open spec fn piece_taken(s: StreamView, p: Piece) -> StreamView {
    match p {
        Piece::Content(t) => stream::content_taken(s, t),
        Piece::Reasoning(t) => stream::reasoning_taken(s, t),
        Piece::Call(c) => stream::call_taken(s, c),
    }
}

/// With the pieces of a reply taken in one after the other.
pub open spec fn pieces_taken(s: StreamView, pieces: Seq<Piece>) -> StreamView
    decreases pieces.len(),
{
    if pieces.len() == 0 {
        s
    } else {
        piece_taken(pieces_taken(s, pieces.drop_last()), pieces.last())
    }
}

/// Pieces one after the other.
pub proof fn lemma_pieces_concat(s: StreamView, a: Seq<Piece>, b: Seq<Piece>)
    ensures
        pieces_taken(s, a + b) == pieces_taken(
            pieces_taken(s, a),
            b,
        ),
    decreases b.len(),
{
    if b.len() == 0 {
        assert(a + b =~= a);
    } else {
        assert((a + b).drop_last() =~= a + b.drop_last());
        lemma_pieces_concat(s, a, b.drop_last());
    }
}

/// A stream that has just started is consistent.
pub proof fn law_started(msg_id: Seq<char>, model: Seq<char>, agent: bool, offered: Seq<ToolEntry>)
    ensures
        consistent(stream::started(msg_id, model, agent, offered)),
        offered_only(stream::started(msg_id, model, agent, offered)),
{
    let s = stream::started(msg_id, model, agent, offered);
    assert(s.out.drop_last() =~= Seq::<EventView>::empty());
    reveal_with_fuel(events::reached, 2);
    reveal_with_fuel(events::spoken, 2);
}

/// Whatever the pieces of a reply are, the client follows them, and nothing is
/// taken back.
pub proof fn law_pieces_taken(s: StreamView, pieces: Seq<Piece>)
    ensures
        step(s, pieces_taken(s, pieces)),
        (forall|i: int| 0 <= i < pieces.len() ==> !(#[trigger] pieces[i] is Call)) ==> safe_step(
            s,
            pieces_taken(s, pieces),
        ),
    decreases pieces.len(),
{
    if pieces.len() == 0 {
        lemma_same(s, s);
    } else {
        let front = pieces.drop_last();
        let before = pieces_taken(s, front);
        law_pieces_taken(s, front);
        assert(forall|i: int| 0 <= i < front.len() ==> front[i] == pieces[i]);
        match pieces.last() {
            Piece::Content(t) => law_content_taken(before, t),
            Piece::Reasoning(t) => law_reasoning_taken(before, t),
            Piece::Call(c) => law_call_taken(before, c),
        }
        lemma_step_trans(s, before, pieces_taken(s, pieces));
        if forall|i: int| 0 <= i < pieces.len() ==> !(#[trigger] pieces[i] is Call) {
            assert forall|i: int| 0 <= i < front.len() implies !(#[trigger] front[i] is Call) by {
                assert(front[i] == pieces[i]);
            }
            assert(!(pieces[pieces.len() - 1] is Call));
            lemma_safe_step_trans(s, before, pieces_taken(s, pieces));
        }
    }
}

/// The stream of a reply with these pieces, from its start to its end.
pub open spec fn whole_stream(
    msg_id: Seq<char>,
    model: Seq<char>,
    agent: bool,
    offered: Seq<ToolEntry>,
    pieces: Seq<Piece>,
    recover: bool,
) -> StreamView {
    stream::concluded(
        stream::settled(pieces_taken(stream::started(msg_id, model, agent, offered), pieces)),
        recover,
    )
}

/// Whatever the pieces of a reply are and whether or not it is recovered, its
/// stream is a complete message; the stop reason is a use of a tool exactly
/// where there is a tool block; what was remembered as said is what the deltas
/// said. Without native calls, every tool block is of a tool that is offered.
pub proof fn law_whole_stream(
    msg_id: Seq<char>,
    model: Seq<char>,
    agent: bool,
    offered: Seq<ToolEntry>,
    pieces: Seq<Piece>,
    recover: bool,
)
    ensures
        ({
            let r = whole_stream(msg_id, model, agent, offered, pieces, recover);
            &&& events::reached(r.out) == Some(Phase::Done)
            &&& r.out[r.out.len() - 2] == (EventView::MessageDelta { tool_use: r.tool_used })
            &&& remembered(r)
            &&& (forall|i: int| 0 <= i < pieces.len() ==> !(#[trigger] pieces[i] is Call))
                ==> offered_only(r)
        }),
{
    let s = stream::started(msg_id, model, agent, offered);
    let p = pieces_taken(s, pieces);
    law_started(msg_id, model, agent, offered);
    law_pieces_taken(s, pieces);
    law_settled(p);
    law_concluded(stream::settled(p), recover);
}

// ---------------------------------------------------------------------------
// Text without markup
// ---------------------------------------------------------------------------

/// A piece of text in which, together with what is held back, no markup begins
/// is neither lost nor changed, and less than a character more than
/// `HOLD_BACK` bytes are held back.
#[verifier::rlimit(40)]
pub proof fn law_plain_text_kept(s: StreamView, content: Seq<char>)
    requires
        s.intercept is None,
        stream::first_tag(dsml::normalized(s.text_buffer + content)) is None,
    ensures
        ({
            let r = stream::content_taken(s, content);
            &&& r.generated + r.text_buffer == s.generated + s.text_buffer + content
            &&& r.intercept is None
            &&& r.tool_used == s.tool_used
            &&& r.open is None || r.open == s.open || r.generated.len() > 0
            &&& text::byte_len(r.text_buffer) < stream::HOLD_BACK + 4
        }),
{
    let b = s.text_buffer + content;
    let x = StreamView { text_buffer: b, ..s };
    let n = text::byte_len(b);
    let r = stream::content_taken(s, content);
    if n > stream::HOLD_BACK {
        let m = n - stream::HOLD_BACK;
        let k = text::chars_within(b, m) as int;
        text::lemma_chars_within(b, m);
        lemma_text_sent(x, b.take(k));
        assert(b =~= b.take(k) + b.skip(k));
        text::lemma_byte_len_concat(b.take(k), b.skip(k));
        assert(s.generated + b.take(k) + b.skip(k) =~= s.generated + b);
    }
    assert(r.generated + r.text_buffer =~= s.generated + s.text_buffer + content);
}

/// Where nothing is being collected, settling says the text that is held back,
/// and nothing else: a blank only where nothing was said, no tool used, and no
/// block is open.
pub proof fn law_plain_text_settled(s: StreamView)
    requires
        s.intercept is None,
    ensures
        ({
            let said = s.generated + s.text_buffer;
            stream::settled(s).generated == if s.open is None && said.len() == 0 && !s.tool_used {
                " "@
            } else {
                said
            }
        }),
{
    lemma_flushed(s);
    assert(stream::finalized(s) == s);
    let f = stream::flushed(s);
    lemma_text_sent(f, " "@);
    if f.generated.len() == 0 {
        assert(f.generated + " "@ =~= " "@);
    }
}

/// Only plain text has come, `c` in all: it goes out in deltas of one text
/// block, as it is and in order, and what has not gone out yet is held back,
/// less than a character more than `HOLD_BACK` bytes.
pub open spec fn plain_so_far(s: StreamView, c: Seq<char>) -> bool {
    &&& s.intercept is None
    &&& s.generated + s.text_buffer == c
    &&& events::spoken(s.out) == s.generated
    &&& text::byte_len(s.text_buffer) < stream::HOLD_BACK + 4
    &&& !s.tool_used
    &&& s.index == 0
    &&& s.out.len() > 0
    &&& s.out[0] is MessageStart
    &&& s.open == if s.out.len() > 1 {
        Some(Kind::Text)
    } else {
        None
    }
    &&& s.out.len() > 1 ==> s.out[1] == (EventView::TextStart { index: 0 })
    &&& forall|i: int|
        2 <= i < s.out.len() ==> (#[trigger] s.out[i] matches EventView::Delta {
            index,
            kind,
            text,
        } && index == 0 && kind == Kind::Text)
}

/// As long as no markup begins, plain text stays plain text, however it comes
/// in pieces.
pub proof fn law_plain_so_far(s: StreamView, c: Seq<char>, content: Seq<char>)
    requires
        plain_so_far(s, c),
        stream::first_tag(dsml::normalized(s.text_buffer + content)) is None,
    ensures
        plain_so_far(stream::content_taken(s, content), c + content),
{
    let b = s.text_buffer + content;
    let n = text::byte_len(b);
    let r = stream::content_taken(s, content);
    law_plain_text_kept(s, content);
    assert(s.generated + s.text_buffer + content == c + content);
    if n > stream::HOLD_BACK {
        let t = b.take(text::chars_within(b, n - stream::HOLD_BACK) as int);
        if t.len() > 0 {
            let start = EventView::TextStart { index: 0 };
            let delta = EventView::Delta { index: 0, kind: Kind::Text, text: t };
            let o = if s.out.len() > 1 {
                s.out
            } else {
                s.out.push(start)
            };
            assert(r.out == o.push(delta));
            events::lemma_reached_push(s.out, start);
            events::lemma_reached_push(o, delta);
        }
    }
}

/// In the end plain text has gone out whole, in one block.
pub proof fn law_plain_whole(s: StreamView, c: Seq<char>)
    requires
        plain_so_far(s, c),
        c.len() > 0,
    ensures
        ({
            let r = stream::settled(s);
            &&& r.generated == c
            &&& events::spoken(r.out) == c
            &&& r.out.last() == (EventView::BlockStop { index: 0 })
            &&& r.text_buffer.len() == 0
            &&& r.open is None
            &&& !r.tool_used
        }),
{
    law_plain_text_settled(s);
    law_settled(s);
    lemma_flushed(s);
    assert(stream::finalized(s) == s);
    let f = stream::flushed(s);
    let t = s.text_buffer;
    if t.len() > 0 {
        let start = EventView::TextStart { index: 0 };
        let delta = EventView::Delta { index: 0, kind: Kind::Text, text: t };
        let o = if s.out.len() > 1 {
            s.out
        } else {
            s.out.push(start)
        };
        assert(f.out == o.push(delta));
        events::lemma_reached_push(s.out, start);
        events::lemma_reached_push(o, delta);
    } else {
        assert(s.generated =~= c);
        if s.out.len() == 1 {
            reveal_with_fuel(events::spoken, 2);
            assert(s.out.drop_last() =~= Seq::<EventView>::empty());
        }
    }
    assert(f.open == Some(Kind::Text));
    events::lemma_reached_push(f.out, EventView::BlockStop { index: 0 });
}

/// A stream that has just started holds plain text, none so far.
pub proof fn lemma_plain_started(
    msg_id: Seq<char>,
    model: Seq<char>,
    agent: bool,
    offered: Seq<ToolEntry>,
)
    ensures
        plain_so_far(stream::started(msg_id, model, agent, offered), Seq::empty()),
{
    let s = stream::started(msg_id, model, agent, offered);
    law_started(msg_id, model, agent, offered);
    assert(s.generated + s.text_buffer =~= Seq::<char>::empty());
}

/// No element begins in a text without opening brackets.
pub proof fn lemma_no_tag(norm: Seq<char>)
    requires
        !norm.contains('<'),
    ensures
        stream::first_tag(norm) is None,
{
    reveal_strlit("<tool_calls");
    reveal_strlit("<tool_call>");
    reveal_strlit("<invoke");
    reveal_strlit("<parameter");
    lemma_no_find(norm, "<tool_calls"@);
    lemma_no_find(norm, "<tool_call>"@);
    lemma_no_find(norm, "<invoke"@);
    lemma_no_find(norm, "<parameter"@);
}

proof fn lemma_no_find(norm: Seq<char>, p: Seq<char>)
    requires
        !norm.contains('<'),
        p.len() > 0,
        p[0] == '<',
    ensures
        text::find(norm, p) is None,
{
    text::lemma_find_from(norm, p, 0);
    if let Some(i) = text::find(norm, p) {
        assert(norm.subrange(i, i + p.len())[0] == norm[i]);
    }
}

/// Unbracketed text, together with what is held back before it.
pub proof fn lemma_unbracketed_buffer(s: StreamView, c: Seq<char>, content: Seq<char>)
    requires
        plain_so_far(s, c),
        dsml::unbracketed(c + content),
    ensures
        dsml::unbracketed(s.text_buffer + content),
{
    let b = s.text_buffer + content;
    let all = c + content;
    assert forall|i: int| 0 <= i < b.len() implies all.contains(#[trigger] b[i]) by {
        assert(all[s.generated.len() + i] == b[i]);
    }
}

/// Texts as pieces of a reply.
pub open spec fn contents(texts: Seq<Seq<char>>) -> Seq<Piece> {
    texts.map_values(|t: Seq<char>| Piece::Content(t))
}

/// In no text, together with what is held back before it, does markup begin.
pub open spec fn all_plain(s: StreamView, texts: Seq<Seq<char>>) -> bool
    decreases texts.len(),
{
    if texts.len() == 0 {
        true
    } else {
        let before = pieces_taken(s, contents(texts.drop_last()));
        all_plain(s, texts.drop_last()) && stream::first_tag(
            dsml::normalized(before.text_buffer + texts.last()),
        ) is None
    }
}

/// The texts one after the other.
pub open spec fn concatenated(texts: Seq<Seq<char>>) -> Seq<char>
    decreases texts.len(),
{
    if texts.len() == 0 {
        Seq::empty()
    } else {
        concatenated(texts.drop_last()) + texts.last()
    }
}

proof fn lemma_plain_texts_kept(s: StreamView, texts: Seq<Seq<char>>)
    requires
        s.intercept is None,
        all_plain(s, texts),
    ensures
        ({
            let r = pieces_taken(s, contents(texts));
            &&& r.generated + r.text_buffer == s.generated + s.text_buffer + concatenated(texts)
            &&& r.intercept is None
            &&& r.tool_used == s.tool_used
            &&& s.open is None ==> r.open is None || r.generated.len() > 0
        }),
    decreases texts.len(),
{
    let r = pieces_taken(s, contents(texts));
    if texts.len() == 0 {
        assert(contents(texts) =~= Seq::<Piece>::empty());
        assert(r.generated + r.text_buffer =~= s.generated + s.text_buffer + concatenated(texts));
    } else {
        let front = texts.drop_last();
        let before = pieces_taken(s, contents(front));
        lemma_plain_texts_kept(s, front);
        assert(contents(texts).drop_last() =~= contents(front));
        assert(contents(texts).last() == Piece::Content(texts.last()));
        law_plain_text_kept(before, texts.last());
        assert(s.generated + s.text_buffer + concatenated(front) + texts.last() =~= s.generated
            + s.text_buffer + concatenated(texts));
    }
}

/// A reply of texts without markup is said as it is, however it comes in
/// pieces; an empty one is a blank.
pub proof fn law_plain_reply(
    msg_id: Seq<char>,
    model: Seq<char>,
    agent: bool,
    offered: Seq<ToolEntry>,
    texts: Seq<Seq<char>>,
)
    requires
        all_plain(stream::started(msg_id, model, agent, offered), texts),
    ensures
        ({
            let s = stream::started(msg_id, model, agent, offered);
            let r = stream::settled(pieces_taken(s, contents(texts)));
            r.generated == if concatenated(texts).len() == 0 {
                " "@
            } else {
                concatenated(texts)
            }
        }),
{
    let s = stream::started(msg_id, model, agent, offered);
    let p = pieces_taken(s, contents(texts));
    lemma_plain_texts_kept(s, texts);
    law_plain_text_settled(p);
    assert(s.generated + s.text_buffer + concatenated(texts) =~= concatenated(texts));
}

// ---------------------------------------------------------------------------
// Tool calls
// ---------------------------------------------------------------------------

/// Markup that is a call of an offered tool becomes one tool block: its start,
/// the arguments, its end.
pub proof fn law_markup_becomes_block(s: StreamView, markup: Seq<char>)
    requires
        s.open is None,
        s.intercept is Some,
        tools::has_tool(s.tools, fallback::fallback_call(markup, s.tools).0),
        fallback::fallback_call(markup, s.tools).0 != fallback::UNKNOWN@,
        fallback::fallback_call(markup, s.tools).1.len() > 0,
    ensures
        ({
            let (name, args) = fallback::fallback_call(markup, s.tools);
            let r = stream::markup_sent(s, markup);
            &&& r.out == s.out + seq![
                EventView::ToolStart { index: s.index, id: None, name },
                EventView::Delta { index: s.index, kind: Kind::Tool, text: args },
                EventView::BlockStop { index: s.index },
            ]
            &&& r.tool_used
            &&& r.generated == s.generated
        }),
{
    let (name, args) = fallback::fallback_call(markup, s.tools);
    assert(stream::markup_sent(s, markup).out =~= s.out + seq![
        EventView::ToolStart { index: s.index, id: None, name },
        EventView::Delta { index: s.index, kind: Kind::Tool, text: args },
        EventView::BlockStop { index: s.index },
    ]);
}

/// Markup that is no call of an offered tool leaves no trace.
pub proof fn law_other_markup_dropped(s: StreamView, markup: Seq<char>)
    requires
        !tools::has_tool(s.tools, fallback::fallback_call(markup, s.tools).0),
    ensures
        stream::markup_sent(s, markup) == s,
{
}

/// The first piece of a native call opens a block with the identifier and the
/// name that it gives; a further piece adds its arguments to that block.
pub proof fn law_native_call(s: StreamView, first: CallDelta, more: CallDelta)
    requires
        s.open is None,
        s.intercept is None,
        s.text_buffer.len() == 0,
        !s.native.contains(first.index),
        first.name is Some,
        first.arguments is None,
        more.index == first.index,
        more.arguments is Some,
        more.arguments->0.len() > 0,
    ensures
        ({
            let a = stream::call_taken(s, first);
            let b = stream::call_taken(a, more);
            &&& a.out == s.out.push(
                EventView::ToolStart { index: s.index, id: first.id, name: first.name->0 },
            )
            &&& b.out == a.out.push(
                EventView::Delta { index: s.index, kind: Kind::Tool, text: more.arguments->0 },
            )
            &&& b.open == Some(Kind::Tool)
        }),
{
    assert(stream::finalized(s) == s);
    let a = stream::call_taken(s, first);
    assert(stream::finalized(a) == a);
}

} // verus!
