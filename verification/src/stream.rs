//! The stream: the pieces of an OpenAI reply become the events of an Anthropic
//! message. Tool calls come natively or as markup in the text; the markup is
//! held back until it is complete.
use std::collections::HashSet;
use vstd::prelude::*;
use vstd::string::*;

use crate::dsml;
use crate::events;
use crate::events::{EventView, Kind, SseEvent};
use crate::fallback;
use crate::protocol;
use crate::recovery;
use crate::text;
use crate::tools;
use crate::tools::{ToolEntry, ToolTable};
use crate::types;
use crate::types::OpenAIToolCallDelta;

verus! {

// ---------------------------------------------------------------------------
// The model
// ---------------------------------------------------------------------------

/// An element in which models write tool calls, in canonical form.
#[derive(Clone, Copy, PartialEq, Eq, Structural, Debug)]
pub enum Tag {
    ToolCalls,
    ToolCall,
    Invoke,
    Parameter,
}

/// What the element begins with.
pub open spec fn open_tag(t: Tag) -> Seq<char> {
    match t {
        Tag::ToolCalls => "<tool_calls"@,
        Tag::ToolCall => "<tool_call>"@,
        Tag::Invoke => "<invoke"@,
        Tag::Parameter => "<parameter"@,
    }
}

/// What the end tag of the element begins with.
pub open spec fn close_tag(t: Tag) -> Seq<char> {
    match t {
        Tag::ToolCalls => "</tool_calls"@,
        Tag::ToolCall => "</tool_call"@,
        Tag::Invoke => "</invoke"@,
        Tag::Parameter => "</parameter"@,
    }
}

/// The state of a stream.
#[verifier::ext_equal]
pub ghost struct StreamView {
    pub msg_id: Seq<char>,
    pub model: Seq<char>,
    /// Whether the request offers tools.
    pub agent: bool,
    pub tools: Seq<ToolEntry>,
    /// The index of the open block, or of the next one.
    pub index: u32,
    /// The kind of the open block.
    pub open: Option<Kind>,
    /// Whether a tool block has been opened.
    pub tool_used: bool,
    /// What the text and thinking deltas have said.
    pub generated: Seq<char>,
    /// Text that is held back because markup may begin in it.
    pub text_buffer: Seq<char>,
    /// The element that is being collected.
    pub intercept: Option<Tag>,
    /// What has been collected of it.
    pub intercept_buffer: Seq<char>,
    /// The native tool calls that have been opened.
    pub native: Set<u32>,
    /// Every event so far.
    pub out: Seq<EventView>,
    /// How many of them have been taken out.
    pub taken: nat,
}

/// A native tool call, or a further piece of one.
pub ghost struct CallDelta {
    pub index: u32,
    pub id: Option<Seq<char>>,
    pub name: Option<Seq<char>>,
    pub arguments: Option<Seq<char>>,
}

pub open spec fn emitted(s: StreamView, e: EventView) -> StreamView {
    StreamView { out: s.out.push(e), ..s }
}

/// The stream of a reply before anything has come.
pub open spec fn started(
    msg_id: Seq<char>,
    model: Seq<char>,
    agent: bool,
    offered: Seq<ToolEntry>,
) -> StreamView {
    StreamView {
        msg_id,
        model,
        agent,
        tools: offered,
        index: 0,
        open: None,
        tool_used: false,
        generated: Seq::empty(),
        text_buffer: Seq::empty(),
        intercept: None,
        intercept_buffer: Seq::empty(),
        native: Set::empty(),
        out: seq![EventView::MessageStart { message: msg_id, model }],
        taken: 0,
    }
}

/// With the open block closed.
pub open spec fn closed(s: StreamView) -> StreamView {
    match s.open {
        Some(_) => StreamView {
            open: None,
            index: events::next_index(s.index),
            ..emitted(s, EventView::BlockStop { index: s.index })
        },
        None => s,
    }
}

/// With a text block open.
pub open spec fn text_opened(s: StreamView) -> StreamView {
    if s.open == Some(Kind::Text) {
        s
    } else {
        let c = closed(s);
        StreamView {
            open: Some(Kind::Text),
            ..emitted(c, EventView::TextStart { index: c.index })
        }
    }
}

/// With the text `t` sent.
pub open spec fn text_sent(s: StreamView, t: Seq<char>) -> StreamView {
    if t.len() == 0 {
        s
    } else {
        let o = text_opened(StreamView { generated: s.generated + t, ..s });
        emitted(o, EventView::Delta { index: o.index, kind: Kind::Text, text: t })
    }
}

/// With the text that was held back sent, unless an element is being collected.
pub open spec fn flushed(s: StreamView) -> StreamView {
    if s.text_buffer.len() > 0 && s.intercept is None {
        text_sent(StreamView { text_buffer: Seq::empty(), ..s }, s.text_buffer)
    } else {
        s
    }
}

/// With a tool block open.
pub open spec fn tool_opened(
    s: StreamView,
    id: Option<Seq<char>>,
    name: Seq<char>,
) -> StreamView {
    let c = closed(flushed(s));
    StreamView {
        open: Some(Kind::Tool),
        tool_used: true,
        ..emitted(c, EventView::ToolStart { index: c.index, id, name })
    }
}

/// With a piece of the arguments sent, where a tool block is open.
pub open spec fn args_sent(s: StreamView, args: Seq<char>) -> StreamView {
    if s.open == Some(Kind::Tool) && args.len() > 0 {
        emitted(s, EventView::Delta { index: s.index, kind: Kind::Tool, text: args })
    } else {
        s
    }
}

/// With a whole tool call sent.
pub open spec fn call_sent(s: StreamView, name: Seq<char>, args: Seq<char>) -> StreamView {
    closed(args_sent(tool_opened(s, None, name), args))
}

/// With the tool call that the markup is sent; nothing where it is none, or
/// one of a tool that is not offered.
pub open spec fn markup_sent(s: StreamView, markup: Seq<char>) -> StreamView {
    let call = fallback::fallback_call(markup, s.tools);
    offered_call_sent(s, call.0, call.1)
}

/// With a tool call sent, where the tool is offered.
pub open spec fn offered_call_sent(
    s: StreamView,
    name: Seq<char>,
    args: Seq<char>,
) -> StreamView {
    if name != fallback::UNKNOWN@ && tools::has_tool(s.tools, name) {
        call_sent(s, name, args)
    } else {
        s
    }
}

pub open spec fn tag_in(norm: Seq<char>, t: Tag) -> Option<(int, Tag)> {
    match text::find(norm, open_tag(t)) {
        Some(i) => Some((i, t)),
        None => None,
    }
}

/// Of two finds the one that stands earlier.
pub open spec fn earlier(a: Option<(int, Tag)>, b: Option<(int, Tag)>) -> Option<(int, Tag)> {
    match (a, b) {
        (Some(x), Some(y)) => if y.0 < x.0 {
            b
        } else {
            a
        },
        (Some(_), None) => a,
        (None, _) => b,
    }
}

/// The element that begins first in a text in canonical form.
pub open spec fn first_tag(norm: Seq<char>) -> Option<(int, Tag)> {
    earlier(
        earlier(tag_in(norm, Tag::ToolCalls), tag_in(norm, Tag::ToolCall)),
        earlier(tag_in(norm, Tag::Invoke), tag_in(norm, Tag::Parameter)),
    )
}

/// No two elements begin at one position: in which order they are looked for
/// does not matter.
pub proof fn law_one_tag_opens(norm: Seq<char>, at: int, t: Tag, u: Tag)
    requires
        t != u,
        text::occurs_at(norm, open_tag(t), at),
    ensures
        !text::occurs_at(norm, open_tag(u), at),
{
    reveal_strlit("<tool_calls");
    reveal_strlit("<tool_call>");
    reveal_strlit("<invoke");
    reveal_strlit("<parameter");
    let a = open_tag(t);
    let b = open_tag(u);
    assert(norm.subrange(at, at + a.len())[1] == norm[at + 1]);
    if text::occurs_at(norm, b, at) {
        assert(norm.subrange(at, at + b.len())[1] == norm[at + 1]);
        if a.len() == 11 && b.len() == 11 {
            assert(norm.subrange(at, at + a.len())[10] == norm[at + 10]);
            assert(norm.subrange(at, at + b.len())[10] == norm[at + 10]);
        }
    }
}

/// How many bytes of text are held back because markup may begin in them.
pub const HOLD_BACK: usize = 50;

/// With the text that is held back looked through.
pub open spec fn scanned(s: StreamView) -> StreamView {
    if s.intercept is Some {
        s
    } else {
        let norm = dsml::normalized(s.text_buffer);
        let at = match first_tag(norm) {
            Some((i, t)) => dsml::tag_position(
                s.text_buffer,
                text::byte_len(norm.take(i)) as int,
                open_tag(t),
            ),
            None => 0,
        };
        scanned_as(s, norm, at)
    }
}

/// With the text that is held back looked through: `norm` is its canonical
/// form, and `at` where the first element begins in it. What stands before the
/// element is sent and the element collected; without an element all but the
/// last bytes are sent.
pub open spec fn scanned_as(s: StreamView, norm: Seq<char>, at: int) -> StreamView {
    let n = text::byte_len(s.text_buffer);
    match first_tag(norm) {
        Some((i, t)) => StreamView {
            intercept: Some(t),
            intercept_buffer: s.text_buffer.skip(at),
            text_buffer: Seq::empty(),
            ..text_sent(s, norm.take(i))
        },
        None => if n > HOLD_BACK {
            let k = text::chars_within(s.text_buffer, n - HOLD_BACK) as int;
            StreamView {
                text_buffer: s.text_buffer.skip(k),
                ..text_sent(s, s.text_buffer.take(k))
            }
        } else {
            s
        },
    }
}

/// With the first `k` characters of `collected` taken as markup, and the rest
/// as text.
pub open spec fn taken_up(s: StreamView, collected: Seq<char>, k: int) -> StreamView {
    let rest = collected.skip(k);
    let next = StreamView {
        intercept: None,
        intercept_buffer: Seq::empty(),
        text_buffer: rest,
        ..markup_sent(s, collected.take(k))
    };
    if rest.len() > 0 {
        scanned(next)
    } else {
        next
    }
}

/// The first end tag of the element in a text in canonical form, with its
/// closing bracket.
pub open spec fn end_tag(norm: Seq<char>, t: Tag) -> Option<Seq<char>> {
    match text::find(norm, close_tag(t)) {
        Some(p) => match text::find_from(norm, seq!['>'], p) {
            Some(q) => Some(norm.subrange(p, q + 1)),
            None => None,
        },
        None => None,
    }
}

/// The position after the end tag in what has been collected.
pub open spec fn markup_end(collected: Seq<char>, t: Tag) -> Option<int> {
    let norm = dsml::normalized(collected);
    match end_tag(norm, t) {
        Some(close) => dsml::close_end(collected, norm, close),
        None => None,
    }
}

/// In a text that is canonical but for fullwidth punctuation and corner
/// brackets, an element ends right after its first end tag.
pub proof fn law_end_tag_ends(collected: Seq<char>, t: Tag)
    requires
        dsml::normalized(collected) == dsml::folded(collected),
        end_tag(dsml::folded(collected), t) is Some,
    ensures
        markup_end(collected, t) == Some(
            text::find(dsml::folded(collected), close_tag(t))->0 + end_tag(
                dsml::folded(collected),
                t,
            )->0.len(),
        ),
{
    let norm = dsml::folded(collected);
    let close = end_tag(norm, t)->0;
    let p = text::find(norm, close_tag(t))->0;
    lemma_end_tag(norm, t);
    text::lemma_find_from(norm, close_tag(t), 0);
    text::lemma_find_from(norm, seq!['>'], p);
    text::lemma_find_from(norm, close, 0);
    reveal_strlit("</tool_calls");
    reveal_strlit("</tool_call");
    reveal_strlit("</invoke");
    reveal_strlit("</parameter");
    let q = text::find_from(norm, seq!['>'], p)->0;
    let n = close_tag(t).len();
    assert(norm.subrange(p, p + n) == close_tag(t));
    assert forall|j: int| p <= j < p + n implies #[trigger] norm[j] != '>' by {
        assert(norm.subrange(p, p + n)[j - p] == norm[j]);
    }
    assert(norm.subrange(q, q + 1)[0] == norm[q]);
    assert(q >= p + n);
    let at = text::find(norm, close)->0;
    assert(norm.subrange(at, at + n) =~= norm.subrange(at, at + close.len()).subrange(0, n as int));
    assert(close.subrange(0, n as int) =~= norm.subrange(p, p + n));
    assert(text::occurs_at(norm, close_tag(t), at));
    assert(text::occurs_at(norm, close, p));
    dsml::law_close_end_exact(collected, close);
}

/// With a piece of text taken in.
pub open spec fn content_taken(s: StreamView, content: Seq<char>) -> StreamView {
    match s.intercept {
        Some(t) => {
            let collected = s.intercept_buffer + content;
            match markup_end(collected, t) {
                Some(k) => taken_up(s, collected, k),
                None => StreamView { intercept_buffer: collected, ..s },
            }
        },
        None => scanned(StreamView { text_buffer: s.text_buffer + content, ..s }),
    }
}

/// With nothing being collected any more: an element that is not complete is
/// taken as it is.
pub open spec fn finalized(s: StreamView) -> StreamView
    decreases s.intercept_buffer.len(),
    via finalized_decreases
{
    match s.intercept {
        Some(t) => {
            let collected = s.intercept_buffer;
            let next = taken_up(
                s,
                collected,
                match markup_end(collected, t) {
                    Some(k) => k,
                    None => collected.len() as int,
                },
            );
            if next.intercept is Some {
                finalized(next)
            } else {
                next
            }
        },
        None => s,
    }
}

#[via_fn]
proof fn finalized_decreases(s: StreamView) {
    if let Some(t) = s.intercept {
        lemma_taken_up_shrinks(s, t);
    }
}

/// An end tag is not empty and stands in the text.
pub proof fn lemma_end_tag(norm: Seq<char>, t: Tag)
    ensures
        end_tag(norm, t) matches Some(close) ==> close.len() > 0 && text::holds(norm, close),
{
    text::lemma_find_from(norm, close_tag(t), 0);
    if let Some(p) = text::find(norm, close_tag(t)) {
        text::lemma_find_from(norm, seq!['>'], p);
        if let Some(q) = text::find_from(norm, seq!['>'], p) {
            let close = norm.subrange(p, q + 1);
            assert(text::occurs_at(norm, close, p));
            text::lemma_find_from(norm, close, 0);
        }
    }
}

/// Where taking up an element leads to another, that one is shorter.
pub proof fn lemma_taken_up_shrinks(s: StreamView, t: Tag)
    requires
        s.intercept == Some(t),
    ensures
        ({
            let collected = s.intercept_buffer;
            let k = match markup_end(collected, t) {
                Some(k) => k,
                None => collected.len() as int,
            };
            let next = taken_up(s, collected, k);
            &&& 0 <= k <= collected.len()
            &&& next.intercept is Some ==> next.intercept_buffer.len()
                < s.intercept_buffer.len()
        }),
{
    let collected = s.intercept_buffer;
    let norm = dsml::normalized(collected);
    let k = match markup_end(collected, t) {
        Some(k) => k,
        None => collected.len() as int,
    };
    lemma_end_tag(norm, t);
    if let Some(close) = end_tag(norm, t) {
        text::lemma_find_from(norm, close, 0);
        if let Some(p) = text::find(norm, close) {
            dsml::lemma_read_to(collected, norm, 0, 0, p + close.len());
        }
    }
    let rest = collected.skip(k);
    let inner = dsml::normalized(rest);
    if let Some((i, u)) = first_tag(inner) {
        dsml::lemma_tag_position(rest, text::byte_len(inner.take(i)) as int, open_tag(u));
    }
}

/// With a piece of reasoning taken in.
pub open spec fn reasoning_taken(s: StreamView, t: Seq<char>) -> StreamView {
    let o = if s.open == Some(Kind::Thinking) {
        s
    } else {
        let c = closed(flushed(finalized(s)));
        StreamView {
            open: Some(Kind::Thinking),
            ..emitted(c, EventView::ThinkingStart { index: c.index })
        }
    };
    emitted(
        StreamView { generated: o.generated + t, ..o },
        EventView::Delta { index: o.index, kind: Kind::Thinking, text: t },
    )
}

/// With a native tool call, or a further piece of one, taken in.
pub open spec fn call_taken(s: StreamView, c: CallDelta) -> StreamView {
    let f = flushed(finalized(s));
    let o = if f.native.contains(c.index) {
        f
    } else {
        let name = match c.name {
            Some(n) => n,
            None => fallback::UNKNOWN@,
        };
        StreamView { native: f.native.insert(c.index), ..tool_opened(f, c.id, name) }
    };
    match c.arguments {
        Some(args) => args_sent(o, args),
        None => o,
    }
}

/// With everything that was held back sent and every block closed. A reply that
/// says nothing, uses no tool and has no block open gets a blank.
pub open spec fn settled(s: StreamView) -> StreamView {
    let f = flushed(finalized(s));
    let filled = if f.open is None && f.generated.len() == 0 && !f.tool_used {
        text_sent(f, " "@)
    } else {
        f
    };
    StreamView { native: Set::empty(), ..closed(filled) }
}

/// What a recovery says.
pub const RECOVERY_NOTE: &'static str = "[holoProxy Recovery Injected]";

/// With a tool call sent that keeps the client going, where a tool is offered.
pub open spec fn recovered(s: StreamView) -> StreamView {
    match recovery::recovery_call(s.tools) {
        Some((name, args)) => call_sent(closed(text_sent(s, RECOVERY_NOTE@)), name, args),
        None => s,
    }
}

/// Whether it has to be found out if the reply broke off.
pub open spec fn in_question(s: StreamView) -> bool {
    s.agent && !s.tool_used
}

/// With the message ended, after a recovery where one is due.
pub open spec fn concluded(s: StreamView, recover: bool) -> StreamView {
    let r = if recover && in_question(s) {
        recovered(s)
    } else {
        s
    };
    emitted(
        emitted(r, EventView::MessageDelta { tool_use: r.tool_used }),
        EventView::MessageStop,
    )
}

/// With an error reported, before the message is ended.
pub open spec fn error_sent(s: StreamView, msg: Seq<char>) -> StreamView {
    let t = text_sent(flushed(s), msg);
    let c = if t.open == Some(Kind::Tool) {
        t
    } else {
        closed(t)
    };
    if in_question(c) {
        recovered(c)
    } else {
        c
    }
}

// ---------------------------------------------------------------------------
// The stream
// ---------------------------------------------------------------------------

/// A stream state machine from the pieces of an OpenAI reply to Anthropic
/// events.
pub struct StreamContext {
    msg_id: String,
    model_name: String,
    is_agent_mode: bool,
    valid_tools: ToolTable,
    block_idx: u32,
    open: Option<Kind>,
    has_tool_use: bool,
    generated_text: String,
    text_buffer: String,
    intercept: Option<Tag>,
    intercept_buffer: String,
    native: HashSet<u32>,
    pending: Vec<SseEvent>,
    sent: Ghost<Seq<EventView>>,
}

impl View for StreamContext {
    type V = StreamView;

    closed spec fn view(&self) -> StreamView {
        StreamView {
            msg_id: self.msg_id@,
            model: self.model_name@,
            agent: self.is_agent_mode,
            tools: self.valid_tools@,
            index: self.block_idx,
            open: self.open,
            tool_used: self.has_tool_use,
            generated: self.generated_text@,
            text_buffer: self.text_buffer@,
            intercept: self.intercept,
            intercept_buffer: self.intercept_buffer@,
            native: self.native@,
            out: self.sent@ + events::event_views(self.pending@),
            taken: self.sent@.len(),
        }
    }
}

/// The view of a native tool call: a call without an index has index 0.
pub open spec fn call_delta(tc: OpenAIToolCallDelta) -> CallDelta {
    CallDelta {
        index: match tc.index {
            Some(i) => i,
            None => 0,
        },
        id: types::opt_text(tc.id),
        name: match tc.function {
            Some(f) => types::opt_text(f.name),
            None => None,
        },
        arguments: match tc.function {
            Some(f) => types::opt_text(f.arguments),
            None => None,
        },
    }
}

fn open_tag_of(t: Tag) -> (r: &'static str)
    ensures
        r@ == open_tag(t),
{
    match t {
        Tag::ToolCalls => "<tool_calls",
        Tag::ToolCall => "<tool_call>",
        Tag::Invoke => "<invoke",
        Tag::Parameter => "<parameter",
    }
}

fn close_tag_of(t: Tag) -> (r: &'static str)
    ensures
        r@ == close_tag(t),
{
    match t {
        Tag::ToolCalls => "</tool_calls",
        Tag::ToolCall => "</tool_call",
        Tag::Invoke => "</invoke",
        Tag::Parameter => "</parameter",
    }
}

fn find_tag(norm: &str, t: Tag) -> (r: Option<(usize, Tag)>)
    ensures
        match r {
            Some((i, u)) => tag_in(norm@, t) == Some((i as int, u)) && i <= norm@.len(),
            None => tag_in(norm@, t) is None,
        },
{
    match text::find_text(norm, open_tag_of(t)) {
        Some(i) => Some((i, t)),
        None => None,
    }
}

fn earlier_of(a: Option<(usize, Tag)>, b: Option<(usize, Tag)>) -> (r: Option<(usize, Tag)>)
    ensures
        r == a || r == b,
        a is None ==> r == b,
        b is None ==> r == a,
        a matches Some(x) ==> b matches Some(y) ==> r == if y.0 < x.0 {
            b
        } else {
            a
        },
{
    match (a, b) {
        (Some(x), Some(y)) => if y.0 < x.0 {
            b
        } else {
            a
        },
        (Some(_), None) => a,
        (None, _) => b,
    }
}

/// The element that begins first in a text in canonical form.
pub fn find_first_tag(norm: &str) -> (r: Option<(usize, Tag)>)
    ensures
        match r {
            Some((i, t)) => first_tag(norm@) == Some((i as int, t)) && i <= norm@.len(),
            None => first_tag(norm@) is None,
        },
{
    let whole = earlier_of(find_tag(norm, Tag::ToolCalls), find_tag(norm, Tag::ToolCall));
    let part = earlier_of(find_tag(norm, Tag::Invoke), find_tag(norm, Tag::Parameter));
    earlier_of(whole, part)
}

/// The first end tag of the element in a text in canonical form, with its
/// closing bracket.
pub fn find_end_tag(norm: &str, t: Tag) -> (r: Option<String>)
    ensures
        types::opt_text(r) == end_tag(norm@, t),
{
    match text::find_text(norm, close_tag_of(t)) {
        Some(p) => {
            proof {
                reveal_strlit(">");
                assert(">"@ =~= seq!['>']);
            }
            match text::find_text_from(norm, ">", p) {
                Some(q) => Some(text::cut(norm, p, q + 1)),
                None => None,
            }
        },
        None => None,
    }
}

/// The position after the end tag in what has been collected.
fn find_markup_end(collected: &str, t: Tag) -> (r: Option<usize>)
    ensures
        match r {
            Some(k) => markup_end(collected@, t) == Some(k as int) && k <= collected@.len(),
            None => markup_end(collected@, t) is None,
        },
{
    let norm = dsml::normalize_dsml_tags(collected);
    match find_end_tag(norm.as_str(), t) {
        Some(close) => dsml::close_tag_end(collected, norm.as_str(), close.as_str()),
        None => None,
    }
}

impl StreamContext {
    /// The stream of a reply; it starts with the start of the message.
    pub fn new(
        msg_id: String,
        model_name: String,
        is_agent_mode: bool,
        valid_tools: ToolTable,
    ) -> (r: StreamContext)
        ensures
            r@ == started(msg_id@, model_name@, is_agent_mode, valid_tools@),
            protocol::plain_so_far(r@, Seq::empty()),
    {
        proof {
            protocol::lemma_plain_started(msg_id@, model_name@, is_agent_mode, valid_tools@);
        }
        let mut pending: Vec<SseEvent> = Vec::new();
        pending.push(
            SseEvent::MessageStart { message: msg_id.clone(), model: model_name.clone() },
        );
        let r = StreamContext {
            msg_id,
            model_name,
            is_agent_mode,
            valid_tools,
            block_idx: 0,
            open: None,
            has_tool_use: false,
            generated_text: String::new(),
            text_buffer: String::new(),
            intercept: None,
            intercept_buffer: String::new(),
            native: HashSet::new(),
            pending,
            sent: Ghost(Seq::empty()),
        };
        assert(r@ =~= started(msg_id@, model_name@, is_agent_mode, valid_tools@));
        r
    }

    /// What the text and thinking deltas have said so far.
    pub fn generated_text(&self) -> (r: &str)
        ensures
            r@ == self@.generated,
    {
        self.generated_text.as_str()
    }

    /// Takes out the events that have not been taken yet, written for the wire.
    pub fn take_output(&mut self) -> (r: Vec<String>)
        ensures
            final(self)@ == (StreamView { taken: old(self)@.out.len(), ..old(self)@ }),
            r@.len() == old(self)@.out.len() - old(self)@.taken,
            forall|i: int|
                0 <= i < r@.len() ==> events::is_event_text(
                    old(self)@.out[old(self)@.taken + i],
                    #[trigger] r@[i]@,
                ),
    {
        let mut batch: Vec<SseEvent> = Vec::new();
        std::mem::swap(&mut batch, &mut self.pending);
        let ghost before = self.sent@;
        let ghost views = events::event_views(batch@);
        let mut r: Vec<String> = Vec::new();
        let mut i: usize = 0;
        while i < batch.len()
            invariant
                i <= batch@.len(),
                r@.len() == i,
                views == events::event_views(batch@),
                forall|j: int|
                    0 <= j < i ==> events::is_event_text(views[j], #[trigger] r@[j]@),
            decreases batch.len() - i,
        {
            r.push(batch[i].encode());
            i = i + 1;
        }
        self.sent = Ghost(before + views);
        assert(self@ =~= StreamView { taken: old(self)@.out.len(), ..old(self)@ });
        r
    }

    fn send_event(&mut self, e: SseEvent)
        ensures
            final(self)@ == emitted(old(self)@, e@),
    {
        self.pending.push(e);
        assert(self@ =~= emitted(old(self)@, e@));
    }

    fn close_block(&mut self)
        ensures
            final(self)@ == closed(old(self)@),
    {
        if self.open.is_some() {
            let index = self.block_idx;
            self.send_event(SseEvent::BlockStop { index });
            self.open = None;
            self.block_idx = if index == u32::MAX {
                0
            } else {
                index + 1
            };
            assert(self@ =~= closed(old(self)@));
        }
    }

    fn has_open(&self, kind: Kind) -> (r: bool)
        ensures
            r == (self@.open == Some(kind)),
    {
        match self.open {
            Some(k) => k == kind,
            None => false,
        }
    }

    fn ensure_text_open(&mut self)
        ensures
            final(self)@ == text_opened(old(self)@),
    {
        if !self.has_open(Kind::Text) {
            self.close_block();
            let index = self.block_idx;
            self.send_event(SseEvent::TextStart { index });
            self.open = Some(Kind::Text);
            assert(self@ =~= text_opened(old(self)@));
        }
    }

    fn send_text_delta(&mut self, t: &str)
        ensures
            final(self)@ == text_sent(old(self)@, t@),
    {
        if t.is_empty() {
            return ;
        }
        self.generated_text.append(t);
        assert(self@ =~= StreamView { generated: old(self)@.generated + t@, ..old(self)@ });
        self.ensure_text_open();
        let index = self.block_idx;
        self.send_event(SseEvent::Delta { index, kind: Kind::Text, text: t.to_owned() });
    }

    fn flush_text_buffer(&mut self)
        ensures
            final(self)@ == flushed(old(self)@),
    {
        if !self.text_buffer.as_str().is_empty() && self.intercept.is_none() {
            let mut remaining = String::new();
            std::mem::swap(&mut remaining, &mut self.text_buffer);
            assert(self@ =~= StreamView { text_buffer: Seq::empty(), ..old(self)@ });
            self.send_text_delta(remaining.as_str());
        }
    }

    fn open_tool(&mut self, id: Option<String>, name: String)
        ensures
            final(self)@ == tool_opened(old(self)@, types::opt_text(id), name@),
    {
        self.flush_text_buffer();
        self.close_block();
        let index = self.block_idx;
        self.send_event(SseEvent::ToolStart { index, id, name });
        self.open = Some(Kind::Tool);
        self.has_tool_use = true;
        assert(self@ =~= tool_opened(old(self)@, types::opt_text(id), name@));
    }

    fn send_tool_delta(&mut self, args: &str)
        ensures
            final(self)@ == args_sent(old(self)@, args@),
    {
        if self.has_open(Kind::Tool) && !args.is_empty() {
            let index = self.block_idx;
            self.send_event(SseEvent::Delta { index, kind: Kind::Tool, text: args.to_owned() });
        }
    }

    fn send_call(&mut self, name: String, args: &str)
        ensures
            final(self)@ == call_sent(old(self)@, name@, args@),
    {
        self.open_tool(None, name);
        self.send_tool_delta(args);
        self.close_block();
    }

    /// Sends a tool call that was read from markup, where the tool is offered.
    pub fn handle_markup_call(&mut self, name: String, args: &str)
        ensures
            final(self)@ == offered_call_sent(old(self)@, name@, args@),
    {
        if !text::same(name.as_str(), fallback::UNKNOWN) && self.valid_tools.contains(
            name.as_str(),
        ) {
            self.send_call(name, args);
        }
    }

    fn send_markup(&mut self, markup: &str)
        ensures
            final(self)@ == markup_sent(old(self)@, markup@),
    {
        let (name, args) = fallback::parse_fallback_tool(markup, &self.valid_tools);
        self.handle_markup_call(name, args.text.as_str());
    }

    /// Looks through the text that is held back: `norm` is its canonical form,
    /// and `at` where the first element begins in it.
    pub fn scan(&mut self, norm: &str, at: usize)
        requires
            at <= old(self)@.text_buffer.len(),
        ensures
            final(self)@ == scanned_as(old(self)@, norm@, at as int),
    {
        match find_first_tag(norm) {
            Some((i, t)) => {
                let before = text::head(norm, i);
                let collected = text::tail(self.text_buffer.as_str(), at);
                self.send_text_delta(before.as_str());
                self.intercept = Some(t);
                self.intercept_buffer = collected;
                self.text_buffer = String::new();
                assert(self@ =~= scanned_as(old(self)@, norm@, at as int));
            },
            None => {
                let n = text::byte_length(self.text_buffer.as_str());
                if n > HOLD_BACK {
                    let k = text::count_within(self.text_buffer.as_str(), n - HOLD_BACK);
                    let ready = text::head(self.text_buffer.as_str(), k);
                    let kept = text::tail(self.text_buffer.as_str(), k);
                    self.send_text_delta(ready.as_str());
                    self.text_buffer = kept;
                    assert(self@ =~= scanned_as(old(self)@, norm@, at as int));
                }
            },
        }
    }

    fn check_text_buffer_triggers(&mut self)
        ensures
            final(self)@ == scanned(old(self)@),
            old(self)@.intercept is None && dsml::unbracketed(old(self)@.text_buffer)
                ==> first_tag(dsml::normalized(old(self)@.text_buffer)) is None,
    {
        if self.intercept.is_some() {
            return ;
        }
        let norm = dsml::normalize_dsml_tags(self.text_buffer.as_str());
        proof {
            dsml::lemma_unbracketed(self@.text_buffer);
            if dsml::unbracketed(self@.text_buffer) {
                protocol::lemma_no_tag(norm@);
            }
        }
        let at: usize = match find_first_tag(norm.as_str()) {
            Some((i, t)) => {
                let before = text::head(norm.as_str(), i);
                dsml::find_original_tag_pos(
                    self.text_buffer.as_str(),
                    text::byte_length(before.as_str()),
                    open_tag_of(t),
                )
            },
            None => 0,
        };
        self.scan(norm.as_str(), at);
    }

    fn take_up(&mut self, collected: &str, k: usize)
        requires
            k <= collected@.len(),
        ensures
            final(self)@ == taken_up(old(self)@, collected@, k as int),
    {
        let markup = text::head(collected, k);
        let rest = text::tail(collected, k);
        self.send_markup(markup.as_str());
        let ghost sent = self@;
        self.intercept = None;
        self.intercept_buffer = String::new();
        self.text_buffer = rest;
        assert(self@ =~= StreamView {
            intercept: None,
            intercept_buffer: Seq::empty(),
            text_buffer: collected@.skip(k as int),
            ..sent
        });
        if !self.text_buffer.as_str().is_empty() {
            self.check_text_buffer_triggers();
        }
    }

    fn finalize_intercept(&mut self)
        ensures
            final(self)@ == finalized(old(self)@),
    {
        while self.intercept.is_some()
            invariant
                finalized(old(self)@) == finalized(self@),
            decreases
                    (if self@.intercept is Some {
                        1 + self@.intercept_buffer.len()
                    } else {
                        0
                    }),
        {
            let t: Tag = match self.intercept {
                Some(t) => t,
                None => Tag::Invoke,
            };
            let collected = self.intercept_buffer.clone();
            let n: usize = collected.as_str().unicode_len();
            let k: usize = match find_markup_end(collected.as_str(), t) {
                Some(k) => k,
                None => n,
            };
            proof {
                lemma_taken_up_shrinks(self@, t);
            }
            let ghost before = self@;
            self.take_up(collected.as_str(), k);
            assert(self@ == taken_up(before, before.intercept_buffer, k as int));
            assert(finalized(before) == finalized(self@));
        }
    }

    /// Takes in a piece of text. Text without opening brackets, however it
    /// comes in pieces, goes out as it is, in deltas of one text block.
    pub fn handle_content(&mut self, content: &str)
        ensures
            final(self)@ == content_taken(old(self)@, content@),
            forall|c: Seq<char>| #[trigger]
                protocol::plain_so_far(old(self)@, c) && dsml::unbracketed(c + content@)
                    ==> protocol::plain_so_far(final(self)@, c + content@),
    {
        match self.intercept {
            Some(t) => {
                self.intercept_buffer.append(content);
                let collected = self.intercept_buffer.clone();
                match find_markup_end(collected.as_str(), t) {
                    Some(k) => {
                        proof {
                            lemma_taken_up_frame(
                                old(self)@,
                                self@.intercept_buffer,
                                collected@,
                                k as int,
                            );
                        }
                        assert(self@ =~= StreamView {
                            intercept_buffer: self@.intercept_buffer,
                            ..old(self)@
                        });
                        self.take_up(collected.as_str(), k);
                    },
                    None => {
                        assert(self@ =~= content_taken(old(self)@, content@));
                    },
                }
            },
            None => {
                self.text_buffer.append(content);
                assert(self@ =~= StreamView {
                    text_buffer: old(self)@.text_buffer + content@,
                    ..old(self)@
                });
                self.check_text_buffer_triggers();
                assert forall|c: Seq<char>| #[trigger]
                    protocol::plain_so_far(old(self)@, c) && dsml::unbracketed(
                        c + content@,
                    ) implies protocol::plain_so_far(self@, c + content@) by {
                    protocol::lemma_unbracketed_buffer(old(self)@, c, content@);
                    protocol::law_plain_so_far(old(self)@, c, content@);
                }
            },
        }
    }

    /// Takes in a piece of reasoning; it goes into a thinking block.
    pub fn handle_reasoning(&mut self, t: &str)
        ensures
            final(self)@ == reasoning_taken(old(self)@, t@),
    {
        if !self.has_open(Kind::Thinking) {
            self.finalize_intercept();
            self.flush_text_buffer();
            self.close_block();
            let index = self.block_idx;
            self.send_event(SseEvent::ThinkingStart { index });
            self.open = Some(Kind::Thinking);
        }
        let ghost o = self@;
        self.generated_text.append(t);
        assert(self@ =~= StreamView { generated: o.generated + t@, ..o });
        let index = self.block_idx;
        self.send_event(SseEvent::Delta { index, kind: Kind::Thinking, text: t.to_owned() });
    }

    /// Takes in a native tool call, or a further piece of one.
    pub fn handle_tool_call(&mut self, tc: &OpenAIToolCallDelta)
        ensures
            final(self)@ == call_taken(old(self)@, call_delta(*tc)),
    {
        broadcast use vstd::std_specs::hash::group_hash_axioms;

        self.finalize_intercept();
        self.flush_text_buffer();
        let index: u32 = match tc.index {
            Some(i) => i,
            None => 0,
        };
        let ghost f = self@;
        if !self.native.contains(&index) {
            let name = match &tc.function {
                Some(function) => match &function.name {
                    Some(n) => n.clone(),
                    None => fallback::UNKNOWN.to_owned(),
                },
                None => fallback::UNKNOWN.to_owned(),
            };
            self.open_tool(types::copy_opt(&tc.id), name);
            let ghost o = self@;
            self.native.insert(index);
            assert(self@ =~= StreamView { native: f.native.insert(index), ..o });
        }
        match &tc.function {
            Some(function) => match &function.arguments {
                Some(args) => self.send_tool_delta(args.as_str()),
                None => {},
            },
            None => {},
        }
    }

    /// Sends everything that was held back and closes every block. Returns
    /// whether it has to be found out if the reply broke off, before the
    /// message is finished.
    pub fn settle(&mut self) -> (r: bool)
        ensures
            final(self)@ == settled(old(self)@),
            r == in_question(final(self)@),
    {
        self.finalize_intercept();
        self.flush_text_buffer();
        if self.open.is_none() && self.generated_text.as_str().is_empty() && !self.has_tool_use {
            self.send_text_delta(" ");
        }
        self.close_block();
        let ghost c = self@;
        self.native = HashSet::new();
        assert(self@ =~= StreamView { native: Set::empty(), ..c });
        self.is_agent_mode && !self.has_tool_use
    }

    fn inject_recovery(&mut self)
        ensures
            final(self)@ == recovered(old(self)@),
    {
        match recovery::pick_recovery_tool(&self.valid_tools) {
            Some((name, args)) => {
                self.send_text_delta(RECOVERY_NOTE);
                self.close_block();
                self.send_call(name, args.text.as_str());
            },
            None => {},
        }
    }

    /// Ends the message. Where the reply was in question, `recover` says
    /// whether it broke off.
    pub fn finish(&mut self, recover: bool)
        ensures
            final(self)@ == concluded(old(self)@, recover),
    {
        if recover && self.is_agent_mode && !self.has_tool_use {
            self.inject_recovery();
        }
        let tool_use = self.has_tool_use;
        self.send_event(SseEvent::MessageDelta { tool_use });
        self.send_event(SseEvent::MessageStop);
    }

    /// Reports an error and ends the message. A client that was offered tools
    /// gets a tool call in any case.
    pub fn send_error(&mut self, msg: &str)
        ensures
            final(self)@ == concluded(settled(error_sent(old(self)@, msg@)), false),
    {
        self.flush_text_buffer();
        self.send_text_delta(msg);
        if !self.has_open(Kind::Tool) {
            self.close_block();
        }
        if self.is_agent_mode && !self.has_tool_use {
            self.inject_recovery();
        }
        self.settle();
        self.finish(false);
    }
}

/// What has been collected does not matter for what becomes of it.
pub proof fn lemma_taken_up_frame(s: StreamView, buffer: Seq<char>, collected: Seq<char>, k: int)
    requires
        s.intercept is Some,
    ensures
        taken_up(StreamView { intercept_buffer: buffer, ..s }, collected, k) == taken_up(
            s,
            collected,
            k,
        ),
{
    let a = markup_sent(StreamView { intercept_buffer: buffer, ..s }, collected.take(k));
    let b = markup_sent(s, collected.take(k));
    assert(a =~= StreamView { intercept_buffer: a.intercept_buffer, ..b });
    assert(StreamView {
        intercept: None,
        intercept_buffer: Seq::empty(),
        text_buffer: collected.skip(k),
        ..a
    } =~= StreamView {
        intercept: None,
        intercept_buffer: Seq::empty(),
        text_buffer: collected.skip(k),
        ..b
    });
}

} // verus!
