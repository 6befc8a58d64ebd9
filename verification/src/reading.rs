//! What a client reads of a stream: the blocks that its events add up to, and
//! how they relate to what came in.
use vstd::prelude::*;

use crate::dsml;
use crate::events;
use crate::events::{EventView, Kind, Phase};
use crate::fallback;
use crate::protocol;
use crate::protocol::Piece;
use crate::recovery;
use crate::stream;
use crate::stream::{CallDelta, StreamView, Tag};
use crate::text;
use crate::tools;
use crate::tools::ToolEntry;

verus! {

// ---------------------------------------------------------------------------
// Blocks
// ---------------------------------------------------------------------------

/// A block as a client reads it: for a tool block the identifier and the name
/// that its start gave, and what its deltas add up to.
pub ghost struct Block {
    pub kind: Kind,
    pub id: Option<Seq<char>>,
    pub name: Seq<char>,
    pub text: Seq<char>,
}

/// A block of text or of thinking.
pub open spec fn saying(kind: Kind, text: Seq<char>) -> Block {
    Block { kind, id: None, name: Seq::empty(), text }
}

/// A tool block.
pub open spec fn calling(id: Option<Seq<char>>, name: Seq<char>, args: Seq<char>) -> Block {
    Block { kind: Kind::Tool, id, name, text: args }
}

/// The blocks with more text in the last one.
pub open spec fn continued(blocks: Seq<Block>, more: Seq<char>) -> Seq<Block> {
    if blocks.len() == 0 {
        blocks
    } else {
        blocks.drop_last().push(Block { text: blocks.last().text + more, ..blocks.last() })
    }
}

/// The blocks after one more event.
pub open spec fn read_event(blocks: Seq<Block>, e: EventView) -> Seq<Block> {
    match e {
        EventView::TextStart { .. } => blocks.push(saying(Kind::Text, Seq::empty())),
        EventView::ThinkingStart { .. } => blocks.push(saying(Kind::Thinking, Seq::empty())),
        EventView::ToolStart { id, name, .. } => blocks.push(calling(id, name, Seq::empty())),
        EventView::Delta { text, .. } => continued(blocks, text),
        _ => blocks,
    }
}

/// The blocks that events add up to.
pub open spec fn blocks_in(out: Seq<EventView>) -> Seq<Block>
    decreases out.len(),
{
    if out.len() == 0 {
        Seq::empty()
    } else {
        read_event(blocks_in(out.drop_last()), out.last())
    }
}

/// The tool blocks among blocks, in their order.
pub open spec fn calls_among(blocks: Seq<Block>) -> Seq<Block>
    decreases blocks.len(),
{
    if blocks.len() == 0 {
        Seq::empty()
    } else if blocks.last().kind == Kind::Tool {
        calls_among(blocks.drop_last()).push(blocks.last())
    } else {
        calls_among(blocks.drop_last())
    }
}

/// The tool calls that a client reads.
pub open spec fn calls_in(out: Seq<EventView>) -> Seq<Block> {
    calls_among(blocks_in(out))
}

/// The texts of the blocks of one kind, one after the other.
pub open spec fn texts_among(blocks: Seq<Block>, kind: Kind) -> Seq<char>
    decreases blocks.len(),
{
    if blocks.len() == 0 {
        Seq::empty()
    } else if blocks.last().kind == kind {
        texts_among(blocks.drop_last(), kind) + blocks.last().text
    } else {
        texts_among(blocks.drop_last(), kind)
    }
}

/// What a client reads as text.
pub open spec fn text_in(out: Seq<EventView>) -> Seq<char> {
    texts_among(blocks_in(out), Kind::Text)
}

/// What a client reads as thinking.
pub open spec fn thinking_in(out: Seq<EventView>) -> Seq<char> {
    texts_among(blocks_in(out), Kind::Thinking)
}

proof fn lemma_read_push(out: Seq<EventView>, e: EventView)
    ensures
        blocks_in(out.push(e)) == read_event(blocks_in(out), e),
{
    assert(out.push(e).drop_last() =~= out);
}

/// Inside a block, the last block read is that one.
proof fn lemma_inside(out: Seq<EventView>)
    ensures
        events::reached(out) matches Some(Phase::Inside { kind, .. }) ==> blocks_in(out).len() > 0
            && blocks_in(out).last().kind == kind,
    decreases out.len(),
{
    if out.len() > 0 {
        lemma_inside(out.drop_last());
    }
}

proof fn lemma_among_push(blocks: Seq<Block>, b: Block, kind: Kind)
    ensures
        calls_among(blocks.push(b)) == if b.kind == Kind::Tool {
            calls_among(blocks).push(b)
        } else {
            calls_among(blocks)
        },
        texts_among(blocks.push(b), kind) == if b.kind == kind {
            texts_among(blocks, kind) + b.text
        } else {
            texts_among(blocks, kind)
        },
{
    assert(blocks.push(b).drop_last() =~= blocks);
}

/// What one more delta changes, where a block is being read.
proof fn lemma_among_continued(blocks: Seq<Block>, more: Seq<char>, kind: Kind)
    requires
        blocks.len() > 0,
    ensures
        blocks.last().kind == Kind::Tool ==> calls_among(continued(blocks, more)) == continued(
            calls_among(blocks),
            more,
        ),
        blocks.last().kind != Kind::Tool ==> calls_among(continued(blocks, more)) == calls_among(
            blocks,
        ),
        texts_among(continued(blocks, more), kind) == if blocks.last().kind == kind {
            texts_among(blocks, kind) + more
        } else {
            texts_among(blocks, kind)
        },
{
    let front = blocks.drop_last();
    let b = Block { text: blocks.last().text + more, ..blocks.last() };
    lemma_among_push(front, b, kind);
    lemma_among_push(front, blocks.last(), kind);
    assert(front.push(blocks.last()) =~= blocks);
    if blocks.last().kind == Kind::Tool {
        assert(calls_among(blocks).drop_last() =~= calls_among(front));
    }
    assert(texts_among(front, kind) + (blocks.last().text + more) =~= texts_among(front, kind)
        + blocks.last().text + more);
}

// ---------------------------------------------------------------------------
// Steps
// ---------------------------------------------------------------------------

/// What a client reads after some text was said.
pub open spec fn with_text(blocks: Seq<Block>, open: Option<Kind>, t: Seq<char>) -> Seq<Block> {
    if t.len() == 0 {
        blocks
    } else if open == Some(Kind::Text) {
        continued(blocks, t)
    } else {
        blocks.push(saying(Kind::Text, t))
    }
}

proof fn lemma_closed_read(s: StreamView)
    ensures
        blocks_in(stream::closed(s).out) == blocks_in(s.out),
{
    lemma_read_push(s.out, EventView::BlockStop { index: s.index });
}

proof fn lemma_started_read(blocks: Seq<Block>, b: Block, t: Seq<char>)
    requires
        b.text.len() == 0,
    ensures
        continued(blocks.push(b), t) == blocks.push(Block { text: t, ..b }),
{
    assert(blocks.push(b).drop_last() =~= blocks);
    assert(b.text + t =~= t);
}

/// Text that is sent is read in a text block: in the one that is open, else in
/// a new one.
pub proof fn law_text_read(s: StreamView, t: Seq<char>)
    ensures
        blocks_in(stream::text_sent(s, t).out) == with_text(blocks_in(s.out), s.open, t),
{
    if t.len() > 0 {
        let c = stream::closed(s);
        lemma_closed_read(s);
        let o = if s.open == Some(Kind::Text) {
            s.out
        } else {
            c.out.push(EventView::TextStart { index: c.index })
        };
        lemma_read_push(c.out, EventView::TextStart { index: c.index });
        let r = stream::text_sent(s, t);
        let e = EventView::Delta { index: r.index, kind: Kind::Text, text: t };
        assert(r.out == o.push(e));
        lemma_read_push(o, e);
        if s.open != Some(Kind::Text) {
            lemma_started_read(blocks_in(s.out), saying(Kind::Text, Seq::empty()), t);
        }
    }
}

proof fn lemma_markup_frame(s: StreamView, markup: Seq<char>)
    ensures
        stream::markup_sent(s, markup).native == s.native,
{
}

proof fn lemma_scanned_frame(s: StreamView)
    ensures
        stream::scanned(s).native == s.native,
        stream::scanned(s).tools == s.tools,
{
}

proof fn lemma_finalized_frame(s: StreamView)
    ensures
        stream::finalized(s).native == s.native,
        stream::finalized(s).tools == s.tools,
    decreases s.intercept_buffer.len(),
{
    if let Some(t) = s.intercept {
        let collected = s.intercept_buffer;
        let k = match stream::markup_end(collected, t) {
            Some(k) => k,
            None => collected.len() as int,
        };
        let m = stream::markup_sent(s, collected.take(k));
        let next = StreamView {
            intercept: None,
            intercept_buffer: Seq::empty(),
            text_buffer: collected.skip(k),
            ..m
        };
        lemma_markup_frame(s, collected.take(k));
        lemma_scanned_frame(next);
        stream::lemma_taken_up_shrinks(s, t);
        let n = stream::taken_up(s, collected, k);
        if n.intercept is Some {
            lemma_finalized_frame(n);
        }
    }
}

proof fn lemma_tool_opened_read(s: StreamView, id: Option<Seq<char>>, name: Seq<char>)
    ensures
        blocks_in(stream::tool_opened(s, id, name).out) == blocks_in(stream::flushed(s).out).push(
            calling(id, name, Seq::empty()),
        ),
{
    let f = stream::flushed(s);
    let c = stream::closed(f);
    lemma_closed_read(f);
    lemma_read_push(c.out, EventView::ToolStart { index: c.index, id, name });
}

// ---------------------------------------------------------------------------
// Native tool calls
// ---------------------------------------------------------------------------

/// The name of a native call; one without a name is unknown.
pub open spec fn name_given(c: CallDelta) -> Seq<char> {
    match c.name {
        Some(n) => n,
        None => "unknown"@,
    }
}

/// The arguments that a piece of a native call brings.
pub open spec fn args_given(c: CallDelta) -> Seq<char> {
    match c.arguments {
        Some(a) => a,
        None => Seq::empty(),
    }
}

/// The arguments that pieces of a native call bring, one after the other.
pub open spec fn all_args(pieces: Seq<CallDelta>) -> Seq<char>
    decreases pieces.len(),
{
    if pieces.len() == 0 {
        Seq::empty()
    } else {
        all_args(pieces.drop_last()) + args_given(pieces.last())
    }
}

/// The first piece of a native call opens a block with the identifier and the
/// name that it gives, and the arguments that it brings stand in that block. A
/// further piece adds its arguments to the block that is open. What was held
/// back is read before it.
pub proof fn law_native_piece_read(s: StreamView, c: CallDelta)
    requires
        protocol::consistent(s),
    ensures
        ({
            let f = stream::flushed(stream::finalized(s));
            let r = stream::call_taken(s, c);
            &&& !s.native.contains(c.index) ==> blocks_in(r.out) == blocks_in(f.out).push(
                calling(c.id, name_given(c), args_given(c)),
            ) && r.open == Some(Kind::Tool) && r.tool_used && r.native == s.native.insert(c.index)
            &&& !s.native.contains(c.index) && args_given(c).len() > 0 ==> r.out.last() == (
            EventView::Delta { index: r.index, kind: Kind::Tool, text: args_given(c) })
            &&& s.native.contains(c.index) ==> r.native == s.native && r.open == f.open && blocks_in(
                r.out,
            ) == if f.open == Some(Kind::Tool) {
                continued(blocks_in(f.out), args_given(c))
            } else {
                blocks_in(f.out)
            }
            &&& s.intercept is None && s.text_buffer.len() == 0 ==> f == s
            &&& r.intercept is None
            &&& r.text_buffer.len() == 0
        }),
{
    let f = stream::flushed(stream::finalized(s));
    let r = stream::call_taken(s, c);
    lemma_finalized_frame(s);
    protocol::lemma_cleared(s);
    let name = name_given(c);
    let o = if f.native.contains(c.index) {
        f
    } else {
        lemma_tool_opened_read(f, c.id, name);
        StreamView { native: f.native.insert(c.index), ..stream::tool_opened(f, c.id, name) }
    };
    let args = args_given(c);
    lemma_read_push(o.out, EventView::Delta { index: o.index, kind: Kind::Tool, text: args });
    lemma_started_read(blocks_in(f.out), calling(c.id, name, Seq::empty()), args);
    lemma_inside(f.out);
    if args.len() == 0 {
        if f.open == Some(Kind::Tool) {
            let b = blocks_in(f.out);
            assert(b.last().text + args =~= b.last().text);
            assert(continued(b, args) =~= b);
        }
        assert(args =~= Seq::<char>::empty());
    }
}

/// A native call that comes in pieces is read as one tool block: with the
/// identifier and the name of the first piece and the arguments of all of them,
/// the first one included.
#[verifier::rlimit(60)]
pub proof fn law_native_call_read(s: StreamView, pieces: Seq<CallDelta>)
    requires
        protocol::consistent(s),
        pieces.len() > 0,
        forall|i: int| 0 <= i < pieces.len() ==> (#[trigger] pieces[i]).index == pieces[0].index,
        !s.native.contains(pieces[0].index),
    ensures
        ({
            let f = stream::flushed(stream::finalized(s));
            let r = protocol::pieces_taken(
                s,
                pieces.map_values(|c: CallDelta| Piece::Call(c)),
            );
            &&& blocks_in(r.out) == blocks_in(f.out).push(
                calling(pieces[0].id, name_given(pieces[0]), all_args(pieces)),
            )
            &&& r.open == Some(Kind::Tool)
            &&& r.tool_used
            &&& r.native == s.native.insert(pieces[0].index)
            &&& r.intercept is None
            &&& r.text_buffer.len() == 0
            &&& protocol::consistent(r)
        }),
    decreases pieces.len(),
{
    let f = stream::flushed(stream::finalized(s));
    let all = pieces.map_values(|c: CallDelta| Piece::Call(c));
    let front = pieces.drop_last();
    let last = pieces.last();
    let before = protocol::pieces_taken(s, all.drop_last());
    assert(all.drop_last() =~= front.map_values(|c: CallDelta| Piece::Call(c)));
    assert(all.last() == Piece::Call(last));
    protocol::law_pieces_taken(s, all);
    protocol::law_pieces_taken(s, all.drop_last());
    law_native_piece_read(before, last);
    if pieces.len() == 1 {
        assert(all.drop_last() =~= Seq::<Piece>::empty());
        assert(front =~= Seq::<CallDelta>::empty());
        assert(all_args(pieces) =~= args_given(last));
    } else {
        assert forall|i: int| 0 <= i < front.len() implies (#[trigger] front[i]).index
            == front[0].index by {
            assert(front[i] == pieces[i]);
        }
        law_native_call_read(s, front);
        assert(pieces[pieces.len() - 1].index == pieces[0].index);
        let b = blocks_in(f.out);
        let so_far = calling(pieces[0].id, name_given(pieces[0]), all_args(front));
        assert(b.push(so_far).drop_last() =~= b);
        assert(before.native.contains(last.index));
        assert(before.native.insert(last.index) =~= before.native);
    }
}

/// Native calls one after the other, each in its pieces.
pub open spec fn in_a_row(calls: Seq<Seq<CallDelta>>) -> Seq<Piece>
    decreases calls.len(),
{
    if calls.len() == 0 {
        Seq::empty()
    } else {
        in_a_row(calls.drop_last()) + calls.last().map_values(|c: CallDelta| Piece::Call(c))
    }
}

/// The pieces of each call have one index, and no two calls have the same.
pub open spec fn are_calls(calls: Seq<Seq<CallDelta>>) -> bool {
    &&& forall|i: int| 0 <= i < calls.len() ==> (#[trigger] calls[i]).len() > 0
    &&& forall|i: int, j: int|
        0 <= i < calls.len() && 0 <= j < calls[i].len() ==> (#[trigger] calls[i][j]).index
            == calls[i][0].index
    &&& forall|i: int, j: int|
        0 <= i < j < calls.len() ==> (#[trigger] calls[i])[0].index != (
        #[trigger] calls[j])[0].index
}

#[verifier::rlimit(60)]
proof fn lemma_calls_in_a_row(
    msg_id: Seq<char>,
    model: Seq<char>,
    agent: bool,
    offered: Seq<ToolEntry>,
    calls: Seq<Seq<CallDelta>>,
)
    requires
        are_calls(calls),
    ensures
        ({
            let s = stream::started(msg_id, model, agent, offered);
            let r = protocol::pieces_taken(s, in_a_row(calls));
            &&& protocol::consistent(r)
            &&& r.intercept is None
            &&& r.text_buffer.len() == 0
            &&& r.tool_used == (calls.len() > 0)
            &&& forall|n: u32| r.native.contains(n) ==> exists|i: int|
                0 <= i < calls.len() && (#[trigger] calls[i])[0].index == n
            &&& blocks_in(r.out).len() == calls.len()
            &&& forall|i: int|
                0 <= i < calls.len() ==> (#[trigger] blocks_in(r.out)[i]) == calling(
                    calls[i][0].id,
                    name_given(calls[i][0]),
                    all_args(calls[i]),
                )
        }),
    decreases calls.len(),
{
    let s = stream::started(msg_id, model, agent, offered);
    let r = protocol::pieces_taken(s, in_a_row(calls));
    protocol::law_started(msg_id, model, agent, offered);
    if calls.len() == 0 {
        lemma_read_push(Seq::empty(), s.out[0]);
        assert(Seq::<EventView>::empty().push(s.out[0]) =~= s.out);
    } else {
        let front = calls.drop_last();
        let last = calls.last();
        let n = calls.len() - 1;
        assert(last == calls[n]);
        assert forall|i: int| 0 <= i < front.len() implies (#[trigger] front[i]).len() > 0 by {
            assert(front[i] == calls[i]);
        }
        assert forall|i: int, j: int| 0 <= i < front.len() && 0 <= j < front[i].len() implies (
        #[trigger] front[i][j]).index == front[i][0].index by {
            assert(front[i] == calls[i]);
            assert(calls[i][j].index == calls[i][0].index);
        }
        assert forall|i: int, j: int| 0 <= i < j < front.len() implies (#[trigger] front[i])[0].index
            != (#[trigger] front[j])[0].index by {
            assert(front[i] == calls[i] && front[j] == calls[j]);
        }
        lemma_calls_in_a_row(msg_id, model, agent, offered, front);
        let before = protocol::pieces_taken(s, in_a_row(front));
        let pieces = last.map_values(|c: CallDelta| Piece::Call(c));
        protocol::lemma_pieces_concat(s, in_a_row(front), pieces);
        assert forall|i: int| 0 <= i < last.len() implies (#[trigger] last[i]).index
            == last[0].index by {
            assert(calls[n][i].index == calls[n][0].index);
        }
        if before.native.contains(last[0].index) {
            let i = choose|i: int|
                0 <= i < front.len() && (#[trigger] front[i])[0].index == last[0].index;
            assert(front[i] == calls[i]);
            assert(calls[i][0].index != calls[n][0].index);
        }
        law_native_call_read(before, last);
        law_native_piece_read(before, last[0]);
        assert forall|x: u32| r.native.contains(x) implies exists|i: int|
            0 <= i < calls.len() && (#[trigger] calls[i])[0].index == x by {
            if x == last[0].index {
                assert(calls[n][0].index == x);
            } else {
                let i = choose|i: int| 0 <= i < front.len() && (#[trigger] front[i])[0].index == x;
                assert(calls[i] == front[i]);
            }
        }
        assert forall|i: int| 0 <= i < calls.len() implies (#[trigger] blocks_in(r.out)[i])
            == calling(calls[i][0].id, name_given(calls[i][0]), all_args(calls[i])) by {
            if i < n {
                assert(blocks_in(r.out)[i] == blocks_in(before.out)[i]);
                assert(front[i] == calls[i]);
            }
        }
    }
}

/// A reply of native calls is read as these calls and nothing else, in their
/// order, each with the arguments of all its pieces.
pub proof fn law_native_calls_read(
    msg_id: Seq<char>,
    model: Seq<char>,
    agent: bool,
    offered: Seq<ToolEntry>,
    calls: Seq<Seq<CallDelta>>,
    recover: bool,
)
    requires
        are_calls(calls),
        calls.len() > 0,
    ensures
        ({
            let r = protocol::whole_stream(msg_id, model, agent, offered, in_a_row(calls), recover);
            &&& blocks_in(r.out).len() == calls.len()
            &&& forall|i: int|
                0 <= i < calls.len() ==> (#[trigger] blocks_in(r.out)[i]) == calling(
                    calls[i][0].id,
                    name_given(calls[i][0]),
                    all_args(calls[i]),
                )
        }),
{
    let s = stream::started(msg_id, model, agent, offered);
    let p = protocol::pieces_taken(s, in_a_row(calls));
    lemma_calls_in_a_row(msg_id, model, agent, offered, calls);
    let q = stream::settled(p);
    lemma_closed_read(p);
    assert(blocks_in(q.out) == blocks_in(p.out));
    lemma_concluded_read(q, recover);
}

proof fn lemma_concluded_read(s: StreamView, recover: bool)
    ensures
        !recover || !stream::in_question(s) ==> blocks_in(stream::concluded(s, recover).out)
            == blocks_in(s.out),
{
    let d = EventView::MessageDelta { tool_use: s.tool_used };
    lemma_read_push(s.out, d);
    lemma_read_push(s.out.push(d), EventView::MessageStop);
}

// ---------------------------------------------------------------------------
// Text and thinking
// ---------------------------------------------------------------------------

/// A piece of reasoning is read in a thinking block: in the one that is open,
/// else in a new one, after what was held back.
pub proof fn law_reasoning_read(s: StreamView, t: Seq<char>)
    requires
        protocol::consistent(s),
    ensures
        ({
            let f = stream::flushed(stream::finalized(s));
            let r = stream::reasoning_taken(s, t);
            &&& blocks_in(r.out) == if s.open == Some(Kind::Thinking) {
                continued(blocks_in(s.out), t)
            } else {
                blocks_in(f.out).push(saying(Kind::Thinking, t))
            }
            &&& thinking_in(r.out) == if s.open == Some(Kind::Thinking) {
                thinking_in(s.out) + t
            } else {
                thinking_in(f.out) + t
            }
            &&& calls_in(r.out) == if s.open == Some(Kind::Thinking) {
                calls_in(s.out)
            } else {
                calls_in(f.out)
            }
        }),
{
    let f = stream::flushed(stream::finalized(s));
    let c = stream::closed(f);
    lemma_closed_read(f);
    let start = EventView::ThinkingStart { index: c.index };
    lemma_read_push(c.out, start);
    let o = if s.open == Some(Kind::Thinking) {
        s.out
    } else {
        c.out.push(start)
    };
    let r = stream::reasoning_taken(s, t);
    let e = EventView::Delta { index: r.index, kind: Kind::Thinking, text: t };
    assert(r.out == o.push(e));
    lemma_read_push(o, e);
    lemma_inside(s.out);
    lemma_started_read(blocks_in(f.out), saying(Kind::Thinking, Seq::empty()), t);
    lemma_among_push(blocks_in(f.out), saying(Kind::Thinking, t), Kind::Thinking);
    if s.open == Some(Kind::Thinking) {
        lemma_among_continued(blocks_in(s.out), t, Kind::Thinking);
    }
}

/// Saying text leaves the calls and the thinking as they are.
pub proof fn law_text_apart(s: StreamView, t: Seq<char>)
    requires
        protocol::consistent(s),
    ensures
        ({
            let r = stream::text_sent(s, t);
            &&& text_in(r.out) == text_in(s.out) + t
            &&& thinking_in(r.out) == thinking_in(s.out)
            &&& calls_in(r.out) == calls_in(s.out)
        }),
{
    law_text_read(s, t);
    lemma_inside(s.out);
    let b = blocks_in(s.out);
    if t.len() == 0 {
        assert(text_in(s.out) + t =~= text_in(s.out));
    } else if s.open == Some(Kind::Text) {
        lemma_among_continued(b, t, Kind::Text);
        lemma_among_continued(b, t, Kind::Thinking);
    } else {
        lemma_among_push(b, saying(Kind::Text, t), Kind::Text);
        lemma_among_push(b, saying(Kind::Text, t), Kind::Thinking);
    }
}

proof fn lemma_flushed_apart(s: StreamView)
    requires
        protocol::consistent(s),
    ensures
        ({
            let r = stream::flushed(s);
            &&& s.intercept is None ==> text_in(r.out) == text_in(s.out) + s.text_buffer
            &&& thinking_in(r.out) == thinking_in(s.out)
            &&& calls_in(r.out) == calls_in(s.out)
        }),
{
    law_text_apart(StreamView { text_buffer: Seq::empty(), ..s }, s.text_buffer);
    if s.text_buffer.len() == 0 {
        assert(text_in(s.out) + s.text_buffer =~= text_in(s.out));
    }
}

// ---------------------------------------------------------------------------
// Calls in the text
// ---------------------------------------------------------------------------

/// Whether markup is the call of a tool that is offered.
pub open spec fn is_offered(markup: Seq<char>, offered: Seq<ToolEntry>) -> bool {
    let name = fallback::fallback_call(markup, offered).0;
    name != "unknown"@ && tools::has_tool(offered, name)
}

/// The block that markup becomes.
pub open spec fn markup_block(markup: Seq<char>, offered: Seq<ToolEntry>) -> Block {
    let (name, args) = fallback::fallback_call(markup, offered);
    calling(None, name, args)
}

proof fn lemma_call_sent_read(s: StreamView, name: Seq<char>, args: Seq<char>)
    requires
        s.intercept is Some,
    ensures
        blocks_in(stream::call_sent(s, name, args).out) == blocks_in(s.out).push(
            calling(None, name, args),
        ),
{
    let o = stream::tool_opened(s, None, name);
    lemma_tool_opened_read(s, None, name);
    let a = stream::args_sent(o, args);
    lemma_read_push(o.out, EventView::Delta { index: o.index, kind: Kind::Tool, text: args });
    lemma_started_read(blocks_in(s.out), calling(None, name, Seq::empty()), args);
    lemma_closed_read(a);
    if args.len() == 0 {
        assert(args =~= Seq::<char>::empty());
    }
}

/// Markup that has been collected is read as one tool block, with the name and
/// the arguments that were read from it, whatever was sent before: where its
/// tool is offered. Else nothing is read of it. What follows it adds no call.
#[verifier::rlimit(60)]
pub proof fn law_markup_read(s: StreamView, collected: Seq<char>, k: int)
    requires
        protocol::consistent(s),
        s.intercept is Some,
    ensures
        ({
            let markup = collected.take(k);
            let m = stream::markup_sent(s, markup);
            let r = stream::taken_up(s, collected, k);
            &&& is_offered(markup, s.tools) ==> blocks_in(m.out) == blocks_in(s.out).push(
                markup_block(markup, s.tools),
            ) && m.tool_used && calls_in(r.out) == calls_in(s.out).push(
                markup_block(markup, s.tools),
            )
            &&& !is_offered(markup, s.tools) ==> m == s && calls_in(r.out) == calls_in(s.out)
            &&& thinking_in(r.out) == thinking_in(s.out)
        }),
{
    let markup = collected.take(k);
    let (name, args) = fallback::fallback_call(markup, s.tools);
    let m = stream::markup_sent(s, markup);
    if is_offered(markup, s.tools) {
        lemma_call_sent_read(s, name, args);
        lemma_among_push(blocks_in(s.out), calling(None, name, args), Kind::Thinking);
    }
    protocol::lemma_markup_sent(s, markup);
    let next = StreamView {
        intercept: None,
        intercept_buffer: Seq::empty(),
        text_buffer: collected.skip(k),
        ..m
    };
    let norm = dsml::normalized(next.text_buffer);
    let n = text::byte_len(next.text_buffer);
    match stream::first_tag(norm) {
        Some((i, t)) => {
            law_text_apart(next, norm.take(i));
        },
        None => {
            let x = text::chars_within(next.text_buffer, n - stream::HOLD_BACK) as int;
            law_text_apart(next, next.text_buffer.take(x));
        },
    }
}

/// No part of the text changes when it is brought to canonical form.
pub open spec fn canonical(x: Seq<char>) -> bool {
    forall|a: int, b: int|
        0 <= a <= b <= x.len() ==> dsml::normalized(#[trigger] x.subrange(a, b)) == x.subrange(a, b)
            && dsml::folded(x.subrange(a, b)) == x.subrange(a, b)
}

/// An element and the text that follows it.
pub ghost struct Element {
    pub tag: Tag,
    pub markup: Seq<char>,
    pub gap: Seq<char>,
}

/// The element begins with its tag and ends with its first end tag; no element
/// begins in the text that follows it.
pub open spec fn is_element(e: Element) -> bool {
    &&& text::begins(e.markup, stream::open_tag(e.tag))
    &&& text::find(e.markup, stream::close_tag(e.tag)) matches Some(p) && text::find_from(
        e.markup,
        seq!['>'],
        p,
    ) == Some(e.markup.len() - 1)
    &&& stream::first_tag(e.gap) is None
}

/// The elements one after the other.
pub open spec fn written(es: Seq<Element>) -> Seq<char>
    decreases es.len(),
{
    if es.len() == 0 {
        Seq::empty()
    } else {
        es[0].markup + es[0].gap + written(es.drop_first())
    }
}

/// The blocks that the elements become: those whose tool is offered, in order.
pub open spec fn offered_blocks(es: Seq<Element>, offered: Seq<ToolEntry>) -> Seq<Block>
    decreases es.len(),
{
    if es.len() == 0 {
        Seq::empty()
    } else {
        (if is_offered(es[0].markup, offered) {
            seq![markup_block(es[0].markup, offered)]
        } else {
            Seq::empty()
        }) + offered_blocks(es.drop_first(), offered)
    }
}

/// What stands between the elements and after them.
pub open spec fn gaps(es: Seq<Element>) -> Seq<char>
    decreases es.len(),
{
    if es.len() == 0 {
        Seq::empty()
    } else {
        es[0].gap + gaps(es.drop_first())
    }
}

proof fn lemma_canonical_skip(x: Seq<char>, k: int)
    requires
        canonical(x),
        0 <= k <= x.len(),
    ensures
        canonical(x.skip(k)),
        dsml::normalized(x.skip(k)) == x.skip(k),
        dsml::folded(x.skip(k)) == x.skip(k),
{
    assert(x.skip(k) =~= x.subrange(k, x.len() as int));
    assert forall|a: int, b: int| 0 <= a <= b <= x.skip(k).len() implies dsml::normalized(
        #[trigger] x.skip(k).subrange(a, b),
    ) == x.skip(k).subrange(a, b) && dsml::folded(x.skip(k).subrange(a, b)) == x.skip(k).subrange(
        a,
        b,
    ) by {
        assert(x.skip(k).subrange(a, b) =~= x.subrange(k + a, k + b));
    }
}

/// An element at the start of a canonical text ends where it ends, whatever
/// follows it.
proof fn lemma_element_end(e: Element, rest: Seq<char>)
    requires
        is_element(e),
        canonical(e.markup + rest),
    ensures
        stream::markup_end(e.markup + rest, e.tag) == Some(e.markup.len() as int),
{
    let x = e.markup + rest;
    let close = stream::close_tag(e.tag);
    let p = text::find(e.markup, close)->0;
    let q = e.markup.len() - 1;
    assert(x.subrange(0, x.len() as int) =~= x);
    text::lemma_find_from(e.markup, close, 0);
    text::lemma_find_from(e.markup, seq!['>'], p);
    text::lemma_occurs_part(e.markup, rest, close, p);
    assert forall|j: int| 0 <= j < p implies !text::occurs_at(x, close, j) by {
        text::lemma_occurs_part(e.markup, rest, close, j);
    }
    text::lemma_find_first(x, close, 0, p);
    text::lemma_occurs_part(e.markup, rest, seq!['>'], q);
    assert forall|j: int| p <= j < q implies !text::occurs_at(x, seq!['>'], j) by {
        text::lemma_occurs_part(e.markup, rest, seq!['>'], j);
    }
    text::lemma_find_first(x, seq!['>'], p, q);
    stream::law_end_tag_ends(x, e.tag);
}

/// The next element is found where it begins.
proof fn lemma_next_element(gap: Seq<char>, e: Element, rest: Seq<char>)
    requires
        stream::first_tag(gap) is None,
        is_element(e),
        canonical(gap + (e.markup + rest)),
    ensures
        stream::first_tag(gap + (e.markup + rest)) == Some((gap.len() as int, e.tag)),
        dsml::tag_position(
            gap + (e.markup + rest),
            text::byte_len(gap) as int,
            stream::open_tag(e.tag),
        ) == gap.len(),
{
    text::lemma_occurs_part(e.markup, rest, stream::open_tag(e.tag), 0);
    lemma_next_open(gap, e.tag, e.markup + rest);
}

proof fn lemma_tags_found(gap: Seq<char>, tag: Tag, b: Seq<char>)
    requires
        stream::first_tag(gap) is None,
        text::begins(b, stream::open_tag(tag)),
    ensures
        stream::first_tag(gap + b) == Some((gap.len() as int, tag)),
        text::find(gap + b, stream::open_tag(tag)) == Some(gap.len() as int),
        stream::open_tag(tag).len() > 0,
        stream::open_tag(tag)[0] == '<',
{
    reveal_strlit("<tool_calls");
    reveal_strlit("<tool_call>");
    reveal_strlit("<invoke");
    reveal_strlit("<parameter");
    let open = stream::open_tag(tag);
    assert(b.subrange(0, open.len() as int)[0] == b[0]);
    assert(b[0] == '<');
    text::lemma_find_after(gap, b, stream::open_tag(Tag::ToolCalls));
    text::lemma_find_after(gap, b, stream::open_tag(Tag::ToolCall));
    text::lemma_find_after(gap, b, stream::open_tag(Tag::Invoke));
    text::lemma_find_after(gap, b, stream::open_tag(Tag::Parameter));
    text::lemma_find_first(b, open, 0, 0);
    text::lemma_find_from(b, stream::open_tag(Tag::ToolCalls), 0);
    text::lemma_find_from(b, stream::open_tag(Tag::ToolCall), 0);
    text::lemma_find_from(b, stream::open_tag(Tag::Invoke), 0);
    text::lemma_find_from(b, stream::open_tag(Tag::Parameter), 0);
    assert forall|u: Tag| u != tag implies !text::occurs_at(b, #[trigger] stream::open_tag(u), 0) by {
        stream::law_one_tag_opens(b, 0, tag, u);
    }
    assert(!text::occurs_at(b, stream::open_tag(Tag::ToolCalls), 0) || tag == Tag::ToolCalls);
    assert(!text::occurs_at(b, stream::open_tag(Tag::ToolCall), 0) || tag == Tag::ToolCall);
    assert(!text::occurs_at(b, stream::open_tag(Tag::Invoke), 0) || tag == Tag::Invoke);
    assert(!text::occurs_at(b, stream::open_tag(Tag::Parameter), 0) || tag == Tag::Parameter);
}

/// An element that begins after a text without one is found where it begins.
proof fn lemma_next_open(gap: Seq<char>, tag: Tag, b: Seq<char>)
    requires
        stream::first_tag(gap) is None,
        text::begins(b, stream::open_tag(tag)),
        canonical(gap + b),
    ensures
        stream::first_tag(gap + b) == Some((gap.len() as int, tag)),
        dsml::tag_position(gap + b, text::byte_len(gap) as int, stream::open_tag(tag))
            == gap.len(),
{
    let x = gap + b;
    let open = stream::open_tag(tag);
    lemma_tags_found(gap, tag, b);
    let n = gap.len() as int;
    assert(x.take(n) =~= gap);
    text::lemma_chars_within_boundary(x, n);
    text::lemma_byte_len_concat(gap, b);
    let estimated = text::byte_len(gap) as int;
    let back = if estimated >= dsml::LOOK_BACK {
        estimated - dsml::LOOK_BACK
    } else {
        0
    };
    text::lemma_chars_within_monotone(x, back, estimated);
    let from = text::chars_within(x, back) as int;
    text::lemma_find_from(x, open, 0);
    lemma_first_opening_is(x, open, from, n);
}

proof fn lemma_first_opening_is(x: Seq<char>, open: Seq<char>, from: int, n: int)
    requires
        canonical(x),
        0 <= from <= n < x.len(),
        open.len() > 0,
        open[0] == '<',
        text::occurs_at(x, open, n),
        forall|j: int| 0 <= j < n ==> !text::occurs_at(x, open, j),
    ensures
        dsml::first_opening(x, open, from) == Some(n),
    decreases n - from,
{
    lemma_canonical_skip(x, from);
    let rest = x.skip(from);
    assert(x =~= x.take(from) + rest);
    text::lemma_occurs_part(x.take(from), rest, open, from);
    text::lemma_occurs_part(x.take(from), rest, open, 0);
    if from == n {
        assert(rest.subrange(0, open.len() as int)[0] == rest[0]);
    } else {
        lemma_first_opening_is(x, open, from + 1, n);
    }
}

/// A reply's elements are read as tool blocks: one for each whose tool is
/// offered, in their order, with the name and the arguments that were read from
/// it. What stands between the elements and after them is read as text, whole.
#[verifier::rlimit(60)]
pub proof fn law_elements_read(s: StreamView, es: Seq<Element>)
    requires
        protocol::consistent(s),
        es.len() > 0,
        forall|i: int| 0 <= i < es.len() ==> is_element(#[trigger] es[i]),
        canonical(written(es)),
        s.intercept == Some(es[0].tag),
        s.intercept_buffer == written(es),
    ensures
        ({
            let r = stream::flushed(stream::finalized(s));
            &&& calls_in(r.out) == calls_in(s.out) + offered_blocks(es, s.tools)
            &&& text_in(r.out) == text_in(s.out) + gaps(es)
            &&& thinking_in(r.out) == thinking_in(s.out)
        }),
    decreases es.len(),
{
    let e = es[0];
    let more = es.drop_first();
    let rest = e.gap + written(more);
    let x = written(es);
    assert(x =~= e.markup + rest);
    let first = if is_offered(e.markup, s.tools) {
        seq![markup_block(e.markup, s.tools)]
    } else {
        Seq::empty()
    };
    if more.len() == 0 {
        assert(written(more) =~= Seq::<char>::empty());
        assert(rest =~= e.gap);
        assert(gaps(more) =~= Seq::<char>::empty());
        assert(gaps(es) =~= e.gap);
        assert(offered_blocks(more, s.tools) =~= Seq::<Block>::empty());
        assert(offered_blocks(es, s.tools) =~= first);
        lemma_last_element(s, e);
    } else {
        assert(more[0] == es[1]);
        let after = more[0].gap + written(more.drop_first());
        assert(written(more) =~= more[0].markup + after);
        let t = lemma_first_element(s, e, more[0], after);
        assert forall|i: int| 0 <= i < more.len() implies is_element(#[trigger] more[i]) by {
            assert(more[i] == es[i + 1]);
        }
        lemma_canonical_skip(x, (e.markup + e.gap).len() as int);
        assert(x.skip((e.markup + e.gap).len() as int) =~= written(more));
        law_elements_read(t, more);
        assert(calls_in(s.out) + first + offered_blocks(more, s.tools) =~= calls_in(s.out)
            + offered_blocks(es, s.tools));
        assert(text_in(s.out) + e.gap + gaps(more) =~= text_in(s.out) + gaps(es));
    }
}

/// An element is taken up, and what follows it stands as text.
#[verifier::rlimit(60)]
proof fn lemma_element_taken(s: StreamView, e: Element, rest: Seq<char>) -> (next: StreamView)
    requires
        protocol::consistent(s),
        is_element(e),
        canonical(e.markup + rest),
        s.intercept == Some(e.tag),
        s.intercept_buffer == e.markup + rest,
    ensures
        next == (StreamView {
            intercept: None,
            intercept_buffer: Seq::empty(),
            text_buffer: rest,
            ..stream::markup_sent(s, e.markup)
        }),
        protocol::consistent(next),
        next.tools == s.tools,
        text_in(next.out) == text_in(s.out),
        thinking_in(next.out) == thinking_in(s.out),
        calls_in(next.out) == calls_in(s.out) + (if is_offered(e.markup, s.tools) {
            seq![markup_block(e.markup, s.tools)]
        } else {
            Seq::empty()
        }),
        stream::finalized(s) == ({
            let t = if rest.len() > 0 {
                stream::scanned(next)
            } else {
                next
            };
            if t.intercept is Some {
                stream::finalized(t)
            } else {
                t
            }
        }),
        canonical(rest),
        dsml::normalized(rest) == rest,
{
    let x = e.markup + rest;
    lemma_element_end(e, rest);
    let k = e.markup.len() as int;
    assert(x.take(k) =~= e.markup);
    assert(x.skip(k) =~= rest);
    lemma_canonical_skip(x, k);
    protocol::lemma_markup_sent(s, e.markup);
    let m = stream::markup_sent(s, e.markup);
    let next = StreamView {
        intercept: None,
        intercept_buffer: Seq::empty(),
        text_buffer: rest,
        ..m
    };
    lemma_markup_text(s, e.markup);
    let (name, args) = fallback::fallback_call(e.markup, s.tools);
    if is_offered(e.markup, s.tools) {
        lemma_call_sent_read(s, name, args);
        lemma_among_push(blocks_in(s.out), calling(None, name, args), Kind::Thinking);
        assert(calls_in(next.out) =~= calls_in(s.out) + seq![markup_block(e.markup, s.tools)]);
    } else {
        assert(calls_in(next.out) =~= calls_in(s.out) + Seq::<Block>::empty());
    }
    next
}

#[verifier::rlimit(60)]
proof fn lemma_last_element(s: StreamView, e: Element)
    requires
        protocol::consistent(s),
        is_element(e),
        canonical(e.markup + e.gap),
        s.intercept == Some(e.tag),
        s.intercept_buffer == e.markup + e.gap,
    ensures
        ({
            let r = stream::flushed(stream::finalized(s));
            &&& calls_in(r.out) == calls_in(s.out) + (if is_offered(e.markup, s.tools) {
                seq![markup_block(e.markup, s.tools)]
            } else {
                Seq::empty()
            })
            &&& text_in(r.out) == text_in(s.out) + e.gap
            &&& thinking_in(r.out) == thinking_in(s.out)
        }),
{
    let rest = e.gap;
    let next = lemma_element_taken(s, e, rest);
    let n = text::byte_len(rest);
    let t = if rest.len() > 0 {
        stream::scanned(next)
    } else {
        next
    };
    assert(t.intercept is None);
    protocol::lemma_scanned(next);
    lemma_flushed_apart(t);
    if rest.len() > 0 && n > stream::HOLD_BACK {
        let j = text::chars_within(rest, n - stream::HOLD_BACK) as int;
        text::lemma_chars_within(rest, n - stream::HOLD_BACK);
        law_text_apart(next, rest.take(j));
        assert(text_in(s.out) + rest.take(j) + rest.skip(j) =~= text_in(s.out) + rest);
    }
}

#[verifier::rlimit(60)]
proof fn lemma_first_element(
    s: StreamView,
    e: Element,
    e2: Element,
    after: Seq<char>,
) -> (t: StreamView)
    requires
        protocol::consistent(s),
        is_element(e),
        is_element(e2),
        canonical(e.markup + (e.gap + (e2.markup + after))),
        s.intercept == Some(e.tag),
        s.intercept_buffer == e.markup + (e.gap + (e2.markup + after)),
    ensures
        protocol::consistent(t),
        t.tools == s.tools,
        t.intercept == Some(e2.tag),
        t.intercept_buffer == e2.markup + after,
        stream::finalized(s) == stream::finalized(t),
        calls_in(t.out) == calls_in(s.out) + (if is_offered(e.markup, s.tools) {
            seq![markup_block(e.markup, s.tools)]
        } else {
            Seq::empty()
        }),
        text_in(t.out) == text_in(s.out) + e.gap,
        thinking_in(t.out) == thinking_in(s.out),
{
    let rest = e.gap + (e2.markup + after);
    let next = lemma_element_taken(s, e, rest);
    lemma_next_element(e.gap, e2, after);
    let g = e.gap.len() as int;
    assert(rest.take(g) =~= e.gap);
    assert(rest.skip(g) =~= e2.markup + after);
    law_text_apart(next, e.gap);
    protocol::lemma_scanned(next);
    reveal_strlit("<tool_calls");
    reveal_strlit("<tool_call>");
    reveal_strlit("<invoke");
    reveal_strlit("<parameter");
    assert(rest.len() > 0);
    stream::scanned(next)
}

proof fn lemma_markup_text(s: StreamView, markup: Seq<char>)
    requires
        s.intercept is Some,
    ensures
        text_in(stream::markup_sent(s, markup).out) == text_in(s.out),
{
    let (name, args) = fallback::fallback_call(markup, s.tools);
    if is_offered(markup, s.tools) {
        lemma_call_sent_read(s, name, args);
        lemma_among_push(blocks_in(s.out), calling(None, name, args), Kind::Text);
    }
}

// ---------------------------------------------------------------------------
// Replies in pieces
// ---------------------------------------------------------------------------

/// A stream is on its way through a reply: `z` is still to come of it. What has
/// been read so far and the elements `rest` add up to the calls and the text;
/// where nothing is being collected, `gap` is the text that comes before them.
pub open spec fn on_course(
    s: StreamView,
    rest: Seq<Element>,
    gap: Seq<char>,
    z: Seq<char>,
    calls: Seq<Block>,
    said: Seq<char>,
) -> bool {
    &&& protocol::consistent(s)
    &&& forall|i: int| 0 <= i < rest.len() ==> is_element(#[trigger] rest[i])
    &&& calls == calls_in(s.out) + offered_blocks(rest, s.tools)
    &&& match s.intercept {
        Some(t) => {
            &&& rest.len() > 0
            &&& rest[0].tag == t
            &&& s.intercept_buffer + z == written(rest)
            &&& canonical(written(rest))
            &&& said == text_in(s.out) + gaps(rest)
        },
        None => {
            &&& s.text_buffer + z == gap + written(rest)
            &&& canonical(gap + written(rest))
            &&& stream::first_tag(gap) is None
            &&& stream::first_tag(s.text_buffer) is None
            &&& said == text_in(s.out) + gap + gaps(rest)
        },
    }
}

proof fn lemma_canonical_take(x: Seq<char>, k: int)
    requires
        canonical(x),
        0 <= k <= x.len(),
    ensures
        canonical(x.take(k)),
        dsml::normalized(x.take(k)) == x.take(k),
{
    assert(x.take(k) =~= x.subrange(0, k));
    assert forall|a: int, b: int| 0 <= a <= b <= x.take(k).len() implies dsml::normalized(
        #[trigger] x.take(k).subrange(a, b),
    ) == x.take(k).subrange(a, b) && dsml::folded(x.take(k).subrange(a, b)) == x.take(k).subrange(
        a,
        b,
    ) by {
        assert(x.take(k).subrange(a, b) =~= x.subrange(a, b));
    }
}

/// No element begins in a part of a text in which none begins.
proof fn lemma_no_tag_part(a: Seq<char>, b: Seq<char>, c: Seq<char>)
    requires
        stream::first_tag(a + b + c) is None,
    ensures
        stream::first_tag(b) is None,
{
    lemma_no_find_part(a, b, c, stream::open_tag(Tag::ToolCalls));
    lemma_no_find_part(a, b, c, stream::open_tag(Tag::ToolCall));
    lemma_no_find_part(a, b, c, stream::open_tag(Tag::Invoke));
    lemma_no_find_part(a, b, c, stream::open_tag(Tag::Parameter));
}

proof fn lemma_no_find_part(a: Seq<char>, b: Seq<char>, c: Seq<char>, p: Seq<char>)
    ensures
        text::find(a + b + c, p) is None ==> text::find(b, p) is None,
{
    text::lemma_find_from(b, p, 0);
    text::lemma_find_from(a + b + c, p, 0);
    if let Some(i) = text::find(b, p) {
        text::lemma_occurs_part(a, b, p, i);
        text::lemma_occurs_part(a + b, c, p, a.len() + i);
    }
}

/// No element has begun where less than its tag has come.
proof fn lemma_no_tag_yet(gap: Seq<char>, tag: Tag, m: int)
    requires
        stream::first_tag(gap) is None,
        0 <= m < stream::open_tag(tag).len(),
    ensures
        stream::first_tag(gap + stream::open_tag(tag).take(m)) is None,
        stream::open_tag(tag).len() <= 11,
{
    reveal_strlit("<tool_calls");
    reveal_strlit("<tool_call>");
    reveal_strlit("<invoke");
    reveal_strlit("<parameter");
    let open = stream::open_tag(tag);
    let p = open.take(m);
    if m == 0 {
        assert(gap + p =~= gap);
    } else {
        assert forall|u: Tag| text::find(gap + p, #[trigger] stream::open_tag(u)) is None by {
            let o = stream::open_tag(u);
            assert(text::find(gap, o) is None);
            text::lemma_find_after(gap, p, o);
            text::lemma_find_from(p, o, 0);
            if let Some(j) = text::find(p, o) {
                assert(p.subrange(j, j + o.len())[0] == p[j]);
                assert(j == 0);
                assert(open.subrange(0, o.len() as int) =~= p.subrange(0, o.len() as int));
                assert(text::occurs_at(open, o, 0));
                assert(open.subrange(0, open.len() as int) =~= open);
                assert(text::occurs_at(open, open, 0));
                if u != tag {
                    stream::law_one_tag_opens(open, 0, tag, u);
                }
            }
        }
        assert(text::find(gap + p, stream::open_tag(Tag::ToolCalls)) is None);
        assert(text::find(gap + p, stream::open_tag(Tag::ToolCall)) is None);
        assert(text::find(gap + p, stream::open_tag(Tag::Invoke)) is None);
        assert(text::find(gap + p, stream::open_tag(Tag::Parameter)) is None);
    }
}

/// Two ways to cut one text in two: the longer of the first parts begins with
/// the other.
proof fn lemma_cuts(b: Seq<char>, z: Seq<char>, a: Seq<char>, c: Seq<char>)
    requires
        b + z == a + c,
    ensures
        b == (a + c).take(b.len() as int),
        z == (a + c).skip(b.len() as int),
        b.len() >= a.len() ==> b == a + b.skip(a.len() as int) && b.skip(a.len() as int) + z == c
            && b.take(a.len() as int) == a,
        b.len() <= a.len() ==> b == a.take(b.len() as int),
{
    let x = a + c;
    assert forall|i: int| 0 <= i < b.len() implies #[trigger] b[i] == x[i] by {
        assert((b + z)[i] == b[i]);
    }
    assert forall|i: int| 0 <= i < z.len() implies #[trigger] z[i] == x[b.len() + i] by {
        assert((b + z)[b.len() + i] == z[i]);
    }
    assert(b =~= x.take(b.len() as int));
    assert(z =~= x.skip(b.len() as int));
    if b.len() >= a.len() {
        let g = a.len() as int;
        assert(b =~= a + b.skip(g));
        assert(b.take(g) =~= a);
        let y = b.skip(g) + z;
        assert(y.len() == c.len());
        assert forall|i: int| 0 <= i < c.len() implies #[trigger] y[i] == c[i] by {
            assert(x[g + i] == c[i]);
            assert((b + z)[g + i] == y[i]);
        }
        assert(y =~= c);
    }
    if b.len() <= a.len() {
        assert(b =~= a.take(b.len() as int));
    }
}

proof fn lemma_cuts_rest(b: Seq<char>, z: Seq<char>, a: Seq<char>, c: Seq<char>, k: int)
    requires
        b + z == a + c,
        0 <= k <= b.len(),
        k <= a.len(),
    ensures
        b.take(k) == a.take(k),
        b.skip(k) + z == a.skip(k) + c,
        (a + c).skip(k) == a.skip(k) + c,
        a == a.take(k) + a.skip(k) + Seq::<char>::empty(),
        b == b.take(k) + b.skip(k) + Seq::<char>::empty(),
{
    let x = a + c;
    assert forall|i: int| 0 <= i < k implies #[trigger] b.take(k)[i] == a.take(k)[i] by {
        assert((b + z)[i] == b[i]);
        assert(x[i] == a[i]);
    }
    assert(b.take(k) =~= a.take(k));
    assert(b.skip(k) + z =~= (b + z).skip(k));
    assert(x.skip(k) =~= a.skip(k) + c);
    assert(a =~= a.take(k) + a.skip(k) + Seq::<char>::empty());
    assert(b =~= b.take(k) + b.skip(k) + Seq::<char>::empty());
}

/// Where the tag of the first element has come, the element is collected and
/// what stands before it goes out.
#[verifier::rlimit(60)]
proof fn lemma_course_begun(
    n: StreamView,
    rest: Seq<Element>,
    gap: Seq<char>,
    z: Seq<char>,
    calls: Seq<Block>,
    said: Seq<char>,
)
    requires
        protocol::consistent(n),
        n.intercept is None,
        rest.len() > 0,
        forall|i: int| 0 <= i < rest.len() ==> is_element(#[trigger] rest[i]),
        calls == calls_in(n.out) + offered_blocks(rest, n.tools),
        n.text_buffer + z == gap + written(rest),
        n.text_buffer.len() >= gap.len() + stream::open_tag(rest[0].tag).len(),
        canonical(gap + written(rest)),
        stream::first_tag(gap) is None,
        said == text_in(n.out) + gap + gaps(rest),
    ensures
        on_course(stream::scanned(n), rest, gap, z, calls, said),
{
    let w = written(rest);
    let x = gap + w;
    let b = n.text_buffer;
    let g = gap.len() as int;
    let open = stream::open_tag(rest[0].tag);
    lemma_cuts(b, z, gap, w);
    lemma_canonical_take(x, b.len() as int);
    let m = b.skip(g);
    assert(text::begins(m, open)) by {
        let more = rest[0].gap + written(rest.drop_first());
        assert(w =~= rest[0].markup + more);
        text::lemma_occurs_part(rest[0].markup, more, open, 0);
        let o = open.len() as int;
        assert(m.subrange(0, o) =~= (m + z).subrange(0, o));
    }
    lemma_next_open(gap, rest[0].tag, m);
    law_text_apart(n, gap);
    protocol::lemma_scanned(n);
    lemma_canonical_skip(x, g);
    assert(x.skip(g) =~= w);
}

/// Where no tag has come, only text goes out.
#[verifier::rlimit(60)]
proof fn lemma_course_waiting(
    n: StreamView,
    rest: Seq<Element>,
    gap: Seq<char>,
    z: Seq<char>,
    calls: Seq<Block>,
    said: Seq<char>,
) -> (after: Seq<char>)
    requires
        protocol::consistent(n),
        n.intercept is None,
        forall|i: int| 0 <= i < rest.len() ==> is_element(#[trigger] rest[i]),
        calls == calls_in(n.out) + offered_blocks(rest, n.tools),
        n.text_buffer + z == gap + written(rest),
        rest.len() > 0 ==> n.text_buffer.len() < gap.len() + stream::open_tag(rest[0].tag).len(),
        canonical(gap + written(rest)),
        stream::first_tag(gap) is None,
        said == text_in(n.out) + gap + gaps(rest),
    ensures
        on_course(stream::scanned(n), rest, after, z, calls, said),
{
    let w = written(rest);
    let x = gap + w;
    let b = n.text_buffer;
    let g = gap.len() as int;
    lemma_cuts(b, z, gap, w);
    lemma_canonical_take(x, b.len() as int);
    lemma_not_yet(gap, rest, b, z);
    protocol::lemma_scanned(n);
    let bytes = text::byte_len(b);
    if bytes > stream::HOLD_BACK {
        let k = text::chars_within(b, bytes - stream::HOLD_BACK) as int;
        text::lemma_chars_within(b, bytes - stream::HOLD_BACK);
        assert(k <= g) by {
            assert(b =~= b.take(k) + b.skip(k));
            text::lemma_byte_len_concat(b.take(k), b.skip(k));
            if k > g {
                text::lemma_byte_len_bound(b.skip(k));
            }
        }
        let after = gap.skip(k);
        lemma_cuts_rest(b, z, gap, w, k);
        law_text_apart(n, b.take(k));
        lemma_canonical_skip(x, k);
        lemma_no_tag_part(gap.take(k), after, Seq::empty());
        lemma_no_tag_part(b.take(k), b.skip(k), Seq::empty());
        assert(text_in(n.out) + gap + gaps(rest) =~= text_in(n.out) + gap.take(k) + after + gaps(
            rest,
        ));
        after
    } else {
        gap
    }
}

/// Looking through what has come of a text and the elements after it.
#[verifier::rlimit(60)]
proof fn lemma_course_scanned(
    n: StreamView,
    rest: Seq<Element>,
    gap: Seq<char>,
    z: Seq<char>,
    calls: Seq<Block>,
    said: Seq<char>,
) -> (after: Seq<char>)
    requires
        protocol::consistent(n),
        n.intercept is None,
        forall|i: int| 0 <= i < rest.len() ==> is_element(#[trigger] rest[i]),
        calls == calls_in(n.out) + offered_blocks(rest, n.tools),
        n.text_buffer + z == gap + written(rest),
        canonical(gap + written(rest)),
        stream::first_tag(gap) is None,
        said == text_in(n.out) + gap + gaps(rest),
    ensures
        on_course(stream::scanned(n), rest, after, z, calls, said),
{
    if rest.len() > 0 && n.text_buffer.len() >= gap.len() + stream::open_tag(rest[0].tag).len() {
        lemma_course_begun(n, rest, gap, z, calls, said);
        gap
    } else {
        lemma_course_waiting(n, rest, gap, z, calls, said)
    }
}

proof fn lemma_not_yet(gap: Seq<char>, rest: Seq<Element>, b: Seq<char>, z: Seq<char>)
    requires
        forall|i: int| 0 <= i < rest.len() ==> is_element(#[trigger] rest[i]),
        b + z == gap + written(rest),
        stream::first_tag(gap) is None,
        rest.len() > 0 ==> b.len() < gap.len() + stream::open_tag(rest[0].tag).len(),
    ensures
        stream::first_tag(b) is None,
        b.len() <= gap.len() + 10,
{
    let g = gap.len() as int;
    let w = written(rest);
    lemma_cuts(b, z, gap, w);
    if b.len() <= g {
        assert(gap =~= Seq::<char>::empty() + b + gap.skip(b.len() as int));
        lemma_no_tag_part(Seq::empty(), b, gap.skip(b.len() as int));
    } else if rest.len() == 0 {
        assert(w =~= Seq::<char>::empty());
        assert((b + z).len() == (gap + w).len());
    } else {
        let open = stream::open_tag(rest[0].tag);
        let more = rest[0].gap + written(rest.drop_first());
        let m = b.len() - g;
        assert(w =~= rest[0].markup + more);
        let p = b.skip(g);
        lemma_cuts(p, z, rest[0].markup, more);
        assert(is_element(rest[0]));
        assert(p =~= rest[0].markup.take(m));
        assert(rest[0].markup.take(m) =~= rest[0].markup.subrange(0, open.len() as int).take(m));
        lemma_no_tag_yet(gap, rest[0].tag, m);
    }
}

/// An element of which not all has come does not end.
proof fn lemma_not_ended(e: Element, k: int)
    requires
        is_element(e),
        0 <= k < e.markup.len(),
        canonical(e.markup.take(k)),
    ensures
        stream::markup_end(e.markup.take(k), e.tag) is None,
{
    let c = e.markup.take(k);
    let close = stream::close_tag(e.tag);
    let p = text::find(e.markup, close)->0;
    assert(c.subrange(0, c.len() as int) =~= c);
    assert(e.markup =~= c + e.markup.skip(k));
    text::lemma_find_from(e.markup, close, 0);
    text::lemma_find_from(c, close, 0);
    text::lemma_find_from(e.markup, seq!['>'], p);
    if let Some(i) = text::find(c, close) {
        text::lemma_occurs_part(c, e.markup.skip(k), close, i);
        text::lemma_occurs_part(c, e.markup.skip(k), close, p);
        assert(i == p);
        text::lemma_find_from(c, seq!['>'], p);
        if let Some(q) = text::find_from(c, seq!['>'], p) {
            text::lemma_occurs_part(c, e.markup.skip(k), seq!['>'], q);
        }
    }
}

/// A piece with which an element is complete.
#[verifier::rlimit(60)]
proof fn lemma_course_ended(
    s: StreamView,
    rest: Seq<Element>,
    c: Seq<char>,
    z: Seq<char>,
    calls: Seq<Block>,
    said: Seq<char>,
) -> (after: Seq<char>)
    requires
        on_course(s, rest, Seq::empty(), c + z, calls, said),
        s.intercept is Some,
        s.intercept_buffer.len() + c.len() >= rest[0].markup.len(),
    ensures
        on_course(stream::content_taken(s, c), rest.drop_first(), after, z, calls, said),
{
    let e = rest[0];
    let more = rest.drop_first();
    let collected = s.intercept_buffer + c;
    let tail = e.gap + written(more);
    let x = e.markup + tail;
    let k = e.markup.len() as int;
    assert(written(rest) =~= x);
    assert(collected + z =~= s.intercept_buffer + (c + z));
    lemma_cuts(collected, z, e.markup, tail);
    lemma_canonical_take(x, collected.len() as int);
    let r = collected.skip(k);
    let s2 = StreamView { intercept_buffer: collected, ..s };
    lemma_element_end(e, r);
    let next = lemma_element_taken(s2, e, r);
    stream::lemma_taken_up_frame(s, collected, collected, k);
    lemma_canonical_skip(x, k);
    assert(x.skip(k) =~= tail);
    assert forall|i: int| 0 <= i < more.len() implies is_element(#[trigger] more[i]) by {
        assert(more[i] == rest[i + 1]);
    }
    lemma_sums(s, next, rest);
    if r.len() > 0 {
        lemma_course_scanned(next, more, e.gap, z, calls, said)
    } else {
        assert(!r.contains('<'));
        protocol::lemma_no_tag(r);
        e.gap
    }
}

proof fn lemma_sums(s: StreamView, next: StreamView, rest: Seq<Element>)
    requires
        rest.len() > 0,
        next.tools == s.tools,
        text_in(next.out) == text_in(s.out),
        calls_in(next.out) == calls_in(s.out) + (if is_offered(rest[0].markup, s.tools) {
            seq![markup_block(rest[0].markup, s.tools)]
        } else {
            Seq::empty()
        }),
    ensures
        calls_in(s.out) + offered_blocks(rest, s.tools) == calls_in(next.out) + offered_blocks(
            rest.drop_first(),
            next.tools,
        ),
        text_in(s.out) + gaps(rest) == text_in(next.out) + rest[0].gap + gaps(rest.drop_first()),
{
    assert(calls_in(s.out) + offered_blocks(rest, s.tools) =~= calls_in(next.out) + offered_blocks(
        rest.drop_first(),
        next.tools,
    ));
    assert(text_in(s.out) + gaps(rest) =~= text_in(next.out) + rest[0].gap + gaps(
        rest.drop_first(),
    ));
}

/// A piece after which an element is still not complete.
#[verifier::rlimit(60)]
proof fn lemma_course_collected(
    s: StreamView,
    rest: Seq<Element>,
    c: Seq<char>,
    z: Seq<char>,
    calls: Seq<Block>,
    said: Seq<char>,
)
    requires
        on_course(s, rest, Seq::empty(), c + z, calls, said),
        s.intercept is Some,
        s.intercept_buffer.len() + c.len() < rest[0].markup.len(),
    ensures
        on_course(stream::content_taken(s, c), rest, Seq::empty(), z, calls, said),
{
    let e = rest[0];
    let collected = s.intercept_buffer + c;
    let tail = e.gap + written(rest.drop_first());
    let x = e.markup + tail;
    let len = collected.len() as int;
    assert(written(rest) =~= x);
    assert(collected + z =~= s.intercept_buffer + (c + z));
    lemma_cuts(collected, z, e.markup, tail);
    lemma_canonical_take(x, len);
    lemma_not_ended(e, len);
    protocol::law_content_taken(s, c);
}

/// One more piece of a reply.
#[verifier::rlimit(60)]
proof fn lemma_course_piece(
    s: StreamView,
    rest: Seq<Element>,
    gap: Seq<char>,
    c: Seq<char>,
    z: Seq<char>,
    calls: Seq<Block>,
    said: Seq<char>,
) -> (r: (Seq<Element>, Seq<char>))
    requires
        on_course(s, rest, gap, c + z, calls, said),
    ensures
        on_course(stream::content_taken(s, c), r.0, r.1, z, calls, said),
{
    if s.intercept is None {
        let n = StreamView { text_buffer: s.text_buffer + c, ..s };
        assert(n.text_buffer + z =~= s.text_buffer + (c + z));
        let after = lemma_course_scanned(n, rest, gap, z, calls, said);
        (rest, after)
    } else {
        assert(on_course(s, rest, Seq::empty(), c + z, calls, said));
        if s.intercept_buffer.len() + c.len() < rest[0].markup.len() {
            lemma_course_collected(s, rest, c, z, calls, said);
            (rest, Seq::empty())
        } else {
            let after = lemma_course_ended(s, rest, c, z, calls, said);
            (rest.drop_first(), after)
        }
    }
}

/// Whatever the pieces are in which a part of a reply has come, the stream is on
/// its way through it.
#[verifier::rlimit(60)]
proof fn lemma_course_pieces(
    s: StreamView,
    es: Seq<Element>,
    gap: Seq<char>,
    pieces: Seq<Seq<char>>,
    z: Seq<char>,
    calls: Seq<Block>,
    said: Seq<char>,
) -> (r: (Seq<Element>, Seq<char>))
    requires
        on_course(s, es, gap, protocol::concatenated(pieces) + z, calls, said),
    ensures
        on_course(
            protocol::pieces_taken(s, protocol::contents(pieces)),
            r.0,
            r.1,
            z,
            calls,
            said,
        ),
    decreases pieces.len(),
{
    let all = protocol::contents(pieces);
    if pieces.len() == 0 {
        assert(all =~= Seq::<Piece>::empty());
        assert(protocol::concatenated(pieces) + z =~= z);
        (es, gap)
    } else {
        let front = pieces.drop_last();
        let last = pieces.last();
        assert(protocol::concatenated(pieces) + z =~= protocol::concatenated(front) + (last + z));
        let (rest, g) = lemma_course_pieces(s, es, gap, front, last + z, calls, said);
        assert(all.drop_last() =~= protocol::contents(front));
        assert(all.last() == Piece::Content(last));
        lemma_course_piece(
            protocol::pieces_taken(s, protocol::contents(front)),
            rest,
            g,
            last,
            z,
            calls,
            said,
        )
    }
}

/// A reply with calls in its text, however it comes in pieces: each element
/// whose tool is offered is read as one tool block, in their order, with the
/// name and the arguments that were read from it, and all that stands before,
/// between and after the elements is read as text.
#[verifier::rlimit(60)]
pub proof fn law_reply_read(
    s: StreamView,
    gap: Seq<char>,
    es: Seq<Element>,
    pieces: Seq<Seq<char>>,
)
    requires
        protocol::consistent(s),
        s.intercept is None,
        s.text_buffer.len() == 0,
        stream::first_tag(gap) is None,
        forall|i: int| 0 <= i < es.len() ==> is_element(#[trigger] es[i]),
        canonical(gap + written(es)),
        protocol::concatenated(pieces) == gap + written(es),
    ensures
        ({
            let p = protocol::pieces_taken(s, protocol::contents(pieces));
            let r = stream::flushed(stream::finalized(p));
            &&& calls_in(r.out) == calls_in(s.out) + offered_blocks(es, s.tools)
            &&& text_in(r.out) == text_in(s.out) + gap + gaps(es)
            &&& calls_in(stream::settled(p).out) == calls_in(r.out)
        }),
{
    let z = Seq::<char>::empty();
    let calls = calls_in(s.out) + offered_blocks(es, s.tools);
    let said = text_in(s.out) + gap + gaps(es);
    let x = protocol::concatenated(pieces);
    assert(x + z =~= x);
    assert(s.text_buffer + x =~= x);
    assert(s.text_buffer =~= z);
    assert(!z.contains('<'));
    protocol::lemma_no_tag(z);
    let (rest, g) = lemma_course_pieces(s, es, gap, pieces, z, calls, said);
    let p = protocol::pieces_taken(s, protocol::contents(pieces));
    match p.intercept {
        Some(t) => {
            assert(p.intercept_buffer + z =~= p.intercept_buffer);
            law_elements_read(p, rest);
        },
        None => {
            assert(p.text_buffer + z =~= p.text_buffer);
            if rest.len() > 0 {
                let more = rest[0].gap + written(rest.drop_first());
                assert(written(rest) =~= rest[0].markup + more);
                lemma_next_element(g, rest[0], more);
            }
            assert(written(rest) =~= z);
            assert(gaps(rest) =~= z);
            assert(offered_blocks(rest, p.tools) =~= Seq::<Block>::empty());
            assert(g + z =~= g);
            assert(stream::finalized(p) == p);
            lemma_flushed_apart(p);
            assert(text_in(p.out) + g + z =~= text_in(p.out) + g);
            assert(calls_in(p.out) + Seq::<Block>::empty() =~= calls_in(p.out));
        },
    }
    lemma_settled_read(p);
}

proof fn lemma_settled_read(s: StreamView)
    requires
        protocol::consistent(s),
    ensures
        calls_in(stream::settled(s).out) == calls_in(stream::flushed(stream::finalized(s)).out),
        thinking_in(stream::settled(s).out) == thinking_in(
            stream::flushed(stream::finalized(s)).out,
        ),
{
    let f = stream::flushed(stream::finalized(s));
    protocol::lemma_cleared(s);
    let filled = if f.open is None && f.generated.len() == 0 && !f.tool_used {
        stream::text_sent(f, " "@)
    } else {
        f
    };
    law_text_apart(f, " "@);
    lemma_closed_read(filled);
}

/// As many tool blocks are read as there are elements, where all their tools are
/// offered.
pub proof fn law_blocks_counted(es: Seq<Element>, offered: Seq<ToolEntry>)
    requires
        forall|i: int| 0 <= i < es.len() ==> is_offered((#[trigger] es[i]).markup, offered),
    ensures
        offered_blocks(es, offered).len() == es.len(),
        forall|i: int|
            0 <= i < es.len() ==> offered_blocks(es, offered)[i] == markup_block(
                (#[trigger] es[i]).markup,
                offered,
            ),
    decreases es.len(),
{
    if es.len() > 0 {
        let more = es.drop_first();
        assert forall|i: int| 0 <= i < more.len() implies is_offered(
            (#[trigger] more[i]).markup,
            offered,
        ) by {
            assert(more[i] == es[i + 1]);
        }
        law_blocks_counted(more, offered);
        assert(is_offered(es[0].markup, offered));
        let first = seq![markup_block(es[0].markup, offered)];
        let all = offered_blocks(es, offered);
        assert(all == first + offered_blocks(more, offered));
        assert forall|i: int| 0 <= i < es.len() implies all[i] == markup_block(
            (#[trigger] es[i]).markup,
            offered,
        ) by {
            if i > 0 {
                assert(more[i - 1] == es[i]);
                assert(all[i] == offered_blocks(more, offered)[i - 1]);
            }
        }
    }
}

/// An element that never ends is read as a call all the same, where it is one
/// of a tool that is offered.
pub proof fn law_unended_read(s: StreamView, t: Tag)
    requires
        protocol::consistent(s),
        s.intercept == Some(t),
        stream::markup_end(s.intercept_buffer, t) is None,
    ensures
        ({
            let r = stream::flushed(stream::finalized(s));
            calls_in(r.out) == if is_offered(s.intercept_buffer, s.tools) {
                calls_in(s.out).push(markup_block(s.intercept_buffer, s.tools))
            } else {
                calls_in(s.out)
            }
        }),
{
    let x = s.intercept_buffer;
    let k = x.len() as int;
    law_markup_read(s, x, k);
    assert(x.take(k) =~= x);
    assert(x.skip(k) =~= Seq::<char>::empty());
    protocol::lemma_taken_up(s, x, k);
    lemma_flushed_apart(stream::taken_up(s, x, k));
}

/// A recovery is read as a note, and after it a tool block with the call that
/// keeps the client going.
#[verifier::rlimit(60)]
pub proof fn law_recovery_read(s: StreamView)
    requires
        protocol::consistent(s),
        s.open is None,
        s.intercept is None,
        s.text_buffer.len() == 0,
        recovery::recovery_call(s.tools) is Some,
    ensures
        ({
            let (name, args) = recovery::recovery_call(s.tools)->0;
            let r = stream::recovered(s);
            &&& blocks_in(r.out) == blocks_in(s.out) + seq![
                saying(Kind::Text, "[holoProxy Recovery Injected]"@),
                calling(None, name, args),
            ]
            &&& stream::in_question(s) ==> blocks_in(stream::concluded(s, true).out) == blocks_in(
                r.out,
            )
        }),
{
    reveal_strlit("[holoProxy Recovery Injected]");
    let (name, args) = recovery::recovery_call(s.tools)->0;
    let note = stream::RECOVERY_NOTE@;
    let t = stream::text_sent(s, note);
    law_text_read(s, note);
    let c = stream::closed(t);
    lemma_closed_read(t);
    let o = stream::tool_opened(c, None, name);
    lemma_tool_opened_read(c, None, name);
    assert(stream::flushed(c) == c);
    let a = stream::args_sent(o, args);
    lemma_read_push(o.out, EventView::Delta { index: o.index, kind: Kind::Tool, text: args });
    lemma_started_read(blocks_in(c.out), calling(None, name, Seq::empty()), args);
    lemma_closed_read(a);
    if args.len() == 0 {
        assert(args =~= Seq::<char>::empty());
    }
    let r = stream::recovered(s);
    assert(blocks_in(r.out) =~= blocks_in(s.out) + seq![
        saying(Kind::Text, note),
        calling(None, name, args),
    ]);
    let d = EventView::MessageDelta { tool_use: r.tool_used };
    lemma_read_push(r.out, d);
    lemma_read_push(r.out.push(d), EventView::MessageStop);
}

/// An error is read as text, after what was held back. A client that was
/// offered tools and has got no call reads the note of a recovery after it and
/// the call that keeps it going; any other reads no call more.
#[verifier::rlimit(60)]
pub proof fn law_error_read(s: StreamView, msg: Seq<char>)
    requires
        protocol::consistent(s),
        s.intercept is None,
    ensures
        ({
            let e = stream::error_sent(s, msg);
            let r = stream::concluded(stream::settled(e), false);
            let said = text_in(s.out) + s.text_buffer + msg;
            &&& s.agent && !s.tool_used && recovery::recovery_call(s.tools) is Some ==> {
                let (name, args) = recovery::recovery_call(s.tools)->0;
                &&& calls_in(r.out) == calls_in(s.out).push(calling(None, name, args))
                &&& text_in(e.out) == said + "[holoProxy Recovery Injected]"@
            }
            &&& !(s.agent && !s.tool_used && recovery::recovery_call(s.tools) is Some) ==> calls_in(
                r.out,
            ) == calls_in(s.out) && text_in(e.out) == said
            &&& thinking_in(r.out) == thinking_in(s.out)
        }),
{
    let f = stream::flushed(s);
    let t = stream::text_sent(f, msg);
    let c = if t.open == Some(Kind::Tool) {
        t
    } else {
        stream::closed(t)
    };
    let e = stream::error_sent(s, msg);
    lemma_flushed_apart(s);
    protocol::lemma_cleared(s);
    assert(stream::finalized(s) == s);
    law_text_apart(f, msg);
    lemma_closed_read(t);
    protocol::law_error_sent(s, msg);
    assert(f.intercept is None && f.text_buffer.len() == 0);
    if stream::in_question(c) && recovery::recovery_call(c.tools) is Some {
        let (name, args) = recovery::recovery_call(c.tools)->0;
        assert(!c.tool_used);
        lemma_no_tool_open(s, msg);
        law_recovery_read(c);
        let note = saying(Kind::Text, "[holoProxy Recovery Injected]"@);
        let call = calling(None, name, args);
        let b = blocks_in(c.out);
        assert(b + seq![note, call] =~= b.push(note).push(call));
        lemma_among_push(b, note, Kind::Text);
        lemma_among_push(b.push(note), call, Kind::Text);
        lemma_among_push(b, note, Kind::Thinking);
        lemma_among_push(b.push(note), call, Kind::Thinking);
    }
    assert(e.intercept is None && e.text_buffer.len() == 0);
    assert(stream::flushed(stream::finalized(e)) == e);
    lemma_settled_read(e);
    lemma_concluded_read(stream::settled(e), false);
}

/// Where no tool block has been opened, none is open; so after an error no
/// block is.
proof fn lemma_no_tool_open(s: StreamView, msg: Seq<char>)
    requires
        protocol::consistent(s),
        s.intercept is None,
        !s.tool_used,
    ensures
        ({
            let t = stream::text_sent(stream::flushed(s), msg);
            &&& t.open != Some(Kind::Tool)
            &&& stream::closed(t).open is None
            &&& protocol::consistent(stream::closed(t))
            &&& stream::closed(t).intercept is None
            &&& stream::closed(t).text_buffer.len() == 0
        }),
{
    let f = stream::flushed(s);
    let t = stream::text_sent(f, msg);
    lemma_tool_known(s.out);
    protocol::lemma_flushed(s);
    protocol::lemma_text_sent(f, msg);
    protocol::lemma_closed(t);
}

/// Inside a tool block, a tool block has come.
proof fn lemma_tool_known(out: Seq<EventView>)
    ensures
        events::reached(out) matches Some(Phase::Inside { kind, tool, .. }) ==> (kind == Kind::Tool
            ==> tool),
    decreases out.len(),
{
    if out.len() > 0 {
        lemma_tool_known(out.drop_last());
    }
}

} // verus!
