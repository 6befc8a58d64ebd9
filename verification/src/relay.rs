//! The relay: the bytes of an OpenAI stream are cut into chunks, and the chunks
//! are taken into the stream of an Anthropic message.
use vstd::prelude::*;
use vstd::string::*;

use crate::events;
use crate::protocol;
use crate::protocol::Piece;
use crate::recovery;
use crate::recovery::Inquiry;
use crate::stream;
use crate::stream::{StreamContext, StreamView};
use crate::text;
use crate::types::{LLMConfig, OpenAIChoice, OpenAIDelta, OpenAISseChunk, OpenAIToolCallDelta};

verus! {

// ---------------------------------------------------------------------------
// Lines
// ---------------------------------------------------------------------------

/// What a line of the stream is.
pub ghost enum LineKind {
    /// Nothing to be read.
    Skip,
    /// The end of the stream.
    Done,
    /// The data of a chunk.
    Data(Seq<char>),
}

/// What a line of the stream is.
pub open spec fn line_kind(line: Seq<char>) -> LineKind {
    let t = text::trim(line);
    if t.len() == 0 || !text::begins(t, "data: "@) {
        LineKind::Skip
    } else if t.skip(6) == "[DONE]"@ {
        LineKind::Done
    } else {
        LineKind::Data(t.skip(6))
    }
}

/// The data of the lines, up to the end of the stream where that is among them.
pub open spec fn data_of(lines: Seq<Seq<char>>) -> Seq<Seq<char>>
    decreases lines.len(),
{
    if lines.len() == 0 {
        Seq::empty()
    } else {
        match line_kind(lines[0]) {
            LineKind::Skip => data_of(lines.drop_first()),
            LineKind::Done => Seq::empty(),
            LineKind::Data(d) => seq![d] + data_of(lines.drop_first()),
        }
    }
}

/// No line is the end of the stream.
pub open spec fn no_end(lines: Seq<Seq<char>>) -> bool {
    forall|i: int| 0 <= i < lines.len() ==> !(line_kind(#[trigger] lines[i]) is Done)
}

proof fn lemma_data_concat(a: Seq<Seq<char>>, b: Seq<Seq<char>>)
    requires
        no_end(a),
    ensures
        data_of(a + b) == data_of(a) + data_of(b),
    decreases a.len(),
{
    if a.len() == 0 {
        assert(a + b =~= b);
        assert(data_of(a) + data_of(b) =~= data_of(b));
    } else {
        assert((a + b).drop_first() =~= a.drop_first() + b);
        assert forall|i: int| 0 <= i < a.drop_first().len() implies !(line_kind(
            #[trigger] a.drop_first()[i],
        ) is Done) by {
            assert(a.drop_first()[i] == a[i + 1]);
        }
        lemma_data_concat(a.drop_first(), b);
        assert(!(line_kind(a[0]) is Done));
        if let LineKind::Data(d) = line_kind(a[0]) {
            assert(seq![d] + (data_of(a.drop_first()) + data_of(b)) =~= seq![d] + data_of(
                a.drop_first(),
            ) + data_of(b));
        }
    }
}

/// Before the end of the stream, how its text is cut into pieces does not
/// matter for the data that is read: `line` is what was left over before.
pub proof fn law_cut_does_not_matter(line: Seq<char>, a: Seq<char>, b: Seq<char>)
    requires
        no_end(text::ready_lines(line + a)),
    ensures
        data_of(text::ready_lines(line + (a + b))) == data_of(text::ready_lines(line + a))
            + data_of(text::ready_lines(text::unfinished(line + a) + b)),
        text::unfinished(line + (a + b)) == text::unfinished(text::unfinished(line + a) + b),
{
    assert(line + (a + b) =~= (line + a) + b);
    text::law_ready_lines(line + a, b);
    lemma_data_concat(
        text::ready_lines(line + a),
        text::ready_lines(text::unfinished(line + a) + b),
    );
}

/// What is read of a line.
pub enum SseLine {
    Skip,
    Done,
    Data(String),
}

/// Reads a line of the stream.
pub fn read_line(line: &str) -> (r: SseLine)
    ensures
        match r {
            SseLine::Skip => line_kind(line@) == LineKind::Skip,
            SseLine::Done => line_kind(line@) == LineKind::Done,
            SseLine::Data(d) => line_kind(line@) == LineKind::Data(d@),
        },
{
    let t = text::trimmed(line);
    if t.as_str().is_empty() || !text::begins_with(t.as_str(), "data: ") {
        return SseLine::Skip;
    }
    proof {
        reveal_strlit("data: ");
    }
    let data = text::tail(t.as_str(), 6);
    if text::same(data.as_str(), "[DONE]") {
        SseLine::Done
    } else {
        SseLine::Data(data)
    }
}

/// The data of the lines, up to the end of the stream.
pub fn read_lines(lines: &Vec<String>) -> (r: Vec<String>)
    ensures
        text::views(r@) == data_of(text::views(lines@)),
{
    let ghost all = text::views(lines@);
    let mut r: Vec<String> = Vec::new();
    let mut i: usize = 0;
    assert(all.skip(0) =~= all);
    assert(text::views(r@) + data_of(all) =~= data_of(all));
    while i < lines.len()
        invariant
            all == text::views(lines@),
            i <= lines@.len(),
            text::views(r@) + data_of(all.skip(i as int)) == data_of(all),
        decreases lines.len() - i,
    {
        let ghost rest = all.skip(i as int);
        assert(rest[0] == lines@[i as int]@);
        assert(rest.drop_first() =~= all.skip(i + 1));
        match read_line(lines[i].as_str()) {
            SseLine::Skip => {},
            SseLine::Done => {
                assert(text::views(r@) + Seq::<Seq<char>>::empty() =~= text::views(r@));
                return r;
            },
            SseLine::Data(d) => {
                let ghost before = text::views(r@);
                r.push(d);
                assert(text::views(r@) =~= before.push(d@));
                assert(before + (seq![d@] + data_of(all.skip(i + 1))) =~= before.push(d@)
                    + data_of(all.skip(i + 1)));
            },
        }
        i = i + 1;
    }
    assert(data_of(all.skip(all.len() as int)) =~= Seq::<Seq<char>>::empty());
    assert(text::views(r@) + Seq::<Seq<char>>::empty() =~= text::views(r@));
    r
}

// ---------------------------------------------------------------------------
// Chunks
// ---------------------------------------------------------------------------

pub open spec fn reasoning_piece(t: Option<String>) -> Seq<Piece> {
    match t {
        Some(s) => if s@.len() > 0 {
            seq![Piece::Reasoning(s@)]
        } else {
            Seq::empty()
        },
        None => Seq::empty(),
    }
}

pub open spec fn content_piece(t: Option<String>) -> Seq<Piece> {
    match t {
        Some(s) => if s@.len() > 0 {
            seq![Piece::Content(s@)]
        } else {
            Seq::empty()
        },
        None => Seq::empty(),
    }
}

pub open spec fn call_pieces(calls: Option<Vec<OpenAIToolCallDelta>>) -> Seq<Piece> {
    match calls {
        Some(v) => v@.map_values(
            |c: OpenAIToolCallDelta| Piece::Call(stream::call_delta(c)),
        ),
        None => Seq::empty(),
    }
}

/// The pieces that a delta brings, in the order in which they are taken in:
/// reasoning, content, tool calls.
pub open spec fn delta_pieces(d: OpenAIDelta) -> Seq<Piece> {
    reasoning_piece(d.reasoning) + reasoning_piece(d.reasoning_content) + content_piece(d.content)
        + call_pieces(d.tool_calls)
}

/// The pieces that the choices of a chunk bring.
pub open spec fn choice_pieces(choices: Seq<OpenAIChoice>) -> Seq<Piece>
    decreases choices.len(),
{
    if choices.len() == 0 {
        Seq::empty()
    } else {
        let before = choice_pieces(choices.drop_last());
        match choices.last().delta {
            Some(d) => before + delta_pieces(d),
            None => before,
        }
    }
}

/// The last stop reason among the choices, else `reason`.
pub open spec fn stop_reason(choices: Seq<OpenAIChoice>, reason: Seq<char>) -> Seq<char>
    decreases choices.len(),
{
    if choices.len() == 0 {
        reason
    } else {
        match choices.last().finish_reason {
            Some(f) => f@,
            None => stop_reason(choices.drop_last(), reason),
        }
    }
}

proof fn lemma_pieces_concat(s: StreamView, a: Seq<Piece>, b: Seq<Piece>)
    ensures
        protocol::pieces_taken(s, a + b) == protocol::pieces_taken(
            protocol::pieces_taken(s, a),
            b,
        ),
{
    protocol::lemma_pieces_concat(s, a, b);
}

proof fn lemma_one_piece(s: StreamView, p: Piece)
    ensures
        protocol::pieces_taken(s, seq![p]) == protocol::piece_taken(s, p),
{
    assert(seq![p].drop_last() =~= Seq::<Piece>::empty());
    reveal_with_fuel(protocol::pieces_taken, 2);
}

fn take_reasoning(ctx: &mut StreamContext, t: &Option<String>)
    ensures
        final(ctx)@ == protocol::pieces_taken(old(ctx)@, reasoning_piece(*t)),
{
    match t {
        Some(s) => {
            if !s.as_str().is_empty() {
                proof {
                    lemma_one_piece(ctx@, Piece::Reasoning(s@));
                }
                ctx.handle_reasoning(s.as_str());
            }
        },
        None => {},
    }
}

fn take_content(ctx: &mut StreamContext, t: &Option<String>)
    ensures
        final(ctx)@ == protocol::pieces_taken(old(ctx)@, content_piece(*t)),
{
    match t {
        Some(s) => {
            if !s.as_str().is_empty() {
                proof {
                    lemma_one_piece(ctx@, Piece::Content(s@));
                }
                ctx.handle_content(s.as_str());
            }
        },
        None => {},
    }
}

fn take_calls(ctx: &mut StreamContext, calls: &Option<Vec<OpenAIToolCallDelta>>)
    ensures
        final(ctx)@ == protocol::pieces_taken(old(ctx)@, call_pieces(*calls)),
{
    match calls {
        Some(v) => {
            let ghost all = call_pieces(*calls);
            let ghost start = ctx@;
            let mut i: usize = 0;
            assert(all.take(0) =~= Seq::<Piece>::empty());
            while i < v.len()
                invariant
                    *calls == Some(*v),
                    all == call_pieces(*calls),
                    i <= v@.len() == all.len(),
                    ctx@ == protocol::pieces_taken(start, all.take(i as int)),
                decreases v.len() - i,
            {
                assert(all.take(i + 1).drop_last() =~= all.take(i as int));
                assert(all.take(i + 1).last() == Piece::Call(stream::call_delta(v@[i as int])));
                ctx.handle_tool_call(&v[i]);
                i = i + 1;
            }
            assert(all.take(all.len() as int) =~= all);
        },
        None => {},
    }
}

fn take_delta(ctx: &mut StreamContext, d: &OpenAIDelta)
    ensures
        final(ctx)@ == protocol::pieces_taken(old(ctx)@, delta_pieces(*d)),
{
    proof {
        let a = reasoning_piece(d.reasoning);
        let b = reasoning_piece(d.reasoning_content);
        let c = content_piece(d.content);
        let e = call_pieces(d.tool_calls);
        lemma_pieces_concat(ctx@, a, b);
        lemma_pieces_concat(ctx@, a + b, c);
        lemma_pieces_concat(ctx@, a + b + c, e);
    }
    take_reasoning(ctx, &d.reasoning);
    take_reasoning(ctx, &d.reasoning_content);
    take_content(ctx, &d.content);
    take_calls(ctx, &d.tool_calls);
}

// ---------------------------------------------------------------------------
// The relay
// ---------------------------------------------------------------------------

/// The state of a relay.
pub ghost struct RelayView {
    pub stream: StreamView,
    /// The line that is not complete yet.
    pub line: Seq<char>,
    /// The last stop reason that came.
    pub reason: Seq<char>,
    /// Whether a chunk has come.
    pub has_data: bool,
}

/// With a chunk taken in.
pub open spec fn chunk_taken(s: RelayView, choices: Seq<OpenAIChoice>) -> RelayView {
    RelayView {
        stream: protocol::pieces_taken(s.stream, choice_pieces(choices)),
        reason: stop_reason(choices, s.reason),
        has_data: true,
        ..s
    }
}

/// Takes an OpenAI stream into the stream of an Anthropic message.
pub struct MessageRelay {
    ctx: StreamContext,
    line: String,
    reason: String,
    has_data: bool,
}

impl View for MessageRelay {
    type V = RelayView;

    closed spec fn view(&self) -> RelayView {
        RelayView {
            stream: self.ctx@,
            line: self.line@,
            reason: self.reason@,
            has_data: self.has_data,
        }
    }
}

impl MessageRelay {
    /// The relay of a reply; a reply that does not say why it stopped stopped.
    pub fn new(ctx: StreamContext) -> (r: MessageRelay)
        ensures
            r@ == (RelayView {
                stream: ctx@,
                line: Seq::empty(),
                reason: "stop"@,
                has_data: false,
            }),
    {
        MessageRelay { ctx, line: String::new(), reason: "stop".to_owned(), has_data: false }
    }

    /// Takes in a piece of the stream. Returns the data of the chunks that it
    /// completes, which are to be read and taken in.
    pub fn handle_text(&mut self, t: &str) -> (r: Vec<String>)
        ensures
            final(self)@ == (RelayView {
                line: text::unfinished(old(self)@.line + t@),
                ..old(self)@
            }),
            text::views(r@) == data_of(text::ready_lines(old(self)@.line + t@)),
    {
        let all = text::cat(self.line.as_str(), t);
        let (lines, rest) = text::split_ready(all.as_str());
        self.line = rest;
        read_lines(&lines)
    }

    /// Takes in bytes of the stream.
    pub fn handle_bytes(&mut self, bytes: &Vec<u8>) -> (r: Vec<String>)
        ensures
            final(self)@ == (RelayView {
                line: text::unfinished(old(self)@.line + text::utf8_lossy(bytes@)),
                ..old(self)@
            }),
            text::views(r@) == data_of(
                text::ready_lines(old(self)@.line + text::utf8_lossy(bytes@)),
            ),
    {
        let t = text::lossy_text(bytes);
        self.handle_text(t.as_str())
    }

    /// Takes in a chunk.
    pub fn handle_chunk(&mut self, chunk: &OpenAISseChunk)
        ensures
            final(self)@ == chunk_taken(old(self)@, chunk.choices@),
    {
        self.has_data = true;
        let ghost start = self@;
        let ghost all = chunk.choices@;
        let mut i: usize = 0;
        assert(all.take(0) =~= Seq::<OpenAIChoice>::empty());
        while i < chunk.choices.len()
            invariant
                all == chunk.choices@,
                i <= all.len(),
                self@ == (RelayView {
                    stream: protocol::pieces_taken(
                        start.stream,
                        choice_pieces(all.take(i as int)),
                    ),
                    reason: stop_reason(all.take(i as int), start.reason),
                    ..start
                }),
            decreases chunk.choices.len() - i,
        {
            let choice = &chunk.choices[i];
            proof {
                assert(all.take(i + 1).drop_last() =~= all.take(i as int));
                assert(all.take(i + 1).last() == *choice);
                if choice.delta is Some {
                    lemma_pieces_concat(
                        start.stream,
                        choice_pieces(all.take(i as int)),
                        delta_pieces(choice.delta->0),
                    );
                }
            }
            match &choice.delta {
                Some(d) => {
                    take_delta(&mut self.ctx, d);
                },
                None => {},
            }
            match &choice.finish_reason {
                Some(f) => {
                    self.reason = f.clone();
                },
                None => {},
            }
            i = i + 1;
        }
        assert(all.take(all.len() as int) =~= all);
    }

    /// Whether a chunk has come.
    pub fn has_data(&self) -> (r: bool)
        ensures
            r == self@.has_data,
    {
        self.has_data
    }

    /// Sends everything that was held back, closes every block, and decides as
    /// far as it can be done here whether the reply broke off.
    pub fn settle(&mut self, config: &Option<LLMConfig>) -> (r: Inquiry)
        ensures
            final(self)@ == (RelayView {
                stream: stream::settled(old(self)@.stream),
                ..old(self)@
            }),
            ({
                let s = stream::settled(old(self)@.stream);
                if stream::in_question(s) {
                    recovery::is_decision(r, s.generated, old(self)@.reason, *config)
                } else {
                    r == Inquiry::Settled(None)
                }
            }),
    {
        if self.ctx.settle() {
            recovery::should_recover_async(self.ctx.generated_text(), self.reason.as_str(), config)
        } else {
            Inquiry::Settled(None)
        }
    }

    /// Ends the message; `recover` says whether the reply broke off.
    pub fn finish(&mut self, recover: bool)
        ensures
            final(self)@ == (RelayView {
                stream: stream::concluded(old(self)@.stream, recover),
                ..old(self)@
            }),
    {
        self.ctx.finish(recover);
    }

    /// Takes out the events that have not been taken yet, written for the wire.
    /// Before the first chunk nothing is handed out, so that a reply without
    /// content can be asked for again without a word.
    pub fn take_output(&mut self) -> (r: Vec<String>)
        ensures
            old(self)@.has_data ==> {
                let s = old(self)@.stream;
                &&& final(self)@ == (RelayView {
                    stream: StreamView { taken: s.out.len(), ..s },
                    ..old(self)@
                })
                &&& r@.len() == s.out.len() - s.taken
                &&& forall|i: int|
                    0 <= i < r@.len() ==> events::is_event_text(
                        s.out[s.taken + i],
                        #[trigger] r@[i]@,
                    )
            },
            !old(self)@.has_data ==> r@.len() == 0 && *final(self) == *old(self),
    {
        if self.has_data {
            self.ctx.take_output()
        } else {
            Vec::new()
        }
    }
}

// ---------------------------------------------------------------------------
// Whole bodies
// ---------------------------------------------------------------------------

/// With data taken in, one after the other: `read` gives the choices of the
/// chunk that a text is, and data that is no chunk is passed over.
pub open spec fn data_taken(
    s: RelayView,
    data: Seq<Seq<char>>,
    read: spec_fn(Seq<char>) -> Option<Seq<OpenAIChoice>>,
) -> RelayView
    decreases data.len(),
{
    if data.len() == 0 {
        s
    } else {
        let before = data_taken(s, data.drop_last(), read);
        match read(data.last()) {
            Some(choices) => chunk_taken(before, choices),
            None => before,
        }
    }
}

/// With a piece of the stream taken in.
pub open spec fn text_taken(
    s: RelayView,
    t: Seq<char>,
    read: spec_fn(Seq<char>) -> Option<Seq<OpenAIChoice>>,
) -> RelayView {
    data_taken(
        RelayView { line: text::unfinished(s.line + t), ..s },
        data_of(text::ready_lines(s.line + t)),
        read,
    )
}

/// With the pieces of a stream taken in one after the other.
pub open spec fn body_taken(
    s: RelayView,
    pieces: Seq<Seq<char>>,
    read: spec_fn(Seq<char>) -> Option<Seq<OpenAIChoice>>,
) -> RelayView
    decreases pieces.len(),
{
    if pieces.len() == 0 {
        s
    } else {
        text_taken(body_taken(s, pieces.drop_last(), read), pieces.last(), read)
    }
}

/// After an end of the stream there is nothing to be read.
pub open spec fn ends_once(lines: Seq<Seq<char>>) -> bool {
    forall|i: int, j: int|
        0 <= i < j < lines.len() && (line_kind(#[trigger] lines[i]) is Done) ==> !(line_kind(
            #[trigger] lines[j],
        ) is Data)
}

proof fn lemma_nothing_to_read(lines: Seq<Seq<char>>)
    requires
        forall|i: int| 0 <= i < lines.len() ==> !(line_kind(#[trigger] lines[i]) is Data),
    ensures
        data_of(lines) == Seq::<Seq<char>>::empty(),
    decreases lines.len(),
{
    if lines.len() > 0 {
        assert(!(line_kind(lines[0]) is Data));
        assert forall|i: int| 0 <= i < lines.drop_first().len() implies !(line_kind(
            #[trigger] lines.drop_first()[i],
        ) is Data) by {
            assert(lines.drop_first()[i] == lines[i + 1]);
        }
        lemma_nothing_to_read(lines.drop_first());
    }
}

proof fn lemma_data_ends_once(a: Seq<Seq<char>>, b: Seq<Seq<char>>)
    requires
        ends_once(a + b),
    ensures
        data_of(a + b) == data_of(a) + data_of(b),
        ends_once(a),
        ends_once(b),
    decreases a.len(),
{
    let all = a + b;
    assert forall|i: int, j: int|
        0 <= i < j < a.len() && (line_kind(#[trigger] a[i]) is Done) implies !(line_kind(
        #[trigger] a[j],
    ) is Data) by {
        assert(all[i] == a[i] && all[j] == a[j]);
    }
    assert forall|i: int, j: int|
        0 <= i < j < b.len() && (line_kind(#[trigger] b[i]) is Done) implies !(line_kind(
        #[trigger] b[j],
    ) is Data) by {
        assert(all[a.len() + i] == b[i] && all[a.len() + j] == b[j]);
    }
    if a.len() == 0 {
        assert(all =~= b);
        assert(data_of(a) + data_of(b) =~= data_of(b));
    } else {
        let rest = a.drop_first();
        assert(all.drop_first() =~= rest + b);
        assert forall|i: int, j: int|
            0 <= i < j < (rest + b).len() && (line_kind(#[trigger] (rest + b)[i])
                is Done) implies !(line_kind(#[trigger] (rest + b)[j]) is Data) by {
            assert((rest + b)[i] == all[i + 1] && (rest + b)[j] == all[j + 1]);
        }
        lemma_data_ends_once(rest, b);
        assert(all[0] == a[0]);
        match line_kind(a[0]) {
            LineKind::Data(d) => {
                assert(seq![d] + (data_of(rest) + data_of(b)) =~= seq![d] + data_of(rest) + data_of(
                    b,
                ));
            },
            LineKind::Done => {
                assert forall|i: int| 0 <= i < b.len() implies !(line_kind(#[trigger] b[i])
                    is Data) by {
                    assert(b[i] == all[a.len() + i]);
                }
                lemma_nothing_to_read(b);
                assert(data_of(a) + data_of(b) =~= Seq::<Seq<char>>::empty());
            },
            LineKind::Skip => {},
        }
    }
}

proof fn lemma_data_taken_concat(
    s: RelayView,
    a: Seq<Seq<char>>,
    b: Seq<Seq<char>>,
    read: spec_fn(Seq<char>) -> Option<Seq<OpenAIChoice>>,
)
    ensures
        data_taken(s, a + b, read) == data_taken(data_taken(s, a, read), b, read),
    decreases b.len(),
{
    if b.len() == 0 {
        assert(a + b =~= a);
    } else {
        assert((a + b).drop_last() =~= a + b.drop_last());
        lemma_data_taken_concat(s, a, b.drop_last(), read);
    }
}

/// The line that waits does not matter for the data that is taken in.
proof fn lemma_data_frame(
    s: RelayView,
    data: Seq<Seq<char>>,
    l: Seq<char>,
    read: spec_fn(Seq<char>) -> Option<Seq<OpenAIChoice>>,
)
    ensures
        data_taken(RelayView { line: l, ..s }, data, read) == (RelayView {
            line: l,
            ..data_taken(s, data, read)
        }),
        data_taken(s, data, read).line == s.line,
    decreases data.len(),
{
    if data.len() > 0 {
        lemma_data_frame(s, data.drop_last(), l, read);
    }
}

proof fn lemma_two_texts(
    s: RelayView,
    a: Seq<char>,
    b: Seq<char>,
    read: spec_fn(Seq<char>) -> Option<Seq<OpenAIChoice>>,
)
    requires
        ends_once(text::ready_lines(s.line + (a + b))),
    ensures
        text_taken(text_taken(s, a, read), b, read) == text_taken(s, a + b, read),
        ends_once(text::ready_lines(s.line + a)),
{
    let t = s.line + a;
    assert(s.line + (a + b) =~= t + b);
    text::law_ready_lines(t, b);
    let u = text::unfinished(t) + b;
    let first = RelayView { line: text::unfinished(t), ..s };
    let last = RelayView { line: text::unfinished(u), ..s };
    let early = data_of(text::ready_lines(t));
    let late = data_of(text::ready_lines(u));
    lemma_data_ends_once(text::ready_lines(t), text::ready_lines(u));
    lemma_data_frame(first, early, text::unfinished(u), read);
    assert(RelayView { line: text::unfinished(u), ..first } == last);
    lemma_data_taken_concat(last, early, late, read);
}

/// How the body of a reply is cut into pieces does not matter for the events
/// that come of it, nor for anything else that the relay knows afterwards: as
/// long as nothing to be read comes after its end, the pieces one after the
/// other do what the whole does. A chunk has come exactly where one stands on a
/// data line before the end.
pub proof fn law_body_cut_does_not_matter(
    s: RelayView,
    pieces: Seq<Seq<char>>,
    read: spec_fn(Seq<char>) -> Option<Seq<OpenAIChoice>>,
)
    requires
        s.line.len() == 0,
        ends_once(text::ready_lines(protocol::concatenated(pieces))),
    ensures
        body_taken(s, pieces, read) == text_taken(s, protocol::concatenated(pieces), read),
        ({
            let data = data_of(text::ready_lines(protocol::concatenated(pieces)));
            body_taken(s, pieces, read).has_data <==> s.has_data || exists|i: int|
                0 <= i < data.len() && read(#[trigger] data[i]) is Some
        }),
    decreases pieces.len(),
{
    let all = protocol::concatenated(pieces);
    assert(s.line + all =~= all);
    law_has_data(
        RelayView { line: text::unfinished(all), ..s },
        data_of(text::ready_lines(all)),
        read,
    );
    if pieces.len() == 0 {
        text::lemma_after_last(all, '\n');
        assert(all.take(0) =~= Seq::<char>::empty());
        assert(text::unfinished(all) =~= s.line);
        assert(text::ready_lines(all) =~= Seq::<Seq<char>>::empty());
        assert(RelayView { line: text::unfinished(all), ..s } == s);
    } else {
        let front = protocol::concatenated(pieces.drop_last());
        assert(s.line + front =~= front);
        lemma_two_texts(s, front, pieces.last(), read);
        law_body_cut_does_not_matter(s, pieces.drop_last(), read);
    }
}

/// Data has come exactly where some of what was read is a chunk.
pub proof fn law_has_data(
    s: RelayView,
    data: Seq<Seq<char>>,
    read: spec_fn(Seq<char>) -> Option<Seq<OpenAIChoice>>,
)
    ensures
        data_taken(s, data, read).has_data <==> s.has_data || exists|i: int|
            0 <= i < data.len() && read(#[trigger] data[i]) is Some,
    decreases data.len(),
{
    if data.len() > 0 {
        let front = data.drop_last();
        law_has_data(s, front, read);
        assert(forall|i: int| 0 <= i < front.len() ==> front[i] == data[i]);
        let last = data.len() - 1;
        if read(data[last]) is Some {
        } else if exists|i: int| 0 <= i < data.len() && read(#[trigger] data[i]) is Some {
            let i = choose|i: int| 0 <= i < data.len() && read(#[trigger] data[i]) is Some;
            assert(i != last);
            assert(read(front[i]) is Some);
        } else if exists|i: int| 0 <= i < front.len() && read(#[trigger] front[i]) is Some {
            let i = choose|i: int| 0 <= i < front.len() && read(#[trigger] front[i]) is Some;
            assert(read(data[i]) is Some);
        }
    }
}

// ---------------------------------------------------------------------------
// What a chunk brings
// ---------------------------------------------------------------------------

/// A line with `data: ` carries what follows that; the end of the stream is the
/// one that carries `[DONE]`; other lines carry nothing.
pub proof fn law_line_kind(line: Seq<char>, data: Seq<char>)
    ensures
        text::trim(line) == "data: "@ + data && data != "[DONE]"@ ==> line_kind(line)
            == LineKind::Data(data),
        text::trim(line) == "data: [DONE]"@ ==> line_kind(line) == LineKind::Done,
        !text::begins(text::trim(line), "data: "@) ==> line_kind(line) == LineKind::Skip,
{
    reveal_strlit("data: ");
    reveal_strlit("data: [DONE]");
    reveal_strlit("[DONE]");
    let t = text::trim(line);
    if t == "data: "@ + data {
        assert(t.subrange(0, 6) =~= "data: "@);
        assert(t.skip(6) =~= data);
    }
    if t == "data: [DONE]"@ {
        assert(t.subrange(0, 6) =~= "data: "@);
        assert(t.skip(6) =~= "[DONE]"@);
    }
}

/// What the pieces bring in reasoning, one after the other.
pub open spec fn reasoning_brought(pieces: Seq<Piece>) -> Seq<char>
    decreases pieces.len(),
{
    if pieces.len() == 0 {
        Seq::empty()
    } else {
        reasoning_brought(pieces.drop_last()) + match pieces.last() {
            Piece::Reasoning(t) => t,
            _ => Seq::empty(),
        }
    }
}

/// What the pieces bring in content, one after the other.
pub open spec fn content_brought(pieces: Seq<Piece>) -> Seq<char>
    decreases pieces.len(),
{
    if pieces.len() == 0 {
        Seq::empty()
    } else {
        content_brought(pieces.drop_last()) + match pieces.last() {
            Piece::Content(t) => t,
            _ => Seq::empty(),
        }
    }
}

/// The native calls, or pieces of them, that the pieces bring.
pub open spec fn calls_brought(pieces: Seq<Piece>) -> Seq<stream::CallDelta>
    decreases pieces.len(),
{
    if pieces.len() == 0 {
        Seq::empty()
    } else {
        match pieces.last() {
            Piece::Call(c) => calls_brought(pieces.drop_last()).push(c),
            _ => calls_brought(pieces.drop_last()),
        }
    }
}

proof fn lemma_brought_concat(a: Seq<Piece>, b: Seq<Piece>)
    ensures
        reasoning_brought(a + b) == reasoning_brought(a) + reasoning_brought(b),
        content_brought(a + b) == content_brought(a) + content_brought(b),
        calls_brought(a + b) == calls_brought(a) + calls_brought(b),
    decreases b.len(),
{
    if b.len() == 0 {
        assert(a + b =~= a);
        assert(reasoning_brought(a) + reasoning_brought(b) =~= reasoning_brought(a));
        assert(content_brought(a) + content_brought(b) =~= content_brought(a));
        assert(calls_brought(a) + calls_brought(b) =~= calls_brought(a));
    } else {
        assert((a + b).drop_last() =~= a + b.drop_last());
        lemma_brought_concat(a, b.drop_last());
        assert(reasoning_brought(a + b) =~= reasoning_brought(a) + reasoning_brought(b));
        assert(content_brought(a + b) =~= content_brought(a) + content_brought(b));
        assert(calls_brought(a + b) =~= calls_brought(a) + calls_brought(b));
    }
}

proof fn lemma_brought_one(p: Piece)
    ensures
        reasoning_brought(seq![p]) == (match p {
            Piece::Reasoning(t) => t,
            _ => Seq::empty(),
        }),
        content_brought(seq![p]) == (match p {
            Piece::Content(t) => t,
            _ => Seq::empty(),
        }),
        calls_brought(seq![p]) == (match p {
            Piece::Call(c) => seq![c],
            _ => Seq::empty(),
        }),
{
    let none = Seq::<Piece>::empty();
    assert(seq![p].drop_last() =~= none);
    assert(reasoning_brought(none) =~= Seq::<char>::empty());
    assert(content_brought(none) =~= Seq::<char>::empty());
    assert(calls_brought(none) =~= Seq::<stream::CallDelta>::empty());
    assert(reasoning_brought(seq![p]) =~= match p {
        Piece::Reasoning(t) => t,
        _ => Seq::empty(),
    });
    assert(content_brought(seq![p]) =~= match p {
        Piece::Content(t) => t,
        _ => Seq::empty(),
    });
    assert(calls_brought(seq![p]) =~= match p {
        Piece::Call(c) => seq![c],
        _ => Seq::empty(),
    });
}

proof fn lemma_none_brought()
    ensures
        reasoning_brought(Seq::empty()) == Seq::<char>::empty(),
        content_brought(Seq::empty()) == Seq::<char>::empty(),
        calls_brought(Seq::empty()) == Seq::<stream::CallDelta>::empty(),
{
}

/// A text that may be missing.
pub open spec fn or_nothing(t: Option<String>) -> Seq<char> {
    match t {
        Some(s) => s@,
        None => Seq::empty(),
    }
}

proof fn lemma_calls_brought(calls: Seq<OpenAIToolCallDelta>)
    ensures
        ({
            let pieces = calls.map_values(
                |c: OpenAIToolCallDelta| Piece::Call(stream::call_delta(c)),
            );
            &&& reasoning_brought(pieces) == Seq::<char>::empty()
            &&& content_brought(pieces) == Seq::<char>::empty()
            &&& calls_brought(pieces) == calls.map_values(
                |c: OpenAIToolCallDelta| stream::call_delta(c),
            )
        }),
    decreases calls.len(),
{
    let pieces = calls.map_values(|c: OpenAIToolCallDelta| Piece::Call(stream::call_delta(c)));
    let all = calls.map_values(|c: OpenAIToolCallDelta| stream::call_delta(c));
    if calls.len() == 0 {
        assert(pieces =~= Seq::<Piece>::empty());
        assert(all =~= Seq::<stream::CallDelta>::empty());
    } else {
        let front = calls.drop_last();
        lemma_calls_brought(front);
        assert(pieces.drop_last() =~= front.map_values(
            |c: OpenAIToolCallDelta| Piece::Call(stream::call_delta(c)),
        ));
        assert(pieces.last() == Piece::Call(stream::call_delta(calls.last())));
        assert(reasoning_brought(pieces) =~= Seq::<char>::empty());
        assert(content_brought(pieces) =~= Seq::<char>::empty());
        assert(calls_brought(pieces) =~= all);
    }
}

/// A delta brings what it has as reasoning and after it what it has as
/// reasoning content; what it has as content; and all its tool calls, in their
/// order. A missing text counts as empty.
pub proof fn law_delta_brings(d: OpenAIDelta)
    ensures
        reasoning_brought(delta_pieces(d)) == or_nothing(d.reasoning) + or_nothing(
            d.reasoning_content,
        ),
        content_brought(delta_pieces(d)) == or_nothing(d.content),
        calls_brought(delta_pieces(d)) == (match d.tool_calls {
            Some(v) => v@.map_values(|c: OpenAIToolCallDelta| stream::call_delta(c)),
            None => Seq::empty(),
        }),
{
    let a = reasoning_piece(d.reasoning);
    let b = reasoning_piece(d.reasoning_content);
    let c = content_piece(d.content);
    let e = call_pieces(d.tool_calls);
    lemma_brought_concat(a, b);
    lemma_brought_concat(a + b, c);
    lemma_brought_concat(a + b + c, e);
    lemma_brought_one(Piece::Reasoning(or_nothing(d.reasoning)));
    lemma_brought_one(Piece::Reasoning(or_nothing(d.reasoning_content)));
    lemma_brought_one(Piece::Content(or_nothing(d.content)));
    lemma_none_brought();
    if let Some(v) = d.tool_calls {
        lemma_calls_brought(v@);
    }
    assert(reasoning_brought(a) =~= or_nothing(d.reasoning));
    assert(reasoning_brought(b) =~= or_nothing(d.reasoning_content));
    assert(content_brought(c) =~= or_nothing(d.content));
    assert(reasoning_brought(delta_pieces(d)) =~= or_nothing(d.reasoning) + or_nothing(
        d.reasoning_content,
    ));
    assert(content_brought(delta_pieces(d)) =~= or_nothing(d.content));
    assert(calls_brought(delta_pieces(d)) =~= match d.tool_calls {
        Some(v) => v@.map_values(|c: OpenAIToolCallDelta| stream::call_delta(c)),
        None => Seq::empty(),
    });
}

/// What a native call gives is taken over: its identifier, its name, its
/// arguments, and its index, 0 where it has none.
pub proof fn law_call_delta(tc: OpenAIToolCallDelta)
    ensures
        ({
            let c = stream::call_delta(tc);
            &&& tc.index matches Some(i) ==> c.index == i
            &&& tc.index is None ==> c.index == 0
            &&& c.id is Some <==> tc.id is Some
            &&& tc.id matches Some(x) ==> c.id == Some(x@)
            &&& tc.function matches Some(f) ==> {
                &&& c.name is Some <==> f.name is Some
                &&& f.name matches Some(x) ==> c.name == Some(x@)
                &&& c.arguments is Some <==> f.arguments is Some
                &&& f.arguments matches Some(x) ==> c.arguments == Some(x@)
            }
            &&& tc.function is None ==> c.name is None && c.arguments is None
        }),
{
}

/// The choices of a chunk bring what each of them brings, in their order. The
/// stop reason is the last that is given.
pub proof fn law_choices_bring(
    choices: Seq<OpenAIChoice>,
    choice: OpenAIChoice,
    reason: Seq<char>,
)
    ensures
        choice_pieces(Seq::empty()) == Seq::<Piece>::empty(),
        choice_pieces(choices.push(choice)) == choice_pieces(choices) + (match choice.delta {
            Some(d) => delta_pieces(d),
            None => Seq::empty(),
        }),
        stop_reason(Seq::empty(), reason) == reason,
        choice.finish_reason matches Some(f) ==> stop_reason(choices.push(choice), reason) == f@,
        choice.finish_reason is None ==> stop_reason(choices.push(choice), reason) == stop_reason(
            choices,
            reason,
        ),
{
    assert(choices.push(choice).drop_last() =~= choices);
    if choice.delta is None {
        assert(choice_pieces(choices) + Seq::<Piece>::empty() =~= choice_pieces(choices));
    }
}

/// What is read of lines is the data of the data lines, one after the other, up
/// to the end of the stream; nothing is read after it.
pub proof fn law_data_read(a: Seq<Seq<char>>, line: Seq<char>, b: Seq<Seq<char>>)
    requires
        no_end(a),
    ensures
        data_of(Seq::empty()) == Seq::<Seq<char>>::empty(),
        line_kind(line) matches LineKind::Data(d) ==> data_of(a.push(line) + b) == data_of(a).push(
            d,
        ) + data_of(b),
        line_kind(line) is Skip ==> data_of(a.push(line) + b) == data_of(a) + data_of(b),
        line_kind(line) is Done ==> data_of(a.push(line) + b) == data_of(a),
{
    let rest = seq![line] + b;
    assert(a.push(line) + b =~= a + rest);
    lemma_data_concat(a, rest);
    assert(rest.drop_first() =~= b);
    if let LineKind::Data(d) = line_kind(line) {
        assert(data_of(a) + (seq![d] + data_of(b)) =~= data_of(a).push(d) + data_of(b));
    }
    if line_kind(line) is Done {
        assert(data_of(a) + Seq::<Seq<char>>::empty() =~= data_of(a));
    }
}

/// The chunks that are read are taken in one after the other, none left out;
/// data that is no chunk changes nothing. Of a chunk the stream takes what its
/// choices bring, and the last stop reason is kept.
pub proof fn law_data_taken(
    s: RelayView,
    data: Seq<Seq<char>>,
    d: Seq<char>,
    read: spec_fn(Seq<char>) -> Option<Seq<OpenAIChoice>>,
)
    ensures
        data_taken(s, Seq::empty(), read) == s,
        read(d) is None ==> data_taken(s, data.push(d), read) == data_taken(s, data, read),
        read(d) matches Some(choices) ==> {
            let before = data_taken(s, data, read);
            let r = data_taken(s, data.push(d), read);
            &&& r.stream == protocol::pieces_taken(before.stream, choice_pieces(choices))
            &&& r.reason == stop_reason(choices, before.reason)
            &&& r.has_data
            &&& r.line == before.line
        },
{
    assert(data.push(d).drop_last() =~= data);
}

} // verus!
