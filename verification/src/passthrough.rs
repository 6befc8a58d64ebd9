//! The passthrough: an OpenAI stream goes on to an OpenAI client. Reasoning is
//! put between `<thinking>` tags, tool calls in the text become tool calls, and
//! lines that are no chunks go through as they are.
use vstd::prelude::*;
use vstd::string::*;

use crate::fallback;
use crate::json;
use crate::json::Json;
use crate::text;
use crate::tools::{ToolEntry, ToolTable};

verus! {

// ---------------------------------------------------------------------------
// Pieces of output
// ---------------------------------------------------------------------------

/// A piece of output.
pub enum RawPiece {
    /// Text that goes out as it is.
    Line(String),
    /// A line with native tool calls, as it is.
    Native(String),
    /// A chunk that carries reasoning; the first one after anything else opens
    /// the thinking.
    Reasoning { opens: bool, text: String },
    /// A chunk that carries content; the first one after reasoning closes the
    /// thinking.
    Content { closes: bool, text: String },
    /// A chunk that carries a tool call, and the markup it was read from.
    Call { name: String, args: String, markup: String },
    /// The end of the stream.
    Done,
}

/// The mathematical counterpart of `RawPiece`.
pub ghost enum RawPieceView {
    Line(Seq<char>),
    Native(Seq<char>),
    Reasoning { opens: bool, text: Seq<char> },
    Content { closes: bool, text: Seq<char> },
    Call { name: Seq<char>, args: Seq<char>, markup: Seq<char> },
    Done,
}

impl View for RawPiece {
    type V = RawPieceView;

    open spec fn view(&self) -> RawPieceView {
        match *self {
            RawPiece::Line(t) => RawPieceView::Line(t@),
            RawPiece::Native(t) => RawPieceView::Native(t@),
            RawPiece::Reasoning { opens, text } => RawPieceView::Reasoning { opens, text: text@ },
            RawPiece::Content { closes, text } => RawPieceView::Content { closes, text: text@ },
            RawPiece::Call { name, args, markup } => RawPieceView::Call {
                name: name@,
                args: args@,
                markup: markup@,
            },
            RawPiece::Done => RawPieceView::Done,
        }
    }
}

pub open spec fn raw_views(v: Seq<RawPiece>) -> Seq<RawPieceView> {
    v.map_values(|p: RawPiece| p@)
}

/// A chunk that carries content.
pub open spec fn content_chunk(t: Seq<char>) -> Seq<char> {
    "data: {\"choices\":[{\"delta\":{\"content\":"@ + json::quoted(t) + "}}]}\n\n"@
}

/// A chunk that carries a tool call with the identifier `id`.
pub open spec fn call_chunk(id: Seq<char>, name: Seq<char>, args: Seq<char>) -> Seq<char> {
    let function = json::object2("arguments"@, json::quoted(args), "name"@, json::quoted(name));
    let call = json::object_text(
        seq![
            ("function"@, function),
            ("id"@, json::quoted(id)),
            ("index"@, "0"@),
            ("type"@, json::quoted("function"@)),
        ],
    );
    let delta = json::object_text(seq![("tool_calls"@, json::array_text(seq![call]))]);
    let choice = json::object_text(seq![("delta"@, delta)]);
    "data: "@ + json::object_text(seq![("choices"@, json::array_text(seq![choice]))]) + "\n\n"@
}

/// `t` after the tag, where there is one.
pub open spec fn tagged(tag: Seq<char>, there: bool, t: Seq<char>) -> Seq<char> {
    if there {
        tag + t
    } else {
        t
    }
}

/// What a client reads as content in a piece.
pub open spec fn read_in(p: RawPieceView) -> Seq<char> {
    match p {
        RawPieceView::Reasoning { opens, text } => tagged("<thinking>"@, opens, text),
        RawPieceView::Content { closes, text } => tagged("</thinking>"@, closes, text),
        _ => Seq::empty(),
    }
}

/// A piece as it goes over the wire; `id` is the identifier of a tool call.
pub open spec fn piece_text(p: RawPieceView, id: Seq<char>) -> Seq<char> {
    match p {
        RawPieceView::Line(t) => t,
        RawPieceView::Native(t) => t,
        RawPieceView::Reasoning { .. } => content_chunk(read_in(p)),
        RawPieceView::Content { .. } => content_chunk(read_in(p)),
        RawPieceView::Call { name, args, markup } => call_chunk(id, name, args),
        RawPieceView::Done => "data: [DONE]\n\n"@,
    }
}

/// The pieces one after the other, each with an identifier.
pub open spec fn pieces_text(pieces: Seq<RawPieceView>, ids: Seq<Seq<char>>) -> Seq<char>
    decreases pieces.len(),
{
    if pieces.len() == 0 {
        Seq::empty()
    } else {
        pieces_text(pieces.drop_last(), ids) + piece_text(pieces.last(), ids[pieces.len() - 1])
    }
}

/// Whether `t` is what goes over the wire for the pieces, with some
/// identifiers.
pub open spec fn is_pieces_text(pieces: Seq<RawPieceView>, t: Seq<char>) -> bool {
    exists|ids: Seq<Seq<char>>|
        ids.len() == pieces.len() && (forall|i: int|
            0 <= i < ids.len() ==> fallback::is_tool_id(#[trigger] ids[i])) && t
            == #[trigger] pieces_text(pieces, ids)
}

fn write_content_chunk(t: &str) -> (r: String)
    ensures
        r@ == content_chunk(t@),
{
    let mut r = text::cat(
        "data: {\"choices\":[{\"delta\":{\"content\":",
        json::quote_json(t).as_str(),
    );
    r.append("}}]}\n\n");
    r
}

fn write_tagged(tag: &str, there: bool, t: &String) -> (r: String)
    ensures
        r@ == tagged(tag@, there, t@),
{
    if there {
        text::cat(tag, t.as_str())
    } else {
        t.clone()
    }
}

fn write_array(item: String) -> (r: String)
    ensures
        r@ == json::array_text(seq![item@]),
{
    let mut items: Vec<String> = Vec::new();
    items.push(item);
    assert(text::views(items@) =~= seq![item@]);
    json::array_of(&items).text
}

fn write_call_chunk(id: &str, name: &str, args: &str) -> (r: String)
    ensures
        r@ == call_chunk(id@, name@, args@),
{
    let function = json::write2(
        "arguments",
        json::quote_json(args),
        "name",
        json::quote_json(name),
    );
    let ghost function_text = function@;
    let mut entries: Vec<(String, String)> = Vec::new();
    json::put(&mut entries, "function", function);
    json::put(&mut entries, "id", json::quote_json(id));
    json::put(&mut entries, "index", "0".to_owned());
    json::put(&mut entries, "type", json::quote_json("function"));
    assert(json::pair_views(entries@) =~= seq![
        ("function"@, function_text),
        ("id"@, json::quoted(id@)),
        ("index"@, "0"@),
        ("type"@, json::quoted("function"@)),
    ]);
    let call = json::object_of(&entries).text;
    let delta = json::write1("tool_calls", write_array(call));
    let choice = json::write1("delta", delta);
    let body = json::write1("choices", write_array(choice));
    let mut r = text::cat("data: ", body.as_str());
    r.append("\n\n");
    r
}

impl RawPiece {
    /// The piece as it goes over the wire; `id` is the identifier of a tool
    /// call.
    pub fn encode_with(&self, id: &str) -> (r: String)
        ensures
            r@ == piece_text(self@, id@),
    {
        match self {
            RawPiece::Line(t) => t.clone(),
            RawPiece::Native(t) => t.clone(),
            RawPiece::Reasoning { opens, text } => write_content_chunk(
                write_tagged("<thinking>", *opens, text).as_str(),
            ),
            RawPiece::Content { closes, text } => write_content_chunk(
                write_tagged("</thinking>", *closes, text).as_str(),
            ),
            RawPiece::Call { name, args, markup } => write_call_chunk(
                id,
                name.as_str(),
                args.as_str(),
            ),
            RawPiece::Done => "data: [DONE]\n\n".to_owned(),
        }
    }
}

// ---------------------------------------------------------------------------
// Markup
// ---------------------------------------------------------------------------

/// What opens markup, and what closes it.
pub open spec fn triggers() -> Seq<(Seq<char>, Seq<char>)> {
    seq![
        ("<tool_call>"@, "</tool_call>"@),
        ("```json"@, "```"@),
        ("```tool_call"@, "```"@),
        ("<｜tool_calls｜>"@, "</｜tool_calls｜>"@),
        ("<｜tool_call｜>"@, "</｜tool_call｜>"@),
        ("<invoke"@, "</invoke>"@),
        ("<parameter"@, "</parameter>"@),
        ("<｜invoke｜>"@, "</｜invoke｜>"@),
        ("<｜parameter｜>"@, "</｜parameter｜>"@),
        ("<DSML｜tool_name｜>"@, "</DSML｜tool_name｜>"@),
        ("<DSML｜tool_calls｜>"@, "</DSML｜tool_calls｜>"@),
        ("<ツtool_callsツ>"@, "</ツtool_callsツ>"@),
        ("<ツtool_callツ>"@, "</ツtool_callツ>"@),
    ]
}

fn trigger(open: &str, close: &str) -> (r: (String, String))
    ensures
        r.0@ == open@,
        r.1@ == close@,
{
    (open.to_owned(), close.to_owned())
}

fn trigger_list() -> (r: Vec<(String, String)>)
    ensures
        json::pair_views(r@) == triggers(),
{
    let r = vec![
        trigger("<tool_call>", "</tool_call>"),
        trigger("```json", "```"),
        trigger("```tool_call", "```"),
        trigger("<｜tool_calls｜>", "</｜tool_calls｜>"),
        trigger("<｜tool_call｜>", "</｜tool_call｜>"),
        trigger("<invoke", "</invoke>"),
        trigger("<parameter", "</parameter>"),
        trigger("<｜invoke｜>", "</｜invoke｜>"),
        trigger("<｜parameter｜>", "</｜parameter｜>"),
        trigger("<DSML｜tool_name｜>", "</DSML｜tool_name｜>"),
        trigger("<DSML｜tool_calls｜>", "</DSML｜tool_calls｜>"),
        trigger("<ツtool_callsツ>", "</ツtool_callsツ>"),
        trigger("<ツtool_callツ>", "</ツtool_callツ>"),
    ];
    assert(json::pair_views(r@) =~= triggers());
    r
}

/// Of the first `n` triggers the one that opens first in `t`: where it opens,
/// and which it is.
pub open spec fn opening_among(t: Seq<char>, n: int) -> Option<(int, int)>
    decreases n,
{
    if n <= 0 {
        None
    } else {
        let before = opening_among(t, n - 1);
        match text::find(t, triggers()[n - 1].0) {
            Some(i) => match before {
                Some((k, _)) => if i < k {
                    Some((i, n - 1))
                } else {
                    before
                },
                None => Some((i, n - 1)),
            },
            None => before,
        }
    }
}

/// The trigger that opens first in `t`: where it opens, and which it is.
pub open spec fn first_opening(t: Seq<char>) -> Option<(int, int)> {
    opening_among(t, triggers().len() as int)
}

/// What `opening_among` finds opens where it says, and no trigger opens
/// earlier.
pub proof fn lemma_opening_among(t: Seq<char>, n: int)
    requires
        n <= triggers().len(),
    ensures
        match opening_among(t, n) {
            Some((i, k)) => 0 <= k < n && text::occurs_at(t, triggers()[k].0, i) && forall|j: int|
                0 <= j < n ==> (text::find(t, (#[trigger] triggers()[j]).0) matches Some(x)
                    ==> i <= x),
            None => forall|j: int|
                0 <= j < n ==> text::find(t, (#[trigger] triggers()[j]).0) is None,
        },
    decreases n,
{
    if n > 0 {
        lemma_opening_among(t, n - 1);
        text::lemma_find_from(t, triggers()[n - 1].0, 0);
    }
}

/// The first position at which two triggers differ.
spec fn differ_at(i: int, j: int) -> int {
    if (1 <= i <= 2) != (1 <= j <= 2) {
        0
    } else if i == 1 && j == 2 {
        3
    } else if (i == 3 && j == 4) || (i == 9 && j == 10) || (i == 11 && j == 12) {
        11
    } else if 3 <= i && j <= 8 && i != 5 && i != 6 && j != 5 && j != 6 {
        2
    } else {
        1
    }
}

/// No two triggers open at one position: in which order they are looked for
/// does not matter.
pub proof fn law_one_trigger_opens(t: Seq<char>, at: int, i: int, j: int)
    requires
        0 <= i < j < triggers().len(),
        text::occurs_at(t, triggers()[i].0, at),
    ensures
        !text::occurs_at(t, triggers()[j].0, at),
{
    reveal_strlit("<tool_call>");
    reveal_strlit("```json");
    reveal_strlit("```tool_call");
    reveal_strlit("<｜tool_calls｜>");
    reveal_strlit("<｜tool_call｜>");
    reveal_strlit("<invoke");
    reveal_strlit("<parameter");
    reveal_strlit("<｜invoke｜>");
    reveal_strlit("<｜parameter｜>");
    reveal_strlit("<DSML｜tool_name｜>");
    reveal_strlit("<DSML｜tool_calls｜>");
    reveal_strlit("<ツtool_callsツ>");
    reveal_strlit("<ツtool_callツ>");
    let a = triggers()[i].0;
    let b = triggers()[j].0;
    let d = differ_at(i, j);
    assert(0 <= d < a.len() && d < b.len() && a[d] != b[d]);
    assert(t.subrange(at, at + a.len())[d] == t[at + d]);
    if text::occurs_at(t, b, at) {
        assert(t.subrange(at, at + b.len())[d] == t[at + d]);
    }
}

/// The trigger that opens first: where it opens, how it opens, and what closes
/// it.
pub fn find_first_opening(t: &str) -> (r: Option<(usize, (String, String))>)
    ensures
        match r {
            Some((i, (open, close))) => i <= t@.len() && (first_opening(t@) matches Some(
                (at, which),
            ) && at == i && triggers()[which] == (open@, close@)),
            None => first_opening(t@) is None,
        },
{
    let list = trigger_list();
    let mut best: Option<(usize, usize)> = None;
    let mut n: usize = 0;
    while n < list.len()
        invariant
            json::pair_views(list@) == triggers(),
            n <= list@.len(),
            match best {
                Some((i, k)) => opening_among(t@, n as int) == Some((i as int, k as int)) && k < n
                    && i <= t@.len(),
                None => opening_among(t@, n as int) is None,
            },
        decreases list.len() - n,
    {
        assert(triggers()[n as int] == (list@[n as int].0@, list@[n as int].1@));
        match text::find_text(t, list[n].0.as_str()) {
            Some(i) => {
                best = match best {
                    Some((j, k)) => if i < j {
                        Some((i, n))
                    } else {
                        Some((j, k))
                    },
                    None => Some((i, n)),
                };
            },
            None => {},
        }
        n = n + 1;
    }
    assert(triggers().len() == list@.len());
    match best {
        Some((i, k)) => {
            assert(triggers()[k as int] == (list@[k as int].0@, list@[k as int].1@));
            Some((i, (list[k].0.clone(), list[k].1.clone())))
        },
        None => None,
    }
}

// ---------------------------------------------------------------------------
// The model
// ---------------------------------------------------------------------------

/// The state of a passthrough.
#[verifier::ext_equal]
pub ghost struct RawView {
    /// Whether a `<thinking>` tag is open.
    pub thinking: bool,
    /// The line that is not complete yet.
    pub line: Seq<char>,
    /// Content that is held back because markup may begin in it.
    pub content: Seq<char>,
    /// What opens the markup that is being collected, and what closes it.
    pub intercept: Option<(Seq<char>, Seq<char>)>,
    /// What has been collected of it.
    pub collected: Seq<char>,
    /// Every piece so far.
    pub out: Seq<RawPieceView>,
    /// How many of them have been taken out.
    pub taken: nat,
}

pub open spec fn fresh() -> RawView {
    RawView {
        thinking: false,
        line: Seq::empty(),
        content: Seq::empty(),
        intercept: None,
        collected: Seq::empty(),
        out: Seq::empty(),
        taken: 0,
    }
}

pub open spec fn put_out(s: RawView, p: RawPieceView) -> RawView {
    RawView { out: s.out.push(p), ..s }
}

/// With `t` sent as content, after the end of the thinking where that is open.
pub open spec fn spoken(s: RawView, t: Seq<char>) -> RawView {
    if t.len() == 0 {
        s
    } else {
        RawView {
            thinking: false,
            ..put_out(s, RawPieceView::Content { closes: s.thinking, text: t })
        }
    }
}

/// With the thinking ended, where it is open.
pub open spec fn unthought(s: RawView) -> RawView {
    if s.thinking {
        RawView {
            thinking: false,
            ..put_out(s, RawPieceView::Content { closes: true, text: Seq::empty() })
        }
    } else {
        s
    }
}

/// With the markup at position `i` of the content collected from now on, and
/// what stands before it sent.
pub open spec fn collecting(s: RawView, i: int, t: (Seq<char>, Seq<char>)) -> RawView {
    RawView {
        intercept: Some(t),
        collected: s.content.skip(i),
        content: Seq::empty(),
        ..spoken(s, s.content.take(i))
    }
}

/// How many bytes of content are held back because markup may begin in them.
pub const HOLD_BACK: usize = 35;

/// With markup sent as the tool call that it is, or else as content.
pub open spec fn markup_passed(s: RawView, markup: Seq<char>) -> RawView {
    let (name, args) = fallback::fallback_call(markup, Seq::<ToolEntry>::empty());
    markup_passed_as(s, markup, name, args)
}

/// With markup sent as the call of `name` that was read from it, or else as
/// content.
pub open spec fn markup_passed_as(
    s: RawView,
    markup: Seq<char>,
    name: Seq<char>,
    args: Seq<char>,
) -> RawView {
    if name != fallback::UNKNOWN@ {
        put_out(unthought(s), RawPieceView::Call { name, args, markup })
    } else {
        spoken(s, markup)
    }
}

/// The position after the markup in what has been collected: after what closes
/// it, which is looked for after what opens it.
pub open spec fn markup_end(collected: Seq<char>, t: (Seq<char>, Seq<char>)) -> Option<int> {
    match text::find_from(collected, t.1, t.0.len() as int) {
        Some(i) => Some(i + t.1.len()),
        None => None,
    }
}

/// With the markup that is complete passed on, and the content after it: from
/// the next opening on it is collected in turn.
pub open spec fn resumed(s: RawView) -> RawView
    decreases s.collected.len(),
    via resumed_decreases
{
    match s.intercept {
        Some(t) => match markup_end(s.collected, t) {
            Some(k) => if k > 0 {
                let m = RawView {
                    intercept: None,
                    collected: Seq::empty(),
                    content: s.collected.skip(k),
                    ..markup_passed(s, s.collected.take(k))
                };
                match first_opening(m.content) {
                    Some((i, which)) => resumed(collecting(m, i, triggers()[which])),
                    None => RawView { content: Seq::empty(), ..spoken(m, m.content) },
                }
            } else {
                s
            },
            None => s,
        },
        None => s,
    }
}

#[via_fn]
proof fn resumed_decreases(s: RawView) {
    if let Some(t) = s.intercept {
        lemma_markup_end(s.collected, t);
        if let Some(k) = markup_end(s.collected, t) {
            lemma_opening_among(s.collected.skip(k), triggers().len() as int);
        }
    }
}

/// Markup ends in what has been collected.
pub proof fn lemma_markup_end(collected: Seq<char>, t: (Seq<char>, Seq<char>))
    ensures
        markup_end(collected, t) matches Some(k) ==> 0 <= k <= collected.len(),
{
    text::lemma_find_from(collected, t.1, t.0.len() as int);
}

/// With a piece of content taken in while no markup is collected.
pub open spec fn plain_more(s: RawView, t: Seq<char>) -> RawView {
    let all = RawView { content: s.content + t, ..s };
    let n = text::byte_len(all.content);
    match first_opening(all.content) {
        Some((i, which)) => resumed(collecting(all, i, triggers()[which])),
        None => if n > HOLD_BACK {
            let k = text::chars_within(all.content, n - HOLD_BACK) as int;
            RawView { content: all.content.skip(k), ..spoken(all, all.content.take(k)) }
        } else {
            all
        },
    }
}

/// With a piece of content taken in.
pub open spec fn content_passed(s: RawView, t: Seq<char>) -> RawView {
    if t.len() == 0 {
        s
    } else if s.intercept is Some {
        resumed(RawView { collected: s.collected + t, ..s })
    } else {
        plain_more(s, t)
    }
}

/// With a piece of reasoning taken in.
pub open spec fn reasoning_passed(s: RawView, t: Seq<char>) -> RawView {
    if t.len() == 0 {
        s
    } else {
        RawView {
            thinking: true,
            ..put_out(s, RawPieceView::Reasoning { opens: !s.thinking, text: t })
        }
    }
}

/// With what has been collected passed on, complete or not.
pub open spec fn collected_passed(s: RawView) -> RawView {
    if s.intercept is Some {
        RawView {
            intercept: None,
            collected: Seq::empty(),
            ..markup_passed(s, s.collected)
        }
    } else {
        s
    }
}

/// With the end of the stream taken in: what is collected or held back is
/// passed on, and the thinking ended where it is still open.
pub open spec fn done_passed(s: RawView) -> RawView {
    let a = collected_passed(s);
    let b = RawView { content: Seq::empty(), ..spoken(a, a.content) };
    put_out(unthought(b), RawPieceView::Done)
}

/// The delta of the first choice of a chunk.
pub open spec fn delta_in(data: Seq<char>) -> Option<Seq<char>> {
    json::member_of(json::first_of(json::json_member(data, "choices"@)), "delta"@)
}

pub open spec fn or_empty(t: Option<Seq<char>>) -> Seq<char> {
    match t {
        Some(s) => s,
        None => Seq::empty(),
    }
}

/// The string member `key` of a delta; empty where there is none.
pub open spec fn delta_text(delta: Option<Seq<char>>, key: Seq<char>) -> Seq<char> {
    or_empty(json::string_of(json::member_of(delta, key)))
}

/// What a delta says in reasoning.
pub open spec fn reasoning_in(delta: Option<Seq<char>>) -> Seq<char> {
    delta_text(delta, "reasoning"@) + delta_text(delta, "reasoning_content"@)
}

/// Whether a delta carries native tool calls.
pub open spec fn has_calls(delta: Option<Seq<char>>) -> bool {
    match json::member_of(delta, "tool_calls"@) {
        Some(v) => json::json_items(v) matches Some(items) && items.len() > 0,
        None => false,
    }
}

/// The kinds of a line of a stream, trimmed.
pub ghost enum RawLine {
    /// An empty line.
    Blank,
    /// The end of the stream.
    Done,
    /// A chunk: what it says in reasoning and in content, and whether it
    /// carries native tool calls.
    Chunk { reasoning: Seq<char>, calls: bool, content: Seq<char> },
    /// Anything else.
    Other,
}

/// What a trimmed line is.
pub open spec fn raw_line(trimmed: Seq<char>) -> RawLine {
    if trimmed.len() == 0 {
        RawLine::Blank
    } else if !text::begins(trimmed, "data: "@) {
        RawLine::Other
    } else {
        let data = text::trim(trimmed.skip(6));
        if data == "[DONE]"@ {
            RawLine::Done
        } else if json::json_doc(data) is None {
            RawLine::Other
        } else {
            let delta = delta_in(data);
            RawLine::Chunk {
                reasoning: reasoning_in(delta),
                calls: has_calls(delta),
                content: delta_text(delta, "content"@),
            }
        }
    }
}

/// With a trimmed line taken in that is `line`.
pub open spec fn line_as(s: RawView, trimmed: Seq<char>, line: RawLine) -> RawView {
    match line {
        RawLine::Blank => put_out(s, RawPieceView::Line(seq!['\n'])),
        RawLine::Done => done_passed(s),
        RawLine::Other => put_out(s, RawPieceView::Line(trimmed + seq!['\n'])),
        RawLine::Chunk { reasoning, calls, content } => {
            let r = reasoning_passed(s, reasoning);
            if calls {
                put_out(unthought(r), RawPieceView::Native(trimmed + seq!['\n']))
            } else {
                content_passed(r, content)
            }
        },
    }
}

/// With a line taken in.
pub open spec fn line_passed(s: RawView, line: Seq<char>) -> RawView {
    line_as(s, text::trim(line), raw_line(text::trim(line)))
}

/// With lines taken in one after the other.
pub open spec fn lines_passed(s: RawView, lines: Seq<Seq<char>>) -> RawView
    decreases lines.len(),
{
    if lines.len() == 0 {
        s
    } else {
        line_passed(lines_passed(s, lines.drop_last()), lines.last())
    }
}

/// With a piece of the stream taken in: its complete lines are passed on, the
/// rest waits for more.
pub open spec fn text_passed(s: RawView, t: Seq<char>) -> RawView {
    let all = s.line + t;
    lines_passed(RawView { line: text::unfinished(all), ..s }, text::ready_lines(all))
}

// ---------------------------------------------------------------------------
// The passthrough
// ---------------------------------------------------------------------------

/// Passes an OpenAI stream on to an OpenAI client.
pub struct RawForwarder {
    thinking: bool,
    line: String,
    content: String,
    intercept: Option<(String, String)>,
    collected: String,
    pending: Vec<RawPiece>,
    sent: Ghost<Seq<RawPieceView>>,
}

impl View for RawForwarder {
    type V = RawView;

    closed spec fn view(&self) -> RawView {
        RawView {
            thinking: self.thinking,
            line: self.line@,
            content: self.content@,
            intercept: match self.intercept {
                Some(t) => Some((t.0@, t.1@)),
                None => None,
            },
            collected: self.collected@,
            out: self.sent@ + raw_views(self.pending@),
            taken: self.sent@.len(),
        }
    }
}

/// The string member `key` of a delta; empty where there is none.
pub fn text_of_delta(delta: &Option<Json>, key: &str) -> (r: String)
    ensures
        r@ == delta_text(json::opt_view(*delta), key@),
{
    match json::str_of(&json::get_of(delta, key)) {
        Some(s) => s,
        None => String::new(),
    }
}

fn carries_calls(delta: &Option<Json>) -> (r: bool)
    ensures
        r == has_calls(json::opt_view(*delta)),
{
    match json::get_of(delta, "tool_calls") {
        Some(v) => match v.items() {
            Some(items) => {
                assert(text::views(items@).len() == items@.len());
                items.len() > 0
            },
            None => false,
        },
        None => false,
    }
}

impl RawForwarder {
    pub fn new() -> (r: RawForwarder)
        ensures
            r@ == fresh(),
    {
        let r = RawForwarder {
            thinking: false,
            line: String::new(),
            content: String::new(),
            intercept: None,
            collected: String::new(),
            pending: Vec::new(),
            sent: Ghost(Seq::empty()),
        };
        assert(r@ =~= fresh());
        r
    }

    /// Takes out what has not been taken yet, written for the wire.
    pub fn take_output(&mut self) -> (r: String)
        ensures
            final(self)@ == (RawView { taken: old(self)@.out.len(), ..old(self)@ }),
            is_pieces_text(old(self)@.out.skip(old(self)@.taken as int), r@),
    {
        let mut batch: Vec<RawPiece> = Vec::new();
        std::mem::swap(&mut batch, &mut self.pending);
        let ghost before = self.sent@;
        let ghost views = raw_views(batch@);
        let ghost mut ids: Seq<Seq<char>> = Seq::empty();
        let mut r = String::new();
        let mut i: usize = 0;
        assert(views.take(0) =~= Seq::<RawPieceView>::empty());
        while i < batch.len()
            invariant
                i <= batch@.len(),
                views == raw_views(batch@),
                ids.len() == i,
                forall|j: int| 0 <= j < ids.len() ==> fallback::is_tool_id(#[trigger] ids[j]),
                r@ == pieces_text(views.take(i as int), ids),
            decreases batch.len() - i,
        {
            let id = fallback::gen_tool_id();
            let ghost earlier = ids;
            proof {
                ids = ids.push(id@);
                assert(views.take(i + 1).drop_last() =~= views.take(i as int));
                lemma_ids(views.take(i as int), earlier, ids);
            }
            r.append(batch[i].encode_with(id.as_str()).as_str());
            i = i + 1;
        }
        self.sent = Ghost(before + views);
        assert(views.take(views.len() as int) =~= views);
        assert(old(self)@.out.skip(old(self)@.taken as int) =~= views);
        assert(self@ =~= RawView { taken: old(self)@.out.len(), ..old(self)@ });
        r
    }

    fn put(&mut self, p: RawPiece)
        ensures
            final(self)@ == put_out(old(self)@, p@),
    {
        self.pending.push(p);
        assert(self@ =~= put_out(old(self)@, p@));
    }

    fn speak(&mut self, t: &str)
        ensures
            final(self)@ == spoken(old(self)@, t@),
    {
        if t.is_empty() {
            return ;
        }
        let closes = self.thinking;
        self.put(RawPiece::Content { closes, text: t.to_owned() });
        self.thinking = false;
        assert(self@ =~= spoken(old(self)@, t@));
    }

    fn end_thinking(&mut self)
        ensures
            final(self)@ == unthought(old(self)@),
    {
        if self.thinking {
            let nothing = String::new();
            assert(nothing@ =~= Seq::<char>::empty());
            self.put(RawPiece::Content { closes: true, text: nothing });
            self.thinking = false;
            assert(self@ =~= unthought(old(self)@));
        }
    }

    fn collect_from(&mut self, i: usize, t: (String, String))
        requires
            i <= old(self)@.content.len(),
        ensures
            final(self)@ == collecting(old(self)@, i as int, (t.0@, t.1@)),
    {
        let before = text::head(self.content.as_str(), i);
        let markup = text::tail(self.content.as_str(), i);
        self.speak(before.as_str());
        self.intercept = Some(t);
        self.collected = markup;
        self.content = String::new();
        assert(self@ =~= collecting(old(self)@, i as int, (t.0@, t.1@)));
    }

    /// Passes markup on as the call of `name` that was read from it, or else as
    /// content.
    pub fn handle_markup(&mut self, markup: &str, name: String, args: String)
        ensures
            final(self)@ == markup_passed_as(old(self)@, markup@, name@, args@),
    {
        if !text::same(name.as_str(), fallback::UNKNOWN) {
            self.end_thinking();
            self.put(RawPiece::Call { name, args, markup: markup.to_owned() });
        } else {
            self.speak(markup);
        }
    }

    fn pass_markup(&mut self, markup: &str)
        ensures
            final(self)@ == markup_passed(old(self)@, markup@),
    {
        let (name, args) = fallback::parse_fallback_tool(markup, &ToolTable::new());
        self.handle_markup(markup, name, args.text);
    }

    fn resume(&mut self)
        ensures
            final(self)@ == resumed(old(self)@),
    {
        let mut going = true;
        while going
            invariant
                going ==> resumed(old(self)@) == resumed(self@),
                !going ==> resumed(old(self)@) == self@,
            decreases
                    self@.collected.len(),
                    (if going {
                        1int
                    } else {
                        0
                    }),
        {
            let ghost before = self@;
            let end: Option<usize> = match &self.intercept {
                Some(t) => {
                    proof {
                        lemma_markup_end(before.collected, (t.0@, t.1@));
                    }
                    match text::find_text_from(
                        self.collected.as_str(),
                        t.1.as_str(),
                        t.0.as_str().unicode_len(),
                    ) {
                        Some(i) => Some(i + t.1.as_str().unicode_len()),
                        None => None,
                    }
                },
                None => None,
            };
            let k: usize = match end {
                Some(k) => k,
                None => 0,
            };
            if k == 0 {
                going = false;
            } else {
                let markup = text::head(self.collected.as_str(), k);
                let rest = text::tail(self.collected.as_str(), k);
                self.pass_markup(markup.as_str());
                let ghost passed = self@;
                self.intercept = None;
                self.collected = String::new();
                self.content = rest;
                let ghost m = self@;
                assert(m =~= RawView {
                    intercept: None,
                    collected: Seq::empty(),
                    content: before.collected.skip(k as int),
                    ..passed
                });
                match find_first_opening(self.content.as_str()) {
                    Some((i, t)) => {
                        self.collect_from(i, t);
                        assert(resumed(before) == resumed(self@));
                    },
                    None => {
                        let flush = self.content.clone();
                        self.speak(flush.as_str());
                        self.content = String::new();
                        assert(self@ =~= RawView {
                            content: Seq::empty(),
                            ..spoken(m, m.content)
                        });
                        going = false;
                    },
                }
            }
        }
    }

    fn plain_more(&mut self, t: &str)
        requires
            old(self)@.intercept is None,
        ensures
            final(self)@ == plain_more(old(self)@, t@),
    {
        self.content.append(t);
        let ghost all = self@;
        assert(all =~= RawView { content: old(self)@.content + t@, ..old(self)@ });
        match find_first_opening(self.content.as_str()) {
            Some((i, t)) => {
                self.collect_from(i, t);
                self.resume();
            },
            None => {
                let n = text::byte_length(self.content.as_str());
                if n > HOLD_BACK {
                    let k = text::count_within(self.content.as_str(), n - HOLD_BACK);
                    let ready = text::head(self.content.as_str(), k);
                    let kept = text::tail(self.content.as_str(), k);
                    self.speak(ready.as_str());
                    self.content = kept;
                    assert(self@ =~= plain_more(old(self)@, t@));
                }
            },
        }
    }

    fn pass_content(&mut self, t: &str)
        ensures
            final(self)@ == content_passed(old(self)@, t@),
    {
        if t.is_empty() {
            return ;
        }
        if self.intercept.is_some() {
            self.collected.append(t);
            assert(self@ =~= RawView {
                collected: old(self)@.collected + t@,
                ..old(self)@
            });
            self.resume();
        } else {
            self.plain_more(t);
        }
    }

    fn pass_reasoning(&mut self, t: &str)
        ensures
            final(self)@ == reasoning_passed(old(self)@, t@),
    {
        if t.is_empty() {
            return ;
        }
        let opens = !self.thinking;
        self.put(RawPiece::Reasoning { opens, text: t.to_owned() });
        self.thinking = true;
        assert(self@ =~= reasoning_passed(old(self)@, t@));
    }

    fn pass_collected(&mut self)
        ensures
            final(self)@ == collected_passed(old(self)@),
    {
        if self.intercept.is_some() {
            let markup = self.collected.clone();
            self.pass_markup(markup.as_str());
            let ghost p = self@;
            self.intercept = None;
            self.collected = String::new();
            assert(self@ =~= RawView { intercept: None, collected: Seq::empty(), ..p });
        }
    }

    fn pass_done(&mut self)
        ensures
            final(self)@ == done_passed(old(self)@),
    {
        self.pass_collected();
        let ghost a = self@;
        let flush = self.content.clone();
        self.speak(flush.as_str());
        self.content = String::new();
        assert(self@ =~= RawView { content: Seq::empty(), ..spoken(a, a.content) });
        self.end_thinking();
        self.put(RawPiece::Done);
    }

    fn pass_unchanged(&mut self, trimmed: &str)
        ensures
            final(self)@ == put_out(old(self)@, RawPieceView::Line(trimmed@ + seq!['\n'])),
    {
        let mut line = trimmed.to_owned();
        line.push('\n');
        assert(line@ =~= trimmed@ + seq!['\n']);
        self.put(RawPiece::Line(line));
    }

    /// Takes in a chunk that a trimmed line carries: what it says in reasoning
    /// and in content, and whether it carries native tool calls.
    pub fn handle_chunk(&mut self, trimmed: &str, reasoning: &str, calls: bool, content: &str)
        ensures
            final(self)@ == line_as(
                old(self)@,
                trimmed@,
                (RawLine::Chunk { reasoning: reasoning@, calls, content: content@ }),
            ),
    {
        self.pass_reasoning(reasoning);
        if calls {
            self.end_thinking();
            let mut line = trimmed.to_owned();
            line.push('\n');
            assert(line@ =~= trimmed@ + seq!['\n']);
            self.put(RawPiece::Native(line));
        } else {
            self.pass_content(content);
        }
    }

    /// Takes in a line.
    pub fn handle_line(&mut self, line: &str)
        ensures
            final(self)@ == line_passed(old(self)@, line@),
    {
        let t = text::trimmed(line);
        let trimmed = t.as_str();
        if trimmed.is_empty() {
            self.pass_unchanged("");
            proof {
                reveal_strlit("");
                assert(""@ + seq!['\n'] =~= seq!['\n']);
            }
            return ;
        }
        if !text::begins_with(trimmed, "data: ") {
            self.pass_unchanged(trimmed);
            return ;
        }
        proof {
            reveal_strlit("data: ");
        }
        let data = text::trimmed(text::tail(trimmed, 6).as_str());
        if text::same(data.as_str(), "[DONE]") {
            self.pass_done();
            return ;
        }
        if Json::parse(data.as_str()).is_none() {
            self.pass_unchanged(trimmed);
            return ;
        }
        let parsed = Json { text: data };
        let delta = json::get_of(&json::first_item_of(parsed.get("choices")), "delta");
        let reasoning = text::cat(
            text_of_delta(&delta, "reasoning").as_str(),
            text_of_delta(&delta, "reasoning_content").as_str(),
        );
        let calls = carries_calls(&delta);
        let content = text_of_delta(&delta, "content");
        self.handle_chunk(trimmed, reasoning.as_str(), calls, content.as_str());
    }

    /// Takes in a piece of the stream.
    pub fn handle_text(&mut self, t: &str)
        ensures
            final(self)@ == text_passed(old(self)@, t@),
    {
        let all = text::cat(self.line.as_str(), t);
        let (lines, rest) = text::split_ready(all.as_str());
        self.line = rest;
        let ghost start = self@;
        let ghost views = text::views(lines@);
        assert(start =~= RawView { line: text::unfinished(all@), ..old(self)@ });
        let mut i: usize = 0;
        assert(views.take(0) =~= Seq::<Seq<char>>::empty());
        while i < lines.len()
            invariant
                i <= lines@.len(),
                views == text::views(lines@),
                self@ == lines_passed(start, views.take(i as int)),
            decreases lines.len() - i,
        {
            assert(views.take(i + 1).drop_last() =~= views.take(i as int));
            assert(views.take(i + 1).last() == lines@[i as int]@);
            self.handle_line(lines[i].as_str());
            i = i + 1;
        }
        assert(views.take(views.len() as int) =~= views);
    }

    /// Takes in bytes of the stream.
    pub fn handle_bytes(&mut self, bytes: &Vec<u8>)
        ensures
            final(self)@ == text_passed(old(self)@, text::utf8_lossy(bytes@)),
    {
        let t = text::lossy_text(bytes);
        self.handle_text(t.as_str());
    }
}

/// Only the identifiers of the pieces matter.
proof fn lemma_ids(pieces: Seq<RawPieceView>, a: Seq<Seq<char>>, b: Seq<Seq<char>>)
    requires
        pieces.len() <= a.len(),
        pieces.len() <= b.len(),
        forall|i: int| 0 <= i < pieces.len() ==> a[i] == b[i],
    ensures
        pieces_text(pieces, a) == pieces_text(pieces, b),
    decreases pieces.len(),
{
    if pieces.len() > 0 {
        lemma_ids(pieces.drop_last(), a, b);
    }
}

// ---------------------------------------------------------------------------
// Laws
// ---------------------------------------------------------------------------

/// While markup is collected no content is held back, and while none is nothing
/// is collected.
pub open spec fn sound(s: RawView) -> bool {
    if s.intercept is Some {
        s.content.len() == 0
    } else {
        s.collected.len() == 0
    }
}

/// The content of the stream that the pieces carry, as text or as tool calls,
/// one after the other.
pub open spec fn carried(out: Seq<RawPieceView>) -> Seq<char>
    decreases out.len(),
{
    if out.len() == 0 {
        Seq::empty()
    } else {
        carried(out.drop_last()) + match out.last() {
            RawPieceView::Content { text, .. } => text,
            RawPieceView::Call { markup, .. } => markup,
            _ => Seq::empty(),
        }
    }
}

/// The reasoning of the stream that the pieces carry, one after the other.
pub open spec fn thought(out: Seq<RawPieceView>) -> Seq<char>
    decreases out.len(),
{
    if out.len() == 0 {
        Seq::empty()
    } else {
        thought(out.drop_last()) + match out.last() {
            RawPieceView::Reasoning { text, .. } => text,
            _ => Seq::empty(),
        }
    }
}

/// Whether the pieces end inside the thinking; `None` where they do not open
/// and close it in turn, or where content, a tool call or the end of the stream
/// stands inside it.
pub open spec fn inside(out: Seq<RawPieceView>) -> Option<bool>
    decreases out.len(),
{
    if out.len() == 0 {
        Some(false)
    } else {
        match inside(out.drop_last()) {
            Some(within) => match out.last() {
                RawPieceView::Line(_) => Some(within),
                RawPieceView::Reasoning { opens, .. } => if opens != within {
                    Some(true)
                } else {
                    None
                },
                RawPieceView::Content { closes, .. } => if closes == within {
                    Some(false)
                } else {
                    None
                },
                _ => if within {
                    None
                } else {
                    Some(false)
                },
            },
            None => None,
        }
    }
}

/// What is known of a passthrough at any time: it is sound, and its pieces put
/// reasoning between `<thinking>` tags.
pub open spec fn orderly(s: RawView) -> bool {
    sound(s) && inside(s.out) == Some(s.thinking)
}

/// All content that has come: what the pieces carry and what is held back.
pub open spec fn all_content(s: RawView) -> Seq<char> {
    carried(s.out) + s.content + s.collected
}

/// `b` comes after `a`: every piece of `a` is in its place.
pub open spec fn extends(a: RawView, b: RawView) -> bool {
    &&& b.taken == a.taken
    &&& a.out.len() <= b.out.len()
    &&& b.out.take(a.out.len() as int) == a.out
}

proof fn lemma_put(s: RawView, p: RawPieceView)
    ensures
        extends(s, put_out(s, p)),
        extends(s, s),
        carried(put_out(s, p).out) == carried(s.out) + (match p {
            RawPieceView::Content { text, .. } => text,
            RawPieceView::Call { markup, .. } => markup,
            _ => Seq::empty(),
        }),
        thought(put_out(s, p).out) == thought(s.out) + (match p {
            RawPieceView::Reasoning { text, .. } => text,
            _ => Seq::empty(),
        }),
        inside(s.out) matches Some(within) ==> inside(put_out(s, p).out) == (match p {
            RawPieceView::Line(_) => Some(within),
            RawPieceView::Reasoning { opens, .. } => if opens != within {
                Some(true)
            } else {
                None
            },
            RawPieceView::Content { closes, .. } => if closes == within {
                Some(false)
            } else {
                None
            },
            _ => if within {
                None
            } else {
                Some(false)
            },
        }),
{
    assert(put_out(s, p).out.take(s.out.len() as int) =~= s.out);
    assert(s.out.take(s.out.len() as int) =~= s.out);
    assert(put_out(s, p).out.drop_last() =~= s.out);
}

proof fn lemma_extends_trans(a: RawView, b: RawView, c: RawView)
    requires
        extends(a, b),
        extends(b, c),
    ensures
        extends(a, c),
{
    assert(c.out.take(a.out.len() as int) =~= c.out.take(b.out.len() as int).take(
        a.out.len() as int,
    ));
}

/// What a step of a passthrough keeps.
pub open spec fn step(a: RawView, b: RawView) -> bool {
    &&& extends(a, b)
    &&& inside(a.out) == Some(a.thinking) ==> inside(b.out) == Some(b.thinking)
}

proof fn lemma_step_trans(a: RawView, b: RawView, c: RawView)
    requires
        step(a, b),
        step(b, c),
    ensures
        step(a, c),
{
    lemma_extends_trans(a, b, c);
}

proof fn lemma_spoken(s: RawView, t: Seq<char>)
    ensures
        step(s, spoken(s, t)),
        carried(spoken(s, t).out) == carried(s.out) + t,
        thought(spoken(s, t).out) == thought(s.out),
        t.len() > 0 ==> !spoken(s, t).thinking,
{
    lemma_put(s, RawPieceView::Content { closes: s.thinking, text: t });
    assert(thought(s.out) + Seq::<char>::empty() =~= thought(s.out));
    if t.len() == 0 {
        assert(carried(s.out) + t =~= carried(s.out));
    }
}

proof fn lemma_unthought(s: RawView)
    ensures
        step(s, unthought(s)),
        carried(unthought(s).out) == carried(s.out),
        thought(unthought(s).out) == thought(s.out),
        !unthought(s).thinking,
{
    lemma_put(s, RawPieceView::Content { closes: true, text: Seq::empty() });
    assert(thought(s.out) + Seq::<char>::empty() =~= thought(s.out));
    assert(carried(s.out) + Seq::<char>::empty() =~= carried(s.out));
}

proof fn lemma_markup_passed(s: RawView, markup: Seq<char>)
    ensures
        step(s, markup_passed(s, markup)),
        carried(markup_passed(s, markup).out) == carried(s.out) + markup,
        thought(markup_passed(s, markup).out) == thought(s.out),
{
    let (name, args) = fallback::fallback_call(markup, Seq::<ToolEntry>::empty());
    let u = unthought(s);
    lemma_unthought(s);
    lemma_put(u, RawPieceView::Call { name, args, markup });
    assert(thought(s.out) + Seq::<char>::empty() =~= thought(s.out));
    lemma_extends_trans(s, u, put_out(u, RawPieceView::Call { name, args, markup }));
    lemma_spoken(s, markup);
}

proof fn lemma_collecting(s: RawView, i: int, t: (Seq<char>, Seq<char>))
    requires
        0 <= i <= s.content.len(),
    ensures
        step(s, collecting(s, i, t)),
        sound(collecting(s, i, t)),
        carried(collecting(s, i, t).out) + collecting(s, i, t).collected == carried(s.out)
            + s.content,
        thought(collecting(s, i, t).out) == thought(s.out),
{
    lemma_spoken(s, s.content.take(i));
    assert(carried(s.out) + s.content.take(i) + s.content.skip(i) =~= carried(s.out) + s.content);
}

proof fn lemma_resumed(s: RawView)
    requires
        s.intercept is Some,
        sound(s),
    ensures
        step(s, resumed(s)),
        sound(resumed(s)),
        all_content(resumed(s)) == all_content(s),
        thought(resumed(s).out) == thought(s.out),
    decreases s.collected.len(),
{
    let t = s.intercept->0;
    lemma_put(s, RawPieceView::Done);
    lemma_markup_end(s.collected, t);
    if let Some(k) = markup_end(s.collected, t) {
        if k > 0 {
            let p = markup_passed(s, s.collected.take(k));
            lemma_markup_passed(s, s.collected.take(k));
            let m = RawView {
                intercept: None,
                collected: Seq::empty(),
                content: s.collected.skip(k),
                ..p
            };
            assert(step(s, m));
            assert(carried(s.out) + s.collected.take(k) + s.collected.skip(k) =~= carried(s.out)
                + s.collected);
            assert(carried(m.out) + m.content == carried(s.out) + s.collected);
            assert(all_content(s) =~= carried(s.out) + s.collected);
            lemma_opening_among(m.content, triggers().len() as int);
            match first_opening(m.content) {
                Some((i, which)) => {
                    let c = collecting(m, i, triggers()[which]);
                    lemma_collecting(m, i, triggers()[which]);
                    lemma_step_trans(s, m, c);
                    lemma_resumed(c);
                    lemma_step_trans(s, c, resumed(c));
                    assert(all_content(c) =~= carried(c.out) + c.collected);
                    assert(resumed(s) == resumed(c));
                },
                None => {
                    let r = resumed(s);
                    lemma_spoken(m, m.content);
                    lemma_step_trans(s, m, spoken(m, m.content));
                    assert(r == RawView { content: Seq::empty(), ..spoken(m, m.content) });
                    assert(all_content(r) =~= carried(r.out));
                },
            }
        }
    }
}

/// Taking in a piece of content loses none of it and changes none of it, keeps
/// the reasoning between its tags, and takes nothing back.
pub proof fn law_content_kept(s: RawView, t: Seq<char>)
    requires
        sound(s),
    ensures
        ({
            let r = content_passed(s, t);
            &&& step(s, r)
            &&& sound(r)
            &&& all_content(r) == all_content(s) + t
            &&& thought(r.out) == thought(s.out)
        }),
{
    lemma_put(s, RawPieceView::Done);
    let r = content_passed(s, t);
    if t.len() == 0 {
        assert(all_content(s) + t =~= all_content(s));
    } else if s.intercept is Some {
        let x = RawView { collected: s.collected + t, ..s };
        lemma_resumed(x);
        assert(all_content(x) =~= all_content(s) + t);
        lemma_step_trans(s, x, r);
    } else {
        let all = RawView { content: s.content + t, ..s };
        let n = text::byte_len(all.content);
        assert(all_content(s) + t =~= carried(s.out) + all.content);
        lemma_opening_among(all.content, triggers().len() as int);
        match first_opening(all.content) {
            Some((i, which)) => {
                let c = collecting(all, i, triggers()[which]);
                lemma_collecting(all, i, triggers()[which]);
                lemma_resumed(c);
                assert(all_content(c) =~= carried(c.out) + c.collected);
                lemma_step_trans(s, c, r);
            },
            None => {
                if n > HOLD_BACK {
                    let k = text::chars_within(all.content, n - HOLD_BACK) as int;
                    text::lemma_chars_within(all.content, n - HOLD_BACK);
                    lemma_spoken(all, all.content.take(k));
                    assert(all_content(r) =~= carried(s.out) + all.content.take(k)
                        + all.content.skip(k));
                }
                assert(all_content(r) =~= carried(s.out) + all.content);
            },
        }
    }
}

/// Taking in a piece of reasoning puts it between the tags, and takes nothing
/// back.
pub proof fn law_reasoning_kept(s: RawView, t: Seq<char>)
    ensures
        ({
            let r = reasoning_passed(s, t);
            &&& step(s, r)
            &&& sound(s) ==> sound(r)
            &&& all_content(r) == all_content(s)
            &&& thought(r.out) == thought(s.out) + t
        }),
{
    lemma_put(s, RawPieceView::Reasoning { opens: !s.thinking, text: t });
    assert(carried(s.out) + Seq::<char>::empty() =~= carried(s.out));
    if t.len() == 0 {
        assert(thought(s.out) + t =~= thought(s.out));
    }
}

/// At the end of the stream nothing is lost: all content that has come has been
/// passed on, nothing is collected or held back any more, the thinking has
/// ended, and the end comes last.
pub proof fn law_nothing_lost(s: RawView)
    requires
        sound(s),
    ensures
        ({
            let r = done_passed(s);
            &&& step(s, r)
            &&& carried(r.out) == all_content(s)
            &&& r.content.len() == 0
            &&& r.collected.len() == 0
            &&& r.intercept is None
            &&& !r.thinking
            &&& thought(r.out) == thought(s.out)
            &&& r.out.last() == RawPieceView::Done
        }),
{
    lemma_put(s, RawPieceView::Done);
    lemma_markup_passed(s, s.collected);
    let a = collected_passed(s);
    assert(step(s, a));
    assert(carried(a.out) + a.content =~= all_content(s));
    let b = RawView { content: Seq::empty(), ..spoken(a, a.content) };
    lemma_spoken(a, a.content);
    lemma_step_trans(s, a, b);
    let u = unthought(b);
    lemma_unthought(b);
    lemma_step_trans(s, b, u);
    lemma_put(u, RawPieceView::Done);
    lemma_step_trans(s, u, done_passed(s));
    assert(carried(u.out) + Seq::<char>::empty() =~= carried(u.out));
    assert(thought(u.out) + Seq::<char>::empty() =~= thought(u.out));
}

/// At the end of the stream the content that is held back is said, after the
/// end of the thinking where that is open; the thinking is ended on its own only
/// where there is nothing to say.
pub proof fn law_done_passed(s: RawView)
    requires
        s.intercept is None,
    ensures
        done_passed(s).out == s.out + (if s.content.len() > 0 {
            seq![RawPieceView::Content { closes: s.thinking, text: s.content }]
        } else if s.thinking {
            seq![RawPieceView::Content { closes: true, text: Seq::empty() }]
        } else {
            Seq::empty()
        }) + seq![RawPieceView::Done],
{
    let r = done_passed(s);
    if s.content.len() > 0 {
        assert(r.out =~= s.out + seq![
            RawPieceView::Content { closes: s.thinking, text: s.content },
        ] + seq![RawPieceView::Done]);
    } else if s.thinking {
        assert(r.out =~= s.out + seq![
            RawPieceView::Content { closes: true, text: Seq::empty() },
        ] + seq![RawPieceView::Done]);
    } else {
        assert(r.out =~= s.out + Seq::<RawPieceView>::empty() + seq![RawPieceView::Done]);
    }
}

proof fn lemma_line_passed(s: RawView, line: Seq<char>)
    requires
        sound(s),
    ensures
        sound(line_passed(s, line)),
        step(s, line_passed(s, line)),
{
    let trimmed = text::trim(line);
    lemma_put(s, RawPieceView::Line(seq!['\n']));
    lemma_put(s, RawPieceView::Line(trimmed + seq!['\n']));
    match raw_line(trimmed) {
        RawLine::Chunk { reasoning, calls, content } => {
            let r = reasoning_passed(s, reasoning);
            law_reasoning_kept(s, reasoning);
            if calls {
                let u = unthought(r);
                let p = RawPieceView::Native(trimmed + seq!['\n']);
                lemma_unthought(r);
                lemma_put(u, p);
                lemma_step_trans(s, r, u);
                lemma_step_trans(s, u, put_out(u, p));
            } else {
                law_content_kept(r, content);
                lemma_step_trans(s, r, content_passed(r, content));
            }
        },
        RawLine::Done => {
            law_nothing_lost(s);
        },
        _ => {},
    }
}

proof fn lemma_lines_passed(s: RawView, lines: Seq<Seq<char>>)
    requires
        sound(s),
    ensures
        sound(lines_passed(s, lines)),
        step(s, lines_passed(s, lines)),
    decreases lines.len(),
{
    if lines.len() == 0 {
        lemma_put(s, RawPieceView::Done);
    } else {
        let p = lines_passed(s, lines.drop_last());
        lemma_lines_passed(s, lines.drop_last());
        lemma_line_passed(p, lines.last());
        lemma_step_trans(s, p, lines_passed(s, lines));
    }
}

/// What has been passed on is not taken back; reasoning stands between
/// `<thinking>` tags, and no content, tool call or end of the stream does; while
/// markup is collected no content is held back.
pub proof fn law_text_passed(s: RawView, t: Seq<char>)
    requires
        orderly(s),
    ensures
        orderly(text_passed(s, t)),
        extends(s, text_passed(s, t)),
{
    let all = s.line + t;
    lemma_lines_passed(RawView { line: text::unfinished(all), ..s }, text::ready_lines(all));
}

/// A passthrough that has just started is orderly.
pub proof fn law_fresh()
    ensures
        orderly(fresh()),
{
}

/// Before native tool calls the thinking is ended.
pub proof fn law_native_calls(s: RawView, trimmed: Seq<char>, reasoning: Seq<char>)
    ensures
        ({
            let line = RawLine::Chunk { reasoning, calls: true, content: Seq::empty() };
            let r = line_as(s, trimmed, line);
            let p = reasoning_passed(s, reasoning);
            &&& !r.thinking
            &&& r.out == p.out + (if p.thinking {
                seq![RawPieceView::Content { closes: true, text: Seq::empty() }]
            } else {
                Seq::empty()
            }) + seq![RawPieceView::Native(trimmed + seq!['\n'])]
        }),
{
    let p = reasoning_passed(s, reasoning);
    let native = RawPieceView::Native(trimmed + seq!['\n']);
    assert(put_out(unthought(p), native).out =~= p.out + (if p.thinking {
        seq![RawPieceView::Content { closes: true, text: Seq::empty() }]
    } else {
        Seq::empty()
    }) + seq![native]);
}

proof fn lemma_lines_passed_concat(s: RawView, a: Seq<Seq<char>>, b: Seq<Seq<char>>)
    ensures
        lines_passed(s, a + b) == lines_passed(lines_passed(s, a), b),
    decreases b.len(),
{
    if b.len() == 0 {
        assert(a + b =~= a);
    } else {
        assert((a + b).drop_last() =~= a + b.drop_last());
        lemma_lines_passed_concat(s, a, b.drop_last());
    }
}

proof fn lemma_resumed_frame(s: RawView, l: Seq<char>)
    ensures
        resumed(RawView { line: l, ..s }) == (RawView { line: l, ..resumed(s) }),
    decreases s.collected.len(),
{
    let x = RawView { line: l, ..s };
    if let Some(t) = s.intercept {
        lemma_markup_end(s.collected, t);
        if let Some(k) = markup_end(s.collected, t) {
            if k > 0 {
                let m = RawView {
                    intercept: None,
                    collected: Seq::empty(),
                    content: s.collected.skip(k),
                    ..markup_passed(s, s.collected.take(k))
                };
                let mx = RawView {
                    intercept: None,
                    collected: Seq::empty(),
                    content: s.collected.skip(k),
                    ..markup_passed(x, s.collected.take(k))
                };
                assert(mx =~= RawView { line: l, ..m });
                lemma_opening_among(m.content, triggers().len() as int);
                match first_opening(m.content) {
                    Some((i, which)) => {
                        let c = collecting(m, i, triggers()[which]);
                        let cx = collecting(mx, i, triggers()[which]);
                        assert(cx =~= RawView { line: l, ..c });
                        lemma_resumed_frame(c, l);
                        assert(resumed(s) == resumed(c));
                        assert(resumed(x) == resumed(cx));
                    },
                    None => {
                        assert(resumed(x) =~= RawView { line: l, ..resumed(s) });
                    },
                }
            }
        }
    }
}

proof fn lemma_content_frame(s: RawView, t: Seq<char>, l: Seq<char>)
    ensures
        content_passed(RawView { line: l, ..s }, t) == (RawView {
            line: l,
            ..content_passed(s, t)
        }),
{
    let x = RawView { line: l, ..s };
    if t.len() > 0 {
        if s.intercept is Some {
            let a = RawView { collected: s.collected + t, ..s };
            lemma_resumed_frame(a, l);
            assert(RawView { collected: s.collected + t, ..x } =~= RawView { line: l, ..a });
        } else {
            let a = RawView { content: s.content + t, ..s };
            let ax = RawView { content: s.content + t, ..x };
            assert(ax =~= RawView { line: l, ..a });
            match first_opening(a.content) {
                Some((i, which)) => {
                    let c = collecting(a, i, triggers()[which]);
                    assert(collecting(ax, i, triggers()[which]) =~= RawView { line: l, ..c });
                    lemma_resumed_frame(c, l);
                },
                None => {
                    assert(content_passed(x, t) =~= RawView { line: l, ..content_passed(s, t) });
                },
            }
        }
    }
}

/// The line that waits does not matter for the lines that are passed.
proof fn lemma_line_frame(s: RawView, line: Seq<char>, l: Seq<char>)
    ensures
        line_passed(RawView { line: l, ..s }, line) == (RawView {
            line: l,
            ..line_passed(s, line)
        }),
{
    let trimmed = text::trim(line);
    let x = RawView { line: l, ..s };
    match raw_line(trimmed) {
        RawLine::Chunk { reasoning, calls, content } => {
            let rx = reasoning_passed(x, reasoning);
            let rs = reasoning_passed(s, reasoning);
            assert(rx =~= RawView { line: l, ..rs });
            if !calls {
                lemma_content_frame(rs, content, l);
            }
        },
        RawLine::Done => {
            let a = collected_passed(s);
            let ax = collected_passed(x);
            assert(ax =~= RawView { line: l, ..a });
        },
        _ => {},
    }
    assert(line_passed(x, line) =~= RawView { line: l, ..line_passed(s, line) });
}

proof fn lemma_lines_frame(s: RawView, lines: Seq<Seq<char>>, l: Seq<char>)
    ensures
        lines_passed(RawView { line: l, ..s }, lines) == (RawView {
            line: l,
            ..lines_passed(s, lines)
        }),
        lines_passed(s, lines).line == s.line,
    decreases lines.len(),
{
    if lines.len() == 0 {
    } else {
        lemma_lines_frame(s, lines.drop_last(), l);
        lemma_line_frame(lines_passed(s, lines.drop_last()), lines.last(), l);
        lemma_line_frame(lines_passed(s, lines.drop_last()), lines.last(), s.line);
        let p = lines_passed(s, lines.drop_last());
        assert(RawView { line: s.line, ..p } =~= p);
    }
}

/// How the stream is cut into pieces does not matter: two pieces one after the
/// other do what they do as one.
pub proof fn law_cut_does_not_matter(s: RawView, a: Seq<char>, b: Seq<char>)
    ensures
        text_passed(text_passed(s, a), b) == text_passed(s, a + b),
{
    let t = s.line + a;
    assert(s.line + (a + b) =~= t + b);
    text::law_ready_lines(t, b);
    let u = text::unfinished(t) + b;
    let first = RawView { line: text::unfinished(t), ..s };
    let p = lines_passed(first, text::ready_lines(t));
    lemma_lines_frame(first, text::ready_lines(t), text::unfinished(u));
    let last = RawView { line: text::unfinished(u), ..s };
    assert(RawView { line: text::unfinished(u), ..first } =~= last);
    assert(RawView { line: text::unfinished(u), ..p } == lines_passed(last, text::ready_lines(t)));
    lemma_lines_passed_concat(last, text::ready_lines(t), text::ready_lines(u));
}

/// Content in which, together with what is held back, no markup opens goes on
/// as content, and less than a character more than `HOLD_BACK` bytes are held
/// back.
pub proof fn law_plain_content_kept(s: RawView, t: Seq<char>)
    requires
        s.intercept is None,
        t.len() > 0,
        first_opening(s.content + t) is None,
    ensures
        ({
            let r = content_passed(s, t);
            &&& r.out == s.out || exists|x: Seq<char>|
                r.out == s.out.push(RawPieceView::Content { closes: s.thinking, text: x })
                    && #[trigger] (x + r.content) == s.content + t
            &&& r.out == s.out ==> r.content == s.content + t
            &&& r.intercept is None
            &&& text::byte_len(r.content) < HOLD_BACK + 4
        }),
{
    let all = s.content + t;
    let n = text::byte_len(all);
    let r = content_passed(s, t);
    if n > HOLD_BACK {
        let m = n - HOLD_BACK;
        let k = text::chars_within(all, m) as int;
        text::lemma_chars_within(all, m);
        assert(all =~= all.take(k) + all.skip(k));
        text::lemma_byte_len_concat(all.take(k), all.skip(k));
        if k > 0 {
            assert(r.out == s.out.push(
                RawPieceView::Content { closes: s.thinking, text: all.take(k) },
            ));
            assert(all.take(k) + r.content == s.content + t);
            assert(r.out.len() == s.out.len() + 1);
        } else {
            assert(all.skip(0) =~= all);
        }
    }
}

/// Nothing opens in an empty text.
proof fn lemma_nothing_opens()
    ensures
        first_opening(Seq::empty()) is None,
{
    reveal_strlit("<tool_call>");
    reveal_strlit("```json");
    reveal_strlit("```tool_call");
    reveal_strlit("<｜tool_calls｜>");
    reveal_strlit("<｜tool_call｜>");
    reveal_strlit("<invoke");
    reveal_strlit("<parameter");
    reveal_strlit("<｜invoke｜>");
    reveal_strlit("<｜parameter｜>");
    reveal_strlit("<DSML｜tool_name｜>");
    reveal_strlit("<DSML｜tool_calls｜>");
    reveal_strlit("<ツtool_callsツ>");
    reveal_strlit("<ツtool_callツ>");
    let none = Seq::<char>::empty();
    lemma_opening_among(none, triggers().len() as int);
    if let Some((i, k)) = first_opening(none) {
        assert(triggers()[k].0.len() > 0);
    }
}

/// Markup that is complete in what has been collected is passed on at once.
pub proof fn law_complete_markup_passed(s: RawView)
    requires
        s.intercept is Some,
        markup_end(s.collected, s.intercept->0) == Some(s.collected.len() as int),
        s.collected.len() > 0,
    ensures
        resumed(s) == (RawView {
            intercept: None,
            collected: Seq::empty(),
            content: Seq::empty(),
            ..markup_passed(s, s.collected)
        }),
{
    lemma_nothing_opens();
    let n = s.collected.len() as int;
    assert(s.collected.take(n) =~= s.collected);
    assert(s.collected.skip(n) =~= Seq::<char>::empty());
}

// ---------------------------------------------------------------------------
// Lines
// ---------------------------------------------------------------------------

/// The string under `key` in a delta; empty where there is none.
pub open spec fn string_under(delta: Seq<char>, key: Seq<char>) -> Seq<char> {
    match json::json_member(delta, key) {
        Some(v) => match json::json_string(v) {
            Some(t) => t,
            None => Seq::empty(),
        },
        None => Seq::empty(),
    }
}

/// Whether a delta has an array of tool calls that is not empty.
pub open spec fn calls_tools(delta: Seq<char>) -> bool {
    json::json_member(delta, "tool_calls"@) matches Some(v) && (json::json_items(v) matches Some(
        items,
    ) && items.len() > 0)
}

/// `line` carries the chunk `data`, whose first choice has the delta `delta`.
pub open spec fn carries(line: Seq<char>, data: Seq<char>, delta: Seq<char>) -> bool {
    &&& text::trim(line) == "data: "@ + data
    &&& text::trim(data) == data
    &&& data != "[DONE]"@
    &&& json::json_doc(data) is Some
    &&& json::json_member(data, "choices"@) matches Some(choices) && (json::json_items(
        choices,
    ) matches Some(items) && (items.len() > 0 && json::json_member(items[0], "delta"@) == Some(
        delta,
    )))
}

proof fn lemma_data_line(line: Seq<char>, data: Seq<char>)
    requires
        text::trim(line) == "data: "@ + data,
        text::trim(data) == data,
    ensures
        text::trim(line).len() > 0,
        text::begins(text::trim(line), "data: "@),
        text::trim(text::trim(line).skip(6)) == data,
{
    reveal_strlit("data: ");
    let t = text::trim(line);
    assert(t.subrange(0, 6) =~= "data: "@);
    assert(t.skip(6) =~= data);
}

/// A chunk adds to the reasoning what its delta has under `reasoning`, and after
/// it what it has under `reasoning_content`; to the content what it has under
/// `content`, unless it calls tools. A chunk that calls tools goes on as it is.
pub proof fn law_chunk_passed(s: RawView, line: Seq<char>, data: Seq<char>, delta: Seq<char>)
    requires
        sound(s),
        carries(line, data, delta),
    ensures
        ({
            let r = line_passed(s, line);
            &&& thought(r.out) == thought(s.out) + string_under(delta, "reasoning"@)
                + string_under(delta, "reasoning_content"@)
            &&& calls_tools(delta) ==> all_content(r) == all_content(s) && !r.thinking
                && r.out.last() == RawPieceView::Native(text::trim(line) + seq!['\n'])
            &&& !calls_tools(delta) ==> all_content(r) == all_content(s) + string_under(
                delta,
                "content"@,
            )
        }),
{
    let trimmed = text::trim(line);
    lemma_data_line(line, data);
    let reasoning = string_under(delta, "reasoning"@) + string_under(
        delta,
        "reasoning_content"@,
    );
    let content = string_under(delta, "content"@);
    assert(raw_line(trimmed) == RawLine::Chunk {
        reasoning,
        calls: calls_tools(delta),
        content,
    });
    law_reasoning_kept(s, reasoning);
    let p = reasoning_passed(s, reasoning);
    assert(thought(s.out) + reasoning =~= thought(s.out) + string_under(delta, "reasoning"@)
        + string_under(delta, "reasoning_content"@));
    if calls_tools(delta) {
        let u = unthought(p);
        let native = RawPieceView::Native(trimmed + seq!['\n']);
        lemma_unthought(p);
        lemma_put(u, native);
        assert(carried(u.out) + Seq::<char>::empty() =~= carried(u.out));
        assert(thought(u.out) + Seq::<char>::empty() =~= thought(u.out));
        assert(put_out(u, native).out.last() == native);
    } else {
        law_content_kept(p, content);
    }
}

/// Every other line changes nothing that is known of reasoning and content: an
/// empty one goes on as an empty one, the end of the stream as that, and one
/// that is no chunk as it is.
pub proof fn law_other_line_passed(s: RawView, line: Seq<char>)
    requires
        sound(s),
    ensures
        ({
            let t = text::trim(line);
            let r = line_passed(s, line);
            &&& t.len() == 0 ==> r.out == s.out.push(RawPieceView::Line(seq!['\n']))
            &&& t.len() > 0 && !text::begins(t, "data: "@) ==> r.out == s.out.push(
                RawPieceView::Line(t + seq!['\n']),
            )
            &&& t == "data: [DONE]"@ ==> r.out.last() == RawPieceView::Done && carried(r.out)
                == all_content(s) && !r.thinking
        }),
{
    let t = text::trim(line);
    if t == "data: [DONE]"@ {
        reveal_strlit("data: [DONE]");
        reveal_strlit("data: ");
        reveal_strlit("[DONE]");
        assert(t =~= "data: "@ + "[DONE]"@);
        lemma_done_text();
        lemma_data_line(line, "[DONE]"@);
        law_nothing_lost(s);
    }
}

proof fn lemma_done_text()
    ensures
        text::trim("[DONE]"@) == "[DONE]"@,
{
    reveal_strlit("[DONE]");
}

/// A line with `data: ` whose data is neither the end of the stream nor JSON
/// goes on as it is.
pub proof fn law_broken_data_passed(s: RawView, line: Seq<char>, data: Seq<char>)
    requires
        text::trim(line) == "data: "@ + data,
        text::trim(data) == data,
        data != "[DONE]"@,
        json::json_doc(data) is None,
    ensures
        line_passed(s, line).out == s.out.push(
            RawPieceView::Line(text::trim(line) + seq!['\n']),
        ),
{
    lemma_data_line(line, data);
}

/// What goes over the wire for each piece.
pub proof fn law_piece_text(p: RawPieceView, id: Seq<char>)
    ensures
        match p {
            RawPieceView::Line(t) => piece_text(p, id) == t,
            RawPieceView::Native(t) => piece_text(p, id) == t,
            RawPieceView::Reasoning { opens, text } => piece_text(p, id)
                == "data: {\"choices\":[{\"delta\":{\"content\":"@ + json::quoted(
                if opens {
                    "<thinking>"@ + text
                } else {
                    text
                },
            ) + "}}]}\n\n"@,
            RawPieceView::Content { closes, text } => piece_text(p, id)
                == "data: {\"choices\":[{\"delta\":{\"content\":"@ + json::quoted(
                if closes {
                    "</thinking>"@ + text
                } else {
                    text
                },
            ) + "}}]}\n\n"@,
            RawPieceView::Call { name, args, markup } => piece_text(p, id) == call_chunk(
                id,
                name,
                args,
            ),
            RawPieceView::Done => piece_text(p, id) == "data: [DONE]\n\n"@,
        },
{
}

// ---------------------------------------------------------------------------
// Calls in the content
// ---------------------------------------------------------------------------

/// The tool calls among the pieces: the name, the arguments, and the markup they
/// were read from.
pub open spec fn called(out: Seq<RawPieceView>) -> Seq<(Seq<char>, Seq<char>, Seq<char>)>
    decreases out.len(),
{
    if out.len() == 0 {
        Seq::empty()
    } else {
        match out.last() {
            RawPieceView::Call { name, args, markup } => called(out.drop_last()).push(
                (name, args, markup),
            ),
            _ => called(out.drop_last()),
        }
    }
}

/// The calls that markup is: one, or none where no tool is named.
pub open spec fn call_of(markup: Seq<char>) -> Seq<(Seq<char>, Seq<char>, Seq<char>)> {
    let (name, args) = fallback::fallback_call(markup, Seq::<ToolEntry>::empty());
    if name == "unknown"@ {
        Seq::empty()
    } else {
        seq![(name, args, markup)]
    }
}

proof fn lemma_called_put(s: RawView, p: RawPieceView)
    ensures
        called(put_out(s, p).out) == (match p {
            RawPieceView::Call { name, args, markup } => called(s.out).push((name, args, markup)),
            _ => called(s.out),
        }),
{
    assert(put_out(s, p).out.drop_last() =~= s.out);
}

proof fn lemma_called_spoken(s: RawView, t: Seq<char>)
    ensures
        called(spoken(s, t).out) == called(s.out),
        called(unthought(s).out) == called(s.out),
{
    lemma_called_put(s, RawPieceView::Content { closes: s.thinking, text: t });
    lemma_called_put(s, RawPieceView::Content { closes: true, text: Seq::empty() });
}

/// Markup that names a tool goes on as one call, whatever went on before; other
/// markup as content.
pub proof fn law_markup_passed(s: RawView, markup: Seq<char>)
    ensures
        ({
            let r = markup_passed(s, markup);
            &&& called(r.out) == called(s.out) + call_of(markup)
            &&& carried(r.out) == carried(s.out) + markup
            &&& call_of(markup).len() > 0 ==> !r.thinking
        }),
{
    let (name, args) = fallback::fallback_call(markup, Seq::<ToolEntry>::empty());
    lemma_markup_passed(s, markup);
    let u = unthought(s);
    lemma_unthought(s);
    lemma_called_spoken(s, markup);
    lemma_called_put(u, RawPieceView::Call { name, args, markup });
    assert(called(markup_passed(s, markup).out) =~= called(s.out) + call_of(markup));
}

/// Markup, which trigger opens it, and the content that follows it.
pub ghost struct Markup {
    pub which: int,
    pub markup: Seq<char>,
    pub gap: Seq<char>,
}

/// The markup one after the other.
pub open spec fn written(es: Seq<Markup>) -> Seq<char>
    decreases es.len(),
{
    if es.len() == 0 {
        Seq::empty()
    } else {
        es[0].markup + es[0].gap + written(es.drop_first())
    }
}

/// The calls that the markup is, one after the other.
pub open spec fn calls_of(es: Seq<Markup>) -> Seq<(Seq<char>, Seq<char>, Seq<char>)>
    decreases es.len(),
{
    if es.len() == 0 {
        Seq::empty()
    } else {
        call_of(es[0].markup) + calls_of(es.drop_first())
    }
}

/// Each markup ends with the first of what closes it, and the next one is the
/// first that opens after it.
pub open spec fn are_markup(es: Seq<Markup>) -> bool
    decreases es.len(),
{
    es.len() > 0 ==> {
        let e = es[0];
        let (open, close) = triggers()[e.which];
        let more = es.drop_first();
        &&& 0 <= e.which < triggers().len()
        &&& e.markup.len() > 0
        &&& text::find_from(e.markup, close, open.len() as int) == Some(
            e.markup.len() - close.len(),
        )
        &&& first_opening(e.gap + written(more)) == if more.len() == 0 {
            None
        } else {
            Some((e.gap.len() as int, more[0].which))
        }
        &&& are_markup(more)
    }
}

/// Markup that is complete goes on as the calls that it is, one for each, in
/// their order, and none of the content around it is lost.
pub proof fn law_markups_passed(s: RawView, es: Seq<Markup>)
    requires
        sound(s),
        es.len() > 0,
        are_markup(es),
        s.intercept == Some(triggers()[es[0].which]),
        s.collected == written(es),
    ensures
        ({
            let r = resumed(s);
            &&& called(r.out) == called(s.out) + calls_of(es)
            &&& carried(r.out) == carried(s.out) + written(es)
            &&& r.intercept is None
            &&& r.content.len() == 0
        }),
    decreases es.len(),
{
    let e = es[0];
    let more = es.drop_first();
    let t = triggers()[e.which];
    let rest = e.gap + written(more);
    let x = s.collected;
    assert(x =~= e.markup + rest);
    let k = e.markup.len() as int;
    let i = k - t.1.len();
    text::lemma_find_from(e.markup, t.1, t.0.len() as int);
    text::lemma_occurs_part(e.markup, rest, t.1, i);
    assert forall|j: int| t.0.len() <= j < i implies !text::occurs_at(x, t.1, j) by {
        text::lemma_occurs_part(e.markup, rest, t.1, j);
    }
    text::lemma_find_first(x, t.1, t.0.len() as int, i);
    assert(markup_end(x, t) == Some(k));
    assert(x.take(k) =~= e.markup);
    assert(x.skip(k) =~= rest);
    law_markup_passed(s, e.markup);
    let m = RawView {
        intercept: None,
        collected: Seq::empty(),
        content: rest,
        ..markup_passed(s, e.markup)
    };
    if more.len() == 0 {
        assert(written(more) =~= Seq::<char>::empty());
        assert(rest =~= e.gap);
        assert(calls_of(more) =~= Seq::<(Seq<char>, Seq<char>, Seq<char>)>::empty());
        assert(calls_of(es) =~= call_of(e.markup));
        lemma_spoken(m, rest);
        lemma_called_spoken(m, rest);
        assert(carried(s.out) + e.markup + rest =~= carried(s.out) + written(es));
    } else {
        let g = e.gap.len() as int;
        let c = collecting(m, g, triggers()[more[0].which]);
        assert(resumed(s) == resumed(c));
        lemma_collecting(m, g, triggers()[more[0].which]);
        assert(rest.take(g) =~= e.gap);
        assert(rest.skip(g) =~= written(more));
        lemma_spoken(m, e.gap);
        lemma_called_spoken(m, e.gap);
        law_markups_passed(c, more);
        assert(called(s.out) + call_of(e.markup) + calls_of(more) =~= called(s.out) + calls_of(es));
        assert(carried(s.out) + e.markup + e.gap + written(more) =~= carried(s.out) + written(es));
    }
}

/// Where markup opens in content, it is found there: at the first position at
/// which any of the triggers stands.
pub proof fn law_first_opening(t: Seq<char>, at: int, which: int)
    requires
        0 <= which < triggers().len(),
        0 <= at,
        text::occurs_at(t, triggers()[which].0, at),
        forall|i: int, j: int|
            0 <= i < at && 0 <= j < triggers().len() ==> !(#[trigger] text::occurs_at(
                t,
                triggers()[j].0,
                i,
            )),
    ensures
        first_opening(t) == Some((at, which)),
{
    let n = triggers().len() as int;
    lemma_opening_among(t, n);
    assert forall|i: int| 0 <= i < at implies !text::occurs_at(t, triggers()[which].0, i) by {}
    text::lemma_find_first(t, triggers()[which].0, 0, at);
    match first_opening(t) {
        Some((i, k)) => {
            text::lemma_find_from(t, triggers()[k].0, 0);
            if k < which {
                law_one_trigger_opens(t, at, k, which);
            } else if which < k {
                law_one_trigger_opens(t, at, which, k);
            }
        },
        None => {},
    }
}

/// Every notation in which models write tool calls opens markup.
pub proof fn law_notations_open(t: Seq<char>)
    ensures
        text::holds(t, "<tool_call>"@) ==> first_opening(t) is Some,
        text::holds(t, "```json"@) ==> first_opening(t) is Some,
        text::holds(t, "```tool_call"@) ==> first_opening(t) is Some,
        text::holds(t, "<｜tool_calls｜>"@) ==> first_opening(t) is Some,
        text::holds(t, "<｜tool_call｜>"@) ==> first_opening(t) is Some,
        text::holds(t, "<invoke"@) ==> first_opening(t) is Some,
        text::holds(t, "<parameter"@) ==> first_opening(t) is Some,
        text::holds(t, "<｜invoke｜>"@) ==> first_opening(t) is Some,
        text::holds(t, "<｜parameter｜>"@) ==> first_opening(t) is Some,
        text::holds(t, "<DSML｜tool_name｜>"@) ==> first_opening(t) is Some,
        text::holds(t, "<DSML｜tool_calls｜>"@) ==> first_opening(t) is Some,
        text::holds(t, "<ツtool_callsツ>"@) ==> first_opening(t) is Some,
        text::holds(t, "<ツtool_callツ>"@) ==> first_opening(t) is Some,
{
    lemma_opening_among(t, triggers().len() as int);
    if first_opening(t) is None {
        assert(text::find(t, triggers()[0].0) is None);
        assert(text::find(t, triggers()[1].0) is None);
        assert(text::find(t, triggers()[2].0) is None);
        assert(text::find(t, triggers()[3].0) is None);
        assert(text::find(t, triggers()[4].0) is None);
        assert(text::find(t, triggers()[5].0) is None);
        assert(text::find(t, triggers()[6].0) is None);
        assert(text::find(t, triggers()[7].0) is None);
        assert(text::find(t, triggers()[8].0) is None);
        assert(text::find(t, triggers()[9].0) is None);
        assert(text::find(t, triggers()[10].0) is None);
        assert(text::find(t, triggers()[11].0) is None);
        assert(text::find(t, triggers()[12].0) is None);
    }
}

/// A piece of content with which markup is complete: the markup goes on as the
/// calls that it is, one for each, in their order, and all that stands before it,
/// between it and after it as content.
pub proof fn law_content_calls(s: RawView, t: Seq<char>, gap: Seq<char>, es: Seq<Markup>)
    requires
        sound(s),
        t.len() > 0,
        es.len() > 0,
        are_markup(es),
        s.intercept is None ==> s.content + t == gap + written(es) && first_opening(
            gap + written(es),
        ) == Some((gap.len() as int, es[0].which)),
        s.intercept is Some ==> gap.len() == 0 && s.intercept == Some(triggers()[es[0].which])
            && s.collected + t == written(es),
    ensures
        ({
            let r = content_passed(s, t);
            &&& called(r.out) == called(s.out) + calls_of(es)
            &&& carried(r.out) == carried(s.out) + gap + written(es)
            &&& r.intercept is None
            &&& r.content.len() == 0
        }),
{
    let which = triggers()[es[0].which];
    if s.intercept is Some {
        law_markups_passed(RawView { collected: s.collected + t, ..s }, es);
        assert(carried(s.out) + gap =~= carried(s.out));
    } else {
        let x = gap + written(es);
        let all = RawView { content: x, ..s };
        let g = gap.len() as int;
        let c = collecting(all, g, which);
        assert(x.take(g) =~= gap);
        assert(x.skip(g) =~= written(es));
        lemma_collecting(all, g, which);
        lemma_spoken(all, gap);
        lemma_called_spoken(all, gap);
        law_markups_passed(c, es);
    }
}

/// At the end of the stream markup that is not complete goes on as the call that
/// it is all the same.
pub proof fn law_done_calls(s: RawView)
    ensures
        s.intercept is Some ==> called(done_passed(s).out) == called(s.out) + call_of(s.collected),
        s.intercept is None ==> called(done_passed(s).out) == called(s.out),
{
    let a = collected_passed(s);
    if s.intercept is Some {
        law_markup_passed(s, s.collected);
    }
    let b = RawView { content: Seq::empty(), ..spoken(a, a.content) };
    lemma_called_spoken(a, a.content);
    lemma_called_spoken(b, a.content);
    lemma_called_put(unthought(b), RawPieceView::Done);
}

/// What goes over the wire is the pieces one after the other, each whole.
pub proof fn law_pieces_written(
    pieces: Seq<RawPieceView>,
    ids: Seq<Seq<char>>,
    p: RawPieceView,
    id: Seq<char>,
)
    requires
        ids.len() == pieces.len(),
    ensures
        pieces_text(Seq::empty(), Seq::empty()).len() == 0,
        pieces_text(pieces.push(p), ids.push(id)) == pieces_text(pieces, ids) + piece_text(p, id),
{
    assert(pieces.push(p).drop_last() =~= pieces);
    lemma_ids(pieces, ids, ids.push(id));
}

} // verus!
