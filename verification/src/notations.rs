//! What is read of the notations besides `<invoke>` in which a model writes a
//! tool call: the raw DSML call, the JSON block, and the element named like a
//! tool.
use vstd::prelude::*;

use crate::dsml;
use crate::fallback;
use crate::json;
use crate::pattern;
use crate::pattern::Captured;
use crate::stream;
use crate::stream::Tag;
use crate::text;
use crate::tools;
use crate::tools::ToolEntry;

verus! {

// ---------------------------------------------------------------------------
// Raw DSML
// ---------------------------------------------------------------------------

/// A raw DSML call as it is written, with what stands before and after it.
pub open spec fn raw_call(
    before: Seq<char>,
    name: Seq<char>,
    args: Seq<char>,
    after: Seq<char>,
) -> Seq<char> {
    before + (fallback::DSML_SEP@ + (name + (fallback::DSML_ARG_BEGIN@ + (args + (
    fallback::DSML_CALL_END@ + after)))))
}

/// A raw DSML call that is not ended.
pub open spec fn raw_start(before: Seq<char>, name: Seq<char>, args: Seq<char>) -> Seq<char> {
    before + (fallback::DSML_SEP@ + (name + (fallback::DSML_ARG_BEGIN@ + args)))
}

proof fn lemma_marks()
    ensures
        fallback::DSML_SEP@.len() > 0,
        fallback::DSML_SEP@[0] == '<',
        forall|j: int|
            1 <= j < fallback::DSML_SEP@.len() ==> #[trigger] fallback::DSML_SEP@[j] != '<',
        fallback::DSML_ARG_BEGIN@.len() > 0,
        fallback::DSML_ARG_BEGIN@[0] == '<',
        forall|j: int|
            1 <= j < fallback::DSML_ARG_BEGIN@.len() ==> #[trigger] fallback::DSML_ARG_BEGIN@[j]
                != '<',
        fallback::DSML_CALL_END@.len() > 0,
        fallback::DSML_CALL_END@[0] == '<',
        forall|j: int|
            1 <= j < fallback::DSML_CALL_END@.len() ==> #[trigger] fallback::DSML_CALL_END@[j]
                != '<',
{
    reveal_strlit("<｜tool_sep｜>");
    reveal_strlit("<｜tool_call_argument_begin｜>");
    reveal_strlit("<｜tool_call_end｜>");
}

/// A mark is found right after a text that does not hold it.
proof fn lemma_mark_found(a: Seq<char>, mark: Seq<char>, rest: Seq<char>)
    requires
        !text::holds(a, mark),
        mark.len() > 0,
        mark[0] == '<',
        forall|j: int| 1 <= j < mark.len() ==> #[trigger] mark[j] != '<',
    ensures
        text::find(a + (mark + rest), mark) == Some(a.len() as int),
        (a + (mark + rest)).take(a.len() as int) == a,
        (a + (mark + rest)).skip((a.len() + mark.len()) as int) == rest,
{
    let b = mark + rest;
    text::lemma_find_after(a, b, mark);
    assert(b.subrange(0, mark.len() as int) =~= mark);
    text::lemma_find_first(b, mark, 0, 0);
    assert((a + b).take(a.len() as int) =~= a);
    assert((a + b).skip((a.len() + mark.len()) as int) =~= rest);
}

/// A raw DSML call is read as it is written: the name between the marks, and
/// the arguments, all of them, up to the mark that ends the call or to the end
/// of the text.
pub proof fn law_raw_call_read(
    before: Seq<char>,
    name: Seq<char>,
    args: Seq<char>,
    after: Seq<char>,
)
    requires
        !text::holds(before, fallback::DSML_SEP@),
        name.len() > 0,
        text::trim(name) == name,
        !text::holds(name, fallback::DSML_ARG_BEGIN@),
        text::trim(args) == args,
        !text::holds(args, fallback::DSML_CALL_END@),
    ensures
        fallback::dsml_parts(raw_call(before, name, args, after)) == Some((name, args)),
        fallback::dsml_parts(raw_start(before, name, args)) == Some((name, args)),
{
    lemma_marks();
    let end = args + (fallback::DSML_CALL_END@ + after);
    let tail = name + (fallback::DSML_ARG_BEGIN@ + end);
    lemma_mark_found(before, fallback::DSML_SEP@, tail);
    lemma_mark_found(name, fallback::DSML_ARG_BEGIN@, end);
    lemma_mark_found(args, fallback::DSML_CALL_END@, after);
    lemma_mark_found(
        before,
        fallback::DSML_SEP@,
        name + (fallback::DSML_ARG_BEGIN@ + args),
    );
    lemma_mark_found(name, fallback::DSML_ARG_BEGIN@, args);
}

/// The tool call that a raw DSML call is, whatever other notation could be read
/// in it: a tool that is offered under the name, up to ASCII case, is called
/// under the name that it has; arguments that are a JSON value are that value.
pub proof fn law_raw_call_parsed(
    before: Seq<char>,
    name: Seq<char>,
    args: Seq<char>,
    after: Seq<char>,
    offered: Seq<ToolEntry>,
)
    requires
        !text::holds(before, fallback::DSML_SEP@),
        name.len() > 0,
        text::trim(name) == name,
        !text::holds(name, fallback::DSML_ARG_BEGIN@),
        text::trim(args) == args,
        !text::holds(args, fallback::DSML_CALL_END@),
        !raw_call(before, name, args, after).contains('\u{2581}'),
    ensures
        ({
            let (n, a) = fallback::fallback_call(raw_call(before, name, args, after), offered);
            &&& (exists|i: int|
                0 <= i < offered.len() && text::same_ignoring_case(
                    (#[trigger] offered[i]).name,
                    name,
                )) ==> tools::has_tool(offered, n) && text::same_ignoring_case(n, name)
            &&& (forall|i: int|
                0 <= i < offered.len() ==> !text::same_ignoring_case(
                    (#[trigger] offered[i]).name,
                    name,
                )) ==> n == name
            &&& json::json_doc(args) matches Some(d) ==> a == d.text
            &&& json::json_doc(args) is None && !args.contains('{') ==> a == json::empty_object()
        }),
{
    let t = raw_call(before, name, args, after);
    law_raw_call_read(before, name, args, after);
    lemma_unswapped(t);
    let n = fallback::exact_name(offered, name);
    if exists|i: int|
        0 <= i < offered.len() && text::same_ignoring_case((#[trigger] offered[i]).name, name) {
        let i = choose|i: int|
            0 <= i < offered.len() && text::same_ignoring_case((#[trigger] offered[i]).name, name);
        fallback::law_exact_name(offered, name, i);
    } else {
        lemma_none_ignoring_case(offered, name, 0);
    }
    if !args.contains('{') {
        text::lemma_holds_none(args, seq!['{']);
    }
}

proof fn lemma_none_ignoring_case(offered: Seq<ToolEntry>, name: Seq<char>, from: int)
    requires
        0 <= from <= offered.len(),
        forall|i: int|
            0 <= i < offered.len() ==> !text::same_ignoring_case(
                (#[trigger] offered[i]).name,
                name,
            ),
    ensures
        fallback::tool_ignoring_case(offered, name, from) is None,
    decreases offered.len() - from,
{
    if from < offered.len() {
        lemma_none_ignoring_case(offered, name, from + 1);
    }
}

proof fn lemma_unswapped(t: Seq<char>)
    requires
        !t.contains('\u{2581}'),
    ensures
        text::swap_char(t, '\u{2581}', '_') == t,
{
    assert forall|i: int| 0 <= i < t.len() implies t[i] != '\u{2581}' by {
        assert(t.contains(t[i]));
    }
    assert(text::swap_char(t, '\u{2581}', '_') =~= t);
}

// ---------------------------------------------------------------------------
// Blocks in braces
// ---------------------------------------------------------------------------

/// Where a position stands.
pub ghost enum Place {
    /// Outside strings.
    Plain,
    /// In a string.
    Quoted,
    /// In a string, right after a backslash that takes the next character with
    /// it.
    Escaped,
}

/// Where position `i` of a text stands.
pub open spec fn place(b: Seq<char>, i: int) -> Place
    decreases i,
{
    if i <= 0 {
        Place::Plain
    } else {
        match place(b, i - 1) {
            Place::Plain => if b[i - 1] == '"' {
                Place::Quoted
            } else {
                Place::Plain
            },
            Place::Quoted => if b[i - 1] == '\\' {
                Place::Escaped
            } else if b[i - 1] == '"' {
                Place::Plain
            } else {
                Place::Quoted
            },
            Place::Escaped => Place::Quoted,
        }
    }
}

/// How many more braces are opened than closed among the first `i` characters,
/// those in strings left out.
pub open spec fn depth(b: Seq<char>, i: int) -> int
    decreases i,
{
    if i <= 0 {
        0
    } else if place(b, i - 1) is Plain && b[i - 1] == '{' {
        depth(b, i - 1) + 1
    } else if place(b, i - 1) is Plain && b[i - 1] == '}' {
        depth(b, i - 1) - 1
    } else {
        depth(b, i - 1)
    }
}

/// Whether the text is one block: it begins with an opening brace, and the
/// brace that closes that one is its last character.
pub open spec fn is_block(b: Seq<char>) -> bool {
    &&& b.len() > 0
    &&& b[0] == '{'
    &&& depth(b, b.len() as int) == 0
    &&& forall|i: int| 0 < i < b.len() ==> #[trigger] depth(b, i) > 0
}

/// Whether the text begins a block that does not end in it.
pub open spec fn is_unended(b: Seq<char>) -> bool {
    &&& b.len() > 0
    &&& b[0] == '{'
    &&& forall|i: int| 0 < i <= b.len() ==> #[trigger] depth(b, i) > 0
}

proof fn lemma_block_end(s: Seq<char>, at: int, b: Seq<char>, i: int)
    requires
        is_block(b) || is_unended(b),
        0 <= at,
        at + b.len() <= s.len(),
        is_unended(b) ==> at + b.len() == s.len(),
        forall|j: int| 0 <= j < b.len() ==> s[at + j] == #[trigger] b[j],
        0 <= i <= b.len(),
        is_block(b) ==> i < b.len(),
        !(place(b, i) is Escaped),
    ensures
        is_block(b) ==> fallback::block_end(s, at + i, depth(b, i), place(b, i) is Quoted) == Some(
            at + b.len(),
        ),
        is_unended(b) ==> fallback::block_end(s, at + i, depth(b, i), place(b, i) is Quoted)
            is None,
    decreases b.len() - i,
{
    if i < b.len() {
        assert(s[at + i] == b[i]);
        assert(i + 1 < b.len() ==> depth(b, i + 1) > 0);
        assert(i + 1 == b.len() && is_unended(b) ==> depth(b, i + 1) > 0);
        assert(i > 0 ==> depth(b, i) > 0);
        if place(b, i) is Quoted && b[i] == '\\' {
            assert(place(b, i + 1) is Escaped);
            assert(depth(b, i + 1) == depth(b, i));
            if i + 1 < b.len() {
                assert(s[at + (i + 1)] == b[i + 1]);
                assert(place(b, i + 2) is Quoted);
                assert(depth(b, i + 2) == depth(b, i + 1));
                assert(i + 2 < b.len() ==> depth(b, i + 2) > 0);
                assert(i + 2 == b.len() && is_unended(b) ==> depth(b, i + 2) > 0);
                lemma_block_end(s, at, b, i + 2);
            }
        } else if i + 1 < b.len() || is_unended(b) {
            lemma_block_end(s, at, b, i + 1);
        }
    }
}

/// The first block in braces is the one that begins with the first opening
/// brace, whole, whatever stands before and after it; braces in its strings do
/// not end it. A block that does not end is none.
pub proof fn law_first_block(before: Seq<char>, b: Seq<char>, after: Seq<char>)
    requires
        !before.contains('{'),
    ensures
        is_block(b) ==> fallback::brace_block(before + (b + after)) == Some(b),
        is_unended(b) ==> fallback::brace_block(before + b) is None,
        fallback::brace_block(before) is None,
{
    text::lemma_holds_none(before, seq!['{']);
    let n = before.len() as int;
    if is_block(b) {
        let x = b + after;
        let s = before + x;
        text::lemma_find_after(before, x, seq!['{']);
        assert(x.subrange(0, 1) =~= seq!['{']);
        text::lemma_find_first(x, seq!['{'], 0, 0);
        assert forall|j: int| 0 <= j < b.len() implies s[n + j] == #[trigger] b[j] by {}
        lemma_block_end(s, n, b, 0);
        assert(s.subrange(n, n + b.len()) =~= b);
    }
    if is_unended(b) {
        let s = before + b;
        text::lemma_find_after(before, b, seq!['{']);
        assert(b.subrange(0, 1) =~= seq!['{']);
        text::lemma_find_first(b, seq!['{'], 0, 0);
        assert forall|j: int| 0 <= j < b.len() implies s[n + j] == #[trigger] b[j] by {}
        lemma_block_end(s, n, b, 0);
    }
}

/// Arguments are the JSON value that their text is; else the one that the first
/// block in it is; else the object without members.
pub proof fn law_args_value(before: Seq<char>, b: Seq<char>, after: Seq<char>)
    requires
        !before.contains('{'),
        is_block(b),
    ensures
        ({
            let t = before + (b + after);
            &&& json::json_doc(t) matches Some(d) ==> fallback::args_value(t) == d.text
            &&& json::json_doc(t) is None ==> (json::json_doc(b) matches Some(d)
                ==> fallback::args_value(t) == d.text)
            &&& json::json_doc(t) is None && json::json_doc(b) is None ==> fallback::args_value(t)
                == json::empty_object()
        }),
        json::json_doc(before) is None ==> fallback::args_value(before) == json::empty_object(),
{
    law_first_block(before, b, after);
}

/// A JSON block with a name and arguments is a call of that tool with these
/// arguments, where no call in marks or elements is read in the text.
pub proof fn law_json_block_parsed(
    before: Seq<char>,
    b: Seq<char>,
    after: Seq<char>,
    offered: Seq<ToolEntry>,
    name: Seq<char>,
    args: Seq<char>,
)
    requires
        !before.contains('{'),
        is_block(b),
        !(before + (b + after)).contains('\u{2581}'),
        !text::holds(before + (b + after), fallback::DSML_SEP@),
        text::find_lower(before + (b + after), "<invoke"@) is None,
        fallback::group_in(fallback::NAME_PATTERN@, before + (b + after)) is None,
        json::json_member_string(b, "name"@) == Some(name),
        json::json_member(b, "arguments"@) == Some(args),
    ensures
        fallback::fallback_call(before + (b + after), offered) == (name, args),
{
    law_first_block(before, b, after);
    lemma_unswapped(before + (b + after));
}

// ---------------------------------------------------------------------------
// Elements
// ---------------------------------------------------------------------------

/// What stands in the first match of a pattern is read as it stands there, and
/// the name and the value that were found so make the call.
pub proof fn law_elements_call(
    a: Seq<char>,
    inner: Seq<char>,
    z: Seq<char>,
    found: Seq<Captured>,
    value: Seq<char>,
)
    requires
        found.len() > 0,
        found[0].first matches Some(span) && span.start == text::byte_len(a) && span.end
            == text::byte_len(a + inner),
    ensures
        fallback::first_group(a + inner + z, found) == Some(inner),
        text::trim(inner) == inner ==> fallback::elements_call(Some(inner), Some(value)) == Some(
            (inner, value),
        ),
        fallback::elements_call(Some(inner), None) is None,
        fallback::elements_call(None, Some(value)) is None,
{
    let t = a + inner + z;
    let i = a.len() as int;
    let j = (a + inner).len() as int;
    assert(t.take(i) =~= a);
    assert(t.take(j) =~= a + inner);
    text::lemma_chars_within_boundary(t, i);
    text::lemma_chars_within_boundary(t, j);
    assert(t.subrange(i, j) =~= inner);
}

/// What an element gives a tool: a tool with one property gets it as that one,
/// a tool with a `command` among several as the command, and else nothing.
pub proof fn law_content_args(props: Seq<(Seq<char>, Seq<char>)>, inner: Seq<char>)
    ensures
        props.len() == 1 ==> fallback::content_args(Some(props), inner) == Some(
            seq!['{'] + json::quoted(props[0].0) + seq![':'] + json::quoted(inner) + seq!['}'],
        ),
        props.len() != 1 && (exists|i: int|
            0 <= i < props.len() && (#[trigger] props[i]).0 == "command"@)
            ==> fallback::content_args(Some(props), inner) == Some(
            seq!['{'] + json::quoted("command"@) + seq![':'] + json::quoted(inner) + seq!['}'],
        ),
        props.len() != 1 && (forall|i: int|
            0 <= i < props.len() ==> (#[trigger] props[i]).0 != "command"@)
            ==> fallback::content_args(Some(props), inner) is None,
        fallback::content_args(None, inner) is None,
{
    json::law_lookup(props, "command"@);
    if props.len() == 1 {
        json::law_one_member(props[0].0, inner);
    }
    json::law_one_member("command"@, inner);
}

/// Whether an element in the text gives the tool its arguments.
pub open spec fn given_by_element(tool: ToolEntry, t: Seq<char>, args: Seq<char>) -> bool {
    fallback::group_in(fallback::element_pattern(text::lowercase(tool.name)), t) matches Some(inner)
        && fallback::content_args(tools::properties(tool.schema), text::trim(inner)) == Some(args)
}

/// An element named like a tool is a call of that tool, under the name that the
/// tool has; of several tools it is the one that is offered first.
pub proof fn law_named_call(
    offered: Seq<ToolEntry>,
    t: Seq<char>,
    from: int,
    i: int,
    args: Seq<char>,
)
    requires
        0 <= from <= i < offered.len(),
        given_by_element(offered[i], t, args),
        forall|j: int, a: Seq<char>|
            from <= j < i ==> !#[trigger] given_by_element(offered[j], t, a),
    ensures
        fallback::named_call(offered, t, from) == Some((offered[i].name, args)),
    decreases i - from,
{
    if from < i {
        let tool = offered[from];
        if let Some(inner) = fallback::group_in(
            fallback::element_pattern(text::lowercase(tool.name)),
            t,
        ) {
            if let Some(a) = fallback::content_args(
                tools::properties(tool.schema),
                text::trim(inner),
            ) {
                assert(given_by_element(offered[from], t, a));
            }
        }
        law_named_call(offered, t, from + 1, i, args);
    }
}

// ---------------------------------------------------------------------------
// Replacing matches
// ---------------------------------------------------------------------------

/// Where one stretch of a text is replaced, all that stands before it and after
/// it stays.
pub proof fn law_one_replaced(
    a: Seq<char>,
    x: Seq<char>,
    z: Seq<char>,
    m: Captured,
    with: Seq<char>,
)
    requires
        m.whole.start == text::byte_len(a),
        m.whole.end == text::byte_len(a + x),
    ensures
        pattern::span_text(a + x + z, m.whole) == x,
        pattern::replaced(a + x + z, seq![m], seq![with]) == a + with + z,
{
    let t = a + x + z;
    let i = a.len() as int;
    let j = (a + x).len() as int;
    assert(t.take(i) =~= a);
    assert(t.take(j) =~= a + x);
    text::lemma_chars_within_boundary(t, i);
    text::lemma_chars_within_boundary(t, j);
    assert(t.subrange(i, j) =~= x);
    assert(t.subrange(0, i) =~= a);
    assert(t.skip(j) =~= z);
    let none = pattern::replaced_to(t, seq![m], seq![with], 0);
    assert(none =~= Seq::<char>::empty());
    assert(pattern::replaced_to(t, seq![m], seq![with], 1) =~= a + with);
}

/// A text without a match is left as it is, and where each match is replaced by
/// what it matches, so is the whole.
pub proof fn law_nothing_replaced(t: Seq<char>, found: Seq<Captured>, with: Seq<Seq<char>>)
    requires
        pattern::in_order(found, text::byte_len(t) as int),
        with.len() == found.len(),
        forall|i: int|
            0 <= i < found.len() ==> #[trigger] with[i] == pattern::span_text(t, found[i].whole),
    ensures
        pattern::replaced(t, found, with) == t,
{
    let n = found.len() as int;
    lemma_replaced_prefix(t, found, with, n);
    let k = pattern::cut_after(t, found, n);
    assert(t.take(k) + t.skip(k) =~= t);
}

proof fn lemma_replaced_prefix(t: Seq<char>, found: Seq<Captured>, with: Seq<Seq<char>>, k: int)
    requires
        pattern::in_order(found, text::byte_len(t) as int),
        with.len() == found.len(),
        forall|i: int|
            0 <= i < found.len() ==> #[trigger] with[i] == pattern::span_text(t, found[i].whole),
        0 <= k <= found.len(),
    ensures
        0 <= pattern::cut_after(t, found, k) <= t.len(),
        pattern::replaced_to(t, found, with, k) == t.take(pattern::cut_after(t, found, k)),
    decreases k,
{
    if k == 0 {
        assert(t.take(0) =~= Seq::<char>::empty());
    } else {
        lemma_replaced_prefix(t, found, with, k - 1);
        let m = found[k - 1];
        let c = pattern::cut_after(t, found, k - 1);
        let i = text::chars_within(t, m.whole.start as int) as int;
        let j = text::chars_within(t, m.whole.end as int) as int;
        text::lemma_chars_within_monotone(t, m.whole.start as int, m.whole.end as int);
        if k > 1 {
            let prev = found[k - 2];
            assert(prev.whole.end <= m.whole.start);
            text::lemma_chars_within_monotone(t, prev.whole.end as int, m.whole.start as int);
        }
        assert(with[k - 1] == t.subrange(i, j));
        assert(t.take(c) + t.subrange(c, i) + t.subrange(i, j) =~= t.take(j));
    }
}

// ---------------------------------------------------------------------------
// Spellings of tags
// ---------------------------------------------------------------------------

/// Every spelling of a tag becomes what the stream looks for: the tag that
/// begins an element, or the one that ends it.
pub proof fn law_tags_named()
    ensures
        dsml::wrapper_form("tool_calls"@, false) == stream::open_tag(Tag::ToolCalls),
        dsml::wrapper_form("tool_calls"@, true) == stream::close_tag(Tag::ToolCalls),
        dsml::wrapper_form("invoke"@, false) == stream::open_tag(Tag::Invoke),
        dsml::wrapper_form("invoke"@, true) == stream::close_tag(Tag::Invoke),
        dsml::wrapper_form("parameter"@, false) == stream::open_tag(Tag::Parameter),
        dsml::wrapper_form("parameter"@, true) == stream::close_tag(Tag::Parameter),
        dsml::wrapper_form("tool_calls_begin"@, false) == stream::open_tag(Tag::ToolCalls),
        dsml::wrapper_form("tool_call_begin"@, false) == stream::open_tag(Tag::Invoke),
        dsml::wrapper_form("tool_calls_end"@, false) == stream::close_tag(Tag::ToolCalls).push('>'),
        dsml::wrapper_form("tool_call_end"@, false) == stream::close_tag(Tag::Invoke).push('>'),
        dsml::wrapper_form("tool_calls_end"@, true) == stream::close_tag(Tag::ToolCalls).push('>'),
        dsml::wrapper_form("tool_call_end"@, true) == stream::close_tag(Tag::Invoke).push('>'),
{
    reveal_strlit("tool_calls");
    reveal_strlit("invoke");
    reveal_strlit("parameter");
    lemma_tag_names();
    reveal_strlit("/tool_calls");
    reveal_strlit("/invoke");
    reveal_strlit("<tool_calls");
    reveal_strlit("</tool_calls");
    reveal_strlit("<invoke");
    reveal_strlit("</invoke");
    reveal_strlit("<parameter");
    reveal_strlit("</parameter");
    let lt = seq!['<'];
    let end = seq!['<', '/'];
    assert(lt + "tool_calls"@ =~= "<tool_calls"@);
    assert(end + "tool_calls"@ =~= "</tool_calls"@);
    assert(lt + "invoke"@ =~= "<invoke"@);
    assert(end + "invoke"@ =~= "</invoke"@);
    assert(lt + "parameter"@ =~= "<parameter"@);
    assert(end + "parameter"@ =~= "</parameter"@);
    assert(lt + "/tool_calls"@ + seq!['>'] =~= "</tool_calls"@.push('>'));
    assert(lt + "/invoke"@ + seq!['>'] =~= "</invoke"@.push('>'));
}

/// The names of tags differ.
proof fn lemma_tag_names()
    ensures
        ({
            let a = "tool_calls_begin"@;
            let b = "tool_calls_end"@;
            let c = "tool_call_begin"@;
            let d = "tool_call_end"@;
            let e = "tool_sep"@;
            let f = "tool_call_argument_begin"@;
            &&& a.len() == 16 && b.len() == 14 && c.len() == 15 && d.len() == 13 && e.len() == 8
            &&& f.len() == 24
        }),
        "tool_calls"@.len() == 10,
        "invoke"@.len() == 6,
        "parameter"@.len() == 9,
{
    reveal_strlit("tool_calls_begin");
    reveal_strlit("tool_calls_end");
    reveal_strlit("tool_call_begin");
    reveal_strlit("tool_call_end");
    reveal_strlit("tool_sep");
    reveal_strlit("tool_call_argument_begin");
    reveal_strlit("tool_calls");
    reveal_strlit("invoke");
    reveal_strlit("parameter");
}

/// The tags of the raw internal format begin and end the same elements; the
/// marks between them vanish, and any other tag stays.
pub proof fn law_internals_named(whole: Seq<char>, tag: Seq<char>)
    ensures
        dsml::internal_form("tool_calls_begin"@, whole) == stream::open_tag(Tag::ToolCalls).push(
            '>',
        ),
        dsml::internal_form("tool_calls_end"@, whole) == stream::close_tag(Tag::ToolCalls).push(
            '>',
        ),
        dsml::internal_form("tool_call_begin"@, whole) == stream::open_tag(Tag::Invoke),
        dsml::internal_form("tool_call_end"@, whole) == stream::close_tag(Tag::Invoke).push('>'),
        dsml::internal_form("tool_sep"@, whole).len() == 0,
        dsml::internal_form("tool_call_argument_begin"@, whole).len() == 0,
        tag.len() < 8 || tag.len() > 24 ==> dsml::internal_form(tag, whole) == whole,
{
    lemma_tag_names();
    reveal_strlit("<tool_calls>");
    reveal_strlit("</tool_calls>");
    reveal_strlit("<tool_calls");
    reveal_strlit("</tool_calls");
    reveal_strlit("</invoke>");
    reveal_strlit("</invoke");
    assert("<tool_calls"@.push('>') =~= "<tool_calls>"@);
    assert("</tool_calls"@.push('>') =~= "</tool_calls>"@);
    assert("</invoke"@.push('>') =~= "</invoke>"@);
}

/// Folding changes no length and no character but corner brackets, which become
/// angle brackets, and fullwidth punctuation, which becomes ASCII.
pub proof fn law_folded(s: Seq<char>, i: int)
    requires
        0 <= i < s.len(),
    ensures
        dsml::folded(s).len() == s.len(),
        s[i] == '〈' ==> dsml::folded(s)[i] == '<',
        s[i] == '〉' ==> dsml::folded(s)[i] == '>',
        s[i] == '＜' ==> dsml::folded(s)[i] == '<',
        s[i] == '＞' ==> dsml::folded(s)[i] == '>',
        s[i] == '／' ==> dsml::folded(s)[i] == '/',
        s[i] == '｜' ==> dsml::folded(s)[i] == '|',
        s[i] == '＂' ==> dsml::folded(s)[i] == '"',
        s[i] == '＝' ==> dsml::folded(s)[i] == '=',
        (s[i] as u32) < 0x3000 ==> dsml::folded(s)[i] == s[i],
        '０' <= s[i] <= '９' ==> dsml::folded(s)[i] == s[i],
        'Ａ' <= s[i] <= 'Ｚ' ==> dsml::folded(s)[i] == s[i],
        'ａ' <= s[i] <= 'ｚ' ==> dsml::folded(s)[i] == s[i],
{
    let c = s[i];
    assert(dsml::folded(s)[i] == dsml::fold(c));
}

} // verus!
