//! Tool calls that a model writes into its text.
//!
//! Five notations are tried in turn: the raw DSML call, the `<invoke>` element,
//! the DSML elements, a JSON block, and an element named like a tool.
use vstd::prelude::*;
use vstd::string::*;

use crate::json;
use crate::json::Json;
use crate::pattern;
use crate::pattern::Captured;
use crate::text;
use crate::tools;
use crate::tools::{ToolEntry, ToolTable};
use crate::types;

verus! {

// ---------------------------------------------------------------------------
// Raw DSML: a separator, the name, the start of the arguments, the arguments
// ---------------------------------------------------------------------------

pub const DSML_SEP: &'static str = "<｜tool_sep｜>";

pub const DSML_ARG_BEGIN: &'static str = "<｜tool_call_argument_begin｜>";

pub const DSML_CALL_END: &'static str = "<｜tool_call_end｜>";

/// The name and the argument text of a raw DSML call.
pub open spec fn dsml_parts(t: Seq<char>) -> Option<(Seq<char>, Seq<char>)> {
    match text::find(t, DSML_SEP@) {
        Some(p) => {
            let after = t.skip(p + DSML_SEP@.len());
            match text::find(after, DSML_ARG_BEGIN@) {
                Some(a) => {
                    let name = text::trim(after.take(a));
                    let rest = after.skip(a + DSML_ARG_BEGIN@.len());
                    let args = match text::find(rest, DSML_CALL_END@) {
                        Some(e) => rest.take(e),
                        None => rest,
                    };
                    if name.len() > 0 {
                        Some((name, text::trim(args)))
                    } else {
                        None
                    }
                },
                None => None,
            }
        },
        None => None,
    }
}

/// The name and the argument text of a raw DSML call.
pub fn split_dsml(t: &str) -> (r: Option<(String, String)>)
    ensures
        match r {
            Some(c) => dsml_parts(t@) == Some((c.0@, c.1@)),
            None => dsml_parts(t@) is None,
        },
{
    let sep: usize = match text::find_text(t, DSML_SEP) {
        Some(p) => p + DSML_SEP.unicode_len(),
        None => return None,
    };
    let after = text::tail(t, sep);
    let at: usize = match text::find_text(after.as_str(), DSML_ARG_BEGIN) {
        Some(a) => a,
        None => return None,
    };
    let name = text::trimmed(text::head(after.as_str(), at).as_str());
    let rest = text::tail(after.as_str(), at + DSML_ARG_BEGIN.unicode_len());
    let args = match text::find_text(rest.as_str(), DSML_CALL_END) {
        Some(e) => text::head(rest.as_str(), e),
        None => rest,
    };
    if name.as_str().is_empty() {
        None
    } else {
        Some((name, text::trimmed(args.as_str())))
    }
}

/// The first tool at or after `from` whose name is `name` up to ASCII case.
pub open spec fn tool_ignoring_case(
    offered: Seq<ToolEntry>,
    name: Seq<char>,
    from: int,
) -> Option<int>
    decreases offered.len() - from,
{
    if from < 0 || from >= offered.len() {
        None
    } else if text::same_ignoring_case(offered[from].name, name) {
        Some(from)
    } else {
        tool_ignoring_case(offered, name, from + 1)
    }
}

/// The name as the tools have it, where one matches up to ASCII case.
pub open spec fn exact_name(offered: Seq<ToolEntry>, name: Seq<char>) -> Seq<char> {
    match tool_ignoring_case(offered, name, 0) {
        Some(i) => offered[i].name,
        None => name,
    }
}

/// Where a tool is offered under a name up to ASCII case, the exact name is one
/// that is offered, and the same up to ASCII case.
pub proof fn law_exact_name(offered: Seq<ToolEntry>, name: Seq<char>, i: int)
    requires
        0 <= i < offered.len(),
        text::same_ignoring_case(offered[i].name, name),
    ensures
        tools::has_tool(offered, exact_name(offered, name)),
        text::same_ignoring_case(exact_name(offered, name), name),
{
    lemma_tool_ignoring_case(offered, name, 0, i);
    tools::lemma_tool_index(offered, exact_name(offered, name));
}

proof fn lemma_tool_ignoring_case(offered: Seq<ToolEntry>, name: Seq<char>, from: int, i: int)
    requires
        0 <= from <= i < offered.len(),
        text::same_ignoring_case(offered[i].name, name),
    ensures
        tool_ignoring_case(offered, name, from) matches Some(k) && from <= k <= i
            && text::same_ignoring_case(offered[k].name, name),
    decreases i - from,
{
    if !text::same_ignoring_case(offered[from].name, name) {
        lemma_tool_ignoring_case(offered, name, from + 1, i);
    }
}

/// The name as the tools have it, where one matches up to ASCII case.
pub fn exact_tool_name(offered: &ToolTable, name: String) -> (r: String)
    ensures
        r@ == exact_name(offered@, name@),
{
    let n = offered.len();
    let mut i: usize = 0;
    while i < n
        invariant
            i <= n == offered@.len(),
            tool_ignoring_case(offered@, name@, 0) == tool_ignoring_case(
                offered@,
                name@,
                i as int,
            ),
        decreases n - i,
    {
        let candidate = offered.name_at(i);
        if text::same_text_ignoring_case(candidate.as_str(), name.as_str()) {
            return candidate;
        }
        i = i + 1;
    }
    name
}

// ---------------------------------------------------------------------------
// Blocks in braces
// ---------------------------------------------------------------------------

/// The position after the brace that closes the block: before position `i`,
/// `depth` braces are open, and `quoted` says whether a string is. Braces in
/// strings do not count; in a string a backslash takes the next character with
/// it.
pub open spec fn block_end(s: Seq<char>, i: int, depth: int, quoted: bool) -> Option<int>
    decreases s.len() - i,
{
    if i < 0 || i >= s.len() {
        None
    } else if quoted {
        if s[i] != '\\' {
            block_end(s, i + 1, depth, s[i] != '"')
        } else if i + 1 < s.len() {
            block_end(s, i + 2, depth, true)
        } else {
            None
        }
    } else if s[i] == '"' {
        block_end(s, i + 1, depth, true)
    } else if s[i] == '{' {
        block_end(s, i + 1, depth + 1, false)
    } else if s[i] == '}' {
        if depth == 1 {
            Some(i + 1)
        } else {
            block_end(s, i + 1, depth - 1, false)
        }
    } else {
        block_end(s, i + 1, depth, false)
    }
}

/// The text from the first opening brace to the brace that closes it.
pub open spec fn brace_block(s: Seq<char>) -> Option<Seq<char>> {
    match text::find(s, seq!['{']) {
        Some(start) => match block_end(s, start, 0, false) {
            Some(end) => Some(s.subrange(start, end)),
            None => None,
        },
        None => None,
    }
}

/// The text from the first opening brace to the brace that closes it.
pub fn first_brace_block(s: &str) -> (r: Option<String>)
    ensures
        match r {
            Some(b) => brace_block(s@) == Some(b@),
            None => brace_block(s@) is None,
        },
{
    proof {
        reveal_strlit("{");
        assert("{"@ =~= seq!['{']);
    }
    let start: usize = match text::find_text(s, "{") {
        Some(i) => i,
        None => return None,
    };
    proof {
        text::lemma_find_from(s@, seq!['{'], 0);
        assert(s@.subrange(start as int, start + 1)[0] == '{');
    }
    let chars = text::chars_of(s);
    let n: usize = chars.len();
    let mut depth: usize = 1;
    let mut quoted = false;
    let mut i: usize = start + 1;
    assert(block_end(s@, start as int, 0, false) == block_end(s@, start + 1, 1, false));
    while i < n
        invariant
            chars@ == s@,
            n == chars@.len(),
            start < i <= n,
            1 <= depth <= i,
            text::find(s@, seq!['{']) == Some(start as int),
            block_end(s@, start as int, 0, false) == block_end(
                s@,
                i as int,
                depth as int,
                quoted,
            ),
        decreases n - i,
    {
        let c = chars[i];
        if quoted {
            if c == '\\' {
                if i + 1 == n {
                    return None;
                }
                i = i + 1;
            } else if c == '"' {
                quoted = false;
            }
        } else if c == '"' {
            quoted = true;
        } else if c == '{' {
            depth = depth + 1;
        } else if c == '}' {
            if depth == 1 {
                return Some(text::text_between(&chars, start, i + 1));
            }
            depth = depth - 1;
        }
        i = i + 1;
    }
    None
}

/// Of the JSON value that a text is and the one that its first block in braces
/// is, the first that is there; else the object without members.
pub open spec fn first_value(whole: Option<Seq<char>>, block: Option<Seq<char>>) -> Seq<char> {
    match (whole, block) {
        (Some(v), _) => v,
        (None, Some(v)) => v,
        (None, None) => json::empty_object(),
    }
}

/// The compact form of the JSON value that a text is.
pub open spec fn value_text(t: Seq<char>) -> Option<Seq<char>> {
    match json::json_doc(t) {
        Some(d) => Some(d.text),
        None => None,
    }
}

/// The JSON value that `args` is or, failing that, that its first block in
/// braces is; else the object without members.
pub open spec fn args_value(args: Seq<char>) -> Seq<char> {
    first_value(
        value_text(args),
        match brace_block(args) {
            Some(b) => value_text(b),
            None => None,
        },
    )
}

/// The first of two values that is there; else the object without members.
pub fn first_value_of(whole: Option<Json>, block: Option<Json>) -> (r: Json)
    ensures
        r@ == first_value(json::opt_view(whole), json::opt_view(block)),
{
    match whole {
        Some(v) => v,
        None => match block {
            Some(v) => v,
            None => json::object_without_members(),
        },
    }
}

/// The JSON value that `args` is or, failing that, that its first block in
/// braces is; else the object without members.
pub fn args_value_of(args: &str) -> (r: Json)
    ensures
        r@ == args_value(args@),
{
    let block = match first_brace_block(args) {
        Some(b) => Json::parse(b.as_str()),
        None => None,
    };
    first_value_of(Json::parse(args), block)
}

// ---------------------------------------------------------------------------
// <invoke name="..."><parameter name="...">...</parameter></invoke>
// ---------------------------------------------------------------------------

/// How many bytes a broken parameter tag is passed over by.
pub const TAG_SKIP: usize = 10;

/// What a parameter tag at position `p` gives: its name and its value where
/// the tag is whole, and the position at which the search goes on.
pub open spec fn parameter_at(body: Seq<char>, p: int) -> (Option<(Seq<char>, Seq<char>)>, int) {
    let broken = (None, p + text::chars_within(body.skip(p), TAG_SKIP as int) as int);
    match text::find(body.skip(p), "name=\""@) {
        None => broken,
        Some(n) => {
            let s = p + n + 6;
            match text::find(body.skip(s), "\""@) {
                None => broken,
                Some(l) => match text::find(body.skip(s + l), ">"@) {
                    None => broken,
                    Some(g) => {
                        let c = s + l + g + 1;
                        let name = text::trim(body.subrange(s, s + l));
                        let value = text::trim(
                            match text::find_lower(body.skip(c), "</parameter>"@) {
                                Some(x) => body.subrange(c, c + x),
                                None => body.skip(c),
                            },
                        );
                        (
                            Some((name, value)),
                            c + text::chars_within(
                                body.skip(c),
                                text::byte_len(value) as int,
                            ) as int,
                        )
                    },
                },
            }
        },
    }
}

/// The parameters found from position `from` on, added to `acc` in the order
/// of their names; of two with the same name the later one stays, and one
/// without a name or a value is left out.
pub open spec fn parameters(
    body: Seq<char>,
    from: int,
    acc: Seq<(Seq<char>, Seq<char>)>,
) -> Seq<(Seq<char>, Seq<char>)>
    decreases body.len() - from,
{
    match text::find_lower(body.skip(from), "<parameter"@) {
        None => acc,
        Some(q) => {
            let (found, next) = parameter_at(body, from + q);
            let grown = match found {
                Some((name, value)) => if name.len() > 0 && value.len() > 0 {
                    json::with_member(acc, name, json::quoted(value))
                } else {
                    acc
                },
                None => acc,
            };
            if from < next < body.len() {
                parameters(body, next, grown)
            } else {
                grown
            }
        },
    }
}

/// The name and the arguments of an `<invoke>` element.
pub open spec fn invoke_call(t: Seq<char>) -> Option<(Seq<char>, Seq<char>)> {
    match text::find_lower(t, "<invoke"@) {
        None => None,
        Some(i) => {
            let u = t.skip(i);
            match text::find(u, "name=\""@) {
                None => None,
                Some(n) => match text::find(u.skip(n + 6), "\""@) {
                    None => None,
                    Some(e) => {
                        let name = text::trim(u.subrange(n + 6, n + 6 + e));
                        let body = match text::find(u, "</invoke>"@) {
                            Some(x) => u.take(x),
                            None => match text::find(u, "</｜invoke｜>"@) {
                                Some(x) => u.take(x),
                                None => u,
                            },
                        };
                        let args = parameters(body, 0, Seq::empty());
                        if name.len() > 0 && args.len() > 0 {
                            Some((name, json::object_text(args)))
                        } else {
                            None
                        }
                    },
                },
            }
        },
    }
}

fn read_parameter(body: &str, p: usize) -> (r: (Option<(String, String)>, usize))
    requires
        p <= body@.len(),
    ensures
        match r.0 {
            Some(c) => parameter_at(body@, p as int) == (Some((c.0@, c.1@)), r.1 as int),
            None => parameter_at(body@, p as int) == (
                None::<(Seq<char>, Seq<char>)>,
                r.1 as int,
            ),
        },
        r.1 <= body@.len(),
        p < body@.len() ==> p < r.1,
{
    proof {
        reveal_strlit("name=\"");
        reveal_strlit("\"");
        reveal_strlit(">");
    }
    let rest = text::tail(body, p);
    let broken: usize = p + text::count_within(rest.as_str(), TAG_SKIP);
    let n: usize = match text::find_text(rest.as_str(), "name=\"") {
        Some(n) => n,
        None => return (None, broken),
    };
    let s: usize = p + n + 6;
    let after = text::tail(body, s);
    let l: usize = match text::find_text(after.as_str(), "\"") {
        Some(l) => l,
        None => return (None, broken),
    };
    let more = text::tail(body, s + l);
    let g: usize = match text::find_text(more.as_str(), ">") {
        Some(g) => g,
        None => return (None, broken),
    };
    let c: usize = s + l + g + 1;
    let name = text::trimmed(text::cut(body, s, s + l).as_str());
    let content = text::tail(body, c);
    let value = match text::find_text_lower(content.as_str(), "</parameter>") {
        Some(x) => text::trimmed(text::cut(body, c, c + x).as_str()),
        None => text::trimmed(content.as_str()),
    };
    let next: usize = c + text::count_within(
        content.as_str(),
        text::byte_length(value.as_str()),
    );
    (Some((name, value)), next)
}

/// The parameters of the body of an `<invoke>` element.
pub fn read_parameters(body: &str) -> (r: Vec<(String, String)>)
    ensures
        json::pair_views(r@) == parameters(body@, 0, Seq::empty()),
{
    let mut acc: Vec<(String, String)> = Vec::new();
    let mut from: usize = 0;
    let total: usize = body.unicode_len();
    assert(json::pair_views(acc@) =~= Seq::<(Seq<char>, Seq<char>)>::empty());
    loop
        invariant
            from <= total == body@.len(),
            parameters(body@, 0, Seq::empty()) == parameters(
                body@,
                from as int,
                json::pair_views(acc@),
            ),
        decreases total - from,
    {
        let rest = text::tail(body, from);
        let q: usize = match text::find_text_lower(rest.as_str(), "<parameter") {
            Some(q) => q,
            None => return acc,
        };
        let (found, next) = read_parameter(body, from + q);
        match found {
            Some((name, value)) => {
                if !name.as_str().is_empty() && !value.as_str().is_empty() {
                    json::set_member(&mut acc, name, json::quote_json(value.as_str()));
                }
            },
            None => {},
        }
        if !(from < next && next < total) {
            return acc;
        }
        from = next;
    }
}

/// The name and the arguments of an `<invoke>` element.
pub fn read_invoke(t: &str) -> (r: Option<(String, Json)>)
    ensures
        match r {
            Some(c) => invoke_call(t@) == Some((c.0@, c.1@)),
            None => invoke_call(t@) is None,
        },
{
    proof {
        reveal_strlit("name=\"");
    }
    let i: usize = match text::find_text_lower(t, "<invoke") {
        Some(i) => i,
        None => return None,
    };
    let u = text::tail(t, i);
    let n: usize = match text::find_text(u.as_str(), "name=\"") {
        Some(n) => n,
        None => return None,
    };
    let after = text::tail(u.as_str(), n + 6);
    let e: usize = match text::find_text(after.as_str(), "\"") {
        Some(e) => e,
        None => return None,
    };
    let name = text::trimmed(text::head(after.as_str(), e).as_str());
    assert(after@.take(e as int) =~= u@.subrange(n + 6, n + 6 + e));
    let body = match text::find_text(u.as_str(), "</invoke>") {
        Some(x) => text::head(u.as_str(), x),
        None => match text::find_text(u.as_str(), "</｜invoke｜>") {
            Some(x) => text::head(u.as_str(), x),
            None => u,
        },
    };
    let args = read_parameters(body.as_str());
    assert(json::pair_views(args@).len() == args@.len());
    if !name.as_str().is_empty() && args.len() > 0 {
        Some((name, json::object_of(&args)))
    } else {
        None
    }
}

// ---------------------------------------------------------------------------
// DSML elements, JSON blocks and elements named like a tool
// ---------------------------------------------------------------------------

/// An element that holds a tool's name; group 1 is what it holds.
pub const NAME_PATTERN: &'static str =
    r"(?i)<[｜|]?(?:DSML[｜|]?)?tool_name[｜|]?>\s*([\s\S]*?)\s*(?:</[｜|]|$)";

/// An element that holds a tool's arguments; group 1 is what it holds.
pub const ARGS_PATTERN: &'static str =
    r"(?i)<[｜|]?(?:DSML[｜|]?)?(?:tool_arguments|parameter)[｜|]?>\s*([\s\S]*?)\s*(?:</[｜|]|$)";

/// What group 1 of the first match covers.
pub open spec fn first_group(t: Seq<char>, found: Seq<Captured>) -> Option<Seq<char>> {
    if found.len() > 0 {
        match found[0].first {
            Some(span) => Some(pattern::span_text(t, span)),
            None => None,
        }
    } else {
        None
    }
}

/// What group 1 of the first match of `pat` in `t` covers.
pub open spec fn group_in(pat: Seq<char>, t: Seq<char>) -> Option<Seq<char>> {
    match pattern::regex_captures(pat, t) {
        Some(found) => first_group(t, found),
        None => None,
    }
}

/// The name and the arguments in a pair of DSML elements.
pub open spec fn element_call(t: Seq<char>) -> Option<(Seq<char>, Seq<char>)> {
    elements_call(
        group_in(NAME_PATTERN@, t),
        match group_in(ARGS_PATTERN@, t) {
            Some(a) => value_text(text::trim(a)),
            None => None,
        },
    )
}

/// The name in one element and the value in the other, where both are there.
pub open spec fn elements_call(name: Option<Seq<char>>, args: Option<Seq<char>>) -> Option<
    (Seq<char>, Seq<char>),
> {
    match (name, args) {
        (Some(n), Some(a)) => Some((text::trim(n), a)),
        _ => None,
    }
}

/// The name and the arguments in the first block in braces, where that is a
/// JSON object with a `name` and `arguments`.
pub open spec fn block_call(t: Seq<char>) -> Option<(Seq<char>, Seq<char>)> {
    match brace_block(t) {
        Some(b) => match (
            json::json_member_string(b, "name"@),
            json::json_member(b, "arguments"@),
        ) {
            (Some(n), Some(a)) => Some((n, a)),
            _ => None,
        },
        None => None,
    }
}

/// The pattern of an element with the name `name`; group 1 is what it holds.
pub open spec fn element_pattern(name: Seq<char>) -> Seq<char> {
    "(?i)<"@ + pattern::pattern_of(name) + "[^>]*>(.*?)(?:</"@ + pattern::pattern_of(name) + ">|$)"@
}

/// The arguments that the content of an element gives a tool with the
/// properties `props`: its one property or else its `command`.
pub open spec fn content_args(
    props: Option<Seq<(Seq<char>, Seq<char>)>>,
    inner: Seq<char>,
) -> Option<Seq<char>> {
    match props {
        Some(p) => if p.len() == 1 {
            Some(json::one_member(p[0].0, inner))
        } else if json::lookup(p, "command"@) is Some {
            Some(json::one_member("command"@, inner))
        } else {
            None
        },
        None => None,
    }
}

/// The call of the first tool at or after `from` that an element names.
pub open spec fn named_call(
    offered: Seq<ToolEntry>,
    t: Seq<char>,
    from: int,
) -> Option<(Seq<char>, Seq<char>)>
    decreases offered.len() - from,
{
    if from < 0 || from >= offered.len() {
        None
    } else {
        let tool = offered[from];
        let args = match group_in(element_pattern(text::lowercase(tool.name)), t) {
            Some(inner) => content_args(tools::properties(tool.schema), text::trim(inner)),
            None => None,
        };
        match args {
            Some(a) => Some((tool.name, a)),
            None => named_call(offered, t, from + 1),
        }
    }
}

/// What group 1 of the first match covers.
pub fn first_group_of(t: &str, found: &Vec<Captured>) -> (r: Option<String>)
    requires
        pattern::in_order(found@, text::byte_len(t@) as int),
    ensures
        match r {
            Some(g) => first_group(t@, found@) == Some(g@),
            None => first_group(t@, found@) is None,
        },
{
    if found.len() == 0 {
        return None;
    }
    let m = found[0];
    assert(m == found@[0]);
    match m.first {
        Some(span) => Some(pattern::text_at(t, span)),
        None => None,
    }
}

fn find_group(pat: &str, t: &str) -> (r: Option<String>)
    ensures
        match r {
            Some(g) => group_in(pat@, t@) == Some(g@),
            None => group_in(pat@, t@) is None,
        },
{
    match pattern::captures(pat, t) {
        Some(found) => first_group_of(t, &found),
        None => None,
    }
}

/// The name in one element and the value in the other, where both are there.
pub fn call_of_elements(name: Option<String>, args: Option<Json>) -> (r: Option<(String, Json)>)
    ensures
        ({
            let call = elements_call(types::opt_text(name), json::opt_view(args));
            match r {
                Some(c) => call == Some((c.0@, c.1@)),
                None => call is None,
            }
        }),
{
    match (name, args) {
        (Some(n), Some(a)) => Some((text::trimmed(n.as_str()), a)),
        _ => None,
    }
}

fn read_elements(t: &str) -> (r: Option<(String, Json)>)
    ensures
        match r {
            Some(c) => element_call(t@) == Some((c.0@, c.1@)),
            None => element_call(t@) is None,
        },
{
    let name = find_group(NAME_PATTERN, t);
    let args = match find_group(ARGS_PATTERN, t) {
        Some(a) => Json::parse(text::trimmed(a.as_str()).as_str()),
        None => None,
    };
    call_of_elements(name, args)
}

fn read_block(t: &str) -> (r: Option<(String, Json)>)
    ensures
        match r {
            Some(c) => block_call(t@) == Some((c.0@, c.1@)),
            None => block_call(t@) is None,
        },
{
    match first_brace_block(t) {
        Some(b) => {
            let data = Json { text: b };
            match (data.get_str("name"), data.get("arguments")) {
                (Some(name), Some(args)) => Some((name, args)),
                _ => None,
            }
        },
        None => None,
    }
}

fn element_pattern_of(name: &str) -> (r: String)
    ensures
        r@ == element_pattern(name@),
{
    let tag = pattern::escape(name);
    let mut r = text::cat("(?i)<", tag.as_str());
    r.append("[^>]*>(.*?)(?:</");
    r.append(tag.as_str());
    r.append(">|$)");
    r
}

/// The arguments that the content of an element gives a tool with the
/// properties `props`.
pub fn args_of_content(props: &Option<Vec<(String, String)>>, inner: &str) -> (r: Option<Json>)
    ensures
        ({
            let p = match *props {
                Some(v) => Some(json::pair_views(v@)),
                None => None,
            };
            match r {
                Some(j) => content_args(p, inner@) == Some(j@),
                None => content_args(p, inner@) is None,
            }
        }),
{
    match props {
        Some(v) => {
            assert(json::pair_views(v@).len() == v@.len());
            if v.len() == 1 {
                Some(json::object_with(v[0].0.as_str(), inner))
            } else if json::find_member(v, "command").is_some() {
                Some(json::object_with("command", inner))
            } else {
                None
            }
        },
        None => None,
    }
}

fn read_named(offered: &ToolTable, t: &str) -> (r: Option<(String, Json)>)
    ensures
        match r {
            Some(c) => named_call(offered@, t@, 0) == Some((c.0@, c.1@)),
            None => named_call(offered@, t@, 0) is None,
        },
{
    let n = offered.len();
    let mut i: usize = 0;
    while i < n
        invariant
            i <= n == offered@.len(),
            named_call(offered@, t@, 0) == named_call(offered@, t@, i as int),
        decreases n - i,
    {
        let name = offered.name_at(i);
        let pat = element_pattern_of(name.as_str().to_lowercase().as_str());
        match find_group(pat.as_str(), t) {
            Some(inner) => {
                let content = text::trimmed(inner.as_str());
                match args_of_content(&offered.properties_at(i), content.as_str()) {
                    Some(args) => {
                        return Some((name, args));
                    },
                    None => {},
                }
            },
            None => {},
        }
        i = i + 1;
    }
    None
}

// ---------------------------------------------------------------------------
// The five together
// ---------------------------------------------------------------------------

/// The name that stands for no tool call.
pub const UNKNOWN: &'static str = "unknown";

/// The tool call that the markup `t` is: by the first notation that fits; the
/// name `unknown` without arguments where none does.
pub open spec fn markup_call(t: Seq<char>, offered: Seq<ToolEntry>) -> (Seq<char>, Seq<char>) {
    match dsml_parts(t) {
        Some((name, args)) => (exact_name(offered, name), args_value(args)),
        None => match invoke_call(t) {
            Some(c) => c,
            None => match element_call(t) {
                Some(c) => c,
                None => match block_call(t) {
                    Some(c) => c,
                    None => match named_call(offered, t, 0) {
                        Some(c) => c,
                        None => (UNKNOWN@, json::empty_object()),
                    },
                },
            },
        },
    }
}

/// The tool call in a text, in which the character that looks like an
/// underscore counts as one.
pub open spec fn fallback_call(s: Seq<char>, offered: Seq<ToolEntry>) -> (Seq<char>, Seq<char>) {
    markup_call(text::swap_char(s, '\u{2581}', '_'), offered)
}

/// Reads the tool call that a text is: the name of the tool and its arguments,
/// or the name `unknown` without arguments.
pub fn parse_fallback_tool(text: &str, valid_tools: &ToolTable) -> (r: (String, Json))
    ensures
        (r.0@, r.1@) == fallback_call(text@, valid_tools@),
{
    let plain = text::with_char_swapped(text, '\u{2581}', '_');
    let t = plain.as_str();
    match split_dsml(t) {
        Some((name, args)) => {
            return (exact_tool_name(valid_tools, name), args_value_of(args.as_str()));
        },
        None => {},
    }
    match read_invoke(t) {
        Some(c) => {
            return c;
        },
        None => {},
    }
    match read_elements(t) {
        Some(c) => {
            return c;
        },
        None => {},
    }
    match read_block(t) {
        Some(c) => {
            return c;
        },
        None => {},
    }
    match read_named(valid_tools, t) {
        Some(c) => c,
        None => (UNKNOWN.to_owned(), json::object_without_members()),
    }
}

// ---------------------------------------------------------------------------
// What is read of an <invoke> element
// ---------------------------------------------------------------------------

/// A parameter of a call: what stands before it, its tags, in any case, its name
/// and its value.
pub ghost struct Parameter {
    pub gap: Seq<char>,
    pub open: Seq<char>,
    pub name: Seq<char>,
    pub value: Seq<char>,
    pub end: Seq<char>,
}

/// A parameter as it is written.
pub open spec fn parameter_text(p: Parameter) -> Seq<char> {
    p.gap + (p.open + (" name=\""@ + (p.name + ("\">"@ + (p.value + p.end)))))
}

/// Parameters as they are written, one after the other.
pub open spec fn parameter_texts(ps: Seq<Parameter>) -> Seq<char>
    decreases ps.len(),
{
    if ps.len() == 0 {
        Seq::empty()
    } else {
        parameter_text(ps[0]) + parameter_texts(ps.drop_first())
    }
}

/// The start of a call of the tool `name`, as it is written, with the tag `tag`.
pub open spec fn call_start(tag: Seq<char>, name: Seq<char>) -> Seq<char> {
    tag + (" name=\""@ + (name + "\">"@))
}

/// The start of a call of the tool `name`, as it is written.
pub open spec fn invoke_start(name: Seq<char>) -> Seq<char> {
    call_start("<invoke"@, name)
}

/// Whether `name` can stand between quotes: not empty, without quotes and
/// without white space at its ends.
pub open spec fn is_quotable(name: Seq<char>) -> bool {
    name.len() > 0 && text::trim(name) == name && !name.contains('"')
}

/// Whether the parameter has a name and a value that can be told from what
/// stands around them.
pub open spec fn is_parameter(p: Parameter) -> bool {
    &&& text::ascii_lowered(p.open) == "<parameter"@
    &&& text::ascii_lowered(p.end) == "</parameter>"@
    &&& is_quotable(p.name)
    &&& text::trim(p.value) == p.value
    &&& !text::holds(text::ascii_lowered(p.value), "</parameter>"@)
    &&& !text::holds(text::ascii_lowered(p.gap), "<parameter"@)
}

/// The members that the parameters give, each a string; of two with the same
/// name the later one. A parameter without a value gives none.
pub open spec fn given(
    acc: Seq<(Seq<char>, Seq<char>)>,
    ps: Seq<Parameter>,
) -> Seq<(Seq<char>, Seq<char>)>
    decreases ps.len(),
{
    if ps.len() == 0 {
        acc
    } else if ps[0].value.len() == 0 {
        given(acc, ps.drop_first())
    } else {
        given(json::with_member(acc, ps[0].name, json::quoted(ps[0].value)), ps.drop_first())
    }
}

/// Whether one of the parameters has a value.
pub open spec fn some_value(ps: Seq<Parameter>) -> bool {
    exists|i: int| 0 <= i < ps.len() && (#[trigger] ps[i]).value.len() > 0
}

proof fn lemma_lowered_concat(a: Seq<char>, b: Seq<char>)
    ensures
        text::ascii_lowered(a + b) == text::ascii_lowered(a) + text::ascii_lowered(b),
{
    assert(text::ascii_lowered(a + b) =~= text::ascii_lowered(a) + text::ascii_lowered(b));
}

/// What stands at a position of a text is what stands there in lower case, but
/// for capital letters.
proof fn lemma_lowered_at(s: Seq<char>, i: int)
    requires
        0 <= i < s.len(),
    ensures
        text::ascii_lowered(s).len() == s.len(),
        text::ascii_lowered(s)[i] == text::ascii_lower(s[i]),
        !('a' <= text::ascii_lowered(s)[i] <= 'z') ==> s[i] == text::ascii_lowered(s)[i],
        s[i] == 'n' ==> text::ascii_lowered(s)[i] == 'n',
{
    let c = s[i];
    assert(text::ascii_lowered(s)[i] == text::ascii_lower(c));
    if 'A' <= c && c <= 'Z' {
        assert('a' <= text::ascii_lower(c) <= 'z');
    }
}

proof fn lemma_find_quote(name: Seq<char>, rest: Seq<char>)
    requires
        !name.contains('"'),
    ensures
        text::find(name + ("\""@ + rest), "\""@) == Some(name.len() as int),
{
    reveal_strlit("\"");
    let b = "\""@ + rest;
    text::lemma_holds_none(name, "\""@);
    text::lemma_find_after(name, b, "\""@);
    assert(b.subrange(0, 1) =~= "\""@);
    text::lemma_find_first(b, "\""@, 0, 0);
}

/// The first attribute after a tag in which no `n` stands is found where it is.
proof fn lemma_find_attribute(tag: Seq<char>, rest: Seq<char>)
    requires
        !text::ascii_lowered(tag).contains('n'),
    ensures
        text::find(tag + (" name=\""@ + rest), "name=\""@) == Some((tag.len() + 1) as int),
{
    reveal_strlit("name=\"");
    reveal_strlit(" name=\"");
    let x = tag + (" name=\""@ + rest);
    let n = tag.len() as int;
    assert(x.subrange(n + 1, n + 7) =~= "name=\""@);
    assert forall|j: int| 0 <= j < n + 1 implies !text::occurs_at(x, "name=\""@, j) by {
        if text::occurs_at(x, "name=\""@, j) {
            assert(x.subrange(j, j + 6)[0] == x[j]);
            if j < n {
                lemma_lowered_at(tag, j);
                assert(text::ascii_lowered(tag).contains(text::ascii_lowered(tag)[j]));
            }
        }
    }
    text::lemma_find_first(x, "name=\""@, 0, n + 1);
}

/// A parameter is read where it stands.
proof fn lemma_parameter_at(body: Seq<char>, at: int, p: Parameter, rest: Seq<char>)
    requires
        text::plain_case(body),
        is_parameter(p),
        0 <= at <= body.len(),
        body.skip(at) == p.open + (" name=\""@ + (p.name + ("\">"@ + (p.value + (p.end + rest))))),
    ensures
        ({
            let next = at + 17 + p.name.len() + 2 + p.value.len();
            &&& parameter_at(body, at) == (Some((p.name, p.value)), next)
            &&& at < next < body.len()
            &&& body.skip(next) == p.end + rest
        }),
{
    reveal_strlit("<parameter");
    reveal_strlit(" name=\"");
    reveal_strlit("\"");
    reveal_strlit(">");
    reveal_strlit("\">");
    reveal_strlit("</parameter>");
    let end = p.end + rest;
    let v = p.value + end;
    let w = "\">"@ + v;
    let u = p.name + w;
    let x = body.skip(at);
    assert(text::ascii_lowered(p.open).len() == p.open.len());
    assert(text::ascii_lowered(p.end).len() == p.end.len());
    lemma_find_attribute(p.open, u);
    let s = at + 17;
    assert(body.skip(s) =~= x.skip(17));
    assert(x.skip(17) =~= u);
    assert(w =~= "\""@ + (">"@ + v));
    lemma_find_quote(p.name, ">"@ + v);
    let l = p.name.len() as int;
    assert(body.skip(s + l) =~= u.skip(l));
    assert(u.skip(l) =~= w);
    assert(w.subrange(1, 2) =~= ">"@);
    assert(w.subrange(0, 1)[0] != '>');
    assert(!text::occurs_at(w, ">"@, 0));
    text::lemma_find_first(w, ">"@, 0, 1);
    let c = s + l + 2;
    assert(body.skip(c) =~= w.skip(2));
    assert(w.skip(2) =~= v);
    assert(body.subrange(s, s + l) =~= u.take(l));
    assert(u.take(l) =~= p.name);
    assert(body.skip(c) =~= body.subrange(c, body.len() as int));
    text::lemma_find_lower(v, "</parameter>"@);
    lemma_lowered_concat(p.value, end);
    lemma_lowered_concat(p.end, rest);
    let low = text::ascii_lowered(end);
    assert(low.subrange(0, 12) =~= "</parameter>"@);
    text::lemma_find_after(text::ascii_lowered(p.value), low, "</parameter>"@);
    text::lemma_find_first(low, "</parameter>"@, 0, 0);
    let n = p.value.len() as int;
    assert(body.subrange(c, c + n) =~= v.take(n));
    assert(v.take(n) =~= p.value);
    text::lemma_chars_within_boundary(v, n);
    assert(body.skip(c + n) =~= v.skip(n));
    assert(v.skip(n) =~= end);
}

/// No parameter begins in an end tag.
proof fn lemma_end_plain(end: Seq<char>)
    requires
        text::ascii_lowered(end) == "</parameter>"@,
    ensures
        !text::holds(text::ascii_lowered(end), "<parameter"@),
        end.len() > 0,
        end.last() == '>',
{
    reveal_strlit("<parameter");
    reveal_strlit("</parameter>");
    let low = "</parameter>"@;
    assert(text::ascii_lowered(end).len() == end.len());
    lemma_lowered_at(end, end.len() - 1);
    assert forall|i: int| !text::occurs_at(low, "<parameter"@, i) by {
        if text::occurs_at(low, "<parameter"@, i) {
            assert(low.subrange(i, i + 10)[0] == low[i]);
            assert(low.subrange(i, i + 10)[1] == low[i + 1]);
        }
    }
    text::lemma_holds(low, "<parameter"@);
}

/// All parameters are read, in their order.
proof fn lemma_parameters(
    body: Seq<char>,
    from: int,
    acc: Seq<(Seq<char>, Seq<char>)>,
    junk: Seq<char>,
    ps: Seq<Parameter>,
)
    requires
        text::plain_case(body),
        0 <= from <= body.len(),
        body.skip(from) == junk + parameter_texts(ps),
        junk.len() > 0,
        junk.last() == '>',
        !text::holds(text::ascii_lowered(junk), "<parameter"@),
        forall|i: int| 0 <= i < ps.len() ==> is_parameter(#[trigger] ps[i]),
    ensures
        parameters(body, from, acc) == given(acc, ps),
    decreases ps.len(),
{
    reveal_strlit("<parameter");
    let x = body.skip(from);
    assert(x =~= body.subrange(from, body.len() as int));
    text::lemma_find_lower(x, "<parameter"@);
    if ps.len() == 0 {
        assert(x =~= junk);
    } else {
        let p = ps[0];
        let more = ps.drop_first();
        let rest = parameter_texts(more);
        let a = junk + p.gap;
        let b = p.open + (" name=\""@ + (p.name + ("\">"@ + (p.value + (p.end + rest)))));
        assert(x =~= a + b);
        lemma_lowered_concat(junk, p.gap);
        lemma_lowered_concat(a, b);
        lemma_lowered_concat(
            p.open,
            " name=\""@ + (p.name + ("\">"@ + (p.value + (p.end + rest)))),
        );
        let lj = text::ascii_lowered(junk);
        let lb = text::ascii_lowered(b);
        assert(lj.last() == '>');
        text::lemma_holds_neither(lj, text::ascii_lowered(p.gap), "<parameter"@);
        assert(text::ascii_lowered(p.open).len() == p.open.len());
        assert(lb.subrange(0, 10) =~= "<parameter"@);
        assert(lb[0] == lb.subrange(0, 10)[0]);
        text::lemma_find_after(text::ascii_lowered(a), lb, "<parameter"@);
        text::lemma_find_first(lb, "<parameter"@, 0, 0);
        let at = from + a.len();
        assert(body.skip(at) =~= x.skip(a.len() as int));
        assert(x.skip(a.len() as int) =~= b);
        lemma_parameter_at(body, at, p, rest);
        let next = at + 17 + p.name.len() + 2 + p.value.len();
        let grown = if p.value.len() > 0 {
            json::with_member(acc, p.name, json::quoted(p.value))
        } else {
            acc
        };
        lemma_end_plain(p.end);
        assert forall|i: int| 0 <= i < more.len() implies is_parameter(#[trigger] more[i]) by {
            assert(more[i] == ps[i + 1]);
        }
        lemma_parameters(body, next, grown, p.end, more);
    }
}

/// A part of a text whose case is plain has plain case.
proof fn lemma_plain_part(t: Seq<char>, n: int)
    requires
        text::plain_case(t),
        0 <= n <= t.len(),
    ensures
        text::plain_case(t.take(n)),
{
    let body = t.take(n);
    assert forall|a: int, b: int| 0 <= a <= b <= body.len() implies text::lowercase(
        #[trigger] body.subrange(a, b),
    ) == text::ascii_lowered(body.subrange(a, b)) by {
        assert(body.subrange(a, b) =~= t.subrange(a, b));
    }
}

/// The start of a call and its parameters are read, whatever ends the call.
proof fn lemma_invoke_core(
    tag: Seq<char>,
    name: Seq<char>,
    ps: Seq<Parameter>,
    end: Seq<char>,
)
    requires
        text::ascii_lowered(tag) == "<invoke"@,
        is_quotable(name),
        !text::holds(text::ascii_lowered(name), "<parameter"@),
        some_value(ps),
        forall|i: int| 0 <= i < ps.len() ==> is_parameter(#[trigger] ps[i]),
        text::plain_case(call_start(tag, name) + parameter_texts(ps) + end),
        ({
            let body = call_start(tag, name) + parameter_texts(ps);
            let t = body + end;
            ||| text::find(t, "</invoke>"@) == Some(body.len() as int)
            ||| text::find(t, "</invoke>"@) is None && text::find(t, "</｜invoke｜>"@) == Some(
                body.len() as int,
            )
            ||| text::find(t, "</invoke>"@) is None && text::find(t, "</｜invoke｜>"@) is None
                && end.len() == 0
        }),
    ensures
        invoke_call(call_start(tag, name) + parameter_texts(ps) + end) == Some(
            (name, json::object_text(given(Seq::empty(), ps))),
        ),
        given(Seq::empty(), ps).len() > 0,
{
    reveal_strlit("<invoke");
    reveal_strlit(" name=\"");
    reveal_strlit("\">");
    reveal_strlit("\"");
    let head = call_start(tag, name);
    let body = head + parameter_texts(ps);
    let t = body + end;
    assert(text::ascii_lowered(tag).len() == tag.len());
    assert(t.subrange(0, t.len() as int) =~= t);
    text::lemma_find_lower(t, "<invoke"@);
    let after = "\">"@ + parameter_texts(ps) + end;
    let rest = name + after;
    assert(t =~= tag + (" name=\""@ + rest));
    lemma_lowered_concat(tag, " name=\""@ + rest);
    let low = text::ascii_lowered(t);
    assert(low.subrange(0, 7) =~= "<invoke"@);
    text::lemma_find_first(low, "<invoke"@, 0, 0);
    assert(t.skip(0) =~= t);
    lemma_invoke_name(tag, rest);
    let more = seq!['>'] + parameter_texts(ps) + end;
    assert(t.skip(14) =~= name + ("\""@ + more));
    lemma_find_quote(name, more);
    let n = name.len() as int;
    assert(t.subrange(14, 14 + n) =~= name);
    assert(t.take(body.len() as int) =~= body);
    assert(body.skip(0) =~= body);
    lemma_plain_part(t, body.len() as int);
    if end.len() == 0 {
        assert(t =~= body);
    }
    lemma_start_plain(tag, name);
    lemma_parameters(body, 0, Seq::empty(), head, ps);
    lemma_given_len(Seq::empty(), ps);
}

/// The name of a call is found after its tag: the `n` of the tag is not that of
/// the attribute.
proof fn lemma_invoke_name(tag: Seq<char>, rest: Seq<char>)
    requires
        text::ascii_lowered(tag) == "<invoke"@,
    ensures
        text::find(tag + (" name=\""@ + rest), "name=\""@) == Some(8int),
{
    reveal_strlit("<invoke");
    reveal_strlit("name=\"");
    reveal_strlit(" name=\"");
    let x = tag + (" name=\""@ + rest);
    assert(text::ascii_lowered(tag).len() == tag.len());
    assert(x.subrange(8, 14) =~= "name=\""@);
    assert forall|j: int| 0 <= j < 8 implies !text::occurs_at(x, "name=\""@, j) by {
        if text::occurs_at(x, "name=\""@, j) {
            assert(x.subrange(j, j + 6)[0] == x[j]);
            assert(x.subrange(j, j + 6)[1] == x[j + 1]);
            if j < 7 {
                lemma_lowered_at(tag, j);
                if j < 6 {
                    lemma_lowered_at(tag, j + 1);
                }
            }
        }
    }
    text::lemma_find_first(x, "name=\""@, 0, 8);
}

/// An `<invoke>` element is read as it is written: the name between the quotes,
/// and of every parameter its name and its whole value, up to its own end tag.
pub proof fn law_invoke_read(name: Seq<char>, ps: Seq<Parameter>, tail: Seq<char>)
    requires
        is_quotable(name),
        !text::holds(text::ascii_lowered(name), "<parameter"@),
        some_value(ps),
        forall|i: int| 0 <= i < ps.len() ==> is_parameter(#[trigger] ps[i]),
        !text::holds(invoke_start(name) + parameter_texts(ps), "</invoke>"@),
        text::plain_case(invoke_start(name) + parameter_texts(ps) + ("</invoke>"@ + tail)),
    ensures
        invoke_call(invoke_start(name) + parameter_texts(ps) + ("</invoke>"@ + tail)) == Some(
            (name, json::object_text(given(Seq::empty(), ps))),
        ),
        given(Seq::empty(), ps).len() > 0,
{
    reveal_strlit("<invoke");
    assert(text::ascii_lowered("<invoke"@) =~= "<invoke"@);
    law_invoke_spelled("<invoke"@, name, ps, tail);
}

/// An `<invoke>` element is read the same whatever the case of its tag, and
/// whether an end tag of either spelling ends it or it is not ended at all.
pub proof fn law_invoke_spelled(
    tag: Seq<char>,
    name: Seq<char>,
    ps: Seq<Parameter>,
    tail: Seq<char>,
)
    requires
        text::ascii_lowered(tag) == "<invoke"@,
        is_quotable(name),
        !text::holds(text::ascii_lowered(name), "<parameter"@),
        some_value(ps),
        forall|i: int| 0 <= i < ps.len() ==> is_parameter(#[trigger] ps[i]),
        !text::holds(call_start(tag, name) + parameter_texts(ps), "</invoke>"@),
    ensures
        ({
            let body = call_start(tag, name) + parameter_texts(ps);
            let call = Some((name, json::object_text(given(Seq::empty(), ps))));
            &&& text::plain_case(body + ("</invoke>"@ + tail)) ==> invoke_call(
                body + ("</invoke>"@ + tail),
            ) == call
            &&& text::plain_case(body) && !text::holds(body, "</｜invoke｜>"@) ==> invoke_call(body)
                == call
            &&& text::plain_case(body + ("</｜invoke｜>"@ + tail)) && !text::holds(
                body,
                "</｜invoke｜>"@,
            ) && !text::holds(body + ("</｜invoke｜>"@ + tail), "</invoke>"@) ==> invoke_call(
                body + ("</｜invoke｜>"@ + tail),
            ) == call
        }),
        given(Seq::empty(), ps).len() > 0,
{
    reveal_strlit("</invoke>");
    reveal_strlit("</｜invoke｜>");
    let body = call_start(tag, name) + parameter_texts(ps);
    lemma_given_len(Seq::empty(), ps);
    let e1 = "</invoke>"@ + tail;
    let e2 = "</｜invoke｜>"@ + tail;
    let none = Seq::<char>::empty();
    assert(body + none =~= body);
    if text::plain_case(body + e1) {
        text::lemma_find_after(body, e1, "</invoke>"@);
        assert(e1.subrange(0, 9) =~= "</invoke>"@);
        text::lemma_find_first(e1, "</invoke>"@, 0, 0);
        lemma_invoke_core(tag, name, ps, e1);
    }
    if text::plain_case(body) && !text::holds(body, "</｜invoke｜>"@) {
        lemma_invoke_core(tag, name, ps, none);
    }
    if text::plain_case(body + e2) && !text::holds(body, "</｜invoke｜>"@) && !text::holds(
        body + e2,
        "</invoke>"@,
    ) {
        text::lemma_find_after(body, e2, "</｜invoke｜>"@);
        assert(e2.subrange(0, 11) =~= "</｜invoke｜>"@);
        text::lemma_find_first(e2, "</｜invoke｜>"@, 0, 0);
        lemma_invoke_core(tag, name, ps, e2);
    }
}

/// No parameter begins in the start of a call, whatever the case of its tag.
proof fn lemma_start_plain(tag: Seq<char>, name: Seq<char>)
    requires
        text::ascii_lowered(tag) == "<invoke"@,
        !text::holds(text::ascii_lowered(name), "<parameter"@),
    ensures
        !text::holds(text::ascii_lowered(call_start(tag, name)), "<parameter"@),
        call_start(tag, name).last() == '>',
{
    reveal_strlit("<invoke");
    reveal_strlit(" name=\"");
    reveal_strlit("\">");
    reveal_strlit("<parameter");
    let a = "<invoke"@ + " name=\""@;
    let m = " name=\""@;
    let z = "\">"@;
    let p = "<parameter"@;
    let ln = text::ascii_lowered(name);
    lemma_lowered_concat(name, z);
    lemma_lowered_concat(m, name + z);
    lemma_lowered_concat(tag, m + (name + z));
    assert(text::ascii_lowered(m) =~= m);
    assert(text::ascii_lowered(z) =~= z);
    text::lemma_holds_none(z, p);
    text::lemma_holds_neither(ln, z, p);
    assert forall|i: int| !text::occurs_at(a, p, i) by {
        if text::occurs_at(a, p, i) {
            assert(a.subrange(i, i + 10)[0] == a[i]);
            assert(a.subrange(i, i + 10)[1] == a[i + 1]);
        }
    }
    text::lemma_holds(a, p);
    assert(a.last() == '"');
    text::lemma_holds_neither(a, ln + z, p);
    assert("<invoke"@ + (m + (ln + z)) =~= a + (ln + z));
}

proof fn lemma_given_len(acc: Seq<(Seq<char>, Seq<char>)>, ps: Seq<Parameter>)
    ensures
        some_value(ps) ==> given(acc, ps).len() > 0,
        acc.len() > 0 ==> given(acc, ps).len() > 0,
    decreases ps.len(),
{
    if ps.len() > 0 {
        let more = ps.drop_first();
        lemma_given_len(acc, more);
        lemma_given_len(json::with_member(acc, ps[0].name, json::quoted(ps[0].value)), more);
        if some_value(ps) && ps[0].value.len() == 0 {
            let i = choose|i: int| 0 <= i < ps.len() && (#[trigger] ps[i]).value.len() > 0;
            assert(more[i - 1] == ps[i]);
            assert(some_value(more));
        }
    }
}

/// Each parameter with a value is among the members under its name, with its
/// whole value as a string, unless a later one has the same name; there is no
/// other member.
pub proof fn law_given(acc: Seq<(Seq<char>, Seq<char>)>, ps: Seq<Parameter>, key: Seq<char>)
    ensures
        forall|i: int|
            0 <= i < ps.len() && (#[trigger] ps[i]).name == key && ps[i].value.len() > 0 && (
            forall|j: int|
                i < j < ps.len() ==> (#[trigger] ps[j]).name != key || ps[j].value.len() == 0)
                ==> json::lookup(given(acc, ps), key) == Some(json::quoted(ps[i].value)),
        (forall|i: int|
            0 <= i < ps.len() ==> (#[trigger] ps[i]).name != key || ps[i].value.len() == 0)
            ==> json::lookup(given(acc, ps), key) == json::lookup(acc, key),
    decreases ps.len(),
{
    if ps.len() > 0 {
        let more = ps.drop_first();
        let grown = if ps[0].value.len() == 0 {
            acc
        } else {
            json::with_member(acc, ps[0].name, json::quoted(ps[0].value))
        };
        json::law_with_member_found(acc, ps[0].name, json::quoted(ps[0].value), key);
        law_given(grown, more, key);
        assert(forall|i: int| 0 <= i < more.len() ==> more[i] == ps[i + 1]);
        assert forall|i: int|
            0 <= i < ps.len() && (#[trigger] ps[i]).name == key && ps[i].value.len() > 0 && (
            forall|j: int|
                i < j < ps.len() ==> (#[trigger] ps[j]).name != key || ps[j].value.len()
                    == 0) implies json::lookup(given(acc, ps), key) == Some(
            json::quoted(ps[i].value),
        ) by {
            if i > 0 {
                assert(more[i - 1] == ps[i]);
                assert forall|j: int| i - 1 < j < more.len() implies (#[trigger] more[j]).name
                    != key || more[j].value.len() == 0 by {
                    assert(more[j] == ps[j + 1]);
                }
            } else {
                assert forall|j: int| 0 <= j < more.len() implies (#[trigger] more[j]).name
                    != key || more[j].value.len() == 0 by {
                    assert(more[j] == ps[j + 1]);
                }
            }
        }
        if forall|i: int|
            0 <= i < ps.len() ==> (#[trigger] ps[i]).name != key || ps[i].value.len() == 0 {
            assert forall|j: int| 0 <= j < more.len() implies (#[trigger] more[j]).name != key
                || more[j].value.len() == 0 by {
                assert(more[j] == ps[j + 1]);
            }
            assert(ps[0].name != key || ps[0].value.len() == 0);
        }
    }
}

/// The tool call that an `<invoke>` element is: its name, and the object of its
/// parameters. With one parameter that is the object whose only member has the
/// name of the parameter and its whole value.
pub proof fn law_invoke_parsed(
    name: Seq<char>,
    ps: Seq<Parameter>,
    tail: Seq<char>,
    offered: Seq<ToolEntry>,
)
    requires
        is_quotable(name),
        !text::holds(text::ascii_lowered(name), "<parameter"@),
        some_value(ps),
        forall|i: int| 0 <= i < ps.len() ==> is_parameter(#[trigger] ps[i]),
        !text::holds(invoke_start(name) + parameter_texts(ps), "</invoke>"@),
        text::plain_case(invoke_start(name) + parameter_texts(ps) + ("</invoke>"@ + tail)),
        !text::holds(
            invoke_start(name) + parameter_texts(ps) + ("</invoke>"@ + tail),
            DSML_SEP@,
        ),
        !(invoke_start(name) + parameter_texts(ps) + ("</invoke>"@ + tail)).contains('\u{2581}'),
    ensures
        ({
            let t = invoke_start(name) + parameter_texts(ps) + ("</invoke>"@ + tail);
            let (n, args) = fallback_call(t, offered);
            &&& n == name
            &&& args == json::object_text(given(Seq::empty(), ps))
            &&& ps.len() == 1 ==> args == seq!['{'] + json::quoted(ps[0].name) + seq![':']
                + json::quoted(ps[0].value) + seq!['}']
        }),
{
    let t = invoke_start(name) + parameter_texts(ps) + ("</invoke>"@ + tail);
    law_invoke_read(name, ps, tail);
    assert forall|i: int| 0 <= i < t.len() implies t[i] != '\u{2581}' by {
        assert(t.contains(t[i]));
    }
    assert(text::swap_char(t, '\u{2581}', '_') =~= t);
    if ps.len() == 1 {
        let i = choose|i: int| 0 <= i < ps.len() && (#[trigger] ps[i]).value.len() > 0;
        assert(i == 0);
        let e = (ps[0].name, json::quoted(ps[0].value));
        assert(ps.drop_first() =~= Seq::<Parameter>::empty());
        assert(given(Seq::empty(), ps) == given(seq![e], ps.drop_first()));
        assert(given(seq![e], ps.drop_first()) == seq![e]);
        assert(seq![e].map_values(|m: (Seq<char>, Seq<char>)| json::member_text(m))
            =~= seq![json::member_text(e)]);
        assert(json::object_text(seq![e]) =~= seq!['{'] + json::quoted(ps[0].name) + seq![':']
            + json::quoted(ps[0].value) + seq!['}']);
    }
}

// ---------------------------------------------------------------------------
// Identifiers
// ---------------------------------------------------------------------------

pub open spec fn is_lower_hex(c: char) -> bool {
    ('0' <= c && c <= '9') || ('a' <= c && c <= 'f')
}

/// Groups of 8, 4, 4, 4 and 12 lower-case hexadecimal digits with hyphens
/// between them; the third group begins with the version digit 4.
pub open spec fn is_uuid(s: Seq<char>) -> bool {
    &&& s.len() == 36
    &&& s[8] == '-' && s[13] == '-' && s[18] == '-' && s[23] == '-'
    &&& s[14] == '4'
    &&& forall|i: int|
        0 <= i < 36 && i != 8 && i != 13 && i != 18 && i != 23 ==> is_lower_hex(#[trigger] s[i])
}

/// `uuid::Uuid::new_v4` in its hyphenated lower-case form: a random UUID of
/// version 4. Which one is left open; that no two are the same is not said.
#[verifier::external_body]
fn random_uuid() -> (r: String)
    ensures
        is_uuid(r@),
{
    uuid::Uuid::new_v4().to_string()
}

/// The identifier that a UUID gives a tool call.
pub open spec fn tool_id(u: Seq<char>) -> Seq<char> {
    "toolu_"@ + text::without(u, '-').take(24)
}

/// What the identifier of a tool call looks like.
pub open spec fn is_tool_id(s: Seq<char>) -> bool {
    &&& s.len() == 30
    &&& s.take(6) == "toolu_"@
    &&& forall|i: int| 6 <= i < 30 ==> is_lower_hex(#[trigger] s[i])
}

/// Every UUID gives an identifier of the right form.
pub proof fn law_tool_id(u: Seq<char>)
    requires
        is_uuid(u),
    ensures
        is_tool_id(tool_id(u)),
        text::without(u, '-').len() == 32,
{
    let parts = u.subrange(0, 8) + seq!['-'] + u.subrange(9, 13) + seq!['-'] + u.subrange(14, 18)
        + seq!['-'] + u.subrange(19, 23) + seq!['-'] + u.subrange(24, 36);
    assert(u =~= parts);
    let hyphen = seq!['-'];
    assert(text::without(hyphen, '-') =~= Seq::<char>::empty()) by {
        reveal_with_fuel(text::without, 2);
    }
    let a = u.subrange(0, 8);
    let b = u.subrange(9, 13);
    let c = u.subrange(14, 18);
    let d = u.subrange(19, 23);
    let e = u.subrange(24, 36);
    text::lemma_without_none(a, '-');
    text::lemma_without_none(b, '-');
    text::lemma_without_none(c, '-');
    text::lemma_without_none(d, '-');
    text::lemma_without_none(e, '-');
    text::lemma_without_concat(a, hyphen, '-');
    text::lemma_without_concat(a + hyphen, b, '-');
    text::lemma_without_concat(a + hyphen + b, hyphen, '-');
    text::lemma_without_concat(a + hyphen + b + hyphen, c, '-');
    text::lemma_without_concat(a + hyphen + b + hyphen + c, hyphen, '-');
    text::lemma_without_concat(a + hyphen + b + hyphen + c + hyphen, d, '-');
    text::lemma_without_concat(a + hyphen + b + hyphen + c + hyphen + d, hyphen, '-');
    text::lemma_without_concat(a + hyphen + b + hyphen + c + hyphen + d + hyphen, e, '-');
    assert(text::without(u, '-') =~= a + b + c + d + e);
    reveal_strlit("toolu_");
    let id = tool_id(u);
    assert(id.take(6) =~= "toolu_"@);
    assert forall|i: int| 6 <= i < 30 implies is_lower_hex(#[trigger] id[i]) by {
        let k = i - 6;
        assert(id[i] == (a + b + c + d + e)[k]);
        if k < 8 {
            assert(id[i] == u[k]);
        } else if k < 12 {
            assert(id[i] == u[k + 1]);
        } else if k < 16 {
            assert(id[i] == u[k + 2]);
        } else if k < 20 {
            assert(id[i] == u[k + 3]);
        } else {
            assert(id[i] == u[k + 4]);
        }
    }
}

/// The identifier that a UUID gives a tool call.
pub fn tool_id_of(uuid: &str) -> (r: String)
    requires
        text::without(uuid@, '-').len() >= 24,
    ensures
        r@ == tool_id(uuid@),
{
    let digits = text::with_char_removed(uuid, '-');
    text::cat("toolu_", text::head(digits.as_str(), 24).as_str())
}

/// A fresh identifier for a tool call.
pub fn gen_tool_id() -> (r: String)
    ensures
        is_tool_id(r@),
{
    let uuid = random_uuid();
    proof {
        law_tool_id(uuid@);
    }
    tool_id_of(uuid.as_str())
}

} // verus!
