//! From an Anthropic Messages request to an OpenAI Chat Completions request.
use vstd::prelude::*;
use vstd::string::*;

use crate::json;
use crate::json::Json;
use crate::recovery;
use crate::text;
use crate::types;
use crate::types::{
    AnthropicContent, AnthropicMessage, AnthropicRequest, CallView, ContentBlock, LLMConfig,
    MessageView, OpenAIFunctionCall, OpenAIMessage, OpenAIRequest, OpenAITool, OpenAIToolCall,
    OpenAIToolFunction, SystemPrompt, TextBlock, ToolDef, ToolView,
};

verus! {

/// How a model without native function calling is told to call a tool.
pub const TOOLS_INSTRUCTION: &'static str =
    "\n\n[Tools Instruction]\nIf you cannot use Native API function calling, output EXACTLY:\n<tool_call>\n{\"name\": \"tool_name\", \"arguments\": {\"arg\": \"val\"}}\n</tool_call>";

/// What stands in place of a text that a recovery wrote.
pub const OMITTED: &'static str = "(Previous auto-recovery signal omitted to save context)";

pub const EMPTY: &'static str = "(empty)";

pub const EMPTY_RESULT: &'static str = "(empty tool result)";

/// The most tokens that are asked for.
pub const MAX_TOKENS: u32 = 8192;

/// The most stop sequences that are passed on.
pub const MAX_STOPS: usize = 4;

// ---------------------------------------------------------------------------
// Texts
// ---------------------------------------------------------------------------

/// A text of the history without what a recovery wrote.
pub open spec fn cleaned(t: Seq<char>) -> Seq<char> {
    if text::holds(t, recovery::RECOVERY_MARK@) {
        OMITTED@
    } else {
        t
    }
}

/// Cleaning leaves no trace of a recovery, and cleaning again changes nothing.
pub proof fn law_cleaned(t: Seq<char>)
    ensures
        !text::holds(cleaned(t), recovery::RECOVERY_MARK@),
        cleaned(cleaned(t)) == cleaned(t),
{
    let s = OMITTED@;
    let p = recovery::RECOVERY_MARK@;
    reveal_strlit("(Previous auto-recovery signal omitted to save context)");
    reveal_strlit("[holoProxy Recovery");
    assert forall|i: int| !(#[trigger] text::occurs_at(s, p, i)) by {
        if text::occurs_at(s, p, i) {
            assert(s.subrange(i, i + p.len())[0] == s[i]);
            assert(s[i] == '[');
        }
    }
    text::lemma_holds(s, p);
}

/// Takes what a recovery wrote out of a text of the history.
pub fn clean_recovery_garbage(text: &str) -> (r: String)
    ensures
        r@ == cleaned(text@),
        !text::holds(r@, recovery::RECOVERY_MARK@),
{
    proof {
        law_cleaned(text@);
    }
    if text::contains_text(text, recovery::RECOVERY_MARK) {
        OMITTED.to_owned()
    } else {
        text.to_owned()
    }
}

pub open spec fn or_default(t: Seq<char>, d: Seq<char>) -> Seq<char> {
    if t.len() == 0 {
        d
    } else {
        t
    }
}

fn default_to(t: String, d: &str) -> (r: String)
    ensures
        r@ == or_default(t@, d@),
{
    if t.as_str().is_empty() {
        d.to_owned()
    } else {
        t
    }
}

pub open spec fn text_or(o: Option<String>, d: Seq<char>) -> Seq<char> {
    match o {
        Some(s) => s@,
        None => d,
    }
}

fn take_or(o: &Option<String>, d: &str) -> (r: String)
    ensures
        r@ == text_or(*o, d@),
{
    match o {
        Some(s) => s.clone(),
        None => d.to_owned(),
    }
}

/// A message that says a text.
pub open spec fn said_by(role: Seq<char>, content: Seq<char>) -> MessageView {
    MessageView { role, content: Some(content), tool_calls: None, tool_call_id: None }
}

fn message_by(role: &str, content: String) -> (r: OpenAIMessage)
    ensures
        r@ == said_by(role@, content@),
{
    OpenAIMessage {
        role: role.to_owned(),
        content: Some(content),
        tool_calls: None,
        tool_call_id: None,
    }
}

fn push_message(out: &mut Vec<OpenAIMessage>, m: OpenAIMessage)
    ensures
        types::message_views(final(out)@) == types::message_views(old(out)@).push(m@),
{
    out.push(m);
    assert(types::message_views(out@) =~= types::message_views(old(out)@).push(m@));
}

fn push_text(parts: &mut Vec<String>, t: String)
    ensures
        text::views(final(parts)@) == text::views(old(parts)@).push(t@),
{
    parts.push(t);
    assert(text::views(parts@) =~= text::views(old(parts)@).push(t@));
}

// ---------------------------------------------------------------------------
// Messages of the user
// ---------------------------------------------------------------------------

/// The texts among the items of a tool result.
pub open spec fn item_texts(items: Seq<Seq<char>>) -> Seq<Seq<char>>
    decreases items.len(),
{
    if items.len() == 0 {
        Seq::empty()
    } else {
        match json::json_member_string(items.last(), "text"@) {
            Some(t) => item_texts(items.drop_last()).push(t),
            None => item_texts(items.drop_last()),
        }
    }
}

/// What a tool result says: the texts of its items, or the value as it is.
pub open spec fn result_text(content: Option<Json>) -> Seq<char> {
    match content {
        Some(v) => match json::json_items(v@) {
            Some(items) => text::joined(item_texts(items), " "@),
            None => v@,
        },
        None => Seq::empty(),
    }
}

/// The message with a tool result.
pub open spec fn result_message(b: ContentBlock) -> MessageView {
    tool_message(result_text(b.content), b.is_error, b.tool_use_id)
}

/// The message with the tool result `res`.
pub open spec fn tool_message(
    res: Seq<char>,
    is_error: Option<bool>,
    id: Option<String>,
) -> MessageView {
    MessageView {
        role: "tool"@,
        content: Some(
            or_default(
                if is_error == Some(true) {
                    "Error: "@ + res
                } else {
                    res
                },
                EMPTY_RESULT@,
            ),
        ),
        tool_calls: None,
        tool_call_id: Some(text_or(id, "unknown"@)),
    }
}

/// The message with the texts collected so far, where there are any.
pub open spec fn with_texts(out: Seq<MessageView>, parts: Seq<Seq<char>>) -> Seq<MessageView> {
    if parts.len() > 0 {
        out.push(said_by("user"@, text::joined(parts, " "@)))
    } else {
        out
    }
}

/// The messages that the blocks of the user give, and the texts that are still
/// to be said.
pub open spec fn user_progress(blocks: Seq<ContentBlock>) -> (
    Seq<MessageView>,
    Seq<Seq<char>>,
)
    decreases blocks.len(),
{
    if blocks.len() == 0 {
        (Seq::empty(), Seq::empty())
    } else {
        let (out, parts) = user_progress(blocks.drop_last());
        let b = blocks.last();
        if b.block_type@ == "text"@ {
            match b.text {
                Some(t) => (out, parts.push(t@)),
                None => (out, parts),
            }
        } else if b.block_type@ == "tool_result"@ {
            (with_texts(out, parts).push(result_message(b)), Seq::empty())
        } else {
            (out, parts)
        }
    }
}

/// The messages that the blocks of the user give: texts between two tool
/// results in one message, each tool result in a message of its own.
pub open spec fn user_messages(blocks: Seq<ContentBlock>) -> Seq<MessageView> {
    let (out, parts) = user_progress(blocks);
    with_texts(out, parts)
}

/// The tool results among messages.
pub open spec fn results_in(v: Seq<MessageView>) -> Seq<MessageView>
    decreases v.len(),
{
    if v.len() == 0 {
        Seq::empty()
    } else if v.last().role == "tool"@ {
        results_in(v.drop_last()).push(v.last())
    } else {
        results_in(v.drop_last())
    }
}

/// The tool results among blocks.
pub open spec fn results_of(blocks: Seq<ContentBlock>) -> Seq<MessageView>
    decreases blocks.len(),
{
    if blocks.len() == 0 {
        Seq::empty()
    } else if blocks.last().block_type@ == "tool_result"@ {
        results_of(blocks.drop_last()).push(result_message(blocks.last()))
    } else {
        results_of(blocks.drop_last())
    }
}

proof fn lemma_with_texts(out: Seq<MessageView>, parts: Seq<Seq<char>>)
    ensures
        results_in(with_texts(out, parts)) == results_in(out),
{
    reveal_strlit("user");
    reveal_strlit("tool");
    assert("user"@[0] != "tool"@[0]);
    let said = said_by("user"@, text::joined(parts, " "@));
    assert(out.push(said).drop_last() =~= out);
}

/// Every tool result of the user gives one message, in their order.
pub proof fn law_tool_results_kept(blocks: Seq<ContentBlock>)
    ensures
        results_in(user_progress(blocks).0) == results_of(blocks),
        results_in(user_messages(blocks)) == results_of(blocks),
    decreases blocks.len(),
{
    if blocks.len() > 0 {
        law_tool_results_kept(blocks.drop_last());
        let (out, parts) = user_progress(blocks.drop_last());
        let b = blocks.last();
        reveal_strlit("text");
        reveal_strlit("tool_result");
        assert("text"@.len() != "tool_result"@.len());
        if b.block_type@ == "tool_result"@ {
            let said = with_texts(out, parts);
            lemma_with_texts(out, parts);
            assert(said.push(result_message(b)).drop_last() =~= said);
        }
    }
    lemma_with_texts(user_progress(blocks).0, user_progress(blocks).1);
}

fn result_text_of(content: &Option<Json>) -> (r: String)
    ensures
        r@ == result_text(*content),
{
    match content {
        Some(v) => match v.items() {
            Some(items) => {
                let ghost all = text::views(items@);
                let mut parts: Vec<String> = Vec::new();
                let mut i: usize = 0;
                assert(all.take(0) =~= Seq::<Seq<char>>::empty());
                assert(text::views(parts@) =~= Seq::<Seq<char>>::empty());
                while i < items.len()
                    invariant
                        all == text::views(items@),
                        i <= items@.len(),
                        text::views(parts@) == item_texts(all.take(i as int)),
                    decreases items.len() - i,
                {
                    assert(all.take(i + 1).drop_last() =~= all.take(i as int));
                    assert(all.take(i + 1).last() == items@[i as int]@);
                    let item = Json { text: items[i].clone() };
                    match item.get_str("text") {
                        Some(t) => push_text(&mut parts, t),
                        None => {},
                    }
                    i = i + 1;
                }
                assert(all.take(all.len() as int) =~= all);
                text::join(&parts, " ")
            },
            None => v.text.clone(),
        },
        None => String::new(),
    }
}

/// The message with the tool result `res`.
pub fn tool_message_of(res: String, is_error: Option<bool>, id: &Option<String>) -> (r:
    OpenAIMessage)
    ensures
        r@ == tool_message(res@, is_error, *id),
{
    let failed = match is_error {
        Some(e) => e,
        None => false,
    };
    let shown = if failed {
        text::cat("Error: ", res.as_str())
    } else {
        res
    };
    OpenAIMessage {
        role: "tool".to_owned(),
        content: Some(default_to(shown, EMPTY_RESULT)),
        tool_calls: None,
        tool_call_id: Some(take_or(id, "unknown")),
    }
}

fn result_message_of(b: &ContentBlock) -> (r: OpenAIMessage)
    ensures
        r@ == result_message(*b),
{
    tool_message_of(result_text_of(&b.content), b.is_error, &b.tool_use_id)
}

fn say_texts(out: &mut Vec<OpenAIMessage>, parts: &Vec<String>)
    ensures
        types::message_views(final(out)@) == with_texts(
            types::message_views(old(out)@),
            text::views(parts@),
        ),
{
    assert(text::views(parts@).len() == parts@.len());
    if parts.len() > 0 {
        push_message(out, message_by("user", text::join(parts, " ")));
    }
}

fn convert_user(blocks: &Vec<ContentBlock>, out: &mut Vec<OpenAIMessage>)
    ensures
        types::message_views(final(out)@) == types::message_views(old(out)@) + user_messages(
            blocks@,
        ),
{
    let ghost start = types::message_views(out@);
    let mut parts: Vec<String> = Vec::new();
    let mut i: usize = 0;
    assert(blocks@.take(0) =~= Seq::<ContentBlock>::empty());
    assert(text::views(parts@) =~= Seq::<Seq<char>>::empty());
    assert(types::message_views(out@) =~= start + user_progress(blocks@.take(0)).0);
    while i < blocks.len()
        invariant
            i <= blocks@.len(),
            start == types::message_views(old(out)@),
            types::message_views(out@) == start + user_progress(blocks@.take(i as int)).0,
            text::views(parts@) == user_progress(blocks@.take(i as int)).1,
        decreases blocks.len() - i,
    {
        let ghost so_far = user_progress(blocks@.take(i as int));
        proof {
            assert(blocks@.take(i + 1).drop_last() =~= blocks@.take(i as int));
            assert(blocks@.take(i + 1).last() == blocks@[i as int]);
        }
        let b = &blocks[i];
        if text::same(b.block_type.as_str(), "text") {
            match &b.text {
                Some(t) => push_text(&mut parts, t.clone()),
                None => {},
            }
        } else if text::same(b.block_type.as_str(), "tool_result") {
            say_texts(out, &parts);
            push_message(out, result_message_of(b));
            parts = Vec::new();
            assert(text::views(parts@) =~= Seq::<Seq<char>>::empty());
            assert(types::message_views(out@) =~= start + with_texts(so_far.0, so_far.1).push(
                result_message(*b),
            ));
        }
        i = i + 1;
    }
    assert(blocks@.take(blocks@.len() as int) =~= blocks@);
    say_texts(out, &parts);
    assert(types::message_views(out@) =~= start + user_messages(blocks@));
}

// ---------------------------------------------------------------------------
// Messages of the assistant
// ---------------------------------------------------------------------------

/// The texts of the assistant's blocks, cleaned.
pub open spec fn assistant_texts(blocks: Seq<ContentBlock>) -> Seq<Seq<char>>
    decreases blocks.len(),
{
    if blocks.len() == 0 {
        Seq::empty()
    } else {
        let before = assistant_texts(blocks.drop_last());
        let b = blocks.last();
        match b.text {
            Some(t) => if b.block_type@ == "text"@ {
                before.push(cleaned(t@))
            } else {
                before
            },
            None => before,
        }
    }
}

/// The call that a tool block is.
pub open spec fn block_call(b: ContentBlock) -> CallView {
    CallView {
        id: text_or(b.id, ""@),
        call_type: "function"@,
        name: text_or(b.name, ""@),
        arguments: match b.input {
            Some(v) => v@,
            None => json::empty_object(),
        },
    }
}

/// The tool calls among the assistant's blocks.
pub open spec fn assistant_calls(blocks: Seq<ContentBlock>) -> Seq<CallView>
    decreases blocks.len(),
{
    if blocks.len() == 0 {
        Seq::empty()
    } else if blocks.last().block_type@ == "tool_use"@ {
        assistant_calls(blocks.drop_last()).push(block_call(blocks.last()))
    } else {
        assistant_calls(blocks.drop_last())
    }
}

/// The message that the assistant's blocks give; none without texts and calls.
pub open spec fn assistant_messages(blocks: Seq<ContentBlock>) -> Seq<MessageView> {
    let parts = assistant_texts(blocks);
    let calls = assistant_calls(blocks);
    if parts.len() == 0 && calls.len() == 0 {
        Seq::empty()
    } else if calls.len() == 0 {
        seq![said_by("assistant"@, or_default(text::joined(parts, " "@), EMPTY@))]
    } else {
        seq![
            MessageView {
                role: "assistant"@,
                content: Some(text::joined(parts, " "@)),
                tool_calls: Some(calls),
                tool_call_id: None,
            },
        ]
    }
}

fn block_call_of(b: &ContentBlock) -> (r: OpenAIToolCall)
    ensures
        r@ == block_call(*b),
{
    OpenAIToolCall {
        id: take_or(&b.id, ""),
        call_type: "function".to_owned(),
        function: OpenAIFunctionCall {
            name: take_or(&b.name, ""),
            arguments: match &b.input {
                Some(v) => v.text.clone(),
                None => json::object_without_members().text,
            },
        },
    }
}

fn convert_assistant(blocks: &Vec<ContentBlock>, out: &mut Vec<OpenAIMessage>)
    ensures
        types::message_views(final(out)@) == types::message_views(old(out)@) + assistant_messages(
            blocks@,
        ),
{
    let mut parts: Vec<String> = Vec::new();
    let mut calls: Vec<OpenAIToolCall> = Vec::new();
    let mut i: usize = 0;
    proof {
        reveal_strlit("text");
        reveal_strlit("tool_use");
        assert("text"@.len() != "tool_use"@.len());
    }
    assert(blocks@.take(0) =~= Seq::<ContentBlock>::empty());
    assert(text::views(parts@) =~= Seq::<Seq<char>>::empty());
    assert(types::call_views(calls@) =~= Seq::<CallView>::empty());
    while i < blocks.len()
        invariant
            "text"@.len() != "tool_use"@.len(),
            i <= blocks@.len(),
            text::views(parts@) == assistant_texts(blocks@.take(i as int)),
            types::call_views(calls@) == assistant_calls(blocks@.take(i as int)),
        decreases blocks.len() - i,
    {
        proof {
            assert(blocks@.take(i + 1).drop_last() =~= blocks@.take(i as int));
            assert(blocks@.take(i + 1).last() == blocks@[i as int]);
        }
        let b = &blocks[i];
        if text::same(b.block_type.as_str(), "text") {
            match &b.text {
                Some(t) => push_text(&mut parts, clean_recovery_garbage(t.as_str())),
                None => {},
            }
        } else if text::same(b.block_type.as_str(), "tool_use") {
            let ghost before = types::call_views(calls@);
            calls.push(block_call_of(b));
            assert(types::call_views(calls@) =~= before.push(block_call(*b)));
        }
        i = i + 1;
    }
    assert(blocks@.take(blocks@.len() as int) =~= blocks@);
    assert(text::views(parts@).len() == parts@.len());
    assert(types::call_views(calls@).len() == calls@.len());
    if parts.len() == 0 && calls.len() == 0 {
        assert(types::message_views(out@) + assistant_messages(blocks@) =~= types::message_views(
            out@,
        ));
        return ;
    }
    let content = text::join(&parts, " ");
    let message = if calls.len() == 0 {
        message_by("assistant", default_to(content, EMPTY))
    } else {
        OpenAIMessage {
            role: "assistant".to_owned(),
            content: Some(content),
            tool_calls: Some(calls),
            tool_call_id: None,
        }
    };
    let ghost m = message@;
    assert(assistant_messages(blocks@) =~= seq![m]);
    push_message(out, message);
    assert(types::message_views(out@) =~= types::message_views(old(out)@) + seq![m]);
}

// ---------------------------------------------------------------------------
// Any message
// ---------------------------------------------------------------------------

/// The texts of all blocks.
pub open spec fn all_texts(blocks: Seq<ContentBlock>) -> Seq<Seq<char>>
    decreases blocks.len(),
{
    if blocks.len() == 0 {
        Seq::empty()
    } else {
        match blocks.last().text {
            Some(t) => all_texts(blocks.drop_last()).push(t@),
            None => all_texts(blocks.drop_last()),
        }
    }
}

/// The messages that a message becomes.
pub open spec fn converted(msg: AnthropicMessage) -> Seq<MessageView> {
    match msg.content {
        AnthropicContent::String(s) => {
            let t = if msg.role@ == "assistant"@ {
                cleaned(s@)
            } else {
                s@
            };
            seq![said_by(msg.role@, or_default(t, EMPTY@))]
        },
        AnthropicContent::Blocks(blocks) => if msg.role@ == "user"@ {
            user_messages(blocks@)
        } else if msg.role@ == "assistant"@ {
            assistant_messages(blocks@)
        } else {
            seq![said_by(msg.role@, or_default(text::joined(all_texts(blocks@), " "@), EMPTY@))]
        },
    }
}

fn all_texts_of(blocks: &Vec<ContentBlock>) -> (r: Vec<String>)
    ensures
        text::views(r@) == all_texts(blocks@),
{
    let mut parts: Vec<String> = Vec::new();
    let mut i: usize = 0;
    assert(blocks@.take(0) =~= Seq::<ContentBlock>::empty());
    assert(text::views(parts@) =~= Seq::<Seq<char>>::empty());
    while i < blocks.len()
        invariant
            i <= blocks@.len(),
            text::views(parts@) == all_texts(blocks@.take(i as int)),
        decreases blocks.len() - i,
    {
        proof {
            assert(blocks@.take(i + 1).drop_last() =~= blocks@.take(i as int));
            assert(blocks@.take(i + 1).last() == blocks@[i as int]);
        }
        match &blocks[i].text {
            Some(t) => push_text(&mut parts, t.clone()),
            None => {},
        }
        i = i + 1;
    }
    assert(blocks@.take(blocks@.len() as int) =~= blocks@);
    parts
}

/// Appends the messages that a message becomes.
pub fn convert_message(msg: &AnthropicMessage, out: &mut Vec<OpenAIMessage>)
    ensures
        types::message_views(final(out)@) == types::message_views(old(out)@) + converted(*msg),
{
    let role = msg.role.as_str();
    match &msg.content {
        AnthropicContent::String(s) => {
            let t = if text::same(role, "assistant") {
                clean_recovery_garbage(s.as_str())
            } else {
                s.clone()
            };
            push_message(out, message_by(role, default_to(t, EMPTY)));
            assert(types::message_views(out@) =~= types::message_views(old(out)@) + converted(*msg));
        },
        AnthropicContent::Blocks(blocks) => {
            if text::same(role, "user") {
                convert_user(blocks, out);
            } else if text::same(role, "assistant") {
                convert_assistant(blocks, out);
            } else {
                let parts = all_texts_of(blocks);
                let content = text::join(&parts, " ");
                push_message(out, message_by(role, default_to(content, EMPTY)));
                assert(types::message_views(out@) =~= types::message_views(old(out)@) + converted(
                    *msg,
                ));
            }
        },
    }
}

/// The messages that messages become, one after the other.
pub open spec fn all_converted(msgs: Seq<AnthropicMessage>) -> Seq<MessageView>
    decreases msgs.len(),
{
    if msgs.len() == 0 {
        Seq::empty()
    } else {
        all_converted(msgs.drop_last()) + converted(msgs.last())
    }
}

// ---------------------------------------------------------------------------
// Messages that a downstream model takes
// ---------------------------------------------------------------------------

/// Whether a content is missing or blank.
pub open spec fn is_blank(content: Option<Seq<char>>) -> bool {
    match content {
        Some(t) => text::trim(t).len() == 0,
        None => true,
    }
}

/// The message with what a downstream model insists on.
pub open spec fn sanitized(m: MessageView) -> MessageView {
    if m.role == "user"@ || m.role == "system"@ {
        if is_blank(m.content) {
            MessageView { content: Some(EMPTY@), ..m }
        } else {
            m
        }
    } else if m.role == "assistant"@ {
        if m.content is None && m.tool_calls is None {
            MessageView { content: Some(EMPTY@), ..m }
        } else {
            m
        }
    } else if m.role == "tool"@ {
        MessageView {
            content: if is_blank(m.content) {
                Some(EMPTY_RESULT@)
            } else {
                m.content
            },
            tool_call_id: match m.tool_call_id {
                Some(id) => Some(id),
                None => Some("unknown"@),
            },
            ..m
        }
    } else {
        m
    }
}

pub open spec fn all_sanitized(v: Seq<MessageView>) -> Seq<MessageView> {
    v.map_values(|m: MessageView| sanitized(m))
}

/// What a downstream model insists on: the user, the system and a tool say
/// something, a tool result says of which call it is, the assistant says
/// something or calls a tool.
pub open spec fn is_valid(m: MessageView) -> bool {
    &&& m.role == "user"@ || m.role == "system"@ || m.role == "tool"@ ==> !is_blank(m.content)
    &&& m.role == "tool"@ ==> m.tool_call_id is Some
    &&& m.role == "assistant"@ ==> m.content is Some || m.tool_calls is Some
}

proof fn lemma_not_blank(t: Seq<char>)
    requires
        t.len() > 0,
        !text::is_white(t[0]),
        !text::is_white(t.last()),
    ensures
        text::trim(t) == t,
{
}

/// Sanitizing makes a message valid, leaves a valid one as it is, and changes
/// neither the role nor the tool calls.
pub proof fn law_sanitized(m: MessageView)
    ensures
        is_valid(sanitized(m)),
        is_valid(m) ==> sanitized(m) == m,
        sanitized(sanitized(m)) == sanitized(m),
        sanitized(m).role == m.role,
        sanitized(m).tool_calls == m.tool_calls,
{
    reveal_strlit("(empty)");
    reveal_strlit("(empty tool result)");
    reveal_strlit("user");
    reveal_strlit("system");
    reveal_strlit("tool");
    reveal_strlit("assistant");
    lemma_not_blank(EMPTY@);
    lemma_not_blank(EMPTY_RESULT@);
    assert("user"@[0] != "tool"@[0]);
}

fn blank(content: &Option<String>) -> (r: bool)
    ensures
        r == is_blank(types::opt_text(*content)),
{
    match content {
        Some(t) => text::trimmed(t.as_str()).as_str().is_empty(),
        None => true,
    }
}

fn sanitize(m: &mut OpenAIMessage)
    ensures
        final(m)@ == sanitized(old(m)@),
{
    if text::same(m.role.as_str(), "user") || text::same(m.role.as_str(), "system") {
        if blank(&m.content) {
            m.content = Some(EMPTY.to_owned());
        }
    } else if text::same(m.role.as_str(), "assistant") {
        if m.content.is_none() && m.tool_calls.is_none() {
            m.content = Some(EMPTY.to_owned());
        }
    } else if text::same(m.role.as_str(), "tool") {
        if blank(&m.content) {
            m.content = Some(EMPTY_RESULT.to_owned());
        }
        if m.tool_call_id.is_none() {
            m.tool_call_id = Some("unknown".to_owned());
        }
    }
}

/// Gives every message what a downstream model insists on.
pub fn sanitize_messages(messages: &mut Vec<OpenAIMessage>)
    ensures
        types::message_views(final(messages)@) == all_sanitized(
            types::message_views(old(messages)@),
        ),
{
    let n: usize = messages.len();
    let mut i: usize = 0;
    while i < n
        invariant
            i <= n,
            messages@.len() == n,
            old(messages)@.len() == n,
            forall|j: int|
                0 <= j < i ==> (#[trigger] messages@[j])@ == sanitized(old(messages)@[j]@),
            forall|j: int| i <= j < n ==> #[trigger] messages@[j] == old(messages)@[j],
        decreases n - i,
    {
        sanitize(&mut messages[i]);
        i = i + 1;
    }
    assert(types::message_views(messages@) =~= all_sanitized(types::message_views(old(messages)@)));
}

// ---------------------------------------------------------------------------
// Tools
// ---------------------------------------------------------------------------

/// `entries` with `key` set to `value` where it is not there.
pub open spec fn with_default(
    entries: Seq<(Seq<char>, Seq<char>)>,
    key: Seq<char>,
    value: Seq<char>,
) -> Seq<(Seq<char>, Seq<char>)> {
    if json::lookup(entries, key) is Some {
        entries
    } else {
        json::with_member(entries, key, value)
    }
}

/// The parameters of a tool: its schema, which has a type and properties.
pub open spec fn parameters(schema: Option<Json>) -> Seq<char> {
    let s = match schema {
        Some(v) => v@,
        None => json::empty_object(),
    };
    match json::json_members(s) {
        Some(entries) => json::object_text(schema_members(entries)),
        None => s,
    }
}

/// The members of a schema, among them a type and properties.
pub open spec fn schema_members(entries: Seq<(Seq<char>, Seq<char>)>) -> Seq<
    (Seq<char>, Seq<char>),
> {
    with_default(
        with_default(entries, "type"@, json::quoted("object"@)),
        "properties"@,
        json::empty_object(),
    )
}

/// A tool as it is offered to a downstream model.
pub open spec fn converted_tool(t: ToolDef) -> ToolView {
    ToolView {
        tool_type: "function"@,
        name: t.name@,
        description: text_or(t.description, ""@),
        parameters: parameters(t.input_schema),
    }
}

fn default_member(entries: &mut Vec<(String, String)>, key: &str, value: String)
    ensures
        json::pair_views(final(entries)@) == with_default(
            json::pair_views(old(entries)@),
            key@,
            value@,
        ),
{
    if json::find_member(entries, key).is_none() {
        json::set_member(entries, key.to_owned(), value);
    }
}

/// Adds to the members of a schema a type and properties where they are missing.
pub fn complete_schema(entries: &mut Vec<(String, String)>)
    ensures
        json::pair_views(final(entries)@) == schema_members(json::pair_views(old(entries)@)),
{
    default_member(entries, "type", json::quote_json("object"));
    default_member(entries, "properties", json::object_without_members().text);
}

/// The parameters of a tool.
pub fn parameters_of(schema: &Option<Json>) -> (r: Json)
    ensures
        r@ == parameters(*schema),
{
    let s = match schema {
        Some(v) => v.clone(),
        None => json::object_without_members(),
    };
    match s.members() {
        Some(found) => {
            let mut entries = found;
            complete_schema(&mut entries);
            json::object_of(&entries)
        },
        None => s,
    }
}

fn convert_tool(t: &ToolDef) -> (r: OpenAITool)
    ensures
        r@ == converted_tool(*t),
{
    OpenAITool {
        tool_type: "function".to_owned(),
        function: OpenAIToolFunction {
            name: t.name.clone(),
            description: take_or(&t.description, ""),
            parameters: parameters_of(&t.input_schema),
        },
    }
}

fn convert_tools(tools: &Vec<ToolDef>) -> (r: Vec<OpenAITool>)
    ensures
        types::tool_views(r@) == tools@.map_values(|t: ToolDef| converted_tool(t)),
{
    let ghost all = tools@.map_values(|t: ToolDef| converted_tool(t));
    let mut r: Vec<OpenAITool> = Vec::new();
    let mut i: usize = 0;
    while i < tools.len()
        invariant
            all == tools@.map_values(|t: ToolDef| converted_tool(t)),
            i <= tools@.len(),
            types::tool_views(r@) == all.take(i as int),
        decreases tools.len() - i,
    {
        let ghost before = types::tool_views(r@);
        r.push(convert_tool(&tools[i]));
        assert(types::tool_views(r@) =~= before.push(converted_tool(tools@[i as int])));
        assert(types::tool_views(r@) =~= all.take(i + 1));
        i = i + 1;
    }
    assert(all.take(all.len() as int) =~= all);
    r
}

// ---------------------------------------------------------------------------
// Requests
// ---------------------------------------------------------------------------

/// The texts of the text blocks of a system prompt.
pub open spec fn prompt_texts(blocks: Seq<TextBlock>) -> Seq<Seq<char>>
    decreases blocks.len(),
{
    if blocks.len() == 0 {
        Seq::empty()
    } else if blocks.last().block_type@ == "text"@ {
        prompt_texts(blocks.drop_last()).push(blocks.last().text@)
    } else {
        prompt_texts(blocks.drop_last())
    }
}

/// What a request says as the system.
pub open spec fn system_text(req: AnthropicRequest, config: LLMConfig) -> Seq<char> {
    let own = match req.system {
        Some(SystemPrompt::String(s)) => s@,
        Some(SystemPrompt::Blocks(blocks)) => text::joined(prompt_texts(blocks@), " "@),
        None => Seq::empty(),
    };
    if req.tools@.len() > 0 && !config.supports_native_function_calling {
        own + TOOLS_INSTRUCTION@
    } else {
        own
    }
}

/// The messages of the converted request: the system, where it says something,
/// and the messages of the request, all of them sanitized.
pub open spec fn request_messages(req: AnthropicRequest, config: LLMConfig) -> Seq<MessageView> {
    let own = system_text(req, config);
    all_sanitized(
        (if own.len() > 0 {
            seq![said_by("system"@, own)]
        } else {
            Seq::empty()
        }) + all_converted(req.messages@),
    )
}

/// Whether everything in `r` but its messages is as in the converted request.
pub open spec fn is_converted_but_messages(
    r: OpenAIRequest,
    req: AnthropicRequest,
    config: LLMConfig,
) -> bool {
    &&& r.model@ == config.model_name@
    &&& r.stream
    &&& r.max_tokens == (match req.max_tokens {
        Some(n) => if n < MAX_TOKENS {
            Some(n)
        } else {
            Some(MAX_TOKENS)
        },
        None => None,
    })
    &&& r.temperature == req.temperature
    &&& r.top_p == req.top_p
    &&& match (r.stop, req.stop_sequences) {
        (Some(a), Some(b)) => text::views(a@) == text::views(b@).take(
            if b@.len() < MAX_STOPS {
                b@.len() as int
            } else {
                MAX_STOPS as int
            },
        ),
        (None, None) => true,
        _ => false,
    }
    &&& match r.tools {
        Some(v) => req.tools@.len() > 0 && types::tool_views(v@) == req.tools@.map_values(
            |t: ToolDef| converted_tool(t),
        ),
        None => req.tools@.len() == 0,
    }
}

/// Whether `r` is the converted request.
pub open spec fn is_converted(r: OpenAIRequest, req: AnthropicRequest, config: LLMConfig) -> bool {
    &&& is_converted_but_messages(r, req, config)
    &&& types::message_views(r.messages@) == request_messages(req, config)
}

fn prompt_texts_of(blocks: &Vec<TextBlock>) -> (r: Vec<String>)
    ensures
        text::views(r@) == prompt_texts(blocks@),
{
    let mut parts: Vec<String> = Vec::new();
    let mut i: usize = 0;
    assert(blocks@.take(0) =~= Seq::<TextBlock>::empty());
    assert(text::views(parts@) =~= Seq::<Seq<char>>::empty());
    while i < blocks.len()
        invariant
            i <= blocks@.len(),
            text::views(parts@) == prompt_texts(blocks@.take(i as int)),
        decreases blocks.len() - i,
    {
        proof {
            assert(blocks@.take(i + 1).drop_last() =~= blocks@.take(i as int));
            assert(blocks@.take(i + 1).last() == blocks@[i as int]);
        }
        if text::same(blocks[i].block_type.as_str(), "text") {
            push_text(&mut parts, blocks[i].text.clone());
        }
        i = i + 1;
    }
    assert(blocks@.take(blocks@.len() as int) =~= blocks@);
    parts
}

fn system_text_of(req: &AnthropicRequest, config: &LLMConfig) -> (r: String)
    ensures
        r@ == system_text(*req, *config),
{
    let mut own = match &req.system {
        Some(SystemPrompt::String(s)) => s.clone(),
        Some(SystemPrompt::Blocks(blocks)) => text::join(&prompt_texts_of(blocks), " "),
        None => String::new(),
    };
    if req.tools.len() > 0 && !config.supports_native_function_calling {
        own.append(TOOLS_INSTRUCTION);
    }
    own
}

fn first_stops(stops: &Vec<String>) -> (r: Vec<String>)
    ensures
        text::views(r@) == text::views(stops@).take(
            if stops@.len() < MAX_STOPS {
                stops@.len() as int
            } else {
                MAX_STOPS as int
            },
        ),
{
    let mut r: Vec<String> = Vec::new();
    let mut i: usize = 0;
    assert(text::views(r@) =~= text::views(stops@).take(0));
    while i < stops.len() && i < MAX_STOPS
        invariant
            i <= stops@.len(),
            i <= MAX_STOPS,
            text::views(r@) == text::views(stops@).take(i as int),
        decreases stops.len() - i,
    {
        push_text(&mut r, stops[i].clone());
        assert(text::views(r@) =~= text::views(stops@).take(i + 1));
        i = i + 1;
    }
    r
}

/// From an Anthropic request to an OpenAI request.
pub fn convert_to_openai_req(anthropic_req: &AnthropicRequest, llm_config: &LLMConfig) -> (r:
    OpenAIRequest)
    ensures
        is_converted(r, *anthropic_req, *llm_config),
        forall|i: int|
            0 <= i < r.messages@.len() ==> is_valid((#[trigger] r.messages@[i])@),
{
    let mut messages: Vec<OpenAIMessage> = Vec::new();
    let own = system_text_of(anthropic_req, llm_config);
    let ghost first: Seq<MessageView> = if own@.len() > 0 {
        seq![said_by("system"@, own@)]
    } else {
        Seq::empty()
    };
    if !own.as_str().is_empty() {
        push_message(&mut messages, message_by("system", own));
    }
    assert(types::message_views(messages@) =~= first);
    let mut i: usize = 0;
    assert(anthropic_req.messages@.take(0) =~= Seq::<AnthropicMessage>::empty());
    assert(first + all_converted(anthropic_req.messages@.take(0)) =~= first);
    while i < anthropic_req.messages.len()
        invariant
            i <= anthropic_req.messages@.len(),
            types::message_views(messages@) == first + all_converted(
                anthropic_req.messages@.take(i as int),
            ),
        decreases anthropic_req.messages.len() - i,
    {
        let ghost done = all_converted(anthropic_req.messages@.take(i as int));
        proof {
            let next = anthropic_req.messages@.take(i + 1);
            assert(next.drop_last() =~= anthropic_req.messages@.take(i as int));
            assert(next.last() == anthropic_req.messages@[i as int]);
            assert(first + done + converted(next.last()) =~= first + (done + converted(
                next.last(),
            )));
        }
        convert_message(&anthropic_req.messages[i], &mut messages);
        i = i + 1;
    }
    assert(anthropic_req.messages@.take(anthropic_req.messages@.len() as int)
        =~= anthropic_req.messages@);
    let ghost raw = types::message_views(messages@);
    sanitize_messages(&mut messages);
    assert(types::message_views(messages@).len() == messages@.len());
    assert(all_sanitized(raw).len() == raw.len());
    assert forall|j: int| 0 <= j < messages@.len() implies is_valid(
        (#[trigger] messages@[j])@,
    ) by {
        assert(types::message_views(messages@)[j] == messages@[j]@);
        assert(all_sanitized(raw)[j] == sanitized(raw[j]));
        law_sanitized(raw[j]);
    }
    OpenAIRequest {
        model: llm_config.model_name.clone(),
        messages,
        stream: true,
        tools: if anthropic_req.tools.len() > 0 {
            Some(convert_tools(&anthropic_req.tools))
        } else {
            None
        },
        max_tokens: match anthropic_req.max_tokens {
            Some(n) => if n < MAX_TOKENS {
                Some(n)
            } else {
                Some(MAX_TOKENS)
            },
            None => None,
        },
        temperature: anthropic_req.temperature,
        top_p: anthropic_req.top_p,
        stop: match &anthropic_req.stop_sequences {
            Some(stops) => Some(first_stops(stops)),
            None => None,
        },
    }
}

// ---------------------------------------------------------------------------
// What is kept of a request
// ---------------------------------------------------------------------------

/// How many of the first `n` blocks are of the type `kind`.
pub open spec fn rank(blocks: Seq<ContentBlock>, kind: Seq<char>, n: int) -> int
    decreases n,
{
    if n <= 0 {
        0
    } else if blocks[n - 1].block_type@ == kind {
        rank(blocks, kind, n - 1) + 1
    } else {
        rank(blocks, kind, n - 1)
    }
}

/// How many of the first `n` blocks are of the type `text` and have a text.
pub open spec fn text_rank(blocks: Seq<ContentBlock>, n: int) -> int
    decreases n,
{
    if n <= 0 {
        0
    } else if blocks[n - 1].block_type@ == "text"@ && blocks[n - 1].text is Some {
        text_rank(blocks, n - 1) + 1
    } else {
        text_rank(blocks, n - 1)
    }
}

proof fn lemma_rank(blocks: Seq<ContentBlock>, kind: Seq<char>, i: int, n: int)
    requires
        0 <= i <= n <= blocks.len(),
    ensures
        0 <= rank(blocks, kind, i) <= rank(blocks, kind, n),
        i < n && blocks[i].block_type@ == kind ==> rank(blocks, kind, i) < rank(blocks, kind, n),
        0 <= text_rank(blocks, i) <= text_rank(blocks, n),
        i < n && blocks[i].block_type@ == "text"@ && blocks[i].text is Some ==> text_rank(blocks, i)
            < text_rank(blocks, n),
    decreases n,
{
    if i < n {
        lemma_rank(blocks, kind, i, n - 1);
    } else if n > 0 {
        lemma_rank(blocks, kind, n - 1, n - 1);
    }
}

proof fn lemma_rank_front(blocks: Seq<ContentBlock>, kind: Seq<char>, n: int)
    requires
        0 <= n < blocks.len(),
    ensures
        rank(blocks.drop_last(), kind, n) == rank(blocks, kind, n),
        text_rank(blocks.drop_last(), n) == text_rank(blocks, n),
    decreases n,
{
    if n > 0 {
        lemma_rank_front(blocks, kind, n - 1);
        assert(blocks.drop_last()[n - 1] == blocks[n - 1]);
    }
}

/// Every `tool_use` block gives one call, in their order, with its identifier,
/// its name and its input.
proof fn lemma_calls_kept(blocks: Seq<ContentBlock>)
    ensures
        assistant_calls(blocks).len() == rank(blocks, "tool_use"@, blocks.len() as int),
        forall|i: int|
            0 <= i < blocks.len() && (#[trigger] blocks[i]).block_type@ == "tool_use"@ ==> {
                let c = assistant_calls(blocks)[rank(blocks, "tool_use"@, i)];
                &&& c.id == match blocks[i].id {
                    Some(x) => x@,
                    None => ""@,
                }
                &&& c.name == match blocks[i].name {
                    Some(x) => x@,
                    None => ""@,
                }
                &&& c.arguments == match blocks[i].input {
                    Some(v) => v@,
                    None => seq!['{', '}'],
                }
                &&& c.call_type == "function"@
            },
    decreases blocks.len(),
{
    let kind = "tool_use"@;
    if blocks.len() > 0 {
        let front = blocks.drop_last();
        let n = front.len() as int;
        lemma_calls_kept(front);
        lemma_rank_front(blocks, kind, n);
        json::lemma_empty_object();
        assert forall|i: int|
            0 <= i < blocks.len() && (#[trigger] blocks[i]).block_type@ == kind implies {
            let c = assistant_calls(blocks)[rank(blocks, kind, i)];
            &&& c.id == match blocks[i].id {
                Some(x) => x@,
                None => ""@,
            }
            &&& c.name == match blocks[i].name {
                Some(x) => x@,
                None => ""@,
            }
            &&& c.arguments == match blocks[i].input {
                Some(v) => v@,
                None => seq!['{', '}'],
            }
            &&& c.call_type == "function"@
        } by {
            lemma_rank_front(blocks, kind, i);
            if i < n {
                assert(front[i] == blocks[i]);
                lemma_rank(front, kind, i, n);
            }
        }
    }
}

/// Every text of the assistant is kept, in order, without what a recovery wrote.
proof fn lemma_texts_kept(blocks: Seq<ContentBlock>)
    ensures
        assistant_texts(blocks).len() == text_rank(blocks, blocks.len() as int),
        forall|i: int|
            0 <= i < blocks.len() && (#[trigger] blocks[i]).block_type@ == "text"@
                && blocks[i].text is Some ==> assistant_texts(blocks)[text_rank(blocks, i)]
                == cleaned(blocks[i].text->0@),
    decreases blocks.len(),
{
    if blocks.len() > 0 {
        let front = blocks.drop_last();
        let n = front.len() as int;
        lemma_texts_kept(front);
        lemma_rank_front(blocks, "text"@, n);
        assert forall|i: int|
            0 <= i < blocks.len() && (#[trigger] blocks[i]).block_type@ == "text"@
                && blocks[i].text is Some implies assistant_texts(blocks)[text_rank(blocks, i)]
            == cleaned(blocks[i].text->0@) by {
            lemma_rank_front(blocks, "text"@, i);
            if i < n {
                assert(front[i] == blocks[i]);
                lemma_rank(front, "text"@, i, n);
            }
        }
    }
}

/// The assistant's blocks become one message, where there is a text or a call.
/// Its calls are those of the `tool_use` blocks: as many, in their order, each
/// with the identifier, the name and the input of its block. Its content is the
/// texts of the text blocks, in their order, with a blank between them.
pub proof fn law_assistant_kept(blocks: Seq<ContentBlock>)
    ensures
        ({
            let n = blocks.len() as int;
            let uses = rank(blocks, "tool_use"@, n);
            let texts = text_rank(blocks, n);
            let out = assistant_messages(blocks);
            &&& uses == 0 && texts == 0 ==> out.len() == 0
            &&& uses > 0 || texts > 0 ==> out.len() == 1 && out[0].role == "assistant"@
                && out[0].tool_call_id is None
            &&& uses == 0 && texts > 0 ==> out[0].tool_calls is None
            &&& uses > 0 ==> {
                let calls = out[0].tool_calls->0;
                &&& out[0].tool_calls is Some
                &&& calls.len() == uses
                &&& forall|i: int|
                    0 <= i < n && (#[trigger] blocks[i]).block_type@ == "tool_use"@ ==> {
                        let c = calls[rank(blocks, "tool_use"@, i)];
                        &&& c.id == match blocks[i].id {
                            Some(x) => x@,
                            None => ""@,
                        }
                        &&& c.name == match blocks[i].name {
                            Some(x) => x@,
                            None => ""@,
                        }
                        &&& c.arguments == match blocks[i].input {
                            Some(v) => v@,
                            None => seq!['{', '}'],
                        }
                        &&& c.call_type == "function"@
                    }
            }
            &&& uses > 0 || texts > 0 ==> exists|parts: Seq<Seq<char>>|
                {
                    &&& parts.len() == texts
                    &&& out[0].content == Some(
                        if uses == 0 && text::joined(parts, " "@).len() == 0 {
                            "(empty)"@
                        } else {
                            #[trigger] text::joined(parts, " "@)
                        },
                    )
                    &&& forall|i: int|
                        0 <= i < n && (#[trigger] blocks[i]).block_type@ == "text"@
                            && blocks[i].text is Some ==> parts[text_rank(blocks, i)] == cleaned(
                            blocks[i].text->0@,
                        )
                }
        }),
{
    lemma_calls_kept(blocks);
    lemma_texts_kept(blocks);
    let n = blocks.len() as int;
    lemma_rank(blocks, "tool_use"@, 0, n);
    let parts = assistant_texts(blocks);
    let whole = text::joined(parts, " "@);
    assert(whole == text::joined(parts, " "@));
}

/// The tool result that a block gives: of the call that it names, what the
/// result says, marked where it is an error.
pub open spec fn is_result_of(m: MessageView, b: ContentBlock) -> bool {
    &&& m.role == "tool"@
    &&& m.tool_calls is None
    &&& m.tool_call_id == Some(
        match b.tool_use_id {
            Some(x) => x@,
            None => "unknown"@,
        },
    )
    &&& m.content == Some(
        {
            let said = result_text(b.content);
            if b.is_error == Some(true) {
                "Error: "@ + said
            } else if said.len() == 0 {
                "(empty tool result)"@
            } else {
                said
            }
        },
    )
}

/// A tool result of the user stands alone, between what the blocks before it
/// and the blocks after it give.
pub proof fn law_user_split(a: Seq<ContentBlock>, b: ContentBlock, rest: Seq<ContentBlock>)
    requires
        b.block_type@ == "tool_result"@,
    ensures
        user_messages(a.push(b) + rest) == user_messages(a) + seq![result_message(b)]
            + user_messages(rest),
        is_result_of(result_message(b), b),
{
    reveal_strlit("Error: ");
    reveal_strlit("text");
    reveal_strlit("tool_result");
    assert("text"@.len() != "tool_result"@.len());
    assert(a.push(b).drop_last() =~= a);
    let start = user_messages(a).push(result_message(b));
    assert(user_progress(a.push(b)).0 =~= start);
    lemma_user_progress(a.push(b), rest);
    let (out, parts) = user_progress(rest);
    assert(with_texts(start + out, parts) =~= start + with_texts(out, parts));
    assert(start + user_messages(rest) =~= user_messages(a) + seq![result_message(b)]
        + user_messages(rest));
}

/// After a tool result nothing is left over.
proof fn lemma_user_progress(a: Seq<ContentBlock>, rest: Seq<ContentBlock>)
    requires
        user_progress(a).1.len() == 0,
    ensures
        user_progress(a + rest).0 == user_progress(a).0 + user_progress(rest).0,
        user_progress(a + rest).1 == user_progress(rest).1,
    decreases rest.len(),
{
    if rest.len() == 0 {
        assert(a + rest =~= a);
        assert(user_progress(a).0 + user_progress(rest).0 =~= user_progress(a).0);
        assert(user_progress(a).1 =~= user_progress(rest).1);
    } else {
        assert((a + rest).drop_last() =~= a + rest.drop_last());
        lemma_user_progress(a, rest.drop_last());
        let (out, parts) = user_progress(rest.drop_last());
        let start = user_progress(a).0;
        assert(with_texts(start + out, parts) =~= start + with_texts(out, parts));
        assert(with_texts(start + out, parts).push(result_message(rest.last())) =~= start
            + with_texts(out, parts).push(result_message(rest.last())));
    }
}

/// Texts of the user without a tool result among them become one message, with
/// all of them in their order.
pub proof fn law_user_texts(blocks: Seq<ContentBlock>)
    requires
        forall|i: int|
            0 <= i < blocks.len() ==> (#[trigger] blocks[i]).block_type@ != "tool_result"@,
    ensures
        ({
            let n = text_rank(blocks, blocks.len() as int);
            let out = user_messages(blocks);
            &&& n == 0 ==> out.len() == 0
            &&& n > 0 ==> out.len() == 1 && out[0].role == "user"@ && out[0].tool_calls is None
                && out[0].tool_call_id is None && exists|parts: Seq<Seq<char>>|
                {
                    &&& parts.len() == n
                    &&& out[0].content == Some(#[trigger] text::joined(parts, " "@))
                    &&& forall|i: int|
                        0 <= i < blocks.len() && (#[trigger] blocks[i]).block_type@ == "text"@
                            && blocks[i].text is Some ==> parts[text_rank(blocks, i)]
                            == blocks[i].text->0@
                }
        }),
{
    lemma_user_texts(blocks);
    let parts = user_progress(blocks).1;
    let whole = text::joined(parts, " "@);
    assert(whole == text::joined(parts, " "@));
    if parts.len() > 0 {
        assert(user_messages(blocks) =~= seq![said_by("user"@, whole)]);
        assert(user_messages(blocks)[0].content == Some(text::joined(parts, " "@)));
    }
}

proof fn lemma_user_texts(blocks: Seq<ContentBlock>)
    requires
        forall|i: int|
            0 <= i < blocks.len() ==> (#[trigger] blocks[i]).block_type@ != "tool_result"@,
    ensures
        user_progress(blocks).0.len() == 0,
        user_progress(blocks).1.len() == text_rank(blocks, blocks.len() as int),
        forall|i: int|
            0 <= i < blocks.len() && (#[trigger] blocks[i]).block_type@ == "text"@
                && blocks[i].text is Some ==> user_progress(blocks).1[text_rank(blocks, i)]
                == blocks[i].text->0@,
    decreases blocks.len(),
{
    if blocks.len() > 0 {
        let front = blocks.drop_last();
        let n = front.len() as int;
        assert(forall|i: int| 0 <= i < n ==> front[i] == blocks[i]);
        lemma_user_texts(front);
        lemma_rank_front(blocks, "text"@, n);
        assert(blocks[n].block_type@ != "tool_result"@);
        assert forall|i: int|
            0 <= i < blocks.len() && (#[trigger] blocks[i]).block_type@ == "text"@
                && blocks[i].text is Some implies user_progress(blocks).1[text_rank(blocks, i)]
            == blocks[i].text->0@ by {
            lemma_rank_front(blocks, "text"@, i);
            if i < n {
                assert(front[i] == blocks[i]);
                lemma_rank(front, "text"@, i, n);
            }
        }
    }
}

/// A message that is a text stays one message, by the same role and with the
/// same text: an empty one says that it is empty, and what a recovery wrote is
/// left out of what the assistant said.
pub proof fn law_text_message_kept(msg: AnthropicMessage)
    requires
        msg.content is String,
    ensures
        ({
            let t = msg.content->String_0@;
            let out = converted(msg);
            &&& out.len() == 1
            &&& out[0].role == msg.role@
            &&& out[0].tool_calls is None
            &&& out[0].tool_call_id is None
            &&& t.len() > 0 && !(msg.role@ == "assistant"@ && text::holds(
                t,
                recovery::RECOVERY_MARK@,
            )) ==> out[0].content == Some(t)
            &&& t.len() == 0 && msg.role@ != "assistant"@ ==> out[0].content == Some("(empty)"@)
        }),
{
}

/// Messages are converted one after the other.
pub proof fn law_messages_in_order(a: Seq<AnthropicMessage>, b: Seq<AnthropicMessage>)
    ensures
        all_converted(a + b) == all_converted(a) + all_converted(b),
        a.len() == 1 ==> all_converted(a) == converted(a[0]),
    decreases b.len(),
{
    if b.len() == 0 {
        assert(a + b =~= a);
        assert(all_converted(a) + all_converted(b) =~= all_converted(a));
    } else {
        assert((a + b).drop_last() =~= a + b.drop_last());
        law_messages_in_order(a, b.drop_last());
        assert(all_converted(a) + all_converted(b.drop_last()) + converted(b.last())
            =~= all_converted(a) + all_converted(b));
    }
    if a.len() == 1 {
        assert(a.drop_last() =~= Seq::<AnthropicMessage>::empty());
        assert(all_converted(a.drop_last()) =~= Seq::<MessageView>::empty());
        assert(all_converted(a) =~= converted(a[0]));
    }
}

/// Sanitizing changes nothing but a content that is missing or blank and an
/// identifier that is missing.
pub proof fn law_sanitized_keeps(m: MessageView)
    ensures
        !is_blank(m.content) ==> sanitized(m).content == m.content,
        m.tool_call_id is Some ==> sanitized(m).tool_call_id == m.tool_call_id,
        m.role != "tool"@ ==> sanitized(m).tool_call_id == m.tool_call_id,
        m.role == "assistant"@ && (m.content is Some || m.tool_calls is Some)
            ==> sanitized(m).content == m.content,
        is_blank(m.content) && (m.role == "user"@ || m.role == "system"@)
            ==> sanitized(m).content == Some("(empty)"@),
        is_blank(m.content) && m.role == "tool"@ ==> sanitized(m).content == Some(
            "(empty tool result)"@,
        ),
{
    reveal_strlit("user");
    reveal_strlit("system");
    reveal_strlit("tool");
    reveal_strlit("assistant");
    assert("user"@[0] != "tool"@[0]);
    assert("system"@[0] != "tool"@[0]);
    assert("assistant"@[0] != "tool"@[0]);
}

/// The schema of a tool keeps all its members; a type and properties are added
/// where they are missing.
pub proof fn law_schema_kept(entries: Seq<(Seq<char>, Seq<char>)>, key: Seq<char>)
    ensures
        json::lookup(entries, key) is Some ==> json::lookup(schema_members(entries), key)
            == json::lookup(entries, key),
        json::lookup(entries, key) is None ==> json::lookup(schema_members(entries), key) == (
        if key == "type"@ {
            Some(json::quoted("object"@))
        } else if key == "properties"@ {
            Some(seq!['{', '}'])
        } else {
            None
        }),
{
    reveal_strlit("type");
    reveal_strlit("properties");
    assert("type"@.len() != "properties"@.len());
    json::lemma_empty_object();
    let typed = with_default(entries, "type"@, json::quoted("object"@));
    json::law_with_member_found(entries, "type"@, json::quoted("object"@), key);
    json::law_with_member_found(entries, "type"@, json::quoted("object"@), "properties"@);
    json::law_with_member_found(typed, "properties"@, json::empty_object(), key);
}

/// What a converted request takes from the request and the configuration.
pub proof fn law_request_kept(r: OpenAIRequest, req: AnthropicRequest, config: LLMConfig)
    requires
        is_converted(r, req, config),
    ensures
        r.model@ == config.model_name@,
        r.stream,
        req.max_tokens is None ==> r.max_tokens is None,
        req.max_tokens matches Some(n) ==> (r.max_tokens matches Some(m) && m <= n && m <= 8192 && (
        m == n || m == 8192)),
        r.temperature == req.temperature,
        r.top_p == req.top_p,
        req.stop_sequences is None <==> r.stop is None,
        req.stop_sequences matches Some(a) ==> (r.stop matches Some(b) && (b@.len() == a@.len()
            || b@.len() == 4 && a@.len() > 4) && forall|i: int|
            0 <= i < b@.len() ==> (#[trigger] b@[i])@ == a@[i]@),
        req.tools@.len() == 0 <==> r.tools is None,
        req.tools@.len() > 0 ==> (r.tools matches Some(v) && v@.len() == req.tools@.len()
            && forall|i: int|
            0 <= i < v@.len() ==> {
                let t = #[trigger] v@[i];
                &&& t@.tool_type == "function"@
                &&& t@.name == req.tools@[i].name@
                &&& t@.description == match req.tools@[i].description {
                    Some(d) => d@,
                    None => ""@,
                }
                &&& t@.parameters == parameters(req.tools@[i].input_schema)
            }),
{
    if let Some(a) = req.stop_sequences {
        let b = r.stop->0;
        let n = if a@.len() < MAX_STOPS {
            a@.len() as int
        } else {
            MAX_STOPS as int
        };
        assert(text::views(b@).len() == b@.len());
        assert(text::views(a@).take(n).len() == n);
        assert forall|i: int| 0 <= i < b@.len() implies (#[trigger] b@[i])@ == a@[i]@ by {
            assert(text::views(b@)[i] == b@[i]@);
            assert(text::views(a@).take(n)[i] == a@[i]@);
        }
    }
    if req.tools@.len() > 0 {
        let v = r.tools->0;
        let all = req.tools@.map_values(|t: ToolDef| converted_tool(t));
        assert(types::tool_views(v@).len() == v@.len());
        assert forall|i: int| 0 <= i < v@.len() implies {
            let t = #[trigger] v@[i];
            &&& t@.tool_type == "function"@
            &&& t@.name == req.tools@[i].name@
            &&& t@.description == match req.tools@[i].description {
                Some(d) => d@,
                None => ""@,
            }
            &&& t@.parameters == parameters(req.tools@[i].input_schema)
        } by {
            assert(types::tool_views(v@)[i] == v@[i]@);
            assert(all[i] == converted_tool(req.tools@[i]));
        }
    }
}

/// The messages of a converted request: first what the request says as the
/// system, with the instruction on tools where the model needs it, if that is
/// anything; after it what its messages become.
pub proof fn law_request_messages(r: OpenAIRequest, req: AnthropicRequest, config: LLMConfig)
    requires
        is_converted(r, req, config),
    ensures
        ({
            let own = system_text(req, config);
            let first: int = if own.len() > 0 {
                1
            } else {
                0
            };
            let rest = all_converted(req.messages@);
            &&& req.system is None && (req.tools@.len() == 0
                || config.supports_native_function_calling) ==> own.len() == 0
            &&& req.system matches Some(SystemPrompt::String(t)) ==> (req.tools@.len() == 0
                || config.supports_native_function_calling) ==> own == t@
            &&& req.system matches Some(SystemPrompt::String(t)) ==> (req.tools@.len() > 0
                && !config.supports_native_function_calling) ==> own == t@ + TOOLS_INSTRUCTION@
            &&& r.messages@.len() == first + rest.len()
            &&& own.len() > 0 ==> r.messages@[0]@.role == "system"@ && (text::trim(own).len() > 0
                ==> r.messages@[0]@.content == Some(own))
            &&& forall|i: int|
                0 <= i < rest.len() ==> r.messages@[first + i]@ == sanitized(#[trigger] rest[i])
        }),
{
    let own = system_text(req, config);
    let head = if own.len() > 0 {
        seq![said_by("system"@, own)]
    } else {
        Seq::empty()
    };
    let rest = all_converted(req.messages@);
    let all = head + rest;
    let views = types::message_views(r.messages@);
    assert(views == all_sanitized(all));
    assert(views.len() == r.messages@.len());
    assert(all_sanitized(all).len() == all.len());
    if own.len() > 0 {
        assert(views[0] == r.messages@[0]@);
        assert(all_sanitized(all)[0] == sanitized(all[0]));
        law_sanitized(all[0]);
        law_sanitized_keeps(all[0]);
    }
    assert forall|i: int| 0 <= i < rest.len() implies r.messages@[head.len() + i]@ == sanitized(
        #[trigger] rest[i],
    ) by {
        assert(views[head.len() + i] == r.messages@[head.len() + i]@);
        assert(all_sanitized(all)[head.len() + i] == sanitized(all[head.len() + i]));
        assert(all[head.len() + i] == rest[i]);
    }
}

/// A text of the history is kept as it is, unless a recovery wrote it.
pub proof fn law_cleaned_keeps(t: Seq<char>)
    ensures
        !text::holds(t, "[holoProxy Recovery"@) ==> cleaned(t) == t,
        text::holds(t, "[holoProxy Recovery"@) ==> cleaned(t)
            == "(Previous auto-recovery signal omitted to save context)"@,
{
}

/// The texts of a tool result are those of its items, in their order: an item
/// with a text gives it whole, any other gives none.
pub proof fn law_item_texts(a: Seq<Seq<char>>, b: Seq<Seq<char>>, item: Seq<char>)
    ensures
        item_texts(Seq::empty()) == Seq::<Seq<char>>::empty(),
        item_texts(a + b) == item_texts(a) + item_texts(b),
        json::json_member_string(item, "text"@) matches Some(t) ==> item_texts(seq![item])
            == seq![t],
        json::json_member_string(item, "text"@) is None ==> item_texts(seq![item]).len() == 0,
    decreases b.len(),
{
    assert(seq![item].drop_last() =~= Seq::<Seq<char>>::empty());
    assert(item_texts(Seq::empty()) =~= Seq::<Seq<char>>::empty());
    if let Some(t) = json::json_member_string(item, "text"@) {
        assert(item_texts(seq![item]) =~= seq![t]);
    }
    if b.len() == 0 {
        assert(a + b =~= a);
        assert(item_texts(a) + item_texts(b) =~= item_texts(a));
    } else {
        law_item_texts(a, b.drop_last(), item);
        assert((a + b).drop_last() =~= a + b.drop_last());
        assert(item_texts(a + b) =~= item_texts(a) + item_texts(b));
    }
}

/// A tool result says the texts of its items with blanks between them; one that
/// is no array says what it is, and one without content nothing.
pub proof fn law_result_text(v: Json, items: Seq<Seq<char>>)
    requires
        json::json_items(v@) == Some(items) || json::json_items(v@) is None,
    ensures
        json::json_items(v@) is None ==> result_text(Some(v)) == v@,
        result_text(None).len() == 0,
        json::json_items(v@) is Some && items.len() == 1 ==> (json::json_member_string(
            items[0],
            "text"@,
        ) matches Some(t) ==> result_text(Some(v)) == t),
        json::json_items(v@) is Some && items.len() == 2 ==> (json::json_member_string(
            items[0],
            "text"@,
        ) matches Some(t) ==> json::json_member_string(items[1], "text"@) matches Some(u)
            ==> result_text(Some(v)) == t + seq![' '] + u),
{
    reveal_strlit(" ");
    assert(" "@ =~= seq![' ']);
    if json::json_items(v@) is Some && items.len() > 0 {
        law_item_texts(Seq::empty(), items, items[0]);
        if items.len() == 1 {
            assert(items =~= seq![items[0]]);
        }
        if items.len() == 2 {
            assert(items =~= seq![items[0]] + seq![items[1]]);
            law_item_texts(seq![items[0]], seq![items[1]], items[0]);
            law_item_texts(seq![items[0]], seq![items[1]], items[1]);
            if json::json_member_string(items[0], "text"@) is Some && json::json_member_string(
                items[1],
                "text"@,
            ) is Some {
                let t = json::json_member_string(items[0], "text"@)->0;
                let u = json::json_member_string(items[1], "text"@)->0;
                assert(seq![t] + seq![u] =~= seq![t, u]);
                text::law_joined(seq![t], seq![u], " "@, t);
                text::law_joined(seq![t], seq![u], " "@, u);
            }
        }
    }
}

/// The texts of a message that neither the user nor the assistant says are those
/// of its blocks, in their order.
pub proof fn law_all_texts(a: Seq<ContentBlock>, b: Seq<ContentBlock>, block: ContentBlock)
    ensures
        all_texts(Seq::empty()) == Seq::<Seq<char>>::empty(),
        all_texts(a + b) == all_texts(a) + all_texts(b),
        block.text matches Some(t) ==> all_texts(seq![block]) == seq![t@],
        block.text is None ==> all_texts(seq![block]).len() == 0,
    decreases b.len(),
{
    assert(seq![block].drop_last() =~= Seq::<ContentBlock>::empty());
    assert(all_texts(Seq::empty()) =~= Seq::<Seq<char>>::empty());
    if let Some(t) = block.text {
        assert(all_texts(seq![block]) =~= seq![t@]);
    }
    if b.len() == 0 {
        assert(a + b =~= a);
        assert(all_texts(a) + all_texts(b) =~= all_texts(a));
    } else {
        law_all_texts(a, b.drop_last(), block);
        assert((a + b).drop_last() =~= a + b.drop_last());
        assert(all_texts(a + b) =~= all_texts(a) + all_texts(b));
    }
}

/// The texts of a system prompt are those of its text blocks, in their order.
pub proof fn law_prompt_texts(a: Seq<TextBlock>, b: Seq<TextBlock>, block: TextBlock)
    ensures
        prompt_texts(Seq::empty()) == Seq::<Seq<char>>::empty(),
        prompt_texts(a + b) == prompt_texts(a) + prompt_texts(b),
        block.block_type@ == "text"@ ==> prompt_texts(seq![block]) == seq![block.text@],
        block.block_type@ != "text"@ ==> prompt_texts(seq![block]).len() == 0,
    decreases b.len(),
{
    assert(seq![block].drop_last() =~= Seq::<TextBlock>::empty());
    assert(prompt_texts(Seq::empty()) =~= Seq::<Seq<char>>::empty());
    if block.block_type@ == "text"@ {
        assert(prompt_texts(seq![block]) =~= seq![block.text@]);
    }
    if b.len() == 0 {
        assert(a + b =~= a);
        assert(prompt_texts(a) + prompt_texts(b) =~= prompt_texts(a));
    } else {
        law_prompt_texts(a, b.drop_last(), block);
        assert((a + b).drop_last() =~= a + b.drop_last());
        assert(prompt_texts(a + b) =~= prompt_texts(a) + prompt_texts(b));
    }
}

/// What a request says as the system is kept whole; a model that cannot be
/// called by tools natively is told about the tools after it.
pub proof fn law_system_said(req: AnthropicRequest, config: LLMConfig)
    ensures
        ({
            let said = system_text(req, config);
            let told = req.tools@.len() > 0 && !config.supports_native_function_calling;
            &&& req.system matches Some(SystemPrompt::String(s)) ==> text::begins(said, s@) && (
            !told ==> said == s@)
            &&& req.system is None && !told ==> said.len() == 0
            &&& told ==> TOOLS_INSTRUCTION@.len() <= said.len() && said.skip(
                said.len() - TOOLS_INSTRUCTION@.len(),
            ) == TOOLS_INSTRUCTION@
        }),
{
    let said = system_text(req, config);
    if let Some(SystemPrompt::String(s)) = req.system {
        assert(said.subrange(0, s@.len() as int) =~= s@);
    }
    if req.tools@.len() > 0 && !config.supports_native_function_calling {
        let n = said.len() - TOOLS_INSTRUCTION@.len();
        assert(said.skip(n) =~= TOOLS_INSTRUCTION@);
    }
}

/// A message of blocks is converted by who says it: what the user says as texts
/// and tool results, what the assistant says as texts and calls, and anything
/// else as one message with all its texts.
pub proof fn law_block_message_kept(msg: AnthropicMessage)
    requires
        msg.content is Blocks,
    ensures
        ({
            let blocks = msg.content->Blocks_0@;
            let out = converted(msg);
            &&& msg.role@ == "user"@ ==> out == user_messages(blocks)
            &&& msg.role@ == "assistant"@ ==> out == assistant_messages(blocks)
            &&& msg.role@ != "user"@ && msg.role@ != "assistant"@ ==> {
                &&& out.len() == 1
                &&& out[0].role == msg.role@
                &&& out[0].tool_calls is None
                &&& text::joined(all_texts(blocks), " "@).len() > 0 ==> out[0].content == Some(
                    text::joined(all_texts(blocks), " "@),
                )
                &&& text::joined(all_texts(blocks), " "@).len() == 0 ==> out[0].content == Some(
                    "(empty)"@,
                )
            }
        }),
{
    reveal_strlit("user");
    reveal_strlit("assistant");
    assert("user"@.len() != "assistant"@.len());
}

/// The parameters of a tool are its schema, member for member, with a type and
/// properties where they are missing; a schema that is no object stays as it is.
pub proof fn law_parameters(schema: Json, entries: Seq<(Seq<char>, Seq<char>)>)
    ensures
        json::json_members(schema@) is None ==> parameters(Some(schema)) == schema@,
        json::json_members(schema@) == Some(entries) && json::lookup(entries, "type"@) is Some
            && json::lookup(entries, "properties"@) is Some ==> parameters(Some(schema))
            == json::object_text(entries),
        json::json_members(schema@) == Some(entries) ==> parameters(Some(schema))
            == json::object_text(schema_members(entries)),
{
}

} // verus!
