//! Recovery: deciding whether a reply broke off, and which tool call keeps the
//! client going where it did.
use vstd::prelude::*;
use vstd::string::*;

use crate::json;
use crate::json::Json;
use crate::text;
use crate::tools;
use crate::tools::{ToolEntry, ToolTable};
use crate::types;
use crate::types::LLMConfig;
use crate::upstream;
use crate::wire;

verus! {

// ---------------------------------------------------------------------------
// What the text alone shows
// ---------------------------------------------------------------------------

/// What a recovery writes into the reply begins with this.
pub const RECOVERY_MARK: &'static str = "[holoProxy Recovery";

/// What a failure writes into the reply begins with this.
pub const ERROR_MARK: &'static str = "[holoProxy Error";

/// What betrays an error message, in the order in which they are looked for.
pub open spec fn keywords() -> Seq<Seq<char>> {
    seq![
        "timed out"@,
        "empty or malformed response"@,
        "api error"@,
        "operation timed out"@,
        "malformed"@,
        "connection"@,
        "unreachable"@,
        "502"@,
        "503"@,
        "504"@,
        "gateway"@,
        "proxy error"@,
        "internal server error"@,
        "connection refused"@,
        "connection reset"@,
        "network error"@,
        "request failed"@,
    ]
}

fn keyword_list() -> (r: Vec<String>)
    ensures
        text::views(r@) == keywords(),
{
    let r = vec![
        "timed out".to_owned(),
        "empty or malformed response".to_owned(),
        "api error".to_owned(),
        "operation timed out".to_owned(),
        "malformed".to_owned(),
        "connection".to_owned(),
        "unreachable".to_owned(),
        "502".to_owned(),
        "503".to_owned(),
        "504".to_owned(),
        "gateway".to_owned(),
        "proxy error".to_owned(),
        "internal server error".to_owned(),
        "connection refused".to_owned(),
        "connection reset".to_owned(),
        "network error".to_owned(),
        "request failed".to_owned(),
    ];
    assert(text::views(r@) =~= keywords());
    r
}

/// The first of `words` from position `from` on that stands in `t`.
pub open spec fn first_held(t: Seq<char>, words: Seq<Seq<char>>, from: int) -> Option<Seq<char>>
    decreases words.len() - from,
{
    if from < 0 || from >= words.len() {
        None
    } else if text::holds(t, words[from]) {
        Some(words[from])
    } else {
        first_held(t, words, from + 1)
    }
}

/// The keyword that a text in lower case holds.
pub fn keyword_in(lower: &str) -> (r: Option<String>)
    ensures
        match r {
            Some(w) => first_held(lower@, keywords(), 0) == Some(w@),
            None => first_held(lower@, keywords(), 0) is None,
        },
{
    let words = keyword_list();
    let mut i: usize = 0;
    while i < words.len()
        invariant
            text::views(words@) == keywords(),
            i <= words@.len(),
            first_held(lower@, keywords(), 0) == first_held(lower@, keywords(), i as int),
        decreases words.len() - i,
    {
        assert(keywords()[i as int] == words@[i as int]@);
        if text::contains_text(lower, words[i].as_str()) {
            return Some(words[i].clone());
        }
        i = i + 1;
    }
    assert(keywords().len() == words@.len());
    None
}

/// The reason to recover that a reply and its stop reason show by themselves.
pub open spec fn plain_reason(generated: Seq<char>, stop_reason: Seq<char>) -> Option<Seq<char>> {
    if stop_reason == "length"@ {
        Some("stop_reason=length"@)
    } else if is_marked(generated) {
        None
    } else {
        match first_held(text::lowercase(generated), keywords(), 0) {
            Some(w) => Some("detected API error keyword: "@ + w),
            None => if text::trim(generated).len() == 0 {
                Some("empty or whitespace-only text"@)
            } else {
                None
            },
        }
    }
}

/// Fast checks: the reason to recover that a reply and its stop reason show by
/// themselves; `None` where more analysis is needed.
pub fn hardcoded_checks(generated_text: &str, stop_reason: &str) -> (r: Option<String>)
    ensures
        match r {
            Some(reason) => plain_reason(generated_text@, stop_reason@) == Some(reason@),
            None => plain_reason(generated_text@, stop_reason@) is None,
        },
        stop_reason@ == "length"@ ==> r is Some,
        stop_reason@ != "length"@ && is_marked(generated_text@) ==> r is None,
{
    if text::same(stop_reason, "length") {
        return Some("stop_reason=length".to_owned());
    }
    if text::contains_text(generated_text, RECOVERY_MARK) || text::contains_text(
        generated_text,
        ERROR_MARK,
    ) {
        return None;
    }
    match keyword_in(generated_text.to_lowercase().as_str()) {
        Some(w) => {
            return Some(text::cat("detected API error keyword: ", w.as_str()));
        },
        None => {},
    }
    if text::trimmed(generated_text).as_str().is_empty() {
        return Some("empty or whitespace-only text".to_owned());
    }
    None
}

// ---------------------------------------------------------------------------
// Asking a model
// ---------------------------------------------------------------------------

/// How many bytes at the end of a reply are shown to the model that judges it.
pub const SHOWN_BYTES: usize = 2000;

pub const TRUNCATED: &'static str = "... [truncated, showing last 2000 bytes] ...\n";

/// The part of a reply that is shown: its last bytes, from a character's start.
pub open spec fn shown(generated: Seq<char>) -> Seq<char> {
    let n = text::byte_len(generated);
    if n > SHOWN_BYTES {
        TRUNCATED@ + generated.skip(text::chars_covering(generated, n - SHOWN_BYTES) as int)
    } else {
        generated
    }
}

/// At most the last `SHOWN_BYTES` bytes of a reply are shown, and of a longer
/// reply all of them but for a character that they would cut.
pub proof fn law_shown(generated: Seq<char>)
    requires
        text::byte_len(generated) > SHOWN_BYTES,
    ensures
        ({
            let k = text::chars_covering(
                generated,
                text::byte_len(generated) - SHOWN_BYTES,
            ) as int;
            let end = generated.skip(k);
            &&& 0 <= k <= generated.len()
            &&& shown(generated) == TRUNCATED@ + end
            &&& SHOWN_BYTES - 4 < text::byte_len(end) <= SHOWN_BYTES
        }),
{
    let n = text::byte_len(generated) - SHOWN_BYTES;
    text::lemma_chars_covering(generated, n);
    let k = text::chars_covering(generated, n) as int;
    assert(generated =~= generated.take(k) + generated.skip(k));
    text::lemma_byte_len_concat(generated.take(k), generated.skip(k));
}

/// The part of a reply that is shown.
pub fn shown_part(generated: &str) -> (r: String)
    ensures
        r@ == shown(generated@),
{
    let n = text::byte_length(generated);
    if n > SHOWN_BYTES {
        let k = text::count_covering(generated, n - SHOWN_BYTES);
        text::cat(TRUNCATED, text::tail(generated, k).as_str())
    } else {
        generated.to_owned()
    }
}

/// What the model that judges is told to do.
pub const JUDGE_PROMPT: &'static str =
    r#"You are an expert AI Agent response quality analyzer for the coding client proxy recovery system.
Your CRITICAL task: Decide if a response needs emergency recovery (fake tool call injection) to prevent the coding client from stopping.

CONTEXT:
- The coding client expects either: (a) tool calls to continue working, OR (b) a natural conversation ending
- If response is cut off mid-stream WITHOUT tool call AND WITHOUT natural ending → the coding client will crash
- Your judgment determines whether to inject a fake tool call to keep the coding client running

THREE SCENARIOS - READ CAREFULLY:

1. NORMAL STOP → Reply "COMPLETE" (NO recovery needed):
   - Clear task completion statement: "任务完成了", "Done", "Work finished"
   - Natural question to user: "有什么问题吗？", "Need clarification?", "Shall I continue?"
   - Summary/conclusion: "总结：...", "In summary...", "The solution is..."
   - Polite closing: "以上就是分析", "That's all for today", "Hope this helps"
   - Waiting for user input explicitly: "等你确认后再继续", "Waiting for your confirmation"
   KEY SIGNAL: The assistant clearly finished its turn and is waiting for user or done with task.

2. API/NETWORK ERROR MESSAGE → Reply "INCOMPLETE" (RECOVERY NEEDED):
   - HTTP errors: "502 Bad Gateway", "503 Service Unavailable", "504 Gateway Timeout"
   - Connection issues: "Connection refused", "Connection reset", "Network error"
   - Timeout messages: "timed out", "operation timed out", "request timeout"
   - Empty/malformed responses: "empty response", "malformed response", "API Error"
   - Proxy/gateway errors: "proxy error", "gateway error", "upstream error"
   KEY SIGNAL: This is a SYSTEM/PROXY error message, NOT a normal assistant reply.
   IMPORTANT: Even if the error message looks "complete", the ACTUAL assistant response was cut off.

3. ABNORMAL CUT-OFF / INCOMPLETE OUTPUT → Reply "INCOMPLETE" (RECOVERY NEEDED):
   - Mid-sentence: "The solution is to imp", "我们需要先检查", "Let me explain"
   - Mid-code-block: "```python\ndef main(", "```rust\npub fn"
   - Mid-thought: "First, I need to", "第一步是", "Looking at the"
   - Trailing without conclusion: Ends with "...", "etc.", unfinished list
   - Partial JSON/XML/tool tags: incomplete structures
   KEY SIGNAL: The response was clearly interrupted before completion.

CRITICAL RULES:
- When in doubt, lean towards "COMPLETE" — normal conversation endings are far more common than true cutoffs
- Error messages from proxy/API are ALWAYS "INCOMPLETE" even if they look grammatically complete
- Reply "COMPLETE" for any natural ending: summary given, question asked, task described as done, file written, etc.
- Reply "INCOMPLETE" ONLY when the text is clearly mid-sentence, mid-code-block, or an API error message
- Think step by step: "Is this text clearly interrupted mid-thought?" If not sure → COMPLETE

OUTPUT FORMAT:
Reply EXACTLY one word: "COMPLETE" or "INCOMPLETE"
No explanation, no punctuation, just the word."#;

/// A request to the model that judges.
pub struct JudgeRequest {
    pub url: String,
    pub auth_header: String,
    pub auth_value: String,
    pub body: Json,
}

/// One message of a request.
pub open spec fn message_text(role: Seq<char>, content: Seq<char>) -> Seq<char> {
    json::object2("content"@, json::quoted(content), "role"@, json::quoted(role))
}

/// The body of the request that asks whether a reply is complete.
pub open spec fn judge_body(generated: Seq<char>, model: Seq<char>) -> Seq<char> {
    json::object_text(
        seq![
            ("max_tokens"@, "10"@),
            (
                "messages"@,
                json::array_text(
                    seq![
                        message_text("system"@, JUDGE_PROMPT@),
                        message_text(
                            "user"@,
                            "Analyze this assistant output:\n\n"@ + shown(generated),
                        ),
                    ],
                ),
            ),
            ("model"@, json::quoted(model)),
            ("stream"@, "false"@),
            ("temperature"@, "0.0"@),
        ],
    )
}

/// Whether `q` is the request that asks `config` about a reply.
pub open spec fn asks_about(q: JudgeRequest, generated: Seq<char>, config: LLMConfig) -> bool {
    &&& q.url@ == upstream::completions_url(config.base_url@)
    &&& q.auth_header@ == config.auth_header@
    &&& q.auth_value@ == config.auth_prefix@ + config.api_key@
    &&& q.body@ == judge_body(generated, config.model_name@)
}

fn write_chat_message(role: &str, content: &str) -> (r: String)
    ensures
        r@ == message_text(role@, content@),
{
    json::write2("content", json::quote_json(content), "role", json::quote_json(role))
}

/// The request that asks whether a reply is complete.
pub fn judge_request(generated: &str, config: &LLMConfig) -> (r: JudgeRequest)
    ensures
        asks_about(r, generated@, *config),
{
    let question = text::cat(
        "Analyze this assistant output:\n\n",
        shown_part(generated).as_str(),
    );
    let mut messages: Vec<String> = Vec::new();
    messages.push(write_chat_message("system", JUDGE_PROMPT));
    messages.push(write_chat_message("user", question.as_str()));
    assert(text::views(messages@) =~= seq![
        message_text("system"@, JUDGE_PROMPT@),
        message_text("user"@, "Analyze this assistant output:\n\n"@ + shown(generated@)),
    ]);
    let mut entries: Vec<(String, String)> = Vec::new();
    json::put(&mut entries, "max_tokens", "10".to_owned());
    json::put(&mut entries, "messages", json::array_of(&messages).text);
    json::put(&mut entries, "model", json::quote_json(config.model_name.as_str()));
    json::put(&mut entries, "stream", "false".to_owned());
    json::put(&mut entries, "temperature", "0.0".to_owned());
    assert(json::pair_views(entries@) =~= seq![
        ("max_tokens"@, "10"@),
        (
            "messages"@,
            json::array_text(
                seq![
                    message_text("system"@, JUDGE_PROMPT@),
                    message_text(
                        "user"@,
                        "Analyze this assistant output:\n\n"@ + shown(generated@),
                    ),
                ],
            ),
        ),
        ("model"@, json::quoted(config.model_name@)),
        ("stream"@, "false"@),
        ("temperature"@, "0.0"@),
    ]);
    JudgeRequest {
        url: upstream::api_url(config.base_url.as_str()),
        auth_header: config.auth_header.clone(),
        auth_value: text::cat(config.auth_prefix.as_str(), config.api_key.as_str()),
        body: json::object_of(&entries),
    }
}

/// Why a request could not be sent.
#[derive(Clone, Copy, PartialEq, Eq, Structural, Debug)]
pub enum SendFailure {
    Timeout,
    Connect,
    Request,
    Other,
}

/// What came back from the model that judges.
pub enum JudgeReply {
    /// The request could not be sent.
    Failed(SendFailure),
    /// The status was not one of success.
    Refused(String),
    /// The body was no JSON.
    Unreadable(String),
    /// The body.
    Answer(Json),
}

pub open spec fn failure_name(f: SendFailure) -> Seq<char> {
    match f {
        SendFailure::Timeout => "timeout"@,
        SendFailure::Connect => "connect_error"@,
        SendFailure::Request => "request_error"@,
        SendFailure::Other => "other"@,
    }
}

/// The first of three texts that is there, trimmed; empty where none is.
pub open spec fn picked(
    content: Option<Seq<char>>,
    nested: Option<Seq<char>>,
    plain: Option<Seq<char>>,
) -> Seq<char> {
    match (content, nested, plain) {
        (Some(s), _, _) => text::trim(s),
        (None, Some(s), _) => text::trim(s),
        (None, None, Some(s)) => text::trim(s),
        _ => Seq::empty(),
    }
}

/// The answer in the body of a reply: the content of the message of the first
/// choice, as a string or as a block with a `text`, or else the `text` of the
/// first choice; trimmed.
pub open spec fn answer_in(body: Seq<char>) -> Seq<char> {
    let choice = json::first_of(json::json_member(body, "choices"@));
    let content = json::member_of(json::member_of(choice, "message"@), "content"@);
    picked(
        json::string_of(content),
        json::string_of(json::member_of(content, "text"@)),
        json::string_of(json::member_of(choice, "text"@)),
    )
}

/// The reason to recover that an answer gives: `lower` is it in lower case.
pub open spec fn answer_reason(answer: Seq<char>, lower: Seq<char>) -> Option<Seq<char>> {
    if answer.len() == 0 {
        Some("LLM returned empty content, conservative recovery"@)
    } else if text::holds(lower, "incomplete"@) {
        Some("LLM judged as INCOMPLETE: "@ + answer)
    } else if text::holds(lower, "complete"@) {
        None
    } else {
        Some("LLM response unrecognizable: "@ + answer + ", conservative recovery"@)
    }
}

/// The reason to recover that a reply of the model that judges gives.
pub open spec fn judged_reason(reply: JudgeReply) -> Option<Seq<char>> {
    match reply {
        JudgeReply::Failed(f) => Some(
            "LLM request failed ("@ + failure_name(f) + "), conservative recovery"@,
        ),
        JudgeReply::Refused(status) => Some(
            "LLM API returned non-success status "@ + status@ + ", conservative recovery"@,
        ),
        JudgeReply::Unreadable(error) => Some(
            "LLM response parse failed: "@ + error@ + ", conservative recovery"@,
        ),
        JudgeReply::Answer(body) => answer_reason(
            answer_in(body@),
            text::lowercase(answer_in(body@)),
        ),
    }
}

/// The first of three texts that is there, trimmed.
pub fn pick_answer(content: Option<String>, nested: Option<String>, plain: Option<String>) -> (r:
    String)
    ensures
        r@ == picked(types::opt_text(content), types::opt_text(nested), types::opt_text(plain)),
{
    match content {
        Some(s) => text::trimmed(s.as_str()),
        None => match nested {
            Some(s) => text::trimmed(s.as_str()),
            None => match plain {
                Some(s) => text::trimmed(s.as_str()),
                None => String::new(),
            },
        },
    }
}

/// The answer in the body of a reply.
pub fn answer_of(body: &Json) -> (r: String)
    ensures
        r@ == answer_in(body@),
{
    let choice = json::first_item_of(body.get("choices"));
    let content = json::get_of(&json::get_of(&choice, "message"), "content");
    pick_answer(
        json::str_of(&content),
        json::str_of(&json::get_of(&content, "text")),
        json::str_of(&json::get_of(&choice, "text")),
    )
}

/// The reason to recover that an answer gives: `lower` is it in lower case.
pub fn reason_of_answer(answer: &str, lower: &str) -> (r: Option<String>)
    ensures
        match r {
            Some(reason) => answer_reason(answer@, lower@) == Some(reason@),
            None => answer_reason(answer@, lower@) is None,
        },
{
    if answer.is_empty() {
        Some("LLM returned empty content, conservative recovery".to_owned())
    } else if text::contains_text(lower, "incomplete") {
        Some(text::cat("LLM judged as INCOMPLETE: ", answer))
    } else if text::contains_text(lower, "complete") {
        None
    } else {
        let mut reason = text::cat("LLM response unrecognizable: ", answer);
        reason.append(", conservative recovery");
        Some(reason)
    }
}

/// The reason to recover that a reply of the model that judges gives; `None`
/// where it judged the reply complete.
pub fn judge(reply: &JudgeReply) -> (r: Option<String>)
    ensures
        match r {
            Some(reason) => judged_reason(*reply) == Some(reason@),
            None => judged_reason(*reply) is None,
        },
{
    match reply {
        JudgeReply::Failed(f) => {
            let name = match f {
                SendFailure::Timeout => "timeout",
                SendFailure::Connect => "connect_error",
                SendFailure::Request => "request_error",
                SendFailure::Other => "other",
            };
            let mut reason = text::cat("LLM request failed (", name);
            reason.append("), conservative recovery");
            Some(reason)
        },
        JudgeReply::Refused(status) => {
            let mut reason = text::cat("LLM API returned non-success status ", status.as_str());
            reason.append(", conservative recovery");
            Some(reason)
        },
        JudgeReply::Unreadable(error) => {
            let mut reason = text::cat("LLM response parse failed: ", error.as_str());
            reason.append(", conservative recovery");
            Some(reason)
        },
        JudgeReply::Answer(body) => {
            let answer = answer_of(body);
            let lower = answer.as_str().to_lowercase();
            reason_of_answer(answer.as_str(), lower.as_str())
        },
    }
}

/// How long, in seconds, a decision on recovery may take; without one by that
/// time the reply counts as complete.
pub const DECISION_SECS: u64 = 5;

/// Whether a reply carries what the proxy itself wrote: a recovery or an error.
pub open spec fn is_marked(generated: Seq<char>) -> bool {
    text::holds(generated, RECOVERY_MARK@) || text::holds(generated, ERROR_MARK@)
}

/// How a decision on recovery goes on.
pub enum Inquiry {
    /// It is made: the reason to recover, where there is one.
    Settled(Option<String>),
    /// A model has to be asked.
    Ask(JudgeRequest),
}

/// The mathematical counterpart of `Inquiry`.
pub ghost enum Decision {
    Settled(Option<Seq<char>>),
    Ask,
}

/// How a decision on recovery goes on: `model` says whether there is a model to
/// ask. A reply that carries what the proxy itself wrote is not recovered, so
/// that recovery cannot go round in circles; one that was cut off always is.
pub open spec fn decision(
    generated: Seq<char>,
    stop_reason: Seq<char>,
    model: bool,
) -> Decision {
    match plain_reason(generated, stop_reason) {
        Some(reason) => Decision::Settled(Some(reason)),
        None => if is_marked(generated) {
            Decision::Settled(None)
        } else if model {
            Decision::Ask
        } else {
            Decision::Settled(Some("no active LLM config, conservative recovery"@))
        },
    }
}

/// Whether `r` is the decision on a reply, and where a model has to be asked,
/// the request that asks `config` about it.
pub open spec fn is_decision(
    r: Inquiry,
    generated: Seq<char>,
    stop_reason: Seq<char>,
    config: Option<LLMConfig>,
) -> bool {
    match (r, decision(generated, stop_reason, config is Some)) {
        (Inquiry::Settled(a), Decision::Settled(b)) => types::opt_text(a) == b,
        (Inquiry::Ask(q), Decision::Ask) => config matches Some(c) && asks_about(q, generated, c),
        _ => false,
    }
}

/// Whatever the stop reason but that of a cut, and whether or not there is a
/// model to ask: a reply that carries what the proxy itself wrote is not
/// recovered, and no model is asked.
pub proof fn law_marked_not_recovered(
    generated: Seq<char>,
    stop_reason: Seq<char>,
    model: bool,
)
    requires
        is_marked(generated),
        stop_reason != "length"@,
    ensures
        decision(generated, stop_reason, model) == Decision::Settled(None),
{
}

/// Decides on recovery as far as it can be done without asking a model: by the
/// fast checks, because the reply carries what the proxy itself wrote, or
/// because there is no model to ask.
pub fn should_recover_async(
    generated_text: &str,
    stop_reason: &str,
    config: &Option<LLMConfig>,
) -> (r: Inquiry)
    ensures
        is_decision(r, generated_text@, stop_reason@, *config),
{
    match hardcoded_checks(generated_text, stop_reason) {
        Some(reason) => Inquiry::Settled(Some(reason)),
        None => {
            if text::contains_text(generated_text, RECOVERY_MARK) || text::contains_text(
                generated_text,
                ERROR_MARK,
            ) {
                return Inquiry::Settled(None);
            }
            match config {
                None => Inquiry::Settled(
                    Some("no active LLM config, conservative recovery".to_owned()),
                ),
                Some(c) => Inquiry::Ask(judge_request(generated_text, c)),
            }
        },
    }
}

// ---------------------------------------------------------------------------
// The tool call that keeps the client going
// ---------------------------------------------------------------------------

/// A command that does nothing but show where it runs.
pub const FAKE_COMMAND: &'static str =
    "echo \"Fake tool calling ...\" && pwd && ls -la || cd && dir";

/// The tools that are preferred, in order.
pub open spec fn preferred() -> Seq<Seq<char>> {
    seq![
        "Bash"@,
        "Shell"@,
        "bash"@,
        "shell"@,
        "Execute"@,
        "Run_Command"@,
        "RunCommand"@,
        "terminal"@,
        "Terminal"@,
    ]
}

fn preferred_list() -> (r: Vec<String>)
    ensures
        text::views(r@) == preferred(),
{
    let r = vec![
        "Bash".to_owned(),
        "Shell".to_owned(),
        "bash".to_owned(),
        "shell".to_owned(),
        "Execute".to_owned(),
        "Run_Command".to_owned(),
        "RunCommand".to_owned(),
        "terminal".to_owned(),
        "Terminal".to_owned(),
    ];
    assert(text::views(r@) =~= preferred());
    r
}

/// Harmless arguments for a tool with the properties `props`.
pub open spec fn recovery_args(props: Option<Seq<(Seq<char>, Seq<char>)>>) -> Seq<char> {
    match props {
        Some(p) => if json::lookup(p, "command"@) is Some {
            json::one_member("command"@, FAKE_COMMAND@)
        } else if json::lookup(p, "path"@) is Some {
            json::one_member("path"@, "./"@)
        } else if json::lookup(p, "query"@) is Some {
            json::one_member("query"@, "*"@)
        } else if p.len() > 0 {
            json::one_member(p[0].0, "echo recovery"@)
        } else {
            json::empty_object()
        },
        None => json::empty_object(),
    }
}

/// Whether a tool takes a command.
pub open spec fn takes_command(tool: ToolEntry) -> bool {
    tools::properties(tool.schema) matches Some(p) && json::lookup(p, "command"@) is Some
}

/// The first preferred name from position `from` on that is offered.
pub open spec fn preferred_from(offered: Seq<ToolEntry>, from: int) -> Option<Seq<char>>
    decreases preferred().len() - from,
{
    if from < 0 || from >= preferred().len() {
        None
    } else if tools::has_tool(offered, preferred()[from]) {
        Some(preferred()[from])
    } else {
        preferred_from(offered, from + 1)
    }
}

/// The first tool from position `from` on that takes a command.
pub open spec fn commander_from(offered: Seq<ToolEntry>, from: int) -> Option<int>
    decreases offered.len() - from,
{
    if from < 0 || from >= offered.len() {
        None
    } else if takes_command(offered[from]) {
        Some(from)
    } else {
        commander_from(offered, from + 1)
    }
}

/// The tool call that a recovery makes: of a preferred tool, else of one that
/// takes a command, else of the first tool.
pub open spec fn recovery_call(offered: Seq<ToolEntry>) -> Option<(Seq<char>, Seq<char>)> {
    if offered.len() == 0 {
        None
    } else {
        match preferred_from(offered, 0) {
            Some(name) => Some(
                (
                    name,
                    recovery_args(
                        tools::properties(offered[tools::tool_index(offered, name)->0].schema),
                    ),
                ),
            ),
            None => match commander_from(offered, 0) {
                Some(i) => Some((offered[i].name, json::one_member("command"@, FAKE_COMMAND@))),
                None => Some(
                    (offered[0].name, recovery_args(tools::properties(offered[0].schema))),
                ),
            },
        }
    }
}

proof fn lemma_preferred_from(offered: Seq<ToolEntry>, from: int)
    ensures
        preferred_from(offered, from) matches Some(name) ==> tools::has_tool(offered, name),
    decreases preferred().len() - from,
{
    if 0 <= from < preferred().len() && !tools::has_tool(offered, preferred()[from]) {
        lemma_preferred_from(offered, from + 1);
    }
}

proof fn lemma_commander_from(offered: Seq<ToolEntry>, from: int)
    ensures
        commander_from(offered, from) matches Some(i) ==> 0 <= i < offered.len() && takes_command(
            offered[i],
        ),
    decreases offered.len() - from,
{
    if 0 <= from < offered.len() && !takes_command(offered[from]) {
        lemma_commander_from(offered, from + 1);
    }
}

/// A recovery calls a tool that is offered, whenever one is.
pub proof fn law_recovery_call_offered(offered: Seq<ToolEntry>)
    ensures
        recovery_call(offered) is Some <==> offered.len() > 0,
        recovery_call(offered) matches Some(c) ==> tools::has_tool(offered, c.0),
{
    lemma_preferred_from(offered, 0);
    lemma_commander_from(offered, 0);
    if let Some(c) = recovery_call(offered) {
        tools::lemma_tool_index(offered, c.0);
    }
}

/// Harmless arguments for a tool with the properties `props`.
pub fn build_recovery_args(props: &Option<Vec<(String, String)>>) -> (r: Json)
    ensures
        r@ == recovery_args(
            match *props {
                Some(v) => Some(json::pair_views(v@)),
                None => None,
            },
        ),
{
    match props {
        Some(v) => {
            assert(json::pair_views(v@).len() == v@.len());
            if json::find_member(v, "command").is_some() {
                json::object_with("command", FAKE_COMMAND)
            } else if json::find_member(v, "path").is_some() {
                json::object_with("path", "./")
            } else if json::find_member(v, "query").is_some() {
                json::object_with("query", "*")
            } else if v.len() > 0 {
                json::object_with(v[0].0.as_str(), "echo recovery")
            } else {
                json::object_without_members()
            }
        },
        None => json::object_without_members(),
    }
}

/// Picks the tool call that a recovery makes; `None` where no tool is offered.
pub fn pick_recovery_tool(valid_tools: &ToolTable) -> (r: Option<(String, Json)>)
    ensures
        match r {
            Some(c) => recovery_call(valid_tools@) == Some((c.0@, c.1@)),
            None => recovery_call(valid_tools@) is None,
        },
        r is Some <==> valid_tools@.len() > 0,
{
    if valid_tools.is_empty() {
        return None;
    }
    let names = preferred_list();
    let mut k: usize = 0;
    while k < names.len()
        invariant
            valid_tools@.len() > 0,
            text::views(names@) == preferred(),
            k <= names@.len(),
            preferred_from(valid_tools@, 0) == preferred_from(valid_tools@, k as int),
        decreases names.len() - k,
    {
        assert(preferred()[k as int] == names@[k as int]@);
        match valid_tools.position(names[k].as_str()) {
            Some(i) => {
                return Some(
                    (names[k].clone(), build_recovery_args(&valid_tools.properties_at(i))),
                );
            },
            None => {},
        }
        k = k + 1;
    }
    assert(preferred().len() == names@.len());
    let n = valid_tools.len();
    let mut i: usize = 0;
    while i < n
        invariant
            valid_tools@.len() == n > 0,
            i <= n,
            preferred_from(valid_tools@, 0) is None,
            commander_from(valid_tools@, 0) == commander_from(valid_tools@, i as int),
        decreases n - i,
    {
        match valid_tools.properties_at(i) {
            Some(v) => {
                if json::find_member(&v, "command").is_some() {
                    return Some(
                        (valid_tools.name_at(i), json::object_with("command", FAKE_COMMAND)),
                    );
                }
            },
            None => {},
        }
        i = i + 1;
    }
    Some((valid_tools.name_at(0), build_recovery_args(&valid_tools.properties_at(0))))
}

// ---------------------------------------------------------------------------
// When a reply is recovered, and how
// ---------------------------------------------------------------------------

/// Whether a text in lower case speaks of an error.
pub open spec fn speaks_of_error(lower: Seq<char>) -> bool {
    ||| text::holds(lower, "timed out"@)
    ||| text::holds(lower, "empty or malformed response"@)
    ||| text::holds(lower, "api error"@)
    ||| text::holds(lower, "operation timed out"@)
    ||| text::holds(lower, "malformed"@)
    ||| text::holds(lower, "connection"@)
    ||| text::holds(lower, "unreachable"@)
    ||| text::holds(lower, "502"@)
    ||| text::holds(lower, "503"@)
    ||| text::holds(lower, "504"@)
    ||| text::holds(lower, "gateway"@)
    ||| text::holds(lower, "proxy error"@)
    ||| text::holds(lower, "internal server error"@)
    ||| text::holds(lower, "connection refused"@)
    ||| text::holds(lower, "connection reset"@)
    ||| text::holds(lower, "network error"@)
    ||| text::holds(lower, "request failed"@)
}

proof fn lemma_first_held(t: Seq<char>, words: Seq<Seq<char>>, from: int)
    requires
        0 <= from,
    ensures
        match first_held(t, words, from) {
            Some(w) => text::holds(t, w) && exists|i: int|
                from <= i < words.len() && words[i] == w && forall|j: int|
                    from <= j < i ==> !text::holds(t, #[trigger] words[j]),
            None => forall|i: int|
                from <= i < words.len() ==> !text::holds(t, #[trigger] words[i]),
        },
    decreases words.len() - from,
{
    if from < words.len() {
        if text::holds(t, words[from]) {
            assert(words[from] == words[from]);
        } else {
            lemma_first_held(t, words, from + 1);
        }
    }
}

/// The text alone shows that a reply broke off exactly where it was cut off, or
/// where the proxy did not write into it and it speaks of an error or says
/// nothing.
pub proof fn law_plain_reason(generated: Seq<char>, stop_reason: Seq<char>)
    ensures
        plain_reason(generated, stop_reason) is Some <==> stop_reason == "length"@ || (
        !text::holds(generated, "[holoProxy Recovery"@) && !text::holds(
            generated,
            "[holoProxy Error"@,
        ) && (speaks_of_error(text::lowercase(generated)) || text::trim(generated).len() == 0)),
        stop_reason == "length"@ ==> plain_reason(generated, stop_reason) == Some(
            "stop_reason=length"@,
        ),
{
    let lower = text::lowercase(generated);
    lemma_first_held(lower, keywords(), 0);
    let k = keywords();
    assert(k[0] == "timed out"@);
    assert(k[1] == "empty or malformed response"@);
    assert(k[2] == "api error"@);
    assert(k[3] == "operation timed out"@);
    assert(k[4] == "malformed"@);
    assert(k[5] == "connection"@);
    assert(k[6] == "unreachable"@);
    assert(k[7] == "502"@);
    assert(k[8] == "503"@);
    assert(k[9] == "504"@);
    assert(k[10] == "gateway"@);
    assert(k[11] == "proxy error"@);
    assert(k[12] == "internal server error"@);
    assert(k[13] == "connection refused"@);
    assert(k[14] == "connection reset"@);
    assert(k[15] == "network error"@);
    assert(k[16] == "request failed"@);
    if first_held(lower, k, 0) is Some {
        let i = choose|i: int| 0 <= i < k.len() && k[i] == first_held(lower, k, 0)->0;
        assert(text::holds(lower, k[i]));
    }
}

/// Where the text alone shows nothing and the proxy did not write into the
/// reply, a model decides; without one the reply is recovered.
pub proof fn law_decision(generated: Seq<char>, stop_reason: Seq<char>, model: bool)
    requires
        plain_reason(generated, stop_reason) is None,
        !is_marked(generated),
    ensures
        model ==> decision(generated, stop_reason, model) is Ask,
        !model ==> (decision(generated, stop_reason, model) matches Decision::Settled(r) && r
            is Some),
{
}

/// A reply counts as complete exactly where the model answered, its answer says
/// so, and does not say that it is incomplete. Whatever else came back, the
/// reply is recovered.
pub proof fn law_judged(reply: JudgeReply)
    ensures
        judged_reason(reply) is None <==> (reply matches JudgeReply::Answer(body) && answer_in(
            body@,
        ).len() > 0 && text::holds(text::lowercase(answer_in(body@)), "complete"@) && !text::holds(
            text::lowercase(answer_in(body@)),
            "incomplete"@,
        )),
{
}

/// The answer is the content of the message of the first choice, where that is
/// a string; else the text of that content, else the text of the choice. It is
/// trimmed.
pub proof fn law_answer(body: Seq<char>, choice: Seq<char>)
    requires
        json::json_member(body, "choices"@) matches Some(choices) && (json::json_items(
            choices,
        ) matches Some(items) && items.len() > 0 && items[0] == choice),
    ensures
        json::json_member(choice, "message"@) matches Some(m) ==> (json::json_member_string(
            m,
            "content"@,
        ) matches Some(t) ==> answer_in(body) == text::trim(t)),
        json::json_member(choice, "message"@) matches Some(m) ==> (json::json_member(
            m,
            "content"@,
        ) matches Some(c) ==> (json::json_string(c) is None ==> (json::json_member_string(
            c,
            "text"@,
        ) matches Some(t) ==> answer_in(body) == text::trim(t)))),
        json::json_member(choice, "message"@) is None ==> (json::json_member_string(
            choice,
            "text"@,
        ) matches Some(t) ==> answer_in(body) == text::trim(t)),
{
}

/// The model of the configuration is asked, with its key, about the reply, of
/// which a short one is shown whole.
pub proof fn law_asks_about(q: JudgeRequest, generated: Seq<char>, config: LLMConfig)
    requires
        asks_about(q, generated, config),
    ensures
        text::ends(q.url@, "/chat/completions"@),
        q.auth_header@ == config.auth_header@,
        q.auth_value@ == config.auth_prefix@ + config.api_key@,
        q.body@ == judge_body(generated, config.model_name@),
        text::byte_len(generated) <= 2000 ==> shown(generated) == generated,
{
    upstream::law_completions_url(config.base_url@);
}

/// Whether the tool of this name is the one that is preferred: it is offered,
/// and none that comes before it in the list is.
pub open spec fn is_preferred(offered: Seq<ToolEntry>, i: int) -> bool {
    &&& 0 <= i < preferred().len()
    &&& tools::has_tool(offered, preferred()[i])
    &&& forall|j: int| 0 <= j < i ==> !tools::has_tool(offered, #[trigger] preferred()[j])
}

proof fn lemma_preferred_is(offered: Seq<ToolEntry>, from: int, i: int)
    requires
        is_preferred(offered, i),
        0 <= from <= i,
    ensures
        preferred_from(offered, from) == Some(preferred()[i]),
    decreases i - from,
{
    if from < i {
        assert(!tools::has_tool(offered, preferred()[from]));
        lemma_preferred_is(offered, from + 1, i);
    }
}

proof fn lemma_none_preferred(offered: Seq<ToolEntry>, from: int)
    requires
        0 <= from,
        forall|j: int|
            0 <= j < preferred().len() ==> !tools::has_tool(offered, #[trigger] preferred()[j]),
    ensures
        preferred_from(offered, from) is None,
    decreases preferred().len() - from,
{
    if from < preferred().len() {
        assert(!tools::has_tool(offered, preferred()[from]));
        lemma_none_preferred(offered, from + 1);
    }
}

proof fn lemma_commander_is(offered: Seq<ToolEntry>, from: int, i: int)
    requires
        0 <= from <= i < offered.len(),
        takes_command(offered[i]),
        forall|j: int| 0 <= j < i ==> !takes_command(#[trigger] offered[j]),
    ensures
        commander_from(offered, from) == Some(i),
    decreases i - from,
{
    if from < i {
        assert(!takes_command(offered[from]));
        lemma_commander_is(offered, from + 1, i);
    }
}

proof fn lemma_no_commander(offered: Seq<ToolEntry>, from: int)
    requires
        0 <= from,
        forall|j: int| 0 <= j < offered.len() ==> !takes_command(#[trigger] offered[j]),
    ensures
        commander_from(offered, from) is None,
    decreases offered.len() - from,
{
    if from < offered.len() {
        assert(!takes_command(offered[from]));
        lemma_no_commander(offered, from + 1);
    }
}

/// The tools that are preferred, by name.
pub proof fn law_preferred()
    ensures
        preferred().len() == 9,
        preferred()[0] == "Bash"@,
        preferred()[1] == "Shell"@,
        preferred()[2] == "bash"@,
        preferred()[3] == "shell"@,
        preferred()[4] == "Execute"@,
        preferred()[5] == "Run_Command"@,
        preferred()[6] == "RunCommand"@,
        preferred()[7] == "terminal"@,
        preferred()[8] == "Terminal"@,
{
}

/// A recovery calls the tool that is preferred, with harmless arguments of its
/// own.
pub proof fn law_recovery_prefers(offered: Seq<ToolEntry>, i: int, k: int)
    requires
        is_preferred(offered, i),
        0 <= k < offered.len(),
        offered[k].name == preferred()[i],
        forall|j: int| k < j < offered.len() ==> (#[trigger] offered[j]).name != preferred()[i],
    ensures
        recovery_call(offered) == Some(
            (preferred()[i], recovery_args(tools::properties(offered[k].schema))),
        ),
{
    lemma_preferred_is(offered, 0, i);
    tools::lemma_tool_index(offered, preferred()[i]);
    let found = tools::tool_index(offered, preferred()[i])->0;
    assert(found == k) by {
        if found < k {
            assert(offered[k].name != preferred()[i]);
        } else if found > k {
            assert(offered[found].name != preferred()[i]);
        }
    }
}

/// Where none is preferred, a recovery calls the first tool that takes a
/// command, else the first tool.
pub proof fn law_recovery_falls_back(offered: Seq<ToolEntry>, i: int)
    requires
        forall|j: int|
            0 <= j < preferred().len() ==> !tools::has_tool(offered, #[trigger] preferred()[j]),
        offered.len() > 0,
    ensures
        0 <= i < offered.len() && takes_command(offered[i]) && (forall|j: int|
            0 <= j < i ==> !takes_command(#[trigger] offered[j])) ==> recovery_call(offered)
            == Some((offered[i].name, json::one_member("command"@, FAKE_COMMAND@))),
        (forall|j: int| 0 <= j < offered.len() ==> !takes_command(#[trigger] offered[j]))
            ==> recovery_call(offered) == Some(
            (offered[0].name, recovery_args(tools::properties(offered[0].schema))),
        ),
{
    lemma_none_preferred(offered, 0);
    if 0 <= i < offered.len() && takes_command(offered[i]) && (forall|j: int|
        0 <= j < i ==> !takes_command(#[trigger] offered[j])) {
        lemma_commander_is(offered, 0, i);
    }
    if forall|j: int| 0 <= j < offered.len() ==> !takes_command(#[trigger] offered[j]) {
        lemma_no_commander(offered, 0);
    }
}

/// The arguments of a recovery fill one property that the tool has: its
/// `command`, else its `path`, else its `query`, else its first.
pub proof fn law_recovery_args(props: Option<Seq<(Seq<char>, Seq<char>)>>)
    ensures
        props is None ==> recovery_args(props) == seq!['{', '}'],
        props matches Some(p) ==> {
            &&& p.len() == 0 ==> recovery_args(props) == seq!['{', '}']
            &&& json::lookup(p, "command"@) is Some ==> recovery_args(props) == json::one_member(
                "command"@,
                FAKE_COMMAND@,
            )
            &&& json::lookup(p, "command"@) is None && json::lookup(p, "path"@) is Some
                ==> recovery_args(props) == json::one_member("path"@, "./"@)
            &&& json::lookup(p, "command"@) is None && json::lookup(p, "path"@) is None
                && json::lookup(p, "query"@) is Some ==> recovery_args(props)
                == json::one_member("query"@, "*"@)
            &&& p.len() > 0 && json::lookup(p, "command"@) is None && json::lookup(p, "path"@)
                is None && json::lookup(p, "query"@) is None ==> recovery_args(props)
                == json::one_member(p[0].0, "echo recovery"@)
        },
{
    if let Some(p) = props {
        json::law_lookup(p, "command"@);
        json::law_lookup(p, "path"@);
        json::law_lookup(p, "query"@);
    }
}

/// The model that judges is told what to do and asked about the reply: about all
/// of it that is shown. It answers at once, not as a stream.
pub proof fn law_judge_asked(generated: Seq<char>, model: Seq<char>) -> (r: (
    Seq<char>,
    Seq<char>,
    Seq<char>,
))
    ensures
        ({
            let body = judge_body(generated, model);
            let (messages, told, asked) = r;
            &&& wire::object_with(body, "model"@, json::quoted(model))
            &&& wire::object_with(body, "stream"@, "false"@)
            &&& wire::object_with(body, "messages"@, messages)
            &&& messages == json::array_text(seq![told, asked])
            &&& wire::object_with(told, "role"@, json::quoted("system"@))
            &&& wire::object_with(told, "content"@, json::quoted(JUDGE_PROMPT@))
            &&& wire::object_with(asked, "role"@, json::quoted("user"@))
            &&& wire::object_with(
                asked,
                "content"@,
                json::quoted("Analyze this assistant output:\n\n"@ + shown(generated)),
            )
        }),
{
    let question = "Analyze this assistant output:\n\n"@ + shown(generated);
    let told = message_text("system"@, JUDGE_PROMPT@);
    let asked = message_text("user"@, question);
    let messages = json::array_text(seq![told, asked]);
    let m = seq![
        ("max_tokens"@, "10"@),
        ("messages"@, messages),
        ("model"@, json::quoted(model)),
        ("stream"@, "false"@),
        ("temperature"@, "0.0"@),
    ];
    wire::lemma_object_with(m, 1, "messages"@, messages);
    wire::lemma_object_with(m, 2, "model"@, json::quoted(model));
    wire::lemma_object_with(m, 3, "stream"@, "false"@);
    let a = seq![
        ("content"@, json::quoted(JUDGE_PROMPT@)),
        ("role"@, json::quoted("system"@)),
    ];
    wire::lemma_object_with(a, 0, "content"@, json::quoted(JUDGE_PROMPT@));
    wire::lemma_object_with(a, 1, "role"@, json::quoted("system"@));
    let b = seq![("content"@, json::quoted(question)), ("role"@, json::quoted("user"@))];
    wire::lemma_object_with(b, 0, "content"@, json::quoted(question));
    wire::lemma_object_with(b, 1, "role"@, json::quoted("user"@));
    (messages, told, asked)
}

} // verus!
