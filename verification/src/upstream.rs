//! Requests to the downstream model: where they go, what they carry, and when
//! they are tried again.
use vstd::prelude::*;
use vstd::string::*;

use crate::context;
use crate::converter;
use crate::json;
use crate::json::Json;
use crate::recovery;
use crate::text;
use crate::tools;
use crate::tools::ToolTable;
use crate::types;
use crate::types::{AnthropicRequest, LLMConfig, OpenAIRequest};
use crate::wire;

verus! {

// ---------------------------------------------------------------------------
// Where a request goes
// ---------------------------------------------------------------------------

/// Where chat completions are asked for.
pub open spec fn completions_url(base_url: Seq<char>) -> Seq<char> {
    let base = text::strip_end(base_url, '/');
    if text::ends(base, "/chat/completions"@) {
        base
    } else {
        base + "/chat/completions"@
    }
}

/// Where chat completions are asked for.
pub fn api_url(base_url: &str) -> (r: String)
    ensures
        r@ == completions_url(base_url@),
{
    let base = text::stripped_end(base_url, '/');
    if text::ends_with_text(base.as_str(), "/chat/completions") {
        base
    } else {
        text::cat(base.as_str(), "/chat/completions")
    }
}

/// Every address asks for chat completions.
pub proof fn law_completions_url(base_url: Seq<char>)
    ensures
        text::ends(completions_url(base_url), "/chat/completions"@),
{
    let base = text::strip_end(base_url, '/');
    let suffix = "/chat/completions"@;
    let url = base + suffix;
    assert(url.subrange(url.len() - suffix.len(), url.len() as int) =~= suffix);
}

// ---------------------------------------------------------------------------
// What a request carries
// ---------------------------------------------------------------------------

/// The header that authorizes a request: its name and its value. `lower` is
/// the key in lower case; without a key, or with the key `none`, there is no
/// header.
pub open spec fn auth_header(config: LLMConfig, lower: Seq<char>) -> Option<
    (Seq<char>, Seq<char>),
> {
    if config.api_key@.len() > 0 && lower != "none"@ {
        Some((config.auth_header@, config.auth_prefix@ + config.api_key@))
    } else {
        None
    }
}

/// The header that authorizes a request; `lower` is the key in lower case.
pub fn auth_header_for(config: &LLMConfig, lower: &str) -> (r: Option<(String, String)>)
    ensures
        match r {
            Some(h) => auth_header(*config, lower@) == Some((h.0@, h.1@)),
            None => auth_header(*config, lower@) is None,
        },
{
    if !config.api_key.as_str().is_empty() && !text::same(lower, "none") {
        Some(
            (
                config.auth_header.clone(),
                text::cat(config.auth_prefix.as_str(), config.api_key.as_str()),
            ),
        )
    } else {
        None
    }
}

/// The header that authorizes a request.
pub fn authorization(config: &LLMConfig) -> (r: Option<(String, String)>)
    ensures
        match r {
            Some(h) => auth_header(*config, text::lowercase(config.api_key@)) == Some(
                (h.0@, h.1@),
            ),
            None => auth_header(*config, text::lowercase(config.api_key@)) is None,
        },
{
    let lower = config.api_key.as_str().to_lowercase();
    auth_header_for(config, lower.as_str())
}

/// What a model that thinks is told about it.
pub open spec fn template_kwargs(config: LLMConfig) -> Seq<char> {
    json::object2(
        "reasoning_effort"@,
        json::quoted(config.reasoning_effort@),
        "thinking"@,
        "true"@,
    )
}

pub open spec fn bool_text(b: bool) -> Seq<char> {
    if b {
        "true"@
    } else {
        "false"@
    }
}

/// The members of a request with what the configuration adds: what a model
/// that thinks is told, and whether the reply is a stream.
pub open spec fn configured(
    members: Seq<(Seq<char>, Seq<char>)>,
    config: LLMConfig,
) -> Seq<(Seq<char>, Seq<char>)> {
    let told = if config.thinking {
        json::with_member(members, "chat_template_kwargs"@, template_kwargs(config))
    } else {
        members
    };
    json::with_member(told, "stream"@, bool_text(config.stream))
}

/// The body of a converted request.
pub open spec fn message_body(body: Seq<char>, config: LLMConfig) -> Seq<char> {
    match json::json_members(body) {
        Some(m) => json::object_text(configured(m, config)),
        None => body,
    }
}

/// The body of a request that is passed on: for the model of the configuration.
pub open spec fn raw_body(body: Seq<char>, config: LLMConfig) -> Seq<char> {
    match json::json_members(body) {
        Some(m) => json::object_text(
            configured(json::with_member(m, "model"@, json::quoted(config.model_name@)), config),
        ),
        None => body,
    }
}

fn write_bool(b: bool) -> (r: String)
    ensures
        r@ == bool_text(b),
{
    if b {
        "true".to_owned()
    } else {
        "false".to_owned()
    }
}

/// Adds to the members of a request what the configuration adds.
pub fn configure(members: &mut Vec<(String, String)>, config: &LLMConfig)
    ensures
        json::pair_views(final(members)@) == configured(
            json::pair_views(old(members)@),
            *config,
        ),
{
    if config.thinking {
        let kwargs = json::write2(
            "reasoning_effort",
            json::quote_json(config.reasoning_effort.as_str()),
            "thinking",
            "true".to_owned(),
        );
        json::set_member(members, "chat_template_kwargs".to_owned(), kwargs);
    }
    json::set_member(members, "stream".to_owned(), write_bool(config.stream));
}

/// The body of a converted request, with what the configuration adds.
pub fn prepare_message_body(body: &Json, config: &LLMConfig) -> (r: Json)
    ensures
        r@ == message_body(body@, *config),
{
    match body.members() {
        Some(found) => {
            let mut members = found;
            configure(&mut members, config);
            json::object_of(&members)
        },
        None => body.clone(),
    }
}

/// The body of a request that is passed on, for the model of the configuration.
pub fn prepare_raw_body(body: &Json, config: &LLMConfig) -> (r: Json)
    ensures
        r@ == raw_body(body@, *config),
{
    match body.members() {
        Some(found) => {
            let mut members = found;
            json::set_member(
                &mut members,
                "model".to_owned(),
                json::quote_json(config.model_name.as_str()),
            );
            configure(&mut members, config);
            json::object_of(&members)
        },
        None => body.clone(),
    }
}

/// A request to a model that does not think says nothing of thinking that it
/// did not say before; one to a model that thinks asks for it. Whether the
/// reply is a stream is as the configuration says. Other members stay.
pub proof fn law_configured(
    m: Seq<(Seq<char>, Seq<char>)>,
    config: LLMConfig,
    other: Seq<char>,
)
    requires
        other != "chat_template_kwargs"@,
        other != "stream"@,
    ensures
        !config.thinking ==> json::lookup(configured(m, config), "chat_template_kwargs"@)
            == json::lookup(m, "chat_template_kwargs"@),
        config.thinking ==> json::lookup(configured(m, config), "chat_template_kwargs"@) == Some(
            template_kwargs(config),
        ),
        json::lookup(configured(m, config), "stream"@) == Some(bool_text(config.stream)),
        json::lookup(configured(m, config), other) == json::lookup(m, other),
{
    reveal_strlit("chat_template_kwargs");
    reveal_strlit("stream");
    assert("chat_template_kwargs"@.len() != "stream"@.len());
    let told = if config.thinking {
        json::with_member(m, "chat_template_kwargs"@, template_kwargs(config))
    } else {
        m
    };
    json::law_with_member_found(m, "chat_template_kwargs"@, template_kwargs(config), other);
    json::law_with_member_found(told, "stream"@, bool_text(config.stream), "chat_template_kwargs"@);
    json::law_with_member_found(told, "stream"@, bool_text(config.stream), other);
}

/// A request that is passed on asks for the model of the configuration,
/// whatever it asked for.
pub proof fn law_raw_model(m: Seq<(Seq<char>, Seq<char>)>, config: LLMConfig)
    ensures
        json::lookup(
            configured(json::with_member(m, "model"@, json::quoted(config.model_name@)), config),
            "model"@,
        ) == Some(json::quoted(config.model_name@)),
{
    reveal_strlit("model");
    reveal_strlit("stream");
    reveal_strlit("chat_template_kwargs");
    assert("model"@.len() == 5 && "stream"@.len() == 6 && "chat_template_kwargs"@.len() == 20);
    let named = json::with_member(m, "model"@, json::quoted(config.model_name@));
    json::law_with_member_found(m, "model"@, json::quoted(config.model_name@), "model"@);
    law_configured(named, config, "model"@);
}

/// The seconds that a passed-on request may take.
pub const RAW_TIMEOUT_SECS: u64 = 120;

/// A request that is ready to be sent.
pub struct PreparedRequest {
    /// Whether the request offers tools.
    pub is_agent_mode: bool,
    pub tools: ToolTable,
    pub request: OpenAIRequest,
    pub url: String,
    pub timeout_secs: u64,
}

/// The messages that go out: those of the converted request, trimmed where they
/// take more than the window is filled up to.
pub open spec fn outgoing(v: Seq<types::MessageView>, max_context: nat) -> Seq<
    types::MessageView,
> {
    if context::total_tokens(v) > context::threshold(max_context) {
        context::trimmed(v, context::threshold(max_context))
    } else {
        v
    }
}

/// How many bytes a message is counted for.
pub const BYTES_PER_MESSAGE: usize = 512;

/// Whether `p` is the request that `req` becomes.
pub open spec fn is_prepared(p: PreparedRequest, req: AnthropicRequest, config: LLMConfig) -> bool {
    let window = context::length_in(text::lowercase(text::trim(config.context_max_length@)));
    let messages = outgoing(converter::request_messages(req, config), window);
    &&& p.is_agent_mode == (req.tools@.len() > 0)
    &&& p.tools@ == tools::table_of(req.tools@)
    &&& types::message_views(p.request.messages@) == messages
    &&& converter::is_converted_but_messages(p.request, req, config)
    &&& p.url@ == completions_url(config.base_url@)
    &&& p.timeout_secs == context::timeout_secs(
        context::at_most_max(messages.len() * BYTES_PER_MESSAGE as nat),
    )
}

/// Makes a request ready to be sent: converts it, trims it to the window, and
/// works out where it goes and how long it may take.
pub fn prepare_messages(req: &AnthropicRequest, config: &LLMConfig) -> (r: PreparedRequest)
    ensures
        is_prepared(r, *req, *config),
{
    let mut request = converter::convert_to_openai_req(req, config);
    let max_context = context::parse_context_length(config.context_max_length.as_str());
    if context::should_trim(&request.messages, max_context) {
        context::trim_messages(&mut request.messages, max_context);
    }
    let n: usize = request.messages.len();
    assert(types::message_views(request.messages@).len() == n);
    let bytes: usize = if n <= usize::MAX / BYTES_PER_MESSAGE {
        n * BYTES_PER_MESSAGE
    } else {
        usize::MAX
    };
    let timeout_secs = context::calc_timeout_secs(bytes);
    PreparedRequest {
        is_agent_mode: req.tools.len() > 0,
        tools: ToolTable::of(&req.tools),
        request,
        url: api_url(config.base_url.as_str()),
        timeout_secs,
    }
}

/// The identifier of a message that was asked for at a time, in seconds.
pub open spec fn message_id(timestamp: int) -> Seq<char> {
    "msg_"@ + (if timestamp < 0 {
        "-"@ + text::decimal((-timestamp) as nat)
    } else {
        text::decimal(timestamp as nat)
    })
}

/// The identifier of a message that was asked for at a time, in seconds.
pub fn message_id_at(timestamp: i64) -> (r: String)
    ensures
        r@ == message_id(timestamp as int),
{
    let mut r = "msg_".to_owned();
    if timestamp < 0 {
        let magnitude: u64 = (0 - timestamp as i128) as u64;
        r.append("-");
        r.append(text::decimal_text(magnitude).as_str());
        assert(r@ =~= message_id(timestamp as int));
    } else {
        r.append(text::decimal_text(timestamp as u64).as_str());
    }
    r
}

/// What keeps a client waiting until the first piece of a reply has come.
pub const KEEPALIVE: &'static str = ": keepalive\n\n";

/// How long, in seconds, a connection counts as alive.
pub const CONNECTION_SECS: u64 = 300;

/// Whether a connection of an age, in seconds, counts as alive.
pub fn is_live(age_secs: u64) -> (r: bool)
    ensures
        r == (age_secs < CONNECTION_SECS),
{
    age_secs < CONNECTION_SECS
}

// ---------------------------------------------------------------------------
// Trying again
// ---------------------------------------------------------------------------

/// How often a request is sent.
pub const MAX_RETRIES: u32 = 3;

/// How an attempt went.
pub enum Outcome {
    /// A reply came and was passed on.
    Delivered,
    /// A reply came without content.
    Empty,
    /// The status of the reply was not one of success.
    Refused(u16),
    /// The request could not be sent.
    Failed(String),
    /// No reply came in time.
    TimedOut,
}

/// What to do after an attempt.
pub enum NextStep {
    /// The reply was delivered.
    Finished,
    /// Send the request again: which attempt it is.
    Retry(u32),
    /// Report the error.
    GiveUp(String),
}

/// Whether a status is one of success.
pub fn is_success(status: u16) -> (r: bool)
    ensures
        r == (200 <= status < 300),
{
    200 <= status && status < 300
}

/// What went wrong in an attempt.
pub open spec fn error_text(o: Outcome, timeout_secs: nat) -> Seq<char> {
    match o {
        Outcome::Failed(e) => e@,
        Outcome::TimedOut => "timeout "@ + text::decimal(timeout_secs) + "s"@,
        _ => "empty response"@,
    }
}

fn error_of(o: &Outcome, timeout_secs: u64) -> (r: String)
    ensures
        r@ == error_text(*o, timeout_secs as nat),
{
    match o {
        Outcome::Failed(e) => e.clone(),
        Outcome::TimedOut => {
            let mut r = text::cat("timeout ", text::decimal_text(timeout_secs).as_str());
            r.append("s");
            r
        },
        _ => "empty response".to_owned(),
    }
}

/// What to do after attempt `attempt`, which went as `outcome` says: an attempt
/// that delivered nothing is repeated without a word, up to the last one.
pub fn after_attempt(attempt: u32, outcome: &Outcome, timeout_secs: u64) -> (r: NextStep)
    ensures
        *outcome is Delivered ==> r is Finished,
        !(*outcome is Delivered) && attempt < MAX_RETRIES ==> r == NextStep::Retry(
            (attempt + 1) as u32,
        ),
        !(*outcome is Delivered) && attempt >= MAX_RETRIES ==> (r matches NextStep::GiveUp(e) && e@
            == error_text(*outcome, timeout_secs as nat)),
{
    match outcome {
        Outcome::Delivered => NextStep::Finished,
        _ => if attempt < MAX_RETRIES {
            NextStep::Retry(attempt + 1)
        } else {
            NextStep::GiveUp(error_of(outcome, timeout_secs))
        },
    }
}

/// How a request ends whose attempts, from `attempt` on, go as `outcomes` says:
/// the number of attempts, and the error where it is given up.
pub open spec fn course(outcomes: Seq<Outcome>, attempt: int, timeout_secs: nat) -> (
    int,
    Option<Seq<char>>,
)
    decreases MAX_RETRIES - attempt,
{
    let o = outcomes[attempt - 1];
    if o is Delivered {
        (attempt, None)
    } else if attempt < MAX_RETRIES {
        course(outcomes, attempt + 1, timeout_secs)
    } else {
        (attempt, Some(error_text(o, timeout_secs)))
    }
}

/// A request is sent at most `MAX_RETRIES` times. It is given up exactly where
/// every attempt failed, with the error of the last one; else it ends with the
/// first attempt that delivered.
pub proof fn law_course(outcomes: Seq<Outcome>, timeout_secs: nat)
    requires
        outcomes.len() == MAX_RETRIES,
    ensures
        ({
            let (n, e) = course(outcomes, 1, timeout_secs);
            &&& 1 <= n <= MAX_RETRIES
            &&& e is Some <==> forall|i: int|
                0 <= i < MAX_RETRIES ==> !((#[trigger] outcomes[i]) is Delivered)
            &&& e is Some ==> e == Some(error_text(outcomes.last(), timeout_secs))
            &&& e is None ==> outcomes[n - 1] is Delivered && forall|i: int|
                0 <= i < n - 1 ==> !((#[trigger] outcomes[i]) is Delivered)
        }),
{
    reveal_with_fuel(course, 3);
}

/// What a client of the converted protocol is told of an error.
pub open spec fn failure_text(error: Seq<char>) -> Seq<char> {
    "[holoProxy Error] 下游 LLM 连接失败 (已重试"@ + text::decimal(MAX_RETRIES as nat) + "次): "@
        + error
}

/// What a client of the converted protocol is told of an error.
pub fn failure_message(error: &str) -> (r: String)
    ensures
        r@ == failure_text(error@),
{
    let mut r = text::cat(
        "[holoProxy Error] 下游 LLM 连接失败 (已重试",
        text::decimal_text(MAX_RETRIES as u64).as_str(),
    );
    r.append("次): ");
    r.append(error);
    r
}

/// A reply that reports an error is not recovered, and no model is asked about
/// it, unless it was cut off.
pub proof fn law_failure_not_recovered(error: Seq<char>, stop_reason: Seq<char>, model: bool)
    requires
        stop_reason != "length"@,
    ensures
        recovery::decision(failure_text(error), stop_reason, model)
            == recovery::Decision::Settled(None),
{
    reveal_strlit("[holoProxy Error] 下游 LLM 连接失败 (已重试");
    reveal_strlit("[holoProxy Error");
    let t = failure_text(error);
    let p = recovery::ERROR_MARK@;
    assert(t.subrange(0, p.len() as int) =~= p);
    assert(text::begins(t, p));
    text::lemma_holds_in(Seq::empty(), t, p);
    assert(Seq::<char>::empty() + t =~= t);
    recovery::law_marked_not_recovered(t, stop_reason, model);
}

/// What a client of the passthrough is told of an error.
pub open spec fn raw_failure_text(error: Seq<char>) -> Seq<char> {
    "data: [ERROR] downstream unavailable after "@ + text::decimal(MAX_RETRIES as nat)
        + " retries: "@ + error + "\n\n"@
}

/// What a client of the passthrough is told of an error.
pub fn raw_failure_message(error: &str) -> (r: String)
    ensures
        r@ == raw_failure_text(error@),
{
    let mut r = text::cat(
        "data: [ERROR] downstream unavailable after ",
        text::decimal_text(MAX_RETRIES as u64).as_str(),
    );
    r.append(" retries: ");
    r.append(error);
    r.append("\n\n");
    r
}

// ---------------------------------------------------------------------------
// What a request keeps
// ---------------------------------------------------------------------------

/// An address that asks for chat completions already stays as it is; to any
/// other that is added. Slashes at its end do not matter.
pub proof fn law_url_kept(base: Seq<char>)
    requires
        base.len() > 0 ==> base.last() != '/',
    ensures
        text::ends(base, "/chat/completions"@) ==> completions_url(base) == base,
        !text::ends(base, "/chat/completions"@) ==> completions_url(base) == base
            + "/chat/completions"@,
        completions_url(base.push('/')) == completions_url(base),
{
    assert(base.push('/').drop_last() =~= base);
}

/// A request is authorized with the key of the configuration behind its prefix,
/// under its header; not without a key, nor with the key `none`.
pub proof fn law_auth_header(config: LLMConfig, lower: Seq<char>)
    ensures
        auth_header(config, lower) is None <==> config.api_key@.len() == 0 || lower == "none"@,
        auth_header(config, lower) matches Some(h) ==> h.0 == config.auth_header@ && h.1
            == config.auth_prefix@ + config.api_key@,
{
}

/// The body of a converted request keeps all its members but what the
/// configuration decides; a body that is no object stays as it is.
pub proof fn law_message_body(body: Seq<char>, config: LLMConfig, key: Seq<char>)
    ensures
        json::json_members(body) is None ==> message_body(body, config) == body,
        json::json_members(body) matches Some(m) ==> exists|x: Seq<(Seq<char>, Seq<char>)>|
            {
                &&& message_body(body, config) == #[trigger] json::object_text(x)
                &&& json::lookup(x, "stream"@) == Some(
                    if config.stream {
                        "true"@
                    } else {
                        "false"@
                    },
                )
                &&& config.thinking ==> json::lookup(x, "chat_template_kwargs"@) == Some(
                    template_kwargs(config),
                )
                &&& !config.thinking ==> json::lookup(x, "chat_template_kwargs"@) == json::lookup(
                    m,
                    "chat_template_kwargs"@,
                )
                &&& key != "stream"@ && key != "chat_template_kwargs"@ ==> json::lookup(x, key)
                    == json::lookup(m, key)
            },
{
    if let Some(m) = json::json_members(body) {
        let x = configured(m, config);
        if key != "stream"@ && key != "chat_template_kwargs"@ {
            law_configured(m, config, key);
        } else {
            lemma_other_key();
            law_configured(m, config, "model"@);
        }
        assert(message_body(body, config) == json::object_text(x));
    }
}

proof fn lemma_other_key()
    ensures
        "model"@ != "stream"@,
        "model"@ != "chat_template_kwargs"@,
{
    reveal_strlit("model");
    reveal_strlit("stream");
    reveal_strlit("chat_template_kwargs");
    assert("model"@.len() == 5 && "stream"@.len() == 6 && "chat_template_kwargs"@.len() == 20);
}

/// The body of a request that is passed on asks for the model of the
/// configuration and keeps all its other members but what the configuration
/// decides; a body that is no object stays as it is.
pub proof fn law_raw_body(body: Seq<char>, config: LLMConfig, key: Seq<char>)
    ensures
        json::json_members(body) is None ==> raw_body(body, config) == body,
        json::json_members(body) matches Some(m) ==> exists|x: Seq<(Seq<char>, Seq<char>)>|
            {
                &&& raw_body(body, config) == #[trigger] json::object_text(x)
                &&& json::lookup(x, "model"@) == Some(json::quoted(config.model_name@))
                &&& json::lookup(x, "stream"@) == Some(
                    if config.stream {
                        "true"@
                    } else {
                        "false"@
                    },
                )
                &&& config.thinking ==> json::lookup(x, "chat_template_kwargs"@) == Some(
                    template_kwargs(config),
                )
                &&& !config.thinking ==> json::lookup(x, "chat_template_kwargs"@) == json::lookup(
                    m,
                    "chat_template_kwargs"@,
                )
                &&& key != "stream"@ && key != "chat_template_kwargs"@ && key != "model"@
                    ==> json::lookup(x, key) == json::lookup(m, key)
            },
{
    if let Some(m) = json::json_members(body) {
        let named = json::with_member(m, "model"@, json::quoted(config.model_name@));
        let x = configured(named, config);
        lemma_other_key();
        law_raw_model(m, config);
        law_configured(named, config, "model"@);
        json::law_with_member_found(
            m,
            "model"@,
            json::quoted(config.model_name@),
            "chat_template_kwargs"@,
        );
        if key != "stream"@ && key != "chat_template_kwargs"@ && key != "model"@ {
            law_configured(named, config, key);
            json::law_with_member_found(m, "model"@, json::quoted(config.model_name@), key);
        }
        assert(raw_body(body, config) == json::object_text(x));
    }
}

/// A model that thinks is told so, and with what effort.
pub proof fn law_template_kwargs(config: LLMConfig)
    ensures
        template_kwargs(config) == seq!['{'] + json::quoted("reasoning_effort"@) + seq![':']
            + json::quoted(config.reasoning_effort@) + seq![','] + json::quoted("thinking"@)
            + seq![':'] + "true"@ + seq!['}'],
{
    let a = ("reasoning_effort"@, json::quoted(config.reasoning_effort@));
    let b = ("thinking"@, "true"@);
    json::law_written(seq![a], b, Seq::empty(), Seq::empty());
    json::law_written(Seq::empty(), a, Seq::empty(), Seq::empty());
    assert(seq![a].push(b) =~= seq![a, b]);
    assert(template_kwargs(config) =~= seq!['{'] + json::quoted("reasoning_effort"@) + seq![':']
        + json::quoted(config.reasoning_effort@) + seq![','] + json::quoted("thinking"@)
        + seq![':'] + "true"@ + seq!['}']);
}

/// What is ready to be sent is the converted request, to the address and for
/// the model of the configuration. Messages that fit the window all go out;
/// else they are trimmed to it.
pub proof fn law_prepared(p: PreparedRequest, req: AnthropicRequest, config: LLMConfig)
    requires
        is_prepared(p, req, config),
    ensures
        ({
            let window = context::length_in(
                text::lowercase(text::trim(config.context_max_length@)),
            );
            let all = converter::request_messages(req, config);
            let sent = types::message_views(p.request.messages@);
            &&& p.is_agent_mode <==> req.tools@.len() > 0
            &&& p.request.model@ == config.model_name@
            &&& p.request.stream
            &&& p.request.temperature == req.temperature
            &&& p.request.top_p == req.top_p
            &&& text::ends(p.url@, "/chat/completions"@)
            &&& 5 * context::total_tokens(all) <= 4 * window ==> sent == all
            &&& 5 * context::total_tokens(all) > 4 * window ==> sent == context::trimmed(
                all,
                context::threshold(window),
            )
            &&& p.timeout_secs >= 60
            &&& forall|name: Seq<char>|
                tools::has_tool(p.tools@, name) <==> exists|i: int|
                    0 <= i < req.tools@.len() && (#[trigger] req.tools@[i]).name@ == name
        }),
{
    let window = context::length_in(text::lowercase(text::trim(config.context_max_length@)));
    context::law_threshold(window);
    law_completions_url(config.base_url@);
    assert forall|name: Seq<char>|
        tools::has_tool(p.tools@, name) <==> exists|i: int|
            0 <= i < req.tools@.len() && (#[trigger] req.tools@[i]).name@ == name by {
        tools::law_table(req.tools@, name);
    }
}

/// What a client is told of an error ends with the error.
pub proof fn law_failure_told(error: Seq<char>)
    ensures
        text::ends(failure_text(error), error),
        text::holds(raw_failure_text(error), error + "\n\n"@),
{
    let t = failure_text(error);
    assert(t.subrange(t.len() - error.len(), t.len() as int) =~= error);
    let head = "data: [ERROR] downstream unavailable after "@ + text::decimal(MAX_RETRIES as nat)
        + " retries: "@;
    let tail = error + "\n\n"@;
    assert(tail.subrange(0, tail.len() as int) =~= tail);
    text::lemma_holds_in(head, tail, tail);
    assert(raw_failure_text(error) =~= head + tail);
}

/// Messages that were asked for at different times have different identifiers.
pub proof fn law_message_id(a: int, b: int)
    ensures
        text::begins(message_id(a), "msg_"@),
        message_id(a) == message_id(b) ==> a == b,
{
    reveal_strlit("msg_");
    reveal_strlit("-");
    let x = message_id(a).skip(4);
    let y = message_id(b).skip(4);
    let m = if a < 0 {
        (-a) as nat
    } else {
        a as nat
    };
    let n = if b < 0 {
        (-b) as nat
    } else {
        b as nat
    };
    wire::law_decimal(m);
    wire::law_decimal(n);
    assert(message_id(a).subrange(0, 4) =~= "msg_"@);
    if a < 0 {
        assert(x =~= "-"@ + text::decimal(m));
        assert(x.skip(1) =~= text::decimal(m));
        assert(x[0] == '-');
    } else {
        assert(x =~= text::decimal(m));
        assert('0' <= text::decimal(m)[0] <= '9');
    }
    if b < 0 {
        assert(y =~= "-"@ + text::decimal(n));
        assert(y.skip(1) =~= text::decimal(n));
        assert(y[0] == '-');
    } else {
        assert(y =~= text::decimal(n));
        assert('0' <= text::decimal(n)[0] <= '9');
    }
}

/// The error of an attempt says what went wrong: in its own words, or after how
/// many seconds it was given up.
pub proof fn law_error_text(o: Outcome, secs: nat, other: nat)
    ensures
        o matches Outcome::Failed(e) ==> error_text(o, secs) == e@,
        o is TimedOut && error_text(o, secs) == error_text(o, other) ==> secs == other,
        o is TimedOut ==> text::begins(error_text(o, secs), "timeout "@),
{
    if o is TimedOut {
        let a = "timeout "@;
        let z = "s"@;
        let x = error_text(o, secs);
        let y = error_text(o, other);
        let n = a.len() as int;
        assert(x.subrange(0, n) =~= a);
        assert(x.skip(n) =~= text::decimal(secs) + z);
        assert(y.skip(n) =~= text::decimal(other) + z);
        assert((text::decimal(secs) + z).take(x.len() - n - z.len()) =~= text::decimal(secs));
        assert((text::decimal(other) + z).take(y.len() - n - z.len()) =~= text::decimal(other));
        wire::law_decimal(secs);
        wire::law_decimal(other);
    }
}

} // verus!
