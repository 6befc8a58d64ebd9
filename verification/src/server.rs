//! The replies of the endpoints that list the models and switch between them.
use vstd::prelude::*;
use vstd::string::*;

use crate::config;
use crate::config::{Choice, Settings, SettingsView};
use crate::json;
use crate::json::Json;
use crate::text;

verus! {

/// What a request is answered while no model is in use.
pub const NO_MODEL: &'static str = "No LLM";

/// The status with that answer.
pub const NO_MODEL_STATUS: u16 = 500;

pub open spec fn quoted_all(v: Seq<Seq<char>>) -> Seq<Seq<char>> {
    v.map_values(|s: Seq<char>| json::quoted(s))
}

/// The models and the one in use.
pub open spec fn models_text(s: SettingsView) -> Seq<char> {
    json::object2(
        "active_llm"@,
        json::quoted(s.active),
        "models"@,
        json::array_text(quoted_all(config::names(s.models))),
    )
}

/// The models and the one in use.
pub fn models_reply(settings: &Settings) -> (r: Json)
    ensures
        r@ == models_text(settings@),
{
    let names = config::get_llm_names(settings);
    let ghost all = quoted_all(text::views(names@));
    let mut items: Vec<String> = Vec::new();
    let mut i: usize = 0;
    assert(text::views(items@) =~= all.take(0));
    while i < names.len()
        invariant
            all == quoted_all(text::views(names@)),
            i <= names@.len(),
            text::views(items@) == all.take(i as int),
        decreases names.len() - i,
    {
        let ghost before = text::views(items@);
        items.push(json::quote_json(names[i].as_str()));
        assert(text::views(items@) =~= before.push(json::quoted(names@[i as int]@)));
        assert(text::views(items@) =~= all.take(i + 1));
        i = i + 1;
    }
    assert(all.take(all.len() as int) =~= all);
    Json {
        text: json::write2(
            "active_llm",
            json::quote_json(config::get_active_llm_name(settings).as_str()),
            "models",
            json::array_of(&items).text,
        ),
    }
}

/// What a request to switch is answered.
pub struct SelectReply {
    pub status: u16,
    pub body: Json,
    /// Whether the configuration has changed and is to be saved.
    pub changed: bool,
}

/// An error as it is answered.
pub open spec fn error_body(msg: Seq<char>) -> Seq<char> {
    json::object2("msg"@, json::quoted(msg), "status"@, json::quoted("error"@))
}

/// A success as it is answered.
pub open spec fn success_body(name: Seq<char>) -> Seq<char> {
    json::object2("active_llm"@, json::quoted(name), "status"@, json::quoted("success"@))
}

/// The model that a request asks for; empty where it asks for none.
pub open spec fn requested(body: Seq<char>) -> Seq<char> {
    match json::json_member_string(body, "model"@) {
        Some(s) => s,
        None => Seq::empty(),
    }
}

/// Answers a request to switch to the model `name`.
pub fn select_model_named(settings: &mut Settings, name: &str) -> (r: SelectReply)
    ensures
        if name@.len() == 0 {
            r.status == 400 && r.body@ == error_body("model required"@) && !r.changed
                && *final(settings) == *old(settings)
        } else if config::entry(old(settings)@.models, name@) is Some {
            r.status == 200 && r.body@ == success_body(name@) && r.changed && final(settings)@
                == config::switched(old(settings)@, name@)
        } else {
            r.status == 404 && r.body@ == error_body(config::not_found(name@)) && !r.changed
                && *final(settings) == *old(settings)
        },
{
    if name.is_empty() {
        return SelectReply { status: 400, body: write_error("model required"), changed: false };
    }
    match config::switch_active_llm(settings, name) {
        Ok(_) => SelectReply {
            status: 200,
            body: Json {
                text: json::write2(
                    "active_llm",
                    json::quote_json(name),
                    "status",
                    json::quote_json("success"),
                ),
            },
            changed: true,
        },
        Err(e) => SelectReply { status: 404, body: write_error(e.as_str()), changed: false },
    }
}

/// Answers a request to switch to another model.
pub fn select_model(settings: &mut Settings, body: &Json) -> (r: SelectReply)
    ensures
        ({
            let name = requested(body@);
            if name.len() == 0 {
                r.status == 400 && r.body@ == error_body("model required"@) && !r.changed
                    && *final(settings) == *old(settings)
            } else if config::entry(old(settings)@.models, name) is Some {
                r.status == 200 && r.body@ == success_body(name) && r.changed && final(settings)@
                    == config::switched(old(settings)@, name)
            } else {
                r.status == 404 && r.body@ == error_body(config::not_found(name)) && !r.changed
                    && *final(settings) == *old(settings)
            }
        }),
{
    let name = match body.get_str("model") {
        Some(s) => s,
        None => String::new(),
    };
    select_model_named(settings, name.as_str())
}

/// Ends a request to switch that was answered `reply`: `before` is what was
/// chosen before it, `saved` how saving went. A switch that could not be saved
/// is taken back and answered with the error.
pub fn conclude_selection(
    settings: &mut Settings,
    before: Choice,
    reply: SelectReply,
    saved: Result<(), String>,
) -> (r: SelectReply)
    ensures
        match saved {
            Ok(_) => r == reply && *final(settings) == *old(settings),
            Err(e) => r.status == 404 && r.body@ == error_body(config::save_error(e@))
                && !r.changed && final(settings)@ == config::put_back(old(settings)@, before),
        },
{
    match config::conclude_change(settings, before, saved) {
        Ok(_) => reply,
        Err(e) => SelectReply { status: 404, body: write_error(e.as_str()), changed: false },
    }
}

fn write_error(msg: &str) -> (r: Json)
    ensures
        r@ == error_body(msg@),
{
    Json {
        text: json::write2("msg", json::quote_json(msg), "status", json::quote_json("error")),
    }
}

/// The reply to a request for the models lists the names of all of them, in
/// their order, and the one in use.
pub proof fn law_models_listed(s: SettingsView) -> (items: Seq<Seq<char>>)
    ensures
        items.len() == s.models.len(),
        forall|i: int| 0 <= i < items.len() ==> #[trigger] items[i] == json::quoted(s.models[i].0),
        models_text(s) == seq!['{'] + json::quoted("active_llm"@) + seq![':'] + json::quoted(
            s.active,
        ) + seq![','] + json::quoted("models"@) + seq![':'] + json::array_text(items) + seq!['}'],
{
    let items = quoted_all(config::names(s.models));
    let a = ("active_llm"@, json::quoted(s.active));
    let b = ("models"@, json::array_text(items));
    json::law_written(seq![a], b, Seq::empty(), Seq::empty());
    json::law_written(Seq::empty(), a, Seq::empty(), Seq::empty());
    assert(seq![a].push(b) =~= seq![a, b]);
    let one = seq!['{'] + json::quoted("active_llm"@) + seq![':'] + json::quoted(s.active);
    assert((one + seq!['}']).drop_last() =~= one);
    items
}

/// An error is told in the message of the reply, a success gives the name of the
/// model that is now in use.
pub proof fn law_replies(t: Seq<char>)
    ensures
        error_body(t) == seq!['{'] + json::quoted("msg"@) + seq![':'] + json::quoted(t) + seq![',']
            + json::quoted("status"@) + seq![':'] + json::quoted("error"@) + seq!['}'],
        success_body(t) == seq!['{'] + json::quoted("active_llm"@) + seq![':'] + json::quoted(t)
            + seq![','] + json::quoted("status"@) + seq![':'] + json::quoted("success"@)
            + seq!['}'],
{
    lemma_two_written("msg"@, json::quoted(t), "status"@, json::quoted("error"@));
    lemma_two_written("active_llm"@, json::quoted(t), "status"@, json::quoted("success"@));
}

proof fn lemma_two_written(k1: Seq<char>, v1: Seq<char>, k2: Seq<char>, v2: Seq<char>)
    ensures
        json::object2(k1, v1, k2, v2) == seq!['{'] + json::quoted(k1) + seq![':'] + v1 + seq![',']
            + json::quoted(k2) + seq![':'] + v2 + seq!['}'],
{
    let a = (k1, v1);
    let b = (k2, v2);
    json::law_written(seq![a], b, Seq::empty(), Seq::empty());
    json::law_written(Seq::empty(), a, Seq::empty(), Seq::empty());
    assert(seq![a].push(b) =~= seq![a, b]);
    let one = seq!['{'] + json::quoted(k1) + seq![':'] + v1;
    assert((one + seq!['}']).drop_last() =~= one);
}

} // verus!
