//! The configuration: the models that can be used, and the one in use.
use indexmap::IndexMap;
use vstd::prelude::*;
use vstd::string::*;

use crate::text;
use crate::types;
use crate::types::LLMConfig;

verus! {

// ---------------------------------------------------------------------------
// Models in order
// ---------------------------------------------------------------------------

/// `indexmap::IndexMap`, a map that keeps its entries in order.
#[verifier::external_type_specification]
#[verifier::external_body]
#[verifier::reject_recursive_types(K)]
#[verifier::reject_recursive_types(V)]
#[verifier::reject_recursive_types(S)]
pub struct ExIndexMap<K, V, S>(indexmap::IndexMap<K, V, S>);

/// The entries of a map, in its order.
pub uninterp spec fn entries(m: IndexMap<String, LLMConfig>) -> Seq<(Seq<char>, LLMConfig)>;

/// The position of the entry of a name, from position `from` on.
pub open spec fn entry_index(
    v: Seq<(Seq<char>, LLMConfig)>,
    name: Seq<char>,
    from: int,
) -> Option<int>
    decreases v.len() - from,
{
    if from < 0 || from >= v.len() {
        None
    } else if v[from].0 == name {
        Some(from)
    } else {
        entry_index(v, name, from + 1)
    }
}

/// The model of a name.
pub open spec fn entry(v: Seq<(Seq<char>, LLMConfig)>, name: Seq<char>) -> Option<LLMConfig> {
    match entry_index(v, name, 0) {
        Some(i) => Some(v[i].1),
        None => None,
    }
}

/// The entries with the model of a name set: in its place where the name is
/// there, else at the end.
pub open spec fn with_entry(
    v: Seq<(Seq<char>, LLMConfig)>,
    name: Seq<char>,
    config: LLMConfig,
) -> Seq<(Seq<char>, LLMConfig)> {
    match entry_index(v, name, 0) {
        Some(i) => v.update(i, (name, config)),
        None => v.push((name, config)),
    }
}

pub open spec fn names(v: Seq<(Seq<char>, LLMConfig)>) -> Seq<Seq<char>> {
    v.map_values(|e: (Seq<char>, LLMConfig)| e.0)
}

/// `indexmap::IndexMap::new`: a map without entries.
#[verifier::external_body]
fn no_models() -> (m: IndexMap<String, LLMConfig>)
    ensures
        entries(m) == Seq::<(Seq<char>, LLMConfig)>::empty(),
{
    IndexMap::new()
}

/// `indexmap::IndexMap::insert`: sets the value of a key, in its place where
/// the key is there, else at the end.
#[verifier::external_body]
fn set_model(m: &mut IndexMap<String, LLMConfig>, name: String, config: LLMConfig)
    ensures
        entries(*final(m)) == with_entry(entries(*old(m)), name@, config),
{
    m.insert(name, config);
}

/// `indexmap::IndexMap::get`: the value of a key.
#[verifier::external_body]
fn model_of<'a>(m: &'a IndexMap<String, LLMConfig>, name: &str) -> (r: Option<&'a LLMConfig>)
    ensures
        match r {
            Some(c) => entry(entries(*m), name@) == Some(*c),
            None => entry(entries(*m), name@) is None,
        },
{
    m.get(name)
}

/// `indexmap::IndexMap::keys`: the keys, in order.
#[verifier::external_body]
fn model_names(m: &IndexMap<String, LLMConfig>) -> (r: Vec<String>)
    ensures
        text::views(r@) == names(entries(*m)),
{
    m.keys().cloned().collect()
}

// ---------------------------------------------------------------------------
// Settings
// ---------------------------------------------------------------------------

/// The configuration.
pub struct Settings {
    pub auto_select: bool,
    pub active_llm: String,
    pub llms: IndexMap<String, LLMConfig>,
}

/// The mathematical counterpart of `Settings`.
pub ghost struct SettingsView {
    pub auto_select: bool,
    pub active: Seq<char>,
    pub models: Seq<(Seq<char>, LLMConfig)>,
}

impl View for Settings {
    type V = SettingsView;

    open spec fn view(&self) -> SettingsView {
        SettingsView {
            auto_select: self.auto_select,
            active: self.active_llm@,
            models: entries(self.llms),
        }
    }
}

/// The name of the model that there is without a configuration.
pub const DEFAULT_NAME: &'static str = "默认本地大模型";

/// Whether `c` is the model that there is without a configuration.
pub open spec fn is_default_model(c: LLMConfig) -> bool {
    &&& c.base_url@ == "http://127.0.0.1:8000/v1"@
    &&& c.model_name@ == "default-model"@
    &&& c.context_max_length@ == "200k"@
    &&& c.verify_ssl
    &&& c.api_key@ == "none"@
    &&& c.auth_header@ == "Authorization"@
    &&& c.auth_prefix@ == "Bearer "@
    &&& !c.supports_native_function_calling
    &&& !c.supports_reasoning_content
    &&& c.thinking
    &&& c.reasoning_effort@ == "max"@
    &&& c.stream
}

/// Whether `s` is the configuration that there is without a file: one local
/// model, in use.
pub open spec fn is_default(s: SettingsView) -> bool {
    &&& !s.auto_select
    &&& s.active == DEFAULT_NAME@
    &&& s.models.len() == 1
    &&& s.models[0].0 == DEFAULT_NAME@
    &&& is_default_model(s.models[0].1)
}

impl Settings {
    /// The configuration that there is without a file.
    pub fn default_config() -> (r: Settings)
        ensures
            is_default(r@),
    {
        let config = LLMConfig {
            base_url: "http://127.0.0.1:8000/v1".to_owned(),
            model_name: "default-model".to_owned(),
            context_max_length: types::default_context_max_length(),
            verify_ssl: types::default_true(),
            api_key: types::default_api_key(),
            auth_header: types::default_auth_header(),
            auth_prefix: types::default_auth_prefix(),
            supports_native_function_calling: false,
            supports_reasoning_content: types::default_false(),
            thinking: true,
            reasoning_effort: types::default_reasoning_effort(),
            stream: true,
        };
        let mut llms = no_models();
        set_model(&mut llms, DEFAULT_NAME.to_owned(), config);
        Settings { auto_select: false, active_llm: DEFAULT_NAME.to_owned(), llms }
    }
}

/// What was found of the configuration file.
pub enum ConfigSource {
    /// There is none.
    Missing,
    /// It could not be read.
    Unreadable,
    /// It holds no configuration.
    Invalid,
    /// It holds this one.
    Loaded(Settings),
}

/// The configuration to start with, and whether it is to be written out: the
/// one that was found, else the default, which is written where there is no
/// file.
pub fn init_config(source: ConfigSource) -> (r: (Settings, bool))
    ensures
        match source {
            ConfigSource::Missing => is_default(r.0@) && r.1,
            ConfigSource::Unreadable => is_default(r.0@) && !r.1,
            ConfigSource::Invalid => is_default(r.0@) && !r.1,
            ConfigSource::Loaded(s) => r.0 == s && !r.1,
        },
{
    match source {
        ConfigSource::Missing => (Settings::default_config(), true),
        ConfigSource::Unreadable => (Settings::default_config(), false),
        ConfigSource::Invalid => (Settings::default_config(), false),
        ConfigSource::Loaded(s) => (s, false),
    }
}

/// The names of all models, in the order of the configuration.
pub fn get_llm_names(settings: &Settings) -> (r: Vec<String>)
    ensures
        text::views(r@) == names(settings@.models),
{
    model_names(&settings.llms)
}

/// The name of the model in use.
pub fn get_active_llm_name(settings: &Settings) -> (r: String)
    ensures
        r@ == settings@.active,
{
    settings.active_llm.clone()
}

/// The model in use.
pub open spec fn active_model(s: SettingsView) -> Option<LLMConfig> {
    if s.active.len() == 0 {
        None
    } else {
        entry(s.models, s.active)
    }
}

/// The model in use, where there is one of that name.
pub fn get_active_llm_config(settings: &Settings) -> (r: Option<LLMConfig>)
    ensures
        r == active_model(settings@),
{
    if settings.active_llm.as_str().is_empty() {
        return None;
    }
    match model_of(&settings.llms, settings.active_llm.as_str()) {
        Some(c) => Some(c.clone()),
        None => None,
    }
}

/// What a switch to a model that is not there is answered.
pub open spec fn not_found(name: Seq<char>) -> Seq<char> {
    "LLM '"@ + name + "' not found"@
}

/// The configuration with another model in use.
pub open spec fn switched(s: SettingsView, name: Seq<char>) -> SettingsView {
    SettingsView { active: name, ..s }
}

/// Puts another model in use. One that is not there is refused, and nothing
/// changes.
pub fn switch_active_llm(settings: &mut Settings, name: &str) -> (r: Result<(), String>)
    ensures
        match r {
            Ok(_) => entry(old(settings)@.models, name@) is Some && final(settings)@ == switched(
                old(settings)@,
                name@,
            ),
            Err(e) => entry(old(settings)@.models, name@) is None && e@ == not_found(name@)
                && *final(settings) == *old(settings),
        },
{
    if model_of(&settings.llms, name).is_none() {
        let mut e = text::cat("LLM '", name);
        e.append("' not found");
        return Err(e);
    }
    settings.active_llm = name.to_owned();
    Ok(())
}

/// After a switch that was not refused the model of that name is in use; the
/// models are as they were.
pub proof fn law_switch(s: SettingsView, name: Seq<char>)
    requires
        name.len() > 0,
        entry(s.models, name) is Some,
    ensures
        active_model(switched(s, name)) == entry(s.models, name),
        active_model(switched(s, name)) is Some,
        switched(s, name).models == s.models,
        switched(switched(s, name), s.active) == s,
{
}

/// What is said of a change that could not be saved.
pub open spec fn save_error(error: Seq<char>) -> Seq<char> {
    "Failed to save config: "@ + error
}

/// What is said of a change that could not be saved.
pub fn save_failure(error: &str) -> (r: String)
    ensures
        r@ == save_error(error@),
{
    text::cat("Failed to save config: ", error)
}

/// What the user can choose: the model in use, and whether it is chosen
/// automatically.
pub struct Choice {
    pub auto_select: bool,
    pub active_llm: String,
}

/// The configuration with what was chosen put back.
pub open spec fn put_back(s: SettingsView, c: Choice) -> SettingsView {
    SettingsView { auto_select: c.auto_select, active: c.active_llm@, ..s }
}

/// What is chosen in a configuration.
pub fn current_choice(settings: &Settings) -> (r: Choice)
    ensures
        r.auto_select == settings@.auto_select,
        r.active_llm@ == settings@.active,
{
    Choice { auto_select: settings.auto_select, active_llm: settings.active_llm.clone() }
}

/// Ends a change: `before` is what was chosen before it, `saved` how saving it
/// went. A change that could not be saved is taken back.
pub fn conclude_change(
    settings: &mut Settings,
    before: Choice,
    saved: Result<(), String>,
) -> (r: Result<(), String>)
    ensures
        match saved {
            Ok(_) => r is Ok && *final(settings) == *old(settings),
            Err(e) => final(settings)@ == put_back(old(settings)@, before) && (r matches Err(x)
                && x@ == save_error(e@)),
        },
{
    match saved {
        Ok(_) => Ok(()),
        Err(e) => {
            settings.auto_select = before.auto_select;
            settings.active_llm = before.active_llm;
            Err(save_failure(e.as_str()))
        },
    }
}

/// A change is all or nothing: where a switch to another model, or to or from
/// the automatic choice, could not be saved, the configuration is as it was
/// before.
pub proof fn law_change_atomic(s: SettingsView, name: Seq<char>, auto: bool, before: Choice)
    requires
        before.auto_select == s.auto_select,
        before.active_llm@ == s.active,
    ensures
        put_back(switched(s, name), before) == s,
        put_back((SettingsView { auto_select: auto, ..s }), before) == s,
        active_model(put_back(switched(s, name), before)) == active_model(s),
{
}

/// Whether the model is chosen automatically.
pub fn is_auto_select(settings: &Settings) -> (r: bool)
    ensures
        r == settings@.auto_select,
{
    settings.auto_select
}

/// Sets whether the model is chosen automatically.
pub fn switch_auto_select(settings: &mut Settings, on: bool)
    ensures
        final(settings)@ == (SettingsView { auto_select: on, ..old(settings)@ }),
{
    settings.auto_select = on;
}

/// The model of a name is the first that goes by it; there is none where no
/// model does.
pub proof fn law_entry(v: Seq<(Seq<char>, LLMConfig)>, name: Seq<char>)
    ensures
        forall|i: int|
            0 <= i < v.len() && (#[trigger] v[i]).0 == name && (forall|j: int|
                0 <= j < i ==> (#[trigger] v[j]).0 != name) ==> entry(v, name) == Some(v[i].1),
        (forall|i: int| 0 <= i < v.len() ==> (#[trigger] v[i]).0 != name) <==> entry(
            v,
            name,
        ) is None,
{
    lemma_entry_index(v, name, 0);
}

proof fn lemma_entry_index(v: Seq<(Seq<char>, LLMConfig)>, name: Seq<char>, from: int)
    requires
        0 <= from <= v.len(),
    ensures
        match entry_index(v, name, from) {
            Some(i) => from <= i < v.len() && v[i].0 == name && forall|j: int|
                from <= j < i ==> (#[trigger] v[j]).0 != name,
            None => forall|j: int| from <= j < v.len() ==> (#[trigger] v[j]).0 != name,
        },
    decreases v.len() - from,
{
    if from < v.len() && v[from].0 != name {
        lemma_entry_index(v, name, from + 1);
    }
}

/// The model in use is the one whose name is in use; a name of no model, or an
/// empty one, is that of none.
pub proof fn law_active_model(s: SettingsView)
    ensures
        s.active.len() == 0 ==> active_model(s) is None,
        forall|i: int|
            0 <= i < s.models.len() && (#[trigger] s.models[i]).0 == s.active && s.active.len() > 0
                && (forall|j: int| 0 <= j < i ==> (#[trigger] s.models[j]).0 != s.active)
                ==> active_model(s) == Some(s.models[i].1),
        (forall|i: int| 0 <= i < s.models.len() ==> (#[trigger] s.models[i]).0 != s.active)
            ==> active_model(s) is None,
{
    law_entry(s.models, s.active);
}

} // verus!
