use holo_proxy::config::{
    conclude_change, current_choice, get_active_llm_config, get_active_llm_name, get_llm_names,
    init_config, is_auto_select, save_failure, switch_active_llm, switch_auto_select, ConfigSource, Settings,
};
use holo_proxy::types::{
    default_api_key, default_auth_header, default_auth_prefix, default_context_max_length,
    default_false, default_reasoning_effort, default_true, LLMConfig,
};

fn model(name: &str) -> LLMConfig {
    LLMConfig {
        base_url: "http://x".into(),
        model_name: name.into(),
        context_max_length: default_context_max_length(),
        verify_ssl: default_true(),
        api_key: default_api_key(),
        auth_header: default_auth_header(),
        auth_prefix: default_auth_prefix(),
        supports_native_function_calling: default_true(),
        supports_reasoning_content: default_false(),
        thinking: true,
        reasoning_effort: default_reasoning_effort(),
        stream: true,
    }
}

fn settings() -> Settings {
    let mut llms = indexmap::IndexMap::new();
    llms.insert("zeta".to_string(), model("z"));
    llms.insert("alpha".to_string(), model("a"));
    llms.insert("mid".to_string(), model("m"));
    Settings { auto_select: false, active_llm: "alpha".into(), llms }
}

#[test]
fn the_default_configuration() {
    let s = Settings::default_config();
    assert_eq!(get_llm_names(&s), vec!["默认本地大模型"]);
    assert_eq!(get_active_llm_name(&s), "默认本地大模型");
    let c = get_active_llm_config(&s).unwrap();
    assert_eq!(c.base_url, "http://127.0.0.1:8000/v1");
    assert_eq!(c.model_name, "default-model");
    assert_eq!(c.context_max_length, "200k");
    assert_eq!(c.api_key, "none");
    assert_eq!(c.auth_header, "Authorization");
    assert_eq!(c.auth_prefix, "Bearer ");
    assert!(!c.supports_native_function_calling);
    assert!(c.thinking && c.stream);
    assert_eq!(c.reasoning_effort, "max");
}

#[test]
fn where_the_configuration_comes_from() {
    let (s, write) = init_config(ConfigSource::Missing);
    assert!(write);
    assert_eq!(get_active_llm_name(&s), "默认本地大模型");
    let (s, write) = init_config(ConfigSource::Unreadable);
    assert!(!write);
    assert_eq!(s.llms.len(), 1);
    let (s, write) = init_config(ConfigSource::Invalid);
    assert!(!write);
    assert_eq!(s.llms.len(), 1);
    let (s, write) = init_config(ConfigSource::Loaded(settings()));
    assert!(!write);
    assert_eq!(get_active_llm_name(&s), "alpha");
}

#[test]
fn names_keep_the_order_of_the_configuration() {
    assert_eq!(get_llm_names(&settings()), vec!["zeta", "alpha", "mid"]);
}

#[test]
fn the_model_in_use() {
    let mut s = settings();
    assert_eq!(get_active_llm_config(&s).unwrap().model_name, "a");
    s.active_llm = "gone".into();
    assert!(get_active_llm_config(&s).is_none());
    s.active_llm = String::new();
    s.llms.insert(String::new(), model("empty"));
    assert!(get_active_llm_config(&s).is_none());
}

#[test]
fn switching_models() {
    let mut s = settings();
    assert_eq!(switch_active_llm(&mut s, "mid"), Ok(()));
    assert_eq!(get_active_llm_config(&s).unwrap().model_name, "m");
    assert_eq!(get_llm_names(&s), vec!["zeta", "alpha", "mid"]);
    assert_eq!(switch_active_llm(&mut s, "none"), Err("LLM 'none' not found".to_string()));
    assert_eq!(get_active_llm_name(&s), "mid");
    assert_eq!(save_failure("disk full"), "Failed to save config: disk full");
}

#[test]
fn a_change_that_cannot_be_saved_is_taken_back() {
    let mut s = settings();
    let before = current_choice(&s);
    switch_active_llm(&mut s, "mid").unwrap();
    switch_auto_select(&mut s, true);
    let r = conclude_change(&mut s, before, Err("disk full".into()));
    assert_eq!(r, Err("Failed to save config: disk full".to_string()));
    assert_eq!(get_active_llm_name(&s), "alpha");
    assert!(!is_auto_select(&s));
    let before = current_choice(&s);
    switch_active_llm(&mut s, "mid").unwrap();
    assert_eq!(conclude_change(&mut s, before, Ok(())), Ok(()));
    assert_eq!(get_active_llm_name(&s), "mid");
}

#[test]
fn the_automatic_choice() {
    let mut s = settings();
    assert!(!is_auto_select(&s));
    switch_auto_select(&mut s, true);
    assert!(is_auto_select(&s));
    assert_eq!(get_active_llm_name(&s), "alpha");
}

#[test]
fn defaults_of_the_configuration() {
    assert_eq!(default_context_max_length(), "200k");
    assert_eq!(default_api_key(), "none");
    assert_eq!(default_auth_header(), "Authorization");
    assert_eq!(default_auth_prefix(), "Bearer ");
    assert_eq!(default_reasoning_effort(), "max");
    assert!(default_true());
    assert!(!default_false());
}
