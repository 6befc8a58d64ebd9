use holo_proxy::config::{current_choice, get_active_llm_name, Settings};
use holo_proxy::json::Json;
use holo_proxy::server::{conclude_selection, models_reply, select_model, select_model_named};

fn settings() -> Settings {
    let mut s = Settings::default_config();
    let copy = s.llms[0].clone();
    s.llms.insert("other \"one\"".into(), copy);
    s
}

#[test]
fn the_list_of_models() {
    assert_eq!(
        models_reply(&settings()).text,
        "{\"active_llm\":\"默认本地大模型\",\"models\":[\"默认本地大模型\",\"other \\\"one\\\"\"]}"
    );
}

#[test]
fn switching_by_request() {
    let mut s = settings();
    let r = select_model(&mut s, &Json::parse(r#"{"model":"other \"one\""}"#).unwrap());
    assert_eq!(r.status, 200);
    assert!(r.changed);
    assert_eq!(r.body.text, r#"{"active_llm":"other \"one\"","status":"success"}"#);
    assert_eq!(get_active_llm_name(&s), "other \"one\"");
}

#[test]
fn requests_to_switch_that_are_refused() {
    let mut s = settings();
    for body in ["{}", r#"{"model":""}"#, r#"{"model":1}"#, "[]"] {
        let r = select_model(&mut s, &Json::parse(body).unwrap());
        assert_eq!(r.status, 400);
        assert!(!r.changed);
        assert_eq!(r.body.text, r#"{"msg":"model required","status":"error"}"#);
    }
    let r = select_model_named(&mut s, "x");
    assert_eq!(r.status, 404);
    assert!(!r.changed);
    assert_eq!(r.body.text, r#"{"msg":"LLM 'x' not found","status":"error"}"#);
    assert_eq!(get_active_llm_name(&s), "默认本地大模型");
}

#[test]
fn a_switch_that_cannot_be_saved_is_taken_back() {
    let mut s = settings();
    let before = current_choice(&s);
    let r = select_model_named(&mut s, "other \"one\"");
    assert_eq!(get_active_llm_name(&s), "other \"one\"");
    let r = conclude_selection(&mut s, before, r, Err("full".into()));
    assert_eq!(r.status, 404);
    assert!(!r.changed);
    assert_eq!(r.body.text, r#"{"msg":"Failed to save config: full","status":"error"}"#);
    assert_eq!(get_active_llm_name(&s), "默认本地大模型");
    let before = current_choice(&s);
    let r = select_model_named(&mut s, "other \"one\"");
    let r = conclude_selection(&mut s, before, r, Ok(()));
    assert_eq!(r.status, 200);
    assert_eq!(get_active_llm_name(&s), "other \"one\"");
}
