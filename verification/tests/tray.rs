use holo_proxy::config::{get_active_llm_name, is_auto_select, Settings};
use holo_proxy::tray::{build_menu, fallback_icon, handle_menu_id, tooltip, MenuAction, MenuEntry};

fn settings() -> Settings {
    let mut s = Settings::default_config();
    let copy = s.llms[0].clone();
    s.llms.insert("b".into(), copy);
    s
}

fn lines(s: &Settings) -> Vec<(String, String)> {
    build_menu(s)
        .into_iter()
        .map(|e| match e {
            MenuEntry::Item { id, label } => (id, label),
            MenuEntry::Separator => ("-".to_string(), String::new()),
        })
        .collect()
}

fn line(id: &str, label: &str) -> (String, String) {
    (id.to_string(), label.to_string())
}

#[test]
fn the_menu() {
    let mut s = settings();
    assert_eq!(
        lines(&s),
        vec![
            line("__auto__", "  自动选择"),
            line("-", ""),
            line("默认本地大模型", "✓ 默认本地大模型"),
            line("b", "  b"),
            line("-", ""),
            line("__quit__", "退出 holoProxy"),
        ]
    );
    s.auto_select = true;
    let l = lines(&s);
    assert_eq!(l[0].1, "✓ 自动选择 (当前: 默认本地大模型)");
    assert_eq!(l[2].1, "  默认本地大模型");
    assert_eq!(tooltip(&s), "holoProxy - 默认本地大模型");
}

#[test]
fn clicks_on_the_menu() {
    let mut s = settings();
    assert_eq!(handle_menu_id(&mut s, "__quit__"), MenuAction::Quit);
    assert_eq!(handle_menu_id(&mut s, "gone"), MenuAction::Ignore);
    assert_eq!(get_active_llm_name(&s), "默认本地大模型");
    assert_eq!(handle_menu_id(&mut s, "b"), MenuAction::Refresh);
    assert_eq!(get_active_llm_name(&s), "b");
    assert_eq!(lines(&s)[3], line("b", "✓ b"));
    assert_eq!(handle_menu_id(&mut s, "__auto__"), MenuAction::Refresh);
    assert!(is_auto_select(&s));
    assert_eq!(handle_menu_id(&mut s, "__auto__"), MenuAction::Refresh);
    assert!(!is_auto_select(&s));
}

#[test]
fn the_icon() {
    let icon = fallback_icon();
    assert_eq!(icon.len(), 32 * 32 * 4);
    let pixel = |x: usize, y: usize| icon[(y * 32 + x) * 4..(y * 32 + x) * 4 + 4].to_vec();
    assert_eq!(pixel(0, 0), vec![0, 0, 0, 0]);
    assert_eq!(pixel(16, 2), vec![37, 99, 235, 255]);
    assert_eq!(pixel(16, 1), vec![0, 0, 0, 0]);
    assert_eq!(pixel(13, 8), vec![255, 255, 255, 255]);
    assert_eq!(pixel(15, 8), vec![37, 99, 235, 255]);
    assert_eq!(pixel(18, 14), vec![255, 255, 255, 255]);
    assert_eq!(pixel(16, 16), vec![37, 99, 235, 255]);
}
