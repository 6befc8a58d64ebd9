use holo_proxy::dsml::{
    find_close_tag_end_in_original, find_original_tag_pos, normalize_dsml_tags,
    normalize_fullwidth_ascii, replace_internals, replace_wrappers,
};
use holo_proxy::pattern::{Captured, Span};

#[test]
fn fullwidth_punctuation_becomes_ascii() {
    assert_eq!(normalize_fullwidth_ascii("＜｜ａ｜＞！～"), "<|ａ|>!~");
    assert_eq!(normalize_fullwidth_ascii("＼＇"), "\\'");
    assert_eq!(normalize_fullwidth_ascii("plain 文"), "plain 文");
}

#[test]
fn dsml_prefixes_are_stripped() {
    assert_eq!(normalize_dsml_tags("<|DSML|tool_calls>"), "<tool_calls>");
    assert_eq!(normalize_dsml_tags("<DSML|invoke name=\"x\">"), "<invoke name=\"x\">");
    assert_eq!(normalize_dsml_tags("〈DSML|parameter〉"), "<parameter>");
    assert_eq!(normalize_dsml_tags("no tags, <b>"), "no tags, <b>");
}

#[test]
fn closing_tags_stay_closing_tags() {
    for tag in ["</invoke>", "</tool_calls>", "</parameter>", "</tool_call>", "<tool_call>"] {
        assert_eq!(normalize_dsml_tags(tag), tag);
    }
    assert_eq!(normalize_dsml_tags("<|DSML|/invoke>"), "</invoke>");
    assert_eq!(normalize_dsml_tags("＜/parameter＞"), "</parameter>");
    assert_eq!(normalize_dsml_tags("〈/tool_calls〉"), "</tool_calls>");
    let s = "<invoke name=\"a\"><parameter name=\"b\">c</parameter></invoke> d";
    assert_eq!(normalize_dsml_tags(s), s);
}

#[test]
fn raw_internal_tags_get_canonical_names() {
    assert_eq!(normalize_dsml_tags("<｜tool_calls_begin｜>"), "<tool_calls>");
    assert_eq!(normalize_dsml_tags("<｜tool_call_begin｜>f"), "<invokef");
    assert_eq!(normalize_dsml_tags("a<｜tool_sep｜>b"), "ab");
    assert_eq!(normalize_dsml_tags("a<｜tool_call_argument_begin｜>b"), "ab");
    assert_eq!(normalize_dsml_tags("<｜tool_call_end｜>"), "</invoke>");
    assert_eq!(normalize_dsml_tags("<｜tool_calls_end｜>"), "</tool_calls>");
}

#[test]
fn matches_are_replaced_by_canonical_tags() {
    let m = Captured {
        whole: Span { start: 1, end: 7 },
        first: None,
        second: Some(Span { start: 2, end: 7 }),
    };
    assert_eq!(replace_wrappers("a<xxxxx>", &vec![m]), "a<xxxxx>");
    let s = "a<tool_call_end>";
    let m = Captured {
        whole: Span { start: 1, end: 15 },
        first: None,
        second: Some(Span { start: 2, end: 15 }),
    };
    assert_eq!(replace_wrappers(s, &vec![m]), "a</invoke>>");
    assert_eq!(replace_internals(s, &vec![m]), "a</invoke>>");
    assert_eq!(replace_internals(s, &vec![]), s);
    let m = Captured {
        whole: Span { start: 1, end: 9 },
        first: Some(Span { start: 2, end: 3 }),
        second: Some(Span { start: 3, end: 9 }),
    };
    assert_eq!(replace_wrappers("a</invoke>", &vec![m]), "a</invoke>");
}

#[test]
fn the_end_of_a_close_tag_in_the_raw_text() {
    let end = |raw: &str, close: &str| {
        find_close_tag_end_in_original(raw, &normalize_dsml_tags(raw), close)
    };
    // The raw end tag is as long as the text up to it.
    let raw = "<｜tool_call_begin｜>x<｜tool_call_end｜>";
    assert!(end(raw, "</invoke").unwrap() <= raw.len());
    assert_eq!(end("no tag", "</invoke"), None);
    // Fullwidth punctuation alone: the offset is exact, in bytes.
    let raw = "a！</b>c";
    assert_eq!(find_close_tag_end_in_original(raw, "a!</b>c", "</b"), Some(1 + 3 + 3));
    let raw = "<invoke name=\"x\">y</invoke> z";
    assert_eq!(end(raw, "</invoke>"), Some(raw.len() - 2));
    let raw = "〈invoke〉y〈/invoke〉 z";
    assert_eq!(end(raw, "</invoke>"), Some(raw.len() - 2));
}

#[test]
fn the_place_of_a_tag_in_the_raw_text() {
    let raw = "some text <|DSML|invoke name=\"x\">";
    assert_eq!(find_original_tag_pos(raw, 10, "<invoke"), 10);
    let raw = "a < b and <｜tool_call_begin｜>f";
    assert_eq!(find_original_tag_pos(raw, 10, "<invoke"), 10);
    assert_eq!(find_original_tag_pos("nothing here", 4, "<invoke"), 4);
    assert_eq!(find_original_tag_pos("short", 99, "<invoke"), 5);
}
