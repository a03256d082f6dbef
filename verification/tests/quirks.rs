//! Tests of the quirk registry.

use codex_bridge::quirks::{
    is_glm_like_model, is_registered_quirk, parse_disabled_quirks, quirk_enabled, unknown_quirks,
    Quirks, QUIRK_NAMES,
};
use codex_bridge::text::is_white_space;

#[test]
fn parses_disable_list() {
    let disabled = parse_disabled_quirks("dsml_heal, GLM_THINKING");
    assert!(disabled.contains("dsml_heal"));
    assert!(disabled.contains("glm_thinking"));
    assert!(!disabled.contains("missing_done"));
    assert!(parse_disabled_quirks("").is_empty());
}

#[test]
fn glm_like_model_matching() {
    assert!(is_glm_like_model("glm-5.2"));
    assert!(is_glm_like_model("ZhipuAI/foo"));
    assert!(is_glm_like_model("bigmodel-x"));
    assert!(!is_glm_like_model("deepseek-v4-pro"));
}

#[test]
fn listed_quirks_are_disabled() {
    let list = " ,Dsml_Heal ,, THINK_TAGS,\tglm thinking";
    assert!(!quirk_enabled("dsml_heal", list));
    assert!(!quirk_enabled("think_tags", list));
    assert!(!quirk_enabled("glm thinking", list));
    assert!(quirk_enabled("glm_thinking", list));
    assert!(quirk_enabled("missing_done", list));
    assert!(quirk_enabled("", list));
    assert!(quirk_enabled("dsml_heal", ""));
}

#[test]
fn only_registered_names_are_known() {
    for name in QUIRK_NAMES {
        assert!(is_registered_quirk(name));
    }
    assert!(!is_registered_quirk("DSML_HEAL"));
    assert!(!is_registered_quirk(""));
}

#[test]
fn unknown_names_of_a_list_are_found() {
    assert_eq!(
        unknown_quirks(" dsml_heal, Typo ,,glm_thinking,other"),
        vec!["typo".to_string(), "other".to_string()]
    );
    assert!(unknown_quirks("").is_empty());
    assert!(unknown_quirks("DSML_HEAL").is_empty());
}

#[test]
fn enabled_quirks_are_those_not_listed() {
    assert_eq!(
        Quirks::without("think_tags, MISSING_DONE"),
        Quirks { glm_thinking: true, dsml_heal: true, missing_done: false, think_tags: false }
    );
}

#[test]
fn white_space_is_that_of_unicode() {
    for n in 0..=0x10FFFFu32 {
        if let Some(c) = char::from_u32(n) {
            assert_eq!(is_white_space(c), c.is_whitespace(), "U+{n:04X}");
        }
    }
}
