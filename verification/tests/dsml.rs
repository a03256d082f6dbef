//! Tests of the healing of leaked DSML tool calls.

use codex_bridge::dsml::grammar::DsmlDialect;
use codex_bridge::dsml::heal::adopt_calls;
use codex_bridge::dsml::parser::{
    malformed_invoke_end, parse_invoke, parse_open_tag, parse_quoted_value, DsmlToolCall,
};
use codex_bridge::dsml::{heal_chat_message, parse_leaked_tool_calls, DsmlStreamFilter};
use codex_bridge::types::{ChatMessage, MessageContent, ToolCall};
use serde_json::Value;

/// The id, name and arguments of a function call.
fn function(call: &ToolCall) -> (&str, &str, &str) {
    match call {
        ToolCall::Function { id, name, arguments } => (id, name, arguments),
        ToolCall::Other(_) => panic!("not a function call"),
    }
}

const ENVELOPE: &str = "<｜DSML｜tool_calls>\n<｜DSML｜invoke name=\"shell\">\n<｜DSML｜parameter name=\"command\" string=\"true\">Get-Content 'D:\\data\\a.csv' -Encoding UTF8 -TotalCount 5</｜DSML｜parameter>\n<｜DSML｜parameter name=\"context\" string=\"true\">preview csv headers</｜DSML｜parameter>\n</｜DSML｜invoke>\n</｜DSML｜tool_calls>";

#[test]
fn parses_leaked_envelope() {
    let text = format!("我来读取文件。\n{ENVELOPE}");
    let (cleaned, calls) = parse_leaked_tool_calls(&text).expect("healed");
    assert_eq!(cleaned, "我来读取文件。");
    assert_eq!(calls.len(), 1);
    assert_eq!(calls[0].name, "shell");
    let args: Value = serde_json::from_str(&calls[0].arguments).unwrap();
    assert_eq!(
        args["command"],
        "Get-Content 'D:\\data\\a.csv' -Encoding UTF8 -TotalCount 5"
    );
    assert_eq!(args["context"], "preview csv headers");
}

#[test]
fn parses_multiline_and_nonstring_parameters() {
    let text = "<｜DSML｜invoke name=\"bash\">\n<｜DSML｜parameter name=\"command\" string=\"true\">line one \\\nline two > out.txt</｜DSML｜parameter>\n<｜DSML｜parameter name=\"timeout\" string=\"false\">15</｜DSML｜parameter>\n</｜DSML｜invoke>";
    let (cleaned, calls) = parse_leaked_tool_calls(text).expect("healed");
    assert_eq!(cleaned, "");
    let args: Value = serde_json::from_str(&calls[0].arguments).unwrap();
    assert_eq!(args["command"], "line one \\\nline two > out.txt");
    assert_eq!(args["timeout"], 15);
}

#[test]
fn parses_multiple_invokes() {
    let text = format!("{ENVELOPE}\n{ENVELOPE}");
    let (_, calls) = parse_leaked_tool_calls(&text).expect("healed");
    assert_eq!(calls.len(), 2);
}

#[test]
fn plain_text_is_untouched() {
    assert!(parse_leaked_tool_calls("no markup here, just a < b").is_none());
    assert!(parse_leaked_tool_calls("<｜DSML｜tool_calls>dangling").is_none());
    assert!(parse_leaked_tool_calls("<｜｜DSML｜｜tool_calls>dangling").is_none());
}

/// Verbatim capture from Codex 0.144.5 → relay → Command Code →
/// deepseek/deepseek-v4-flash, 2026-08-07. Doubled delimiters, and the
/// parameter is a self-closing `invoke` carrying its value in `string`.
const DOUBLE_BAR_ENVELOPE: &str = "<｜｜DSML｜｜tool_calls>\n<｜｜DSML｜｜invoke name=\"exec_command\">\n<｜｜DSML｜｜invoke name=\"cmd\" string=\"echo alpha\" />\n</｜｜DSML｜｜invoke>\n</｜｜DSML｜｜tool_calls>";

#[test]
fn parses_double_bar_envelope_with_self_closing_parameters() {
    let text = format!("Let me run it.\n{DOUBLE_BAR_ENVELOPE}");
    let (cleaned, calls) = parse_leaked_tool_calls(&text).expect("healed");
    assert_eq!(cleaned, "Let me run it.");
    assert_eq!(calls.len(), 1);
    assert_eq!(calls[0].name, "exec_command");
    let args: Value = serde_json::from_str(&calls[0].arguments).unwrap();
    assert_eq!(args["cmd"], "echo alpha");
}

#[test]
fn double_bar_self_closing_parameter_keeps_special_characters() {
    // Quotes inside the value would end the header scan early if the `>`
    // search were not quote-aware; `/` inside it must not read as
    // self-closing on its own either.
    let text = "<｜｜DSML｜｜invoke name=\"exec_command\">\n<｜｜DSML｜｜invoke name=\"cmd\" string=\"grep -r a/b > out.txt\" />\n</｜｜DSML｜｜invoke>";
    let (_, calls) = parse_leaked_tool_calls(text).expect("healed");
    let args: Value = serde_json::from_str(&calls[0].arguments).unwrap();
    assert_eq!(args["cmd"], "grep -r a/b > out.txt");
}

#[test]
fn double_bar_attribute_parser_handles_escapes_and_tag_text() {
    let text = "<｜｜DSML｜｜invoke name=\"exec_command\">\n<｜｜DSML｜｜invoke name=\"cmd\" string=\"printf \\\"a>b\\\" C:\\temp\\file </｜｜DSML｜｜invoke>\" />\n</｜｜DSML｜｜invoke>";
    let (_, calls) = parse_leaked_tool_calls(text).expect("healed");
    let args: Value = serde_json::from_str(&calls[0].arguments).unwrap();
    assert_eq!(
        args["cmd"],
        "printf \"a>b\" C:\\temp\\file </｜｜DSML｜｜invoke>"
    );
}

#[test]
fn double_bar_supports_bodied_parameters_too() {
    // Not observed in the wild, but the dialect differs only in the
    // delimiter; a bodied parameter must not silently drop its value.
    let text = "<｜｜DSML｜｜invoke name=\"bash\">\n<｜｜DSML｜｜parameter name=\"command\" string=\"true\">ls -la</｜｜DSML｜｜parameter>\n<｜｜DSML｜｜parameter name=\"timeout\" string=\"false\">15</｜｜DSML｜｜parameter>\n</｜｜DSML｜｜invoke>";
    let (_, calls) = parse_leaked_tool_calls(text).expect("healed");
    let args: Value = serde_json::from_str(&calls[0].arguments).unwrap();
    assert_eq!(args["command"], "ls -la");
    assert_eq!(args["timeout"], 15);
}

#[test]
fn parses_mixed_dialects_in_source_order() {
    for text in [
        format!("{ENVELOPE}\n{DOUBLE_BAR_ENVELOPE}"),
        format!("{DOUBLE_BAR_ENVELOPE}\n{ENVELOPE}"),
    ] {
        let (cleaned, calls) = parse_leaked_tool_calls(&text).expect("healed");
        assert_eq!(cleaned, "");
        assert_eq!(calls.len(), 2);
        if text.starts_with("<｜DSML｜") {
            assert_eq!(calls[0].name, "shell");
            assert_eq!(calls[1].name, "exec_command");
        } else {
            assert_eq!(calls[0].name, "exec_command");
            assert_eq!(calls[1].name, "shell");
        }
    }
}

#[test]
fn malformed_marker_does_not_block_later_valid_dialect() {
    let malformed = "<｜DSML｜invoke_extra name=\"not_a_call\">raw</｜DSML｜invoke_extra>";
    let text = format!("{malformed}\n{DOUBLE_BAR_ENVELOPE}");
    let (cleaned, calls) = parse_leaked_tool_calls(&text).expect("later call healed");
    assert_eq!(cleaned, malformed);
    assert_eq!(calls.len(), 1);
    assert_eq!(calls[0].name, "exec_command");
}

#[test]
fn malformed_calls_fail_closed() {
    let cases = [
        "<｜｜DSML｜｜invoke_extra name=\"exec_command\"></｜｜DSML｜｜invoke>",
        "<｜｜DSML｜｜invoke name=\"exec_command\"><｜｜DSML｜｜metadata name=\"cmd\" string=\"echo bad\" /></｜｜DSML｜｜invoke>",
        "<｜｜DSML｜｜invoke name=\"exec_command\"><｜｜DSML｜｜invoke name=\"cmd\" /></｜｜DSML｜｜invoke>",
        "<｜｜DSML｜｜invoke name=\"exec_command\" name=\"other\"></｜｜DSML｜｜invoke>",
        "<｜｜DSML｜｜invoke name=\"exec_command\"><｜｜DSML｜｜invoke name=\"cmd\" string=\"one\" /><｜｜DSML｜｜invoke name=\"cmd\" string=\"two\" /></｜｜DSML｜｜invoke>",
        "<｜｜DSML｜｜invoke name=\"exec_command\"><｜｜DSML｜｜invoke name=\"cmd\" string=\"unterminated /></｜｜DSML｜｜invoke>",
    ];
    for text in cases {
        assert!(
            parse_leaked_tool_calls(text).is_none(),
            "malformed DSML must not execute: {text}"
        );
    }
}

#[test]
fn malformed_call_is_preserved_when_later_call_heals() {
    let malformed =
        "<｜｜DSML｜｜invoke name=\"bad\"><｜｜DSML｜｜invoke name=\"cmd\" /></｜｜DSML｜｜invoke>";
    let text = format!("{malformed}\n{ENVELOPE}");
    let (cleaned, calls) = parse_leaked_tool_calls(&text).expect("later call healed");
    assert_eq!(cleaned, malformed);
    assert_eq!(calls.len(), 1);
    assert_eq!(calls[0].name, "shell");
}

#[test]
fn nested_call_inside_malformed_invoke_never_executes() {
    let malformed = "<｜｜DSML｜｜invoke name=\"bad\">\n<｜｜DSML｜｜invoke name=\"exec_command\">\n<｜｜DSML｜｜invoke name=\"cmd\" string=\"echo bad\" />\n</｜｜DSML｜｜invoke>\n</｜｜DSML｜｜invoke>";
    let text = format!("{malformed}\n{ENVELOPE}");
    let (cleaned, calls) = parse_leaked_tool_calls(&text).expect("later sibling healed");
    assert_eq!(cleaned, malformed);
    assert_eq!(calls.len(), 1);
    assert_eq!(calls[0].name, "shell");
}

#[test]
fn unclosed_parameter_cannot_borrow_close_from_nested_call() {
    let text = "<｜DSML｜invoke name=\"shell\">\n<｜DSML｜parameter name=\"command\" string=\"true\">echo bad\n<｜DSML｜invoke name=\"shell\">\n<｜DSML｜parameter name=\"command\" string=\"true\">echo good</｜DSML｜parameter>\n</｜DSML｜invoke>";
    assert!(parse_leaked_tool_calls(text).is_none());
}

#[test]
fn heal_chat_message_fires_on_double_bar() {
    let mut message = ChatMessage {
        role: "assistant".into(),
        content: Some(MessageContent::Text(DOUBLE_BAR_ENVELOPE.to_string())),
        reasoning_content: None,
        tool_calls: None,
        tool_call_id: None,
        name: None,
    };
    heal_chat_message(&mut message);
    let calls = message.tool_calls.expect("tool calls synthesized");
    assert_eq!(calls.len(), 1);
    assert_eq!(function(&calls[0]).1, "exec_command");
    assert!(message.content.is_none());
}

#[test]
fn stream_filter_holds_split_double_bar_marker_and_heals() {
    let mut filter = DsmlStreamFilter::default();
    let mut emitted = String::new();
    // Split inside the doubled delimiter: withholding only a single-bar
    // prefix here would leak "<｜" and desync the marker.
    emitted.push_str(&filter.push("Let me run it.<｜"));
    emitted.push_str(&filter.push("｜DSML｜｜tool_calls>\n<｜｜DSML｜｜invoke name=\"exec_command\">\n<｜｜DSML｜｜invoke name=\"cmd\" string=\"echo alpha\" />\n</｜｜DSML｜｜invoke>\n</｜｜DSML｜｜"));
    emitted.push_str(&filter.push("tool_calls>"));
    assert_eq!(emitted, "Let me run it.");
    let (leftover, calls) = filter.finish();
    assert_eq!(leftover, "");
    assert_eq!(calls.len(), 1);
    assert_eq!(calls[0].name, "exec_command");
    let args: Value = serde_json::from_str(&calls[0].arguments).unwrap();
    assert_eq!(args["cmd"], "echo alpha");
}

#[test]
fn stream_filter_handles_mixed_dialects_one_character_at_a_time() {
    let text = format!("prefix\n{ENVELOPE}\n{DOUBLE_BAR_ENVELOPE}");
    let mut filter = DsmlStreamFilter::default();
    let mut emitted = String::new();
    for ch in text.chars() {
        emitted.push_str(&filter.push(&ch.to_string()));
    }
    let (leftover, calls) = filter.finish();
    assert_eq!(format!("{emitted}{leftover}"), "prefix\n");
    assert_eq!(calls.len(), 2);
    assert_eq!(calls[0].name, "shell");
    assert_eq!(calls[1].name, "exec_command");
}

#[test]
fn stream_filter_passes_plain_text() {
    let mut filter = DsmlStreamFilter::default();
    assert_eq!(filter.push("hello "), "hello ");
    assert_eq!(filter.push("a < b and c > d"), "a < b and c > d");
    let (leftover, calls) = filter.finish();
    assert_eq!(leftover, "");
    assert!(calls.is_empty());
}

#[test]
fn stream_filter_holds_split_marker_and_heals() {
    let mut filter = DsmlStreamFilter::default();
    let mut emitted = String::new();
    emitted.push_str(&filter.push("先看文件。<｜DS"));
    emitted.push_str(&filter.push("ML｜tool_calls>\n<｜DSML｜invoke name=\"shell\">\n<｜DSML｜parameter name=\"command\" string=\"true\">ls</｜DSML｜parameter>\n</｜DSML｜invoke>\n</｜DSML｜"));
    emitted.push_str(&filter.push("tool_calls>"));
    assert_eq!(emitted, "先看文件。");
    let (leftover, calls) = filter.finish();
    assert_eq!(leftover, "");
    assert_eq!(calls.len(), 1);
    assert_eq!(calls[0].name, "shell");
    let args: Value = serde_json::from_str(&calls[0].arguments).unwrap();
    assert_eq!(args["command"], "ls");
}

#[test]
fn stream_filter_releases_false_marker_prefix() {
    let mut filter = DsmlStreamFilter::default();
    let first = filter.push("a <");
    let second = filter.push("b> c");
    assert_eq!(format!("{first}{second}"), "a <b> c");
}

#[test]
fn disabled_stream_filter_passes_markup_through() {
    let mut filter = DsmlStreamFilter::new(false);
    assert_eq!(filter.push(ENVELOPE), ENVELOPE);
    let (leftover, calls) = filter.finish();
    assert_eq!(leftover, "");
    assert!(calls.is_empty());
}

#[test]
fn stream_filter_passes_incomplete_markup_through() {
    let mut filter = DsmlStreamFilter::default();
    filter.push("<｜DSML｜tool_calls>\n<｜DSML｜invoke name=\"shell\">truncat");
    let (leftover, calls) = filter.finish();
    assert!(calls.is_empty());
    assert!(leftover.contains("truncat"), "raw text must not be lost");
}

#[test]
fn heal_chat_message_moves_markup_into_tool_calls() {
    let mut message = ChatMessage {
        role: "assistant".into(),
        content: Some(MessageContent::Text(format!("我来逐步完成这个任务。\n{ENVELOPE}"))),
        reasoning_content: None,
        tool_calls: None,
        tool_call_id: None,
        name: None,
    };
    heal_chat_message(&mut message);
    assert_eq!(message.text_content(), "我来逐步完成这个任务。");
    let tool_calls = message.tool_calls.as_ref().expect("healed tool_calls");
    assert_eq!(tool_calls.len(), 1);
    assert_eq!(function(&tool_calls[0]).1, "shell");
    assert!(function(&tool_calls[0]).0.starts_with("call_dsml_"));
}

#[test]
fn every_cut_of_a_stream_heals_the_same() {
    let text = format!("before <b>\n{ENVELOPE}\n{DOUBLE_BAR_ENVELOPE}\nafter");
    let chars: Vec<char> = text.chars().collect();
    let (_, whole) = parse_leaked_tool_calls(&text).expect("healed");
    for cut in 0..=chars.len() {
        let mut filter = DsmlStreamFilter::default();
        let mut emitted = filter.push(&chars[..cut].iter().collect::<String>());
        emitted.push_str(&filter.push(&chars[cut..].iter().collect::<String>()));
        assert_eq!(emitted, "before <b>\n");
        let (leftover, calls) = filter.finish();
        assert_eq!(leftover, "after");
        assert_eq!(calls, whole);
    }
}

#[test]
fn arguments_are_json_in_order_of_name() {
    let text = "<｜DSML｜invoke name=\"f\"><｜DSML｜parameter name=\"z\" string=\"false\"> {\"b\": 1, \"a\": [true, null]} </｜DSML｜parameter><｜DSML｜parameter name=\"a\" string=\"true\">q\"\\\n\t\u{1}é</｜DSML｜parameter></｜DSML｜invoke>";
    let (cleaned, calls) = parse_leaked_tool_calls(text).expect("healed");
    assert_eq!(cleaned, "");
    assert_eq!(
        calls[0].arguments,
        "{\"a\":\"q\\\"\\\\\\n\\t\\u0001é\",\"z\":{\"a\":[true,null],\"b\":1}}"
    );
}

#[test]
fn call_without_parameters_has_no_arguments() {
    let text = "run <｜DSML｜invoke name=\"f\">\n</｜DSML｜invoke> now";
    let (cleaned, calls) = parse_leaked_tool_calls(text).expect("healed");
    assert_eq!(cleaned, "run  now");
    assert_eq!(calls.len(), 1);
    assert_eq!(calls[0].name, "f");
    assert_eq!(calls[0].arguments, "{}");
}

#[test]
fn body_that_is_not_json_fails_closed() {
    let text = "<｜DSML｜invoke name=\"f\"><｜DSML｜parameter name=\"n\" string=\"false\">not json</｜DSML｜parameter></｜DSML｜invoke>";
    assert!(parse_leaked_tool_calls(text).is_none());
}

#[test]
fn unknown_kind_of_value_fails_closed() {
    let text = "<｜DSML｜invoke name=\"f\"><｜DSML｜parameter name=\"n\" string=\"maybe\">1</｜DSML｜parameter></｜DSML｜invoke>";
    assert!(parse_leaked_tool_calls(text).is_none());
}

#[test]
fn single_bar_call_takes_no_inline_value() {
    let text = "<｜DSML｜invoke name=\"f\"><｜DSML｜invoke name=\"n\" string=\"1\" /></｜DSML｜invoke>";
    assert!(parse_leaked_tool_calls(text).is_none());
}

#[test]
fn self_closing_parameter_takes_its_value_from_the_string_attribute() {
    let text = "a <｜｜DSML｜｜invoke name=\"f\"><｜｜DSML｜｜parameter name=\"cmd\" string=\"echo alpha\" /><｜｜DSML｜｜parameter name=\"n\" string=\"false\">2</｜｜DSML｜｜parameter></｜｜DSML｜｜invoke>";
    let (cleaned, calls) = parse_leaked_tool_calls(text).expect("healed");
    assert_eq!(cleaned, "a");
    assert_eq!(calls.len(), 1);
    assert_eq!(calls[0].arguments, "{\"cmd\":\"echo alpha\",\"n\":2}");
}

#[test]
fn envelope_in_front_only_adds_its_call() {
    let one = "<｜DSML｜tool_calls>\n<｜DSML｜invoke name=\"one\"></｜DSML｜invoke></｜DSML｜tool_calls>";
    let two = "x <｜DSML｜invoke name=\"two\"></｜DSML｜invoke> y";
    let (alone, later) = parse_leaked_tool_calls(two).expect("healed");
    let (cleaned, calls) = parse_leaked_tool_calls(&format!("{one}{two}")).expect("healed");
    assert_eq!(cleaned, alone);
    assert_eq!(calls.len(), 2);
    assert_eq!(calls[0].name, "one");
    assert_eq!(calls[1], later[0]);
}

#[test]
fn text_behind_a_call_makes_no_difference_to_it() {
    let call = "<｜DSML｜invoke name=\"f\"><｜DSML｜parameter name=\"a\" string=\"true\">1</｜DSML｜parameter></｜DSML｜invoke>";
    for tail in ["", " > text", "<｜DSML｜invoke", "</｜DSML｜parameter>"] {
        let (_, calls) = parse_leaked_tool_calls(&format!("{call}{tail}")).expect("healed");
        assert_eq!(calls[0].name, "f");
        assert_eq!(calls[0].arguments, "{\"a\":\"1\"}");
    }
}

fn chars(text: &str) -> Vec<char> {
    text.chars().collect()
}

const SINGLE: DsmlDialect = DsmlDialect { double_bar: false };

#[test]
fn call_is_read_up_to_its_closing_tag() {
    let call = "<｜DSML｜invoke name=\"f\"></｜DSML｜invoke>";
    let end = call.chars().count();
    for tail in ["", "x", "</｜DSML｜invoke>", "<｜DSML｜invoke name=\"g\">"] {
        let text = chars(&format!("{call}{tail}"));
        let (to, read) = parse_invoke(&text, 0, SINGLE).expect("a call");
        assert_eq!(to, end);
        assert_eq!(read, DsmlToolCall { name: "f".into(), arguments: "{}".into() });
    }
    assert!(parse_invoke(&chars(call), 1, SINGLE).is_err());
    assert_eq!(malformed_invoke_end(&chars(call), 0, SINGLE), Some(end));
}

#[test]
fn tag_is_read_up_to_its_end() {
    let tag = "<｜DSML｜parameter name=\"a>b\" />";
    for tail in ["", ">", "\" x>"] {
        let text = chars(&format!("{tag}{tail}"));
        let read = parse_open_tag(&text, 0, SINGLE).expect("a tag");
        assert_eq!(read.name, "parameter");
        assert!(read.self_closing);
        assert_eq!(read.end, tag.chars().count());
        assert_eq!(read.attrs.get("name"), Some(&"a>b".to_string()));
    }
}

#[test]
fn escaped_value_is_read() {
    let text = chars("x\\\"y\\\\z\" rest");
    assert_eq!(parse_quoted_value(&text, 1), Ok(("\"y\\z".to_string(), 8)));
    assert!(parse_quoted_value(&text, 9).is_err());
}

#[test]
fn unnamed_call_fails_closed() {
    assert!(parse_leaked_tool_calls("<｜DSML｜invoke name=\"\"></｜DSML｜invoke>").is_none());
    assert!(parse_leaked_tool_calls("<｜DSML｜invoke></｜DSML｜invoke>").is_none());
}

#[test]
fn unclosed_malformed_call_ends_the_search() {
    let text = format!("<｜DSML｜invoke name=\"bad\">oops\n{ENVELOPE}");
    assert!(parse_leaked_tool_calls(&text).is_none());
}

#[test]
fn healed_calls_come_behind_those_a_message_has() {
    let mut message = ChatMessage {
        role: "assistant".into(),
        content: Some(MessageContent::Text(format!("ok {ENVELOPE}"))),
        reasoning_content: Some("why".into()),
        tool_calls: Some(vec![ToolCall::Other(Value::from(7u8))]),
        tool_call_id: Some("id".into()),
        name: Some("n".into()),
    };
    heal_chat_message(&mut message);
    assert_eq!(message.role, "assistant");
    assert_eq!(message.text_content(), "ok");
    assert_eq!(message.reasoning_content.as_deref(), Some("why"));
    assert_eq!(message.tool_call_id.as_deref(), Some("id"));
    assert_eq!(message.name.as_deref(), Some("n"));
    let calls = message.tool_calls.expect("tool calls");
    assert_eq!(calls.len(), 2);
    assert_eq!(calls[0], ToolCall::Other(Value::from(7u8)));
    let (id, name, arguments) = function(&calls[1]);
    assert_eq!(name, "shell");
    assert_eq!(
        arguments,
        "{\"command\":\"Get-Content 'D:\\\\data\\\\a.csv' -Encoding UTF8 -TotalCount 5\",\"context\":\"preview csv headers\"}"
    );
    assert_eq!(id.len(), "call_dsml_".len() + 32);
    let uuid = &id["call_dsml_".len()..];
    assert!(uuid.chars().all(|c| matches!(c, '0'..='9' | 'a'..='f')));
    assert_eq!(&uuid[12..13], "4");
    assert!(matches!(&uuid[16..17], "8" | "9" | "a" | "b"));
}

#[test]
fn message_without_markup_stays() {
    let plain = ChatMessage::with_text("assistant", "a < b, <｜DSML｜ stays".into());
    let mut message = plain.clone();
    heal_chat_message(&mut message);
    assert_eq!(message, plain);

    let parts = ChatMessage {
        content: Some(MessageContent::Other(Value::from(ENVELOPE.len()))),
        ..plain.clone()
    };
    let mut message = parts.clone();
    heal_chat_message(&mut message);
    assert_eq!(message, parts);
}

#[test]
fn given_ids_are_taken() {
    let (cleaned, calls) = parse_leaked_tool_calls(DOUBLE_BAR_ENVELOPE).expect("healed");
    let mut message = ChatMessage::with_text("assistant", DOUBLE_BAR_ENVELOPE.into());
    adopt_calls(&mut message, cleaned, calls, vec!["call_1".to_string()]);
    assert!(message.content.is_none());
    let calls = message.tool_calls.expect("tool calls");
    assert_eq!(
        function(&calls[0]),
        ("call_1", "exec_command", "{\"cmd\":\"echo alpha\"}")
    );
}
