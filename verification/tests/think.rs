//! Tests of the splitting of leaked think markup.

use codex_bridge::think::{
    contains_think_markup, heal_chat_message, ThinkSplit, ThinkStreamFilter,
};
use codex_bridge::types::{ChatMessage, MessageContent};

/// Drive a filter over a sequence of deltas, returning the joined channels.
fn run(deltas: &[&str]) -> ThinkSplit {
    let mut filter = ThinkStreamFilter::new(true);
    let mut all = ThinkSplit::default();
    for delta in deltas {
        let split = filter.push(delta);
        all.reasoning.push_str(&split.reasoning);
        all.text.push_str(&split.text);
    }
    let tail = filter.finish();
    all.reasoning.push_str(&tail.reasoning);
    all.text.push_str(&tail.text);
    all
}

#[test]
fn splits_a_complete_think_block() {
    let out = run(&["<think>musing</think>\n\nHello!"]);
    assert_eq!(out.reasoning, "musing");
    assert_eq!(out.text, "Hello!");
}

#[test]
fn recognizes_tags_split_across_deltas() {
    let out = run(&["<thi", "nk>mus", "ing</th", "ink>Hi"]);
    assert_eq!(out.reasoning, "musing");
    assert_eq!(out.text, "Hi");
}

#[test]
fn treats_stray_close_tag_as_implicit_open() {
    // Template pre-filled `<think>` into the prompt.
    let out = run(&["musing", "</think>", "Hi"]);
    assert_eq!(out.reasoning, "musing");
    assert_eq!(out.text, "Hi");
}

#[test]
fn passes_plain_text_through_untouched() {
    let out = run(&["Hello", " world"]);
    assert_eq!(out.reasoning, "");
    assert_eq!(out.text, "Hello world");
    assert!(!ThinkStreamFilter::new(true).fired());
}

#[test]
fn close_tag_after_visible_text_is_not_reasoning() {
    // Once real text has been emitted a bare `</think>` is just text; only
    // a matched `<think>…</think>` pair splits.
    let out = run(&["see the </think> tag"]);
    assert_eq!(out.reasoning, "");
    assert_eq!(out.text, "see the </think> tag");
}

#[test]
fn unterminated_think_block_stays_reasoning() {
    let out = run(&["<think>cut off mid-thought"]);
    assert_eq!(out.reasoning, "cut off mid-thought");
    assert_eq!(out.text, "");
}

#[test]
fn kimi_markers_are_recognized() {
    let out = run(&["◁think▷musing◁/think▷Hi"]);
    assert_eq!(out.reasoning, "musing");
    assert_eq!(out.text, "Hi");
}

#[test]
fn disabled_filter_passes_markup_through() {
    let mut filter = ThinkStreamFilter::new(false);
    let out = filter.push("<think>musing</think>Hi");
    assert_eq!(out.reasoning, "");
    assert_eq!(out.text, "<think>musing</think>Hi");
}

#[test]
fn heals_blocking_message() {
    let mut message = ChatMessage {
        role: "assistant".into(),
        content: Some(MessageContent::Text(
            "<think>musing</think>Hello!".into(),
        )),
        reasoning_content: None,
        tool_calls: None,
        tool_call_id: None,
        name: None,
    };
    heal_chat_message(&mut message);
    assert_eq!(message.text_content(), "Hello!");
    assert_eq!(message.reasoning_content.as_deref(), Some("musing"));
}

#[test]
fn every_cut_of_a_stream_splits_the_same() {
    for text in [
        "  one <think>two</thin </think> three </think> <thinking>four</thinking>five",
        "◁think▷a◁/think▷\n\nb<think>c",
        "plain < text ◁",
    ] {
        let chars: Vec<char> = text.chars().collect();
        let whole = run(&[text]);
        for cut in 0..=chars.len() {
            let front: String = chars[..cut].iter().collect();
            let back: String = chars[cut..].iter().collect();
            assert_eq!(run(&[&front, &back]), whole);
        }
        let each: Vec<String> = chars.iter().map(|c| c.to_string()).collect();
        let each: Vec<&str> = each.iter().map(|c| c.as_str()).collect();
        assert_eq!(run(&each), whole);
    }
}

#[test]
fn text_around_blocks_is_visible() {
    let out = run(&["  one <think>two</think> three </think> <thinking>four</thinking>five"]);
    assert_eq!(out.reasoning, "twofour");
    assert_eq!(out.text, "one  three </think> five");
}

#[test]
fn leading_white_space_is_dropped() {
    let out = run(&[" \n", "\t", "Hi", " there "]);
    assert_eq!(out.reasoning, "");
    assert_eq!(out.text, "Hi there ");
}

#[test]
fn stray_close_tag_behind_white_space_is_dropped() {
    let out = run(&["\n", "</think>", "\n\nHi"]);
    assert_eq!(out.reasoning, "");
    assert_eq!(out.text, "Hi");
}

#[test]
fn stray_close_tag_in_one_delta_ends_an_implicit_block() {
    for (text, reasoning, visible) in [
        ("musing</think>Hi", "musing", "Hi"),
        ("musing\n</think>\n\nHi", "musing\n", "Hi"),
        ("I should greet </think> \n Hi", "I should greet ", "Hi"),
        ("a</thinking>", "a", ""),
        ("◁/think▷b", "", "b"),
    ] {
        let out = run(&[text]);
        assert_eq!(out.reasoning, reasoning, "{text}");
        assert_eq!(out.text, visible, "{text}");
    }
}

#[test]
fn close_tag_in_a_sentence_is_text() {
    let out = run(&["see the </think> tag"]);
    assert_eq!(out.reasoning, "");
    assert_eq!(out.text, "see the </think> tag");
}

#[test]
fn text_behind_a_block_is_given_at_once() {
    let mut filter = ThinkStreamFilter::default();
    assert_eq!(filter.push("<think>a</think>").reasoning, "a");
    assert_eq!(filter.push("\nHello").text, "Hello");
    assert_eq!(filter.push(" world").text, " world");
}

#[test]
fn close_tag_behind_a_sentence_ends_an_implicit_block() {
    for (text, reasoning) in [
        ("I see. </think> Hello", "I see. "),
        ("Is it so?  </think> Hello", "Is it so?  "),
        ("懂了。 </think> Hello", "懂了。 "),
    ] {
        let out = run(&[text]);
        assert_eq!(out.reasoning, reasoning);
        assert_eq!(out.text, "Hello");
    }
}

#[test]
fn filter_is_undecided_until_it_speaks_or_sees_a_tag() {
    let mut filter = ThinkStreamFilter::default();
    assert!(filter.is_undecided());
    filter.push(" Hello");
    assert!(filter.is_undecided());
    filter.push(" world");
    assert!(!filter.is_undecided());
    let mut filter = ThinkStreamFilter::default();
    filter.push(" <think>");
    assert!(!filter.is_undecided());
    assert!(!ThinkStreamFilter::new(false).is_undecided());
}

#[test]
fn filter_stays_set_off() {
    let mut filter = ThinkStreamFilter::default();
    filter.push("a</think>");
    assert!(filter.fired());
    filter.push(" more");
    assert!(filter.fired());
    let mut filter = ThinkStreamFilter::default();
    filter.push("see the </think> tag <thi");
    assert!(!filter.fired());
    filter.push("nk>");
    assert!(filter.fired());
}

#[test]
fn healing_ends_an_implicit_block() {
    let mut message = ChatMessage::with_text("assistant", "musing</think>Hi".into());
    assert!(heal_chat_message(&mut message));
    assert_eq!(message.text_content(), "Hi");
    assert_eq!(message.reasoning_content.as_deref(), Some("musing"));
}

#[test]
fn close_tag_behind_two_deltas_of_text_is_text() {
    let out = run(&["see ", "the ", "</think>", " tag"]);
    assert_eq!(out.reasoning, "");
    assert_eq!(out.text, "see the </think> tag");
}

#[test]
fn first_text_waits_for_the_next_delta() {
    let mut filter = ThinkStreamFilter::default();
    assert!(filter.push("Hello").is_empty());
    let now = filter.push(" world<");
    assert_eq!(now.text, "Hello world");
    assert!(!filter.fired());
    assert_eq!(filter.finish().text, "<");
}

#[test]
fn markup_sets_off_the_filter() {
    let mut filter = ThinkStreamFilter::new(true);
    filter.push("a<think>b");
    assert!(filter.fired());
}

#[test]
fn markup_is_found_in_text() {
    for tag in ["<think>", "<thinking>", "◁think▷", "</think>", "</thinking>", "◁/think▷"] {
        assert!(contains_think_markup(&format!("a {tag} b")));
    }
    assert!(!contains_think_markup("a <thin> b </thinkin> ◁think"));
}

#[test]
fn healing_adds_to_reasoning() {
    let mut message = ChatMessage::with_text("assistant", "<think>more</think>".into());
    message.reasoning_content = Some("some ".into());
    heal_chat_message(&mut message);
    assert!(message.content.is_none());
    assert_eq!(message.reasoning_content.as_deref(), Some("some more"));
}

#[test]
fn message_that_does_not_heal_stays() {
    for text in ["no markup", "see the </think> tag", "<think></think>"] {
        let plain = ChatMessage::with_text("assistant", text.into());
        let mut message = plain.clone();
        heal_chat_message(&mut message);
        assert_eq!(message, plain);
    }
}
