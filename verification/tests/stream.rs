//! Tests of the translation of streams.

use codex_bridge::dsml::DsmlToolCall;
use codex_bridge::quirks::Quirks;
use codex_bridge::session::SessionStore;
use codex_bridge::stream::{Next, SseEvent, StreamTranslation, Upstream};
use codex_bridge::types::{
    ChatMessage, ChatStreamChoice, ChatStreamChunk, ChatUsage, ToolCall, ToolCallDelta,
};

fn event(name: &'static str, data: &str) -> SseEvent {
    SseEvent { name, data: data.to_string() }
}

fn message(role: &str, text: &str) -> ChatMessage {
    ChatMessage::with_text(role, text.to_string())
}

fn translation() -> StreamTranslation {
    StreamTranslation::new(
        "resp_1".into(),
        "m\"1".into(),
        vec![message("user", "hi")],
        Vec::new(),
        Quirks::without(""),
    )
}

fn choice(content: Option<&str>) -> ChatStreamChoice {
    ChatStreamChoice {
        content: content.map(|c| c.to_string()),
        reasoning_content: None,
        reasoning: None,
        tool_calls: Vec::new(),
        finished: false,
    }
}

fn chunk(contents: &[Option<&str>]) -> Upstream {
    Upstream::Chunk(ChatStreamChunk {
        choices: contents.iter().map(|c| choice(*c)).collect(),
        usage: None,
    })
}

#[test]
fn response_is_announced() {
    assert_eq!(
        translation().created(),
        event(
            "response.created",
            "{\"response\":{\"id\":\"resp_1\",\"model\":\"m\\\"1\",\"status\":\"in_progress\"},\"type\":\"response.created\"}"
        )
    );
}

#[test]
fn stream_is_translated() {
    let mut sessions = SessionStore::new();
    let mut t = translation();
    let step = t.step(chunk(&[Some("He"), None, Some(""), Some("llo\n")]), &mut sessions);
    assert_eq!(
        step.events,
        vec![
            event(
                "response.output_text.delta",
                "{\"delta\":\"He\",\"type\":\"response.output_text.delta\"}"
            ),
            event(
                "response.output_text.delta",
                "{\"delta\":\"llo\\n\",\"type\":\"response.output_text.delta\"}"
            ),
        ]
    );
    assert_eq!(step.next, Next::Read);
    let step = t.step(chunk(&[Some("\u{7f}\u{1f}/")]), &mut sessions);
    assert_eq!(
        step.events,
        vec![event(
            "response.output_text.delta",
            "{\"delta\":\"\u{7f}\\u001f/\",\"type\":\"response.output_text.delta\"}"
        )]
    );
    assert!(sessions.get_history("resp_1").is_empty());
    let step = t.step(Upstream::Data(" [DONE]\n".into()), &mut sessions);
    assert_eq!(
        step.events,
        vec![event(
            "response.completed",
            "{\"response\":{\"id\":\"resp_1\",\"model\":\"m\\\"1\",\"output\":[{\"content\":[{\"text\":\"Hello\\n\u{7f}\\u001f/\",\"type\":\"output_text\"}],\"role\":\"assistant\",\"type\":\"message\"}],\"status\":\"completed\"},\"type\":\"response.completed\"}"
        )]
    );
    assert_eq!(step.next, Next::Stop);
    assert_eq!(
        sessions.get_history("resp_1"),
        vec![message("user", "hi"), message("assistant", "Hello\n\u{7f}\u{1f}/")]
    );
}

#[test]
fn data_is_parsed_unless_it_is_empty_or_the_end() {
    let mut sessions = SessionStore::new();
    let mut t = translation();
    for (data, next) in [
        ("", Next::Read),
        (" ", Next::Parse),
        ("{}", Next::Parse),
        ("[done]", Next::Parse),
        ("[DONE]", Next::Stop),
    ] {
        assert_eq!(t.step(Upstream::Data(data.into()), &mut sessions).next, next);
    }
}

#[test]
fn first_text_waits_for_the_next_chunk() {
    let mut sessions = SessionStore::new();
    let mut t = translation();
    assert!(t.step(chunk(&[Some(" mus")]), &mut sessions).events.is_empty());
    let step = t.step(chunk(&[Some("ing")]), &mut sessions);
    let data: Vec<&str> = step.events.iter().map(|e| e.data.as_str()).collect();
    assert_eq!(
        data,
        vec![
            "{\"delta\":\" mus\",\"type\":\"response.output_text.delta\"}",
            "{\"delta\":\"ing\",\"type\":\"response.output_text.delta\"}",
        ]
    );
    assert_eq!(t.step(chunk(&[Some(" on")]), &mut sessions).events.len(), 1);
}

/// The deltas that are sent for plain content, and the answer that is stored.
fn plain(contents: &[&str]) -> (Vec<String>, String) {
    let mut sessions = SessionStore::new();
    let mut t = translation();
    let mut events = Vec::new();
    for content in contents {
        events.extend(t.step(chunk(&[Some(content)]), &mut sessions).events);
    }
    let step = t.step(Upstream::Data("[DONE]".into()), &mut sessions);
    assert!(!step.repairs.think_tags);
    events.extend(step.events);
    let last = events.pop().expect("the response is completed");
    assert_eq!(last.name, "response.completed");
    let deltas = events
        .iter()
        .map(|event| {
            assert_eq!(event.name, "response.output_text.delta");
            let data: serde_json::Value = serde_json::from_str(&event.data).expect("JSON");
            data["delta"].as_str().expect("a delta").to_string()
        })
        .collect();
    (deltas, sessions.get_history("resp_1")[1].text_content().to_string())
}

#[test]
fn healthy_stream_is_untouched() {
    for contents in [
        vec![" a"],
        vec!["\n\n", "  indented"],
        vec!["Hi", " ", "there"],
        vec![" ", "\t", "Hi", "\n", " ", "you", " "],
        vec![" ", " "],
        vec![],
    ] {
        let (deltas, answer) = plain(&contents);
        assert_eq!(deltas, contents);
        assert_eq!(answer, contents.concat());
    }
}

#[test]
fn healthy_chunks_are_their_contents() {
    let usage = ChatUsage {
        prompt_tokens: 5,
        completion_tokens: 2,
        total_tokens: 7,
        prompt_cache_hit_tokens: None,
        prompt_cache_miss_tokens: None,
        prompt_tokens_details: None,
    };
    let mut sessions = SessionStore::new();
    let mut t = translation();
    let mut events = t.step(chunk(&[Some(" a"), None, Some("b")]), &mut sessions).events;
    let last = ChatStreamChoice { finished: true, ..choice(Some(" c")) };
    let last = Upstream::Chunk(ChatStreamChunk { choices: vec![last], usage: Some(usage) });
    events.extend(t.step(last, &mut sessions).events);
    assert!(sessions.get_history("resp_1").is_empty());
    let end = t.step(Upstream::Closed, &mut sessions);
    assert_eq!(end.next, Next::Stop);
    assert!(end.repairs.missing_done);
    events.extend(end.events);
    let delta = |s: &str| {
        event(
            "response.output_text.delta",
            &format!("{{\"delta\":\"{s}\",\"type\":\"response.output_text.delta\"}}"),
        )
    };
    assert_eq!(events[..3], [delta(" a"), delta("b"), delta(" c")]);
    assert_eq!(events.len(), 4);
    let shown: serde_json::Value = serde_json::from_str(&events[3].data).expect("JSON");
    assert_eq!(shown["response"]["output"][0]["content"][0]["text"], " ab c");
    assert_eq!(shown["response"]["usage"]["total_tokens"], 7);
    let turn = sessions.get_history("resp_1");
    assert_eq!(turn, vec![message("user", "hi"), message("assistant", " ab c")]);
}

#[test]
fn text_that_could_be_markup_waits_but_stays() {
    let (deltas, answer) = plain(&[" a", "<", "b <thin", " ◁", "c"]);
    assert_eq!(deltas.concat(), " a<b <thin ◁c");
    assert_eq!(answer, " a<b <thin ◁c");
}

#[test]
fn white_space_before_visible_text_stays_before_a_block() {
    let mut sessions = SessionStore::new();
    let mut t = translation();
    for content in ["  Hi", " <think>x</think>", " y"] {
        t.step(chunk(&[Some(content)]), &mut sessions);
    }
    t.step(Upstream::Data("[DONE]".into()), &mut sessions);
    let answer = &sessions.get_history("resp_1")[1];
    assert_eq!(answer.text_content(), "  Hi  y");
    assert_eq!(answer.reasoning_content.as_deref(), Some("x"));
}

#[test]
fn waiting_text_is_thought_where_a_block_closes() {
    let mut sessions = SessionStore::new();
    let mut t = translation();
    t.step(chunk(&[Some("musing")]), &mut sessions);
    t.step(chunk(&[Some("</think>")]), &mut sessions);
    t.step(chunk(&[Some("Hi")]), &mut sessions);
    let step = t.step(Upstream::Data("[DONE]".into()), &mut sessions);
    assert!(step.repairs.think_tags);
    let answer = &sessions.get_history("resp_1")[1];
    assert_eq!(answer.reasoning_content.as_deref(), Some("musing"));
    assert_eq!(answer.text_content(), "Hi");
}

#[test]
fn unreadable_chunk_is_skipped() {
    let mut sessions = SessionStore::new();
    let step = translation().step(Upstream::Unreadable, &mut sessions);
    assert!(step.events.is_empty());
    assert_eq!(step.next, Next::Read);
}

#[test]
fn stream_that_is_cut_off_fails() {
    for end in [Upstream::Closed, Upstream::Broken] {
        let mut sessions = SessionStore::new();
        let mut t = translation();
        t.step(chunk(&[Some("ok")]), &mut sessions);
        let step = t.step(end, &mut sessions);
        assert_eq!(step.next, Next::Stop);
        assert_eq!(
            step.events,
            vec![event(
                "response.failed",
                "{\"response\":{\"error\":{\"code\":\"upstream_stream_truncated\",\"message\":\"upstream ended the stream before the response was finished\"},\"id\":\"resp_1\",\"model\":\"m\\\"1\",\"status\":\"failed\"},\"type\":\"response.failed\"}"
            )]
        );
        assert!(sessions.get_history("resp_1").is_empty());
        assert!(!step.repairs.missing_done);
    }
}

#[test]
fn finished_stream_without_done_completes() {
    for end in [Upstream::Closed, Upstream::Broken] {
        let mut sessions = SessionStore::new();
        let mut t = translation();
        t.step(
            Upstream::Chunk(ChatStreamChunk {
                choices: vec![ChatStreamChoice { finished: true, ..choice(Some("ok")) }],
                usage: None,
            }),
            &mut sessions,
        );
        let step = t.step(end, &mut sessions);
        assert_eq!(step.next, Next::Stop);
        let names: Vec<&str> = step.events.iter().map(|e| e.name).collect();
        assert_eq!(names, vec!["response.output_text.delta", "response.completed"]);
        assert!(step.repairs.missing_done);
        assert_eq!(
            sessions.get_history("resp_1"),
            vec![message("user", "hi"), message("assistant", "ok")]
        );
    }
}

#[test]
fn missing_done_fails_where_the_quirk_is_disabled() {
    let mut sessions = SessionStore::new();
    let mut t = StreamTranslation::new(
        "resp_1".into(),
        "m".into(),
        Vec::new(),
        Vec::new(),
        Quirks::without("missing_done"),
    );
    t.step(
        Upstream::Chunk(ChatStreamChunk {
            choices: vec![ChatStreamChoice { finished: true, ..choice(Some("ok")) }],
            usage: None,
        }),
        &mut sessions,
    );
    let step = t.step(Upstream::Closed, &mut sessions);
    assert_eq!(step.events[0].name, "response.failed");
    assert!(sessions.get_history("resp_1").is_empty());
}

#[test]
fn streamed_calls_are_put_together() {
    let mut sessions = SessionStore::new();
    let mut t = translation();
    let piece = |index, id: Option<&str>, name: Option<&str>, arguments: &str| ToolCallDelta {
        index,
        id: id.map(|s| s.to_string()),
        name: name.map(|s| s.to_string()),
        arguments: Some(arguments.to_string()),
    };
    let steps = vec![
        vec![piece(1, Some("a"), Some("one"), "{\"x\"")],
        vec![piece(0, Some("b"), Some("two"), "{}"), piece(1, None, None, ":1")],
        vec![piece(1, None, None, "}")],
    ];
    for tool_calls in steps {
        let step = t.step(
            Upstream::Chunk(ChatStreamChunk {
                choices: vec![ChatStreamChoice { tool_calls, ..choice(None) }],
                usage: None,
            }),
            &mut sessions,
        );
        assert!(step.events.is_empty());
    }
    let step = t.step(Upstream::Data("[DONE]".into()), &mut sessions);
    let names: Vec<&str> = step.events.iter().map(|e| e.name).collect();
    assert_eq!(
        names,
        vec![
            "response.output_item.added",
            "response.output_item.done",
            "response.output_item.added",
            "response.output_item.done",
            "response.completed",
        ]
    );
    assert_eq!(
        step.events[1].data,
        "{\"item\":{\"arguments\":\"{\\\"x\\\":1}\",\"call_id\":\"a\",\"id\":\"fc_a\",\"name\":\"one\",\"type\":\"function_call\"},\"output_index\":0,\"type\":\"response.output_item.done\"}"
    );
    let history = sessions.get_history("resp_1");
    assert_eq!(history[1].content, None);
    assert_eq!(
        history[1].tool_calls,
        Some(vec![
            ToolCall::Function { id: "a".into(), name: "one".into(), arguments: "{\"x\":1}".into() },
            ToolCall::Function { id: "b".into(), name: "two".into(), arguments: "{}".into() },
        ])
    );
}

#[test]
fn leaked_calls_get_the_given_ids() {
    let mut sessions = SessionStore::new();
    let mut events = Vec::new();
    let healed = vec![DsmlToolCall { name: "f".into(), arguments: "{}".into() }];
    translation().complete(&healed, &vec!["call_7".into()], &mut sessions, &mut events);
    assert_eq!(
        events[1].data,
        "{\"item\":{\"arguments\":\"{}\",\"call_id\":\"call_7\",\"id\":\"fc_call_7\",\"name\":\"f\",\"type\":\"function_call\"},\"output_index\":0,\"type\":\"response.output_item.done\"}"
    );
    assert_eq!(
        sessions.get_history("resp_1")[1].tool_calls,
        Some(vec![ToolCall::Function {
            id: "call_7".into(),
            name: "f".into(),
            arguments: "{}".into()
        }])
    );
}

#[test]
fn text_behind_what_was_thought_is_announced() {
    let mut sessions = SessionStore::new();
    let mut t = translation();
    let step = t.step(chunk(&[Some("<think>hm</think>Hi"), Some(" you")]), &mut sessions);
    assert_eq!(
        step.events,
        vec![
            event(
                "response.output_item.added",
                "{\"item\":{\"id\":\"rs_resp_1\",\"summary\":[],\"type\":\"reasoning\"},\"output_index\":0,\"type\":\"response.output_item.added\"}"
            ),
            event(
                "response.reasoning_summary_text.delta",
                "{\"delta\":\"hm\",\"item_id\":\"rs_resp_1\",\"output_index\":0,\"summary_index\":0,\"type\":\"response.reasoning_summary_text.delta\"}"
            ),
            event(
                "response.output_item.added",
                "{\"item\":{\"content\":[],\"role\":\"assistant\",\"type\":\"message\"},\"output_index\":1,\"type\":\"response.output_item.added\"}"
            ),
            event(
                "response.output_text.delta",
                "{\"delta\":\"Hi\",\"type\":\"response.output_text.delta\"}"
            ),
            event(
                "response.output_text.delta",
                "{\"delta\":\" you\",\"type\":\"response.output_text.delta\"}"
            ),
        ]
    );
    let step = t.step(Upstream::Data("[DONE]".into()), &mut sessions);
    assert!(step.repairs.think_tags);
    assert_eq!(step.repairs.dsml_heal, 0);
    let history = sessions.get_history("resp_1");
    assert_eq!(history[1].reasoning_content.as_deref(), Some("hm"));
    assert_eq!(history[1].text_content(), "Hi you");
}

#[test]
fn refusal_is_an_error_event() {
    let mut sessions = SessionStore::new();
    let step = translation().step(
        Upstream::Refused { status: 401, body: "no\tkey".into() },
        &mut sessions,
    );
    assert_eq!(
        step.events,
        vec![event("error", "{\"code\":401,\"message\":\"no\\tkey\",\"type\":\"error\"}")]
    );
    assert_eq!(step.next, Next::Stop);
    assert!(sessions.get_history("resp_1").is_empty());
}

#[test]
fn failure_is_an_error_event() {
    let mut sessions = SessionStore::new();
    let step = translation().step(Upstream::Failed { message: "down".into() }, &mut sessions);
    assert_eq!(
        step.events,
        vec![event("error", "{\"message\":\"down\",\"type\":\"error\"}")]
    );
    assert_eq!(step.next, Next::Stop);
    assert!(sessions.get_history("resp_1").is_empty());
}
