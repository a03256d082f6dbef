//! Tests of stored conversations and of the translation between the protocols.

use codex_bridge::body::response_value;
use codex_bridge::quirks::Quirks;
use codex_bridge::relay::{begin_stream, outgoing, settle, Outcome, Reply};
use codex_bridge::session::SessionStore;
use codex_bridge::stream::Upstream;
use codex_bridge::translate::{from_chat_response, to_chat_request};
use codex_bridge::types::{
    ChatChoice, ChatMessage, ChatResponse, ChatStreamChoice, ChatStreamChunk, ChatUsage,
    ContentPart, InputItem, InputTokensDetails, MessageContent, PromptTokensDetails,
    ResponsesContent, ResponsesInput, ResponsesMessage, ResponsesOutputItem, ResponsesRequest,
    ResponsesUsage, Tool, ToolCall,
};
use serde_json::Value;

fn request(input: ResponsesInput) -> ResponsesRequest {
    ResponsesRequest {
        model: "m".into(),
        input,
        previous_response_id: None,
        system: None,
        tools: Vec::new(),
        temperature: None,
        max_output_tokens: None,
        stream: false,
    }
}

fn message(role: &str, text: &str) -> ChatMessage {
    ChatMessage::with_text(role, text.to_string())
}

fn all() -> Quirks {
    Quirks::without("")
}

fn said(text: &str) -> ResponsesOutputItem {
    ResponsesOutputItem::Message {
        role: "assistant".into(),
        content: vec![ContentPart { kind: "output_text".into(), text: Some(text.into()) }],
    }
}

fn answered(text: &str) -> ChatResponse {
    ChatResponse {
        choices: vec![ChatChoice { message: message("assistant", text) }],
        usage: Some(ChatUsage {
            prompt_tokens: 3,
            completion_tokens: 4,
            total_tokens: 7,
            prompt_cache_hit_tokens: None,
            prompt_cache_miss_tokens: None,
            prompt_tokens_details: Some(PromptTokensDetails { cached_tokens: Some(2) }),
        }),
    }
}

#[test]
fn saved_history_is_read_back() {
    let mut sessions = SessionStore::new();
    assert!(sessions.get_history("resp_x").is_empty());
    let first = sessions.save(vec![message("user", "a")]);
    let second = sessions.save(vec![message("user", "b"), message("assistant", "c")]);
    assert_ne!(first, second);
    assert_eq!(sessions.get_history(&first), vec![message("user", "a")]);
    assert_eq!(
        sessions.get_history(&second),
        vec![message("user", "b"), message("assistant", "c")]
    );
    sessions.save_with_id(first.clone(), vec![message("user", "d")]);
    assert_eq!(sessions.get_history(&first), vec![message("user", "d")]);
    assert!(sessions.get_history("").is_empty());
}

#[test]
fn response_ids_are_random_uuids() {
    let id = SessionStore::new().new_id();
    assert_eq!(id.len(), 37);
    assert_eq!(&id[..5], "resp_");
    assert!(id[5..].chars().all(|c| matches!(c, '0'..='9' | 'a'..='f')));
    assert_eq!(&id[17..18], "4");
    assert!(matches!(&id[21..22], "8" | "9" | "a" | "b"));
}

#[test]
fn copied_history_keeps_every_field() {
    let full = ChatMessage {
        role: "tool".into(),
        content: Some(MessageContent::Other(Value::from(vec![1u8, 2]))),
        reasoning_content: Some("r".into()),
        tool_calls: Some(vec![ToolCall::Function {
            id: "i".into(),
            name: "n".into(),
            arguments: "{}".into(),
        }]),
        tool_call_id: Some("t".into()),
        name: Some("n".into()),
    };
    let mut sessions = SessionStore::new();
    let id = sessions.save(vec![full.clone()]);
    assert_eq!(sessions.get_history(&id), vec![full]);
}

#[test]
fn request_is_translated() {
    let mut req = request(ResponsesInput::Messages(vec![
        InputItem::Message(ResponsesMessage {
            role: "developer".into(),
            content: ResponsesContent::Text("be brief".into()),
        }),
        InputItem::Other,
        InputItem::Message(ResponsesMessage {
            role: "user".into(),
            content: ResponsesContent::Parts(vec![
                ContentPart { kind: "input_text".into(), text: Some("one".into()) },
                ContentPart { kind: "input_image".into(), text: None },
                ContentPart { kind: "input_text".into(), text: Some(" two".into()) },
            ]),
        }),
        InputItem::FunctionCall {
            call_id: "c".into(),
            name: "js".into(),
            namespace: Some("repl".into()),
            arguments: "{}".into(),
        },
    ]));
    req.system = Some("sys".into());
    req.tools = vec![Tool::Other(Value::from("tool"))];
    req.temperature = Some(0.5f64.to_bits());
    req.max_output_tokens = Some(9);
    req.stream = true;
    let chat = to_chat_request(&req, vec![message("user", "before")]);
    assert_eq!(chat.model, "m");
    assert_eq!(
        chat.messages,
        vec![
            message("system", "sys"),
            message("user", "before"),
            message("developer", "be brief"),
            message("user", "one two"),
            ChatMessage {
                content: None,
                tool_calls: Some(vec![ToolCall::Function {
                    id: "c".into(),
                    name: "repl-js".into(),
                    arguments: "{}".into(),
                }]),
                ..message("assistant", "")
            },
        ]
    );
    assert_eq!(chat.tools, vec![Value::from("tool")]);
    assert_eq!(chat.temperature.map(f64::from_bits), Some(0.5));
    assert_eq!(chat.max_tokens, Some(9));
    assert!(chat.stream);
}

#[test]
fn system_prompt_is_injected_once() {
    let mut req = request(ResponsesInput::Text("hi".into()));
    req.system = Some("new".into());
    let chat = to_chat_request(&req, vec![message("system", "old")]);
    assert_eq!(chat.messages, vec![message("system", "old"), message("user", "hi")]);
    let chat = to_chat_request(&req, Vec::new());
    assert_eq!(chat.messages, vec![message("system", "new"), message("user", "hi")]);
}

#[test]
fn response_is_translated() {
    let (response, messages) = from_chat_response("resp_1".into(), "m", answered("hello"));
    assert_eq!(response.id, "resp_1");
    assert_eq!(response.object, "response");
    assert_eq!(response.model, "m");
    assert_eq!(response.output, vec![said("hello")]);
    assert_eq!(
        response.usage,
        ResponsesUsage {
            input_tokens: 3,
            output_tokens: 4,
            total_tokens: 7,
            input_tokens_details: InputTokensDetails { cached_tokens: 2 },
        }
    );
    assert_eq!(
        response_value(&response).to_string(),
        "{\"id\":\"resp_1\",\"model\":\"m\",\"object\":\"response\",\"output\":[{\"content\":[{\"text\":\"hello\",\"type\":\"output_text\"}],\"role\":\"assistant\",\"type\":\"message\"}],\"usage\":{\"input_tokens\":3,\"input_tokens_details\":{\"cached_tokens\":2},\"output_tokens\":4,\"total_tokens\":7}}"
    );
    assert_eq!(messages, vec![message("assistant", "hello")]);
}

#[test]
fn response_without_choices_is_empty() {
    let chat = ChatResponse { choices: Vec::new(), usage: None };
    let (response, messages) = from_chat_response("resp_1".into(), "m", chat);
    assert_eq!(response.output, vec![said("")]);
    assert_eq!(
        response.usage,
        ResponsesUsage {
            input_tokens: 0,
            output_tokens: 0,
            total_tokens: 0,
            input_tokens_details: InputTokensDetails { cached_tokens: 0 },
        }
    );
    assert_eq!(messages, vec![message("assistant", "")]);
}

#[test]
fn conversation_goes_on() {
    let mut sessions = SessionStore::new();
    let mut req = request(ResponsesInput::Text("one".into()));
    req.system = Some("sys".into());
    let out = outgoing(&sessions, &req, "https://host/v1", all());
    assert_eq!(out.url, "https://host/v1/chat/completions");
    assert_eq!(
        out.request.messages,
        vec![message("system", "sys"), message("user", "one")]
    );
    let id = match settle(
        &mut sessions,
        &out.request.messages,
        &req.model,
        &req.tools,
        all(),
        Outcome::Answered(answered("two")),
    )
    .0
    {
        Reply::Response(response) => response.id,
        Reply::Error { .. } => panic!("an answer is passed on"),
    };
    let mut req = request(ResponsesInput::Text("three".into()));
    req.system = Some("sys".into());
    req.previous_response_id = Some(id);
    let out = outgoing(&sessions, &req, "", all());
    assert_eq!(
        out.request.messages,
        vec![
            message("system", "sys"),
            message("user", "one"),
            message("assistant", "two"),
            message("user", "three"),
        ]
    );
}

#[test]
fn streamed_turn_goes_on() {
    let mut sessions = SessionStore::new();
    let mut req = request(ResponsesInput::Text("one".into()));
    req.stream = true;
    let out = outgoing(&sessions, &req, "u", all());
    assert!(out.request.stream);
    let mut translation = begin_stream(&sessions, &out, &req.model, req.tools, all());
    let announced = translation.created().data;
    let text = ChatStreamChunk {
        choices: vec![ChatStreamChoice {
            content: Some("two".into()),
            reasoning_content: None,
            reasoning: None,
            tool_calls: Vec::new(),
            finished: true,
        }],
        usage: None,
    };
    translation.step(Upstream::Chunk(text), &mut sessions);
    translation.step(Upstream::Closed, &mut sessions);
    let start = announced.find("resp_").expect("the id is announced");
    let mut req = request(ResponsesInput::Text("three".into()));
    req.previous_response_id = Some(announced[start..start + 37].to_string());
    let out = outgoing(&sessions, &req, "u", all());
    assert_eq!(
        out.request.messages,
        vec![message("user", "one"), message("assistant", "two"), message("user", "three")]
    );
}

#[test]
fn unknown_response_id_starts_a_conversation() {
    let mut req = request(ResponsesInput::Text("one".into()));
    req.previous_response_id = Some("resp_unknown".into());
    let out = outgoing(&SessionStore::new(), &req, "u", all());
    assert_eq!(out.request.messages, vec![message("user", "one")]);
}

#[test]
fn failures_are_passed_on() {
    let mut sessions = SessionStore::new();
    let asked = vec![message("user", "one")];
    let cases = vec![
        (Outcome::Failed { message: "no route".into() }, 502, "no route"),
        (Outcome::Refused { status: 429, body: "slow down".into() }, 429, "slow down"),
        (Outcome::Refused { status: 100, body: "a".into() }, 100, "a"),
        (Outcome::Refused { status: 999, body: "b".into() }, 999, "b"),
        (Outcome::Refused { status: 99, body: "c".into() }, 502, "c"),
        (Outcome::Refused { status: 1000, body: "d".into() }, 502, "d"),
        (Outcome::Unreadable { message: "bad json".into() }, 500, "bad json"),
    ];
    for (outcome, status, text) in cases {
        assert_eq!(
            settle(&mut sessions, &asked, "m", &Vec::new(), all(), outcome).0,
            Reply::Error { status, text: text.to_string() }
        );
    }
}

#[test]
fn answer_without_choices_is_stored_as_empty() {
    let mut sessions = SessionStore::new();
    let asked = vec![message("user", "one")];
    let chat = ChatResponse { choices: Vec::new(), usage: None };
    match settle(&mut sessions, &asked, "m", &Vec::new(), all(), Outcome::Answered(chat)).0 {
        Reply::Response(response) => assert_eq!(
            sessions.get_history(&response.id),
            vec![message("user", "one"), message("assistant", "")]
        ),
        Reply::Error { .. } => panic!("an answer is passed on"),
    }
}
