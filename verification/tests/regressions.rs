//! Tests of requests and responses as whole, each for a fault that was seen once.

use codex_bridge::body::response_value;
use codex_bridge::quirks::Quirks;
use codex_bridge::relay::{begin_stream, outgoing, settle, shape_body, Outcome, Reply};
use codex_bridge::session::SessionStore;
use codex_bridge::stream::{Next, StreamTranslation, Upstream};
use codex_bridge::tools::{field_or, free_text_field, text_from, unwrap_text, wrap_text};
use codex_bridge::translate::{from_chat_response_with_tools, to_chat_request};
use codex_bridge::types::{
    ChatChoice, ChatMessage, ChatResponse, ChatStreamChoice, ChatStreamChunk, ChatUsage,
    FunctionTool, InputItem, MessageContent, ResponsesInput, ResponsesRequest, Tool, ToolCall,
    ToolCallDelta,
};
use serde_json::Value;

fn value(text: &str) -> Value {
    serde_json::from_str(text).expect("JSON")
}

fn all() -> Quirks {
    Quirks::without("")
}

fn function(name: &str) -> FunctionTool {
    FunctionTool {
        name: name.into(),
        description: None,
        parameters: Some(value(r#"{"type":"object"}"#)),
        strict: None,
    }
}

fn namespace(name: &str, function_name: &str) -> Tool {
    Tool::Namespace { name: name.into(), tools: vec![function(function_name)] }
}

fn custom_patch() -> Tool {
    Tool::Custom { name: "apply_patch".into(), description: Some("Apply a patch".into()) }
}

fn declared_patch(field: &str) -> Tool {
    let schema = format!(
        r#"{{"type":"object","properties":{{"{field}":{{"type":"string"}}}},"required":["{field}"]}}"#
    );
    Tool::Function(FunctionTool { parameters: Some(value(&schema)), ..function("apply_patch") })
}

fn request(input: &str, tools: Vec<Tool>, stream: bool) -> ResponsesRequest {
    ResponsesRequest {
        model: "mock-model".into(),
        input: ResponsesInput::Text(input.into()),
        previous_response_id: None,
        system: None,
        tools,
        temperature: None,
        max_output_tokens: None,
        stream,
    }
}

fn usage(prompt: u32, completion: u32, total: u32) -> ChatUsage {
    ChatUsage {
        prompt_tokens: prompt,
        completion_tokens: completion,
        total_tokens: total,
        prompt_cache_hit_tokens: None,
        prompt_cache_miss_tokens: None,
        prompt_tokens_details: None,
    }
}

fn answering(message: ChatMessage) -> ChatResponse {
    ChatResponse { choices: vec![ChatChoice { message }], usage: None }
}

fn calling(id: &str, name: &str, arguments: &str) -> ChatResponse {
    let mut message = ChatMessage::with_text("assistant", String::new());
    message.content = None;
    message.tool_calls = Some(vec![ToolCall::Function {
        id: id.into(),
        name: name.into(),
        arguments: arguments.into(),
    }]);
    answering(message)
}

fn with_patch(field: &str, patch: &str) -> String {
    let mut arguments = serde_json::Map::new();
    arguments.insert(field.to_string(), Value::from(patch));
    Value::Object(arguments).to_string()
}

/// The JSON of the response to `chat`, given the declared tools.
fn response(id: &str, chat: ChatResponse, tools: &Vec<Tool>) -> (Value, Vec<ChatMessage>) {
    let (response, messages) =
        from_chat_response_with_tools(id.into(), "mock-model", chat, tools, all());
    (response_value(&response), messages)
}

const PATCH: &str =
    "*** Begin Patch\n*** Update File: test.txt\n@@\n-old\n+new\n*** End Patch";

// ---------------------------------------------------------------------------
// Blocking
// ---------------------------------------------------------------------------

#[test]
fn issue_6_namespace_tools_keep_namespace_when_flattened() {
    let tools = vec![
        Tool::Function(function("shell")),
        namespace("mcp__codex_apps__github", "_add_comment_to_issue"),
    ];
    let chat = to_chat_request(&request("hi", tools, true), Vec::new());
    let names: Vec<&str> = chat
        .tools
        .iter()
        .map(|t| t["function"]["name"].as_str().unwrap_or(""))
        .collect();
    assert_eq!(names, vec!["shell", "mcp__codex_apps__github-_add_comment_to_issue"]);
}

#[test]
fn issue_17_blocking_namespaced_tool_calls_emit_namespace_field() {
    let chat = calling("call_js", "mcp__node_repl-js", "{}");
    let (resp, _) = response("resp_17", chat, &vec![namespace("mcp__node_repl", "js")]);
    assert_eq!(resp["output"][0]["type"], "function_call");
    assert_eq!(resp["output"][0]["namespace"], "mcp__node_repl");
    assert_eq!(resp["output"][0]["name"], "js");
}

#[test]
fn issue_20_blocking_hyphen_flat_tool_name_is_not_namespaced() {
    let chat = calling("call_flat", "foo-bar", "{}");
    let (resp, _) = response("resp_20", chat, &vec![Tool::Function(function("foo-bar"))]);
    assert_eq!(resp["output"][0]["type"], "function_call");
    assert!(resp["output"][0].get("namespace").is_none());
    assert_eq!(resp["output"][0]["name"], "foo-bar");
}

#[test]
fn issue_37_custom_apply_patch_round_trips_in_blocking_translation() {
    let req = request("Update the file.", vec![custom_patch()], false);
    let chat_req = to_chat_request(&req, Vec::new());
    assert_eq!(chat_req.tools[0]["type"], "function");
    assert_eq!(chat_req.tools[0]["function"]["name"], "apply_patch");
    assert_eq!(
        chat_req.tools[0]["function"]["parameters"]["required"],
        value(r#"["patch"]"#)
    );
    assert_eq!(chat_req.tools[0]["function"]["description"], "Apply a patch");

    let chat = calling("call_patch", "apply_patch", &with_patch("patch", PATCH));
    let (response, _) = response("resp_37", chat, &req.tools);
    let item = &response["output"][0];
    assert_eq!(item["type"], "custom_tool_call");
    assert_eq!(item["name"], "apply_patch");
    assert_eq!(item["call_id"], "call_patch");
    assert_eq!(item["input"], PATCH);
    assert!(item.get("arguments").is_none());
}

#[test]
fn issue_37_function_declared_apply_patch_emits_custom_tool_call() {
    let req = request("Update the file.", vec![declared_patch("patch")], false);
    let chat_req = to_chat_request(&req, Vec::new());
    assert_eq!(chat_req.tools[0]["function"]["name"], "apply_patch");
    assert_eq!(
        chat_req.tools[0]["function"]["parameters"]["required"],
        value(r#"["patch"]"#)
    );

    let chat = calling("call_patch_fn", "apply_patch", &with_patch("patch", PATCH));
    let (response, _) = response("resp_37_fn", chat, &req.tools);
    let item = &response["output"][0];
    assert_eq!(item["type"], "custom_tool_call");
    assert_eq!(item["name"], "apply_patch");
    assert_eq!(item["call_id"], "call_patch_fn");
    assert_eq!(item["input"], PATCH);
    assert!(item.get("arguments").is_none());
}

#[test]
fn issue_37_function_declared_apply_patch_respects_input_argument_field() {
    let patch = "*** Begin Patch\n*** Update File: a.txt\n@@\n-x\n+y\n*** End Patch";
    let tools = vec![declared_patch("input")];
    let chat = calling("call_patch_input", "apply_patch", &with_patch("input", patch));
    let (response, _) = response("resp_37_input", chat, &tools);
    let item = &response["output"][0];
    assert_eq!(item["type"], "custom_tool_call");
    assert_eq!(item["input"], patch);

    // The next turn wraps the text again, in the declared field.
    let mut req = request("", tools, false);
    req.input = ResponsesInput::Messages(vec![
        InputItem::CustomToolCall {
            call_id: "call_patch_input".into(),
            name: "apply_patch".into(),
            input: patch.into(),
        },
        InputItem::ToolOutput { call_id: "call_patch_input".into(), output: "Done".into() },
    ]);
    let chat_req = to_chat_request(&req, Vec::new());
    assert_eq!(
        chat_req.messages[0].tool_calls,
        Some(vec![ToolCall::Function {
            id: "call_patch_input".into(),
            name: "apply_patch".into(),
            arguments: with_patch("input", patch),
        }])
    );
    assert_eq!(chat_req.messages[1].role, "tool");
    assert_eq!(chat_req.messages[1].tool_call_id.as_deref(), Some("call_patch_input"));
    assert_eq!(chat_req.messages[1].text_content(), "Done");
}

#[test]
fn dsml_leak_blocking_response_heals_into_function_call() {
    let dsml = "<｜DSML｜tool_calls>\n<｜DSML｜invoke name=\"shell\">\n<｜DSML｜parameter name=\"command\" string=\"true\">Get-Content 'D:\\2026年\\病毒学\\data.csv' -Encoding UTF8 -TotalCount 5</｜DSML｜parameter>\n</｜DSML｜invoke>\n</｜DSML｜tool_calls>";
    let chat = answering(ChatMessage::with_text(
        "assistant",
        format!("我来逐步完成这个任务。\n{dsml}"),
    ));
    let (response, history) = response("resp_dsml", chat, &Vec::new());

    assert_eq!(response["output"][0]["type"], "message");
    assert_eq!(response["output"][0]["content"][0]["text"], "我来逐步完成这个任务。");
    let call = &response["output"][1];
    assert_eq!(call["type"], "function_call");
    assert_eq!(call["name"], "shell");
    let args: Value = value(call["arguments"].as_str().unwrap());
    assert_eq!(
        args["command"],
        "Get-Content 'D:\\2026年\\病毒学\\data.csv' -Encoding UTF8 -TotalCount 5"
    );

    assert_eq!(history[0].text_content(), "我来逐步完成这个任务。");
    assert_eq!(history[0].tool_calls.as_ref().unwrap().len(), 1);
}

#[test]
fn blocking_response_usage_includes_cached_tokens() {
    let mut chat = answering(ChatMessage::with_text("assistant", "OK".into()));
    chat.usage = Some(ChatUsage {
        prompt_cache_hit_tokens: Some(11),
        prompt_cache_miss_tokens: Some(6),
        ..usage(17, 2, 19)
    });
    let (resp, _) = response("resp_cached", chat, &Vec::new());
    assert_eq!(
        resp["usage"],
        value(
            r#"{"input_tokens":17,"output_tokens":2,"total_tokens":19,"input_tokens_details":{"cached_tokens":11}}"#
        )
    );
}

#[test]
fn blocking_think_tags_are_exposed_and_persisted_as_reasoning() {
    let mut sessions = SessionStore::new();
    let req = request("first question", Vec::new(), false);
    let out = outgoing(&sessions, &req, "u", all());
    let mut chat = answering(ChatMessage::with_text(
        "assistant",
        "<think>secret</think>answer".into(),
    ));
    chat.usage = Some(usage(5, 2, 7));
    let (reply, repairs) = settle(
        &mut sessions,
        &out.request.messages,
        &req.model,
        &req.tools,
        all(),
        Outcome::Answered(chat),
    );
    assert!(repairs.think_tags);
    let first = match reply {
        Reply::Response(response) => response_value(&response),
        Reply::Error { .. } => panic!("an answer is passed on"),
    };
    assert_eq!(first["output"][0]["type"], "reasoning");
    assert_eq!(first["output"][0]["summary"][0]["text"], "secret");
    assert_eq!(first["output"][1]["content"][0]["text"], "answer");

    let mut req = request("second question", Vec::new(), false);
    req.previous_response_id = Some(first["id"].as_str().unwrap().to_string());
    let out = outgoing(&sessions, &req, "u", all());
    let replayed = out
        .request
        .messages
        .iter()
        .find(|message| message.role == "assistant")
        .expect("the assistant message is sent again");
    assert_eq!(replayed.content, Some(MessageContent::Text("answer".into())));
    assert_eq!(replayed.reasoning_content.as_deref(), Some("secret"));
    assert!(!format!("{:?}", out.request).contains("<think>"));
}

// ---------------------------------------------------------------------------
// Streams
// ---------------------------------------------------------------------------

fn choice() -> ChatStreamChoice {
    ChatStreamChoice {
        content: None,
        reasoning_content: None,
        reasoning: None,
        tool_calls: Vec::new(),
        finished: false,
    }
}

fn chunk(choice: ChatStreamChoice) -> ChatStreamChunk {
    ChatStreamChunk { choices: vec![choice], usage: None }
}

fn says(text: &str) -> ChatStreamChunk {
    chunk(ChatStreamChoice { content: Some(text.into()), ..choice() })
}

fn thinks(text: &str) -> ChatStreamChunk {
    chunk(ChatStreamChoice { reasoning_content: Some(text.into()), ..choice() })
}

fn calls(id: &str, name: &str, arguments: &str) -> ChatStreamChunk {
    chunk(ChatStreamChoice {
        tool_calls: vec![ToolCallDelta {
            index: 0,
            id: Some(id.into()),
            name: Some(name.into()),
            arguments: Some(arguments.into()),
        }],
        ..choice()
    })
}

fn reports(usage: ChatUsage) -> ChatStreamChunk {
    ChatStreamChunk { choices: Vec::new(), usage: Some(usage) }
}

fn done() -> Upstream {
    Upstream::Data("[DONE]".into())
}

type Events = Vec<(String, Value)>;

/// The events of a stream of the given chunks that ends with `end`.
fn stream_events(
    sessions: &mut SessionStore,
    mut translation: StreamTranslation,
    chunks: Vec<ChatStreamChunk>,
    end: Upstream,
) -> Events {
    let mut events = vec![translation.created()];
    for chunk in chunks {
        let step = translation.step(Upstream::Chunk(chunk), sessions);
        assert_eq!(step.next, Next::Read);
        events.extend(step.events);
    }
    let step = translation.step(end, sessions);
    assert_eq!(step.next, Next::Stop);
    events.extend(step.events);
    events
        .into_iter()
        .map(|event| (event.name.to_string(), value(&event.data)))
        .collect()
}

fn streamed(tools: Vec<Tool>, quirks: Quirks, chunks: Vec<ChatStreamChunk>, end: Upstream) -> Events {
    let mut sessions = SessionStore::new();
    let asked = vec![ChatMessage::with_text("user", "hi".into())];
    let translation =
        StreamTranslation::new("resp_1".into(), "mock-model".into(), asked, tools, quirks);
    stream_events(&mut sessions, translation, chunks, end)
}

fn deltas(events: &Events, name: &str) -> Vec<String> {
    events
        .iter()
        .filter(|(event, _)| event == name)
        .map(|(_, data)| data["delta"].as_str().unwrap().to_string())
        .collect()
}

fn item<'a>(events: &'a Events, name: &str, kind: &str) -> &'a Value {
    events
        .iter()
        .find(|(event, data)| event == name && data["item"]["type"] == kind)
        .map(|(_, data)| data)
        .expect("the item is reported")
}

fn completed(events: &Events) -> &Value {
    events
        .iter()
        .find(|(event, _)| event == "response.completed")
        .map(|(_, data)| &data["response"])
        .expect("the response is completed")
}

const TEXT: &str = "response.output_text.delta";
const REASONING: &str = "response.reasoning_summary_text.delta";
const ADDED: &str = "response.output_item.added";
const DONE: &str = "response.output_item.done";

#[test]
fn dsml_leak_streaming_heals_into_function_call_events() {
    let events = streamed(
        vec![Tool::Function(function("shell"))],
        all(),
        vec![
            says("我来读取文件。"),
            says("<｜DS"),
            says("ML｜tool_calls>\n<｜DSML｜invoke name=\"shell\">\n"),
            says("<｜DSML｜parameter name=\"command\" string=\"true\">ls -la</｜DSML｜parameter>\n</｜DSML｜invoke>\n"),
            says("</｜DSML｜tool_calls>"),
            reports(usage(10, 5, 15)),
        ],
        done(),
    );
    for delta in deltas(&events, TEXT) {
        assert!(!delta.contains("DSML"));
    }
    let call = &item(&events, DONE, "function_call")["item"];
    assert_eq!(call["name"], "shell");
    assert_eq!(value(call["arguments"].as_str().unwrap())["command"], "ls -la");
    assert!(call["call_id"].as_str().unwrap().starts_with("call_dsml_"));

    let output = completed(&events)["output"].as_array().unwrap();
    let message = output.iter().find(|item| item["type"] == "message").unwrap();
    assert_eq!(message["content"][0]["text"], "我来读取文件。");
    assert!(output.iter().any(|item| item["type"] == "function_call"));
}

#[test]
fn dsml_heal_quirk_can_be_disabled_via_env() {
    let events = streamed(
        vec![Tool::Function(function("shell"))],
        Quirks::without("dsml_heal"),
        vec![
            says("<｜DSML｜tool_calls>\n<｜DSML｜invoke name=\"shell\">\n<｜DSML｜parameter name=\"command\" string=\"true\">ls</｜DSML｜parameter>\n</｜DSML｜invoke>\n</｜DSML｜tool_calls>"),
            reports(usage(1, 1, 2)),
        ],
        done(),
    );
    assert!(!events
        .iter()
        .any(|(event, data)| event == DONE && data["item"]["type"] == "function_call"));
    assert!(deltas(&events, TEXT).concat().contains("<｜DSML｜tool_calls>"));
}

#[test]
fn issue_5_streaming_completed_event_includes_usage() {
    let mut req = request("Say OK.", Vec::new(), true);
    req.system = Some("Answer briefly.".into());
    let out = outgoing(&SessionStore::new(), &req, "u", all());
    let body = shape_body(
        serde_json::Map::new(),
        &out.request,
        serde_json::Map::new(),
        &Vec::new(),
    );
    assert_eq!(body["stream_options"], value(r#"{"include_usage":true}"#));

    let events = streamed(
        Vec::new(),
        all(),
        vec![says("OK"), reports(usage(7, 2, 9))],
        done(),
    );
    assert_eq!(
        completed(&events)["usage"],
        value(
            r#"{"input_tokens":7,"output_tokens":2,"total_tokens":9,"input_tokens_details":{"cached_tokens":0}}"#
        )
    );
}

#[test]
fn streaming_response_usage_includes_cached_tokens() {
    let cached = ChatUsage {
        prompt_cache_hit_tokens: Some(11),
        prompt_cache_miss_tokens: Some(6),
        ..usage(17, 2, 19)
    };
    let events = streamed(Vec::new(), all(), vec![says("OK"), reports(cached)], done());
    assert_eq!(
        completed(&events)["usage"],
        value(
            r#"{"input_tokens":17,"output_tokens":2,"total_tokens":19,"input_tokens_details":{"cached_tokens":11}}"#
        )
    );
}

#[test]
fn issue_26_glm_model_enables_thinking_on_upstream_request() {
    let mut req = request("hi", Vec::new(), true);
    req.model = "glm-5.2".into();
    let out = outgoing(&SessionStore::new(), &req, "u", all());
    assert!(out.request.thinking);
    let none = serde_json::Map::new();
    let body = shape_body(none.clone(), &out.request, none, &Vec::new());
    assert_eq!(body["thinking"], value(r#"{"type":"enabled"}"#));
    let out = outgoing(&SessionStore::new(), &req, "u", Quirks::without("glm_thinking"));
    assert!(!out.request.thinking);
}

#[test]
fn issue_26_non_glm_model_does_not_send_thinking() {
    let mut req = request("hi", Vec::new(), true);
    req.model = "deepseek-reasoner".into();
    let out = outgoing(&SessionStore::new(), &req, "u", all());
    let none = serde_json::Map::new();
    let body = shape_body(none.clone(), &out.request, none, &Vec::new());
    assert!(body.get("thinking").is_none());
}

#[test]
fn issue_29_extra_and_drop_params_modify_streaming_upstream_request() {
    let mut req = request("hi", Vec::new(), true);
    req.model = "glm-5.2".into();
    let out = outgoing(&SessionStore::new(), &req, "u", all());
    let mut sent = serde_json::Map::new();
    sent.insert("model".into(), Value::from("glm-5.2"));
    let mut extra = serde_json::Map::new();
    extra.insert("thinking".into(), value(r#"{"type":"disabled"}"#));
    let body = shape_body(sent, &out.request, extra, &vec!["stream_options".into()]);
    assert_eq!(body["thinking"], value(r#"{"type":"disabled"}"#));
    assert!(body.get("stream_options").is_none());
    assert_eq!(body["model"], "glm-5.2");
}

#[test]
fn issue_31_stream_without_done_still_completes_when_content_received() {
    for end in [Upstream::Closed, Upstream::Broken] {
        let last = ChatStreamChoice {
            content: Some(" world".into()),
            finished: true,
            ..choice()
        };
        let events = streamed(
            Vec::new(),
            all(),
            vec![says("Hello"), chunk(last), reports(usage(5, 2, 7))],
            end,
        );
        assert!(!events.iter().any(|(event, _)| event == "response.failed"));
        assert_eq!(completed(&events)["output"][0]["content"][0]["text"], "Hello world");
    }
}

#[test]
fn issue_31_truncated_stream_without_finish_reason_fails() {
    for end in [Upstream::Closed, Upstream::Broken] {
        let mut sessions = SessionStore::new();
        let asked = vec![ChatMessage::with_text("user", "Say hi.".into())];
        let translation =
            StreamTranslation::new("resp_1".into(), "m".into(), asked, Vec::new(), all());
        let events = stream_events(&mut sessions, translation, vec![says("Hel")], end);
        assert!(events.iter().any(|(event, _)| event == "response.failed"));
        assert!(!events.iter().any(|(event, _)| event == "response.completed"));
        assert!(sessions.get_history("resp_1").is_empty());
    }
}

#[test]
fn think_tags_leaked_into_content_are_routed_to_reasoning() {
    let last = ChatStreamChoice {
        content: Some("ink>\n\nHello!".into()),
        finished: true,
        ..choice()
    };
    let events = streamed(
        Vec::new(),
        all(),
        vec![says("<thi"), says("nk>musing</th"), chunk(last)],
        done(),
    );
    assert_eq!(deltas(&events, TEXT).concat(), "Hello!");
    assert_eq!(deltas(&events, REASONING).concat(), "musing");
}

#[test]
fn issue_26_streaming_reasoning_content_emits_responses_reasoning_events() {
    let events = streamed(
        Vec::new(),
        all(),
        vec![thinks("think "), thinks("through it"), says("OK"), reports(usage(9, 3, 12))],
        done(),
    );
    let added = item(&events, ADDED, "reasoning");
    assert_eq!(added["output_index"], 0);
    let id = added["item"]["id"].as_str().expect("the item has an id");
    assert_eq!(deltas(&events, REASONING), vec!["think ", "through it"]);
    for (event, data) in &events {
        if event == REASONING {
            assert_eq!(data["item_id"], id);
            assert_eq!(data["output_index"], 0);
            assert_eq!(data["summary_index"], 0);
        }
    }
    let summary = value(r#"[{"type":"summary_text","text":"think through it"}]"#);
    let finished = item(&events, DONE, "reasoning");
    assert_eq!(finished["output_index"], 0);
    assert_eq!(finished["item"]["summary"], summary);
    assert_eq!(item(&events, ADDED, "message")["output_index"], 1);
    assert_eq!(item(&events, DONE, "message")["output_index"], 1);

    let output = &completed(&events)["output"];
    assert_eq!(output[0]["type"], "reasoning");
    assert_eq!(output[0]["summary"], summary);
    assert_eq!(output[1]["type"], "message");
    assert_eq!(output[1]["content"], value(r#"[{"type":"output_text","text":"OK"}]"#));
}

#[test]
fn issue_26_streaming_reasoning_alias_field_emits_reasoning_events() {
    let alias = |text: &str| chunk(ChatStreamChoice { reasoning: Some(text.into()), ..choice() });
    let events = streamed(
        Vec::new(),
        all(),
        vec![alias("alias "), alias("path"), says("OK"), reports(usage(9, 3, 12))],
        done(),
    );
    assert_eq!(deltas(&events, REASONING), vec!["alias ", "path"]);
    let output = &completed(&events)["output"];
    assert_eq!(output[0]["type"], "reasoning");
    assert_eq!(
        output[0]["summary"],
        value(r#"[{"type":"summary_text","text":"alias path"}]"#)
    );
}

#[test]
fn text_of_a_declared_patch_is_in_the_one_parameter_it_requires() {
    let field = |schema: Option<&str>| {
        let tool = FunctionTool { parameters: schema.map(value), ..function("apply_patch") };
        free_text_field(&vec![Tool::Function(tool)], "apply_patch")
    };
    assert_eq!(field(Some(r#"{"required":["diff"]}"#)).as_deref(), Some("diff"));
    for schema in [
        None,
        Some("{}"),
        Some("[]"),
        Some(r#"{"required":[]}"#),
        Some(r#"{"required":["a","b"]}"#),
        Some(r#"{"required":[1]}"#),
        Some(r#"{"required":"diff"}"#),
    ] {
        assert_eq!(field(schema).as_deref(), Some("patch"));
    }
    assert_eq!(free_text_field(&vec![Tool::Function(function("shell"))], "shell"), None);
    assert_eq!(field_or("apply_patch", Some("diff".into())), "diff");
    assert_eq!(field_or("apply_patch", None), "patch");
    assert_eq!(field_or("other", None), "input");
}

#[test]
fn wrapped_text_is_read_back() {
    let arguments = wrap_text("patch", "a\"b\\\n\u{1}é");
    assert_eq!(arguments, "{\"patch\":\"a\\\"b\\\\\\n\\u0001é\"}");
    for field in ["patch", "", "a\"b", "$x"] {
        for text in ["", "plain", "a\"b\\\n\u{1}é", "{\"patch\":1}", "\u{7f}\u{2028}😀"] {
            assert_eq!(unwrap_text(&wrap_text(field, text), field), text);
        }
    }
    for arguments in ["", "no JSON", "[]", "{}", "{\"patch\":1}", "{\"input\":\"x\"}"] {
        assert_eq!(unwrap_text(arguments, "patch"), arguments);
    }
    assert_eq!(unwrap_text(" { \"a\" : 1 , \"patch\" : \"\\u00e9\" } ", "patch"), "é");
    assert_eq!(text_from("{}", Some("x".into())), "x");
    assert_eq!(text_from("{}", None), "{}");
}

#[test]
fn reasoning_under_either_name_counts_where_it_holds_something() {
    let both = |one: &str, other: &str| {
        chunk(ChatStreamChoice {
            reasoning_content: Some(one.into()),
            reasoning: Some(other.into()),
            ..choice()
        })
    };
    let events = streamed(
        Vec::new(),
        all(),
        vec![both("", "a"), both("b", "c"), both("d", ""), both("", ""), says("OK")],
        done(),
    );
    assert_eq!(deltas(&events, REASONING), vec!["a", "b", "d"]);
}

#[test]
fn issue_17_streaming_namespaced_tool_calls_emit_namespace_field() {
    let tools = vec![namespace("mcp__node_repl", "js")];
    let req = request("Use the JS REPL.", tools, true);
    let chat = to_chat_request(&req, Vec::new());
    assert_eq!(chat.tools[0]["function"]["name"], "mcp__node_repl-js");
    let events = streamed(
        req.tools,
        all(),
        vec![calls("call_js", "mcp__node_repl-js", "{}"), reports(usage(11, 3, 14))],
        done(),
    );
    for name in [ADDED, DONE] {
        let call = &item(&events, name, "function_call")["item"];
        assert_eq!(call["namespace"], "mcp__node_repl");
        assert_eq!(call["name"], "js");
    }
    let call = &completed(&events)["output"][0];
    assert_eq!(call["type"], "function_call");
    assert_eq!(call["namespace"], "mcp__node_repl");
    assert_eq!(call["name"], "js");
}

#[test]
fn issue_43_streaming_collaboration_calls_request_plaintext_arguments() {
    let events = streamed(
        vec![namespace("collaboration", "spawn_agent")],
        all(),
        vec![calls(
            "call_spawn",
            "collaboration-spawn_agent",
            "{\"message\":\"do the task\"}",
        )],
        done(),
    );
    for name in [ADDED, DONE] {
        let call = &item(&events, name, "function_call")["item"];
        assert_eq!(call["namespace"], "collaboration");
        assert_eq!(call["name"], "spawn_agent");
        assert_eq!(call["encrypted_function_args"], value("[]"));
    }
    assert_eq!(completed(&events)["output"][0]["encrypted_function_args"], value("[]"));
}

#[test]
fn issue_20_streaming_hyphen_flat_tool_name_is_not_namespaced() {
    let events = streamed(
        vec![Tool::Function(function("foo-bar"))],
        all(),
        vec![calls("call_flat", "foo-bar", "{}")],
        done(),
    );
    for name in [ADDED, DONE] {
        let call = &item(&events, name, "function_call")["item"];
        assert!(call.get("namespace").is_none());
        assert_eq!(call["name"], "foo-bar");
    }
    let call = &completed(&events)["output"][0];
    assert!(call.get("namespace").is_none());
    assert_eq!(call["name"], "foo-bar");
}

#[test]
fn issue_37_streaming_apply_patch_emits_custom_tool_events() {
    let req = request("Apply the change.", vec![custom_patch()], true);
    let chat = to_chat_request(&req, Vec::new());
    assert_eq!(chat.tools[0]["function"]["name"], "apply_patch");
    assert_eq!(
        chat.tools[0]["function"]["parameters"]["required"],
        value(r#"["patch"]"#)
    );
    let events = streamed(
        req.tools,
        all(),
        vec![calls("call_patch", "apply_patch", &with_patch("patch", PATCH))],
        done(),
    );
    let added = &item(&events, ADDED, "custom_tool_call")["item"];
    assert_eq!(added["name"], "apply_patch");
    assert_eq!(added["input"], "");
    assert!(added.get("arguments").is_none());
    assert_eq!(deltas(&events, "response.custom_tool_call_input.delta"), vec![PATCH]);
    assert_eq!(item(&events, DONE, "custom_tool_call")["item"]["input"], PATCH);
    let call = &completed(&events)["output"][0];
    assert_eq!(call["type"], "custom_tool_call");
    assert_eq!(call["input"], PATCH);
}

/// The user messages of the request that a child agent sends, which reuses the id of
/// the turn in which its parent called `spawn`.
fn child_input(spawn: &str, arguments: &str, child_task: &str) -> Vec<String> {
    let mut sessions = SessionStore::new();
    let tools = || vec![Tool::Function(function("spawn_agent"))];
    let mut req = request("Ask a subagent.", tools(), true);
    req.system = Some("You are the parent agent.".into());
    let out = outgoing(&sessions, &req, "u", all());
    let translation = begin_stream(&sessions, &out, &req.model, tools(), all());
    let events = stream_events(
        &mut sessions,
        translation,
        vec![calls("call_spawn", spawn, arguments)],
        done(),
    );
    assert_eq!(completed(&events)["output"][0]["name"], spawn);
    let parent = completed(&events)["id"].as_str().unwrap().to_string();
    assert_eq!(sessions.get_history(&parent).len(), 3);

    let mut req = request(child_task, tools(), true);
    req.system = Some("You are the spawned child agent.".into());
    req.previous_response_id = Some(parent);
    let child = outgoing(&sessions, &req, "u", all()).request.messages;
    assert!(child.iter().all(|message| message.tool_calls.is_none()));
    assert_eq!(child[0].text_content(), "You are the spawned child agent.");

    // The parent itself goes on when it says what the call gave.
    req.input = ResponsesInput::Messages(vec![InputItem::ToolOutput {
        call_id: "call_spawn".into(),
        output: "4".into(),
    }]);
    assert_eq!(outgoing(&sessions, &req, "u", all()).request.messages.len(), 4);

    child
        .iter()
        .filter(|message| message.role == "user")
        .map(|message| message.text_content().to_string())
        .collect()
}

#[test]
fn issue_12_spawn_agent_child_context_should_not_replay_parent_history() {
    let task = "Please compute 2+2 and return only the numeric result.";
    let arguments = with_patch("message", task);
    assert_eq!(child_input("spawn_agent", &arguments, task), vec![task]);
}

#[test]
fn issue_24_v2_encrypted_spawn_child_context_is_isolated() {
    let task = "Inspect the repository and report the risky files.";
    let arguments = with_patch("message", "encrypted:v2:opaque-child-task-ciphertext");
    assert_eq!(child_input("spawn_agent", &arguments, task), vec![task]);
    assert_eq!(child_input("collaboration-spawn_agent", &arguments, task), vec![task]);
}
