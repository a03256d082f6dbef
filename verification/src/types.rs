//! The requests and responses of the two protocols.
//!
//! A JSON value that the crate only carries along is kept as it is; it is known
//! by its compact text.

use crate::json::{copy_value, json_text};
use serde_json::Value;
use vstd::prelude::*;
use vstd::string::*;

verus! {

// ---------------------------------------------------------------------------
// Chat Completions
// ---------------------------------------------------------------------------

/// The content of a chat message: plain text, or any other JSON value (such as a
/// list of content parts).
#[derive(Debug, PartialEq)]
pub enum MessageContent {
    Text(String),
    Other(Value),
}

/// What the content of a message is.
pub enum ContentView {
    Text(Seq<char>),
    Other(Seq<char>),
}

impl View for MessageContent {
    type V = ContentView;

    open spec fn view(&self) -> ContentView {
        match self {
            MessageContent::Text(s) => ContentView::Text(s@),
            MessageContent::Other(v) => ContentView::Other(json_text(*v)),
        }
    }
}

impl Clone for MessageContent {
    fn clone(&self) -> (r: Self)
        ensures
            r@ == self@,
    {
        match self {
            MessageContent::Text(s) => MessageContent::Text(s.clone()),
            MessageContent::Other(v) => MessageContent::Other(copy_value(v)),
        }
    }
}

/// A tool call of an assistant message: a function call, or any other JSON value.
#[derive(Debug, PartialEq)]
pub enum ToolCall {
    /// A call of type `function`, whose arguments are JSON text.
    Function { id: String, name: String, arguments: String },
    Other(Value),
}

/// What a tool call is.
pub enum ToolCallView {
    Function { id: Seq<char>, name: Seq<char>, arguments: Seq<char> },
    Other(Seq<char>),
}

impl View for ToolCall {
    type V = ToolCallView;

    open spec fn view(&self) -> ToolCallView {
        match self {
            ToolCall::Function { id, name, arguments } => ToolCallView::Function {
                id: id@,
                name: name@,
                arguments: arguments@,
            },
            ToolCall::Other(v) => ToolCallView::Other(json_text(*v)),
        }
    }
}

impl Clone for ToolCall {
    fn clone(&self) -> (r: Self)
        ensures
            r@ == self@,
    {
        match self {
            ToolCall::Function { id, name, arguments } => ToolCall::Function {
                id: id.clone(),
                name: name.clone(),
                arguments: arguments.clone(),
            },
            ToolCall::Other(v) => ToolCall::Other(copy_value(v)),
        }
    }
}

/// One message of a conversation.
#[derive(Debug, PartialEq)]
pub struct ChatMessage {
    pub role: String,
    pub content: Option<MessageContent>,
    pub reasoning_content: Option<String>,
    pub tool_calls: Option<Vec<ToolCall>>,
    pub tool_call_id: Option<String>,
    pub name: Option<String>,
}

/// What a message says.
#[verifier::ext_equal]
pub struct MessageView {
    pub role: Seq<char>,
    pub content: Option<ContentView>,
    pub reasoning_content: Option<Seq<char>>,
    pub tool_calls: Option<Seq<ToolCallView>>,
    pub tool_call_id: Option<Seq<char>>,
    pub name: Option<Seq<char>>,
}

/// The content of a message with the given plain text: none where it is empty.
pub open spec fn content_of(text: Seq<char>) -> Option<ContentView> {
    if text.len() == 0 {
        None
    } else {
        Some(ContentView::Text(text))
    }
}

/// The text of an optional string.
pub open spec fn text_of(s: Option<String>) -> Option<Seq<char>> {
    match s {
        Some(s) => Some(s@),
        None => None,
    }
}

/// What a list of tool calls is.
pub open spec fn calls_view(calls: Seq<ToolCall>) -> Seq<ToolCallView> {
    calls.map_values(|c: ToolCall| c@)
}

impl View for ChatMessage {
    type V = MessageView;

    open spec fn view(&self) -> MessageView {
        MessageView {
            role: self.role@,
            content: match self.content {
                Some(c) => Some(c@),
                None => None,
            },
            reasoning_content: text_of(self.reasoning_content),
            tool_calls: match self.tool_calls {
                Some(calls) => Some(calls_view(calls@)),
                None => None,
            },
            tool_call_id: text_of(self.tool_call_id),
            name: text_of(self.name),
        }
    }
}

impl MessageView {
    /// The plain text of the message; empty where it has none.
    pub open spec fn text(self) -> Seq<char> {
        match self.content {
            Some(ContentView::Text(s)) => s,
            _ => Seq::empty(),
        }
    }
}

/// A message that has only a role and a plain text.
pub open spec fn plain(role: Seq<char>, text: Seq<char>) -> MessageView {
    MessageView {
        role,
        content: Some(ContentView::Text(text)),
        reasoning_content: None,
        tool_calls: None,
        tool_call_id: None,
        name: None,
    }
}

/// What a list of messages says.
pub open spec fn messages_view(messages: Seq<ChatMessage>) -> Seq<MessageView> {
    messages.map_values(|m: ChatMessage| m@)
}

/// A copy of an optional string.
fn copy_text(s: &Option<String>) -> (r: Option<String>)
    ensures
        r == *s,
{
    match s {
        Some(s) => Some(s.clone()),
        None => None,
    }
}

/// A copy of a list of tool calls.
fn copy_calls(calls: &Vec<ToolCall>) -> (r: Vec<ToolCall>)
    ensures
        calls_view(r@) == calls_view(calls@),
{
    let mut r: Vec<ToolCall> = Vec::new();
    let mut i: usize = 0;
    while i < calls.len()
        invariant
            i <= calls@.len(),
            r@.len() == i,
            forall|j: int| 0 <= j < i ==> (#[trigger] r@[j])@ == calls@[j]@,
        decreases calls@.len() - i,
    {
        r.push(calls[i].clone());
        i = i + 1;
    }
    assert(calls_view(r@) =~= calls_view(calls@));
    r
}

/// A copy of a list of messages.
pub fn copy_messages(messages: &Vec<ChatMessage>) -> (r: Vec<ChatMessage>)
    ensures
        messages_view(r@) == messages_view(messages@),
{
    let mut r: Vec<ChatMessage> = Vec::new();
    let mut i: usize = 0;
    while i < messages.len()
        invariant
            i <= messages@.len(),
            r@.len() == i,
            forall|j: int| 0 <= j < i ==> (#[trigger] r@[j])@ == messages@[j]@,
        decreases messages@.len() - i,
    {
        r.push(messages[i].clone());
        i = i + 1;
    }
    assert(messages_view(r@) =~= messages_view(messages@));
    r
}

impl Clone for ChatMessage {
    fn clone(&self) -> (r: Self)
        ensures
            r@ == self@,
    {
        ChatMessage {
            role: self.role.clone(),
            content: match &self.content {
                Some(c) => Some(c.clone()),
                None => None,
            },
            reasoning_content: copy_text(&self.reasoning_content),
            tool_calls: match &self.tool_calls {
                Some(calls) => Some(copy_calls(calls)),
                None => None,
            },
            tool_call_id: copy_text(&self.tool_call_id),
            name: copy_text(&self.name),
        }
    }
}

impl ChatMessage {
    /// A message that has only a role and a plain text.
    pub fn with_text(role: &str, text: String) -> (r: Self)
        ensures
            r@ == plain(role@, text@),
    {
        ChatMessage {
            role: role.to_owned(),
            content: Some(MessageContent::Text(text)),
            reasoning_content: None,
            tool_calls: None,
            tool_call_id: None,
            name: None,
        }
    }

    /// The plain text of the message; empty where it has none.
    pub fn text_content(&self) -> (r: &str)
        ensures
            r@ == self@.text(),
    {
        match &self.content {
            Some(MessageContent::Text(s)) => s.as_str(),
            _ => {
                proof {
                    reveal_strlit("");
                    assert(""@ =~= Seq::empty());
                }
                ""
            },
        }
    }
}

/// A request to Chat Completions. The temperature is held as the bits of its
/// double-precision value.
#[derive(Debug, PartialEq)]
pub struct ChatRequest {
    pub model: String,
    pub messages: Vec<ChatMessage>,
    pub tools: Vec<Value>,
    pub temperature: Option<u64>,
    pub max_tokens: Option<u32>,
    pub stream: bool,
    /// Whether upstream is asked to report usage in the stream.
    pub include_usage: bool,
    /// Whether upstream is told to think.
    pub thinking: bool,
}

/// One answer of a Chat Completions response.
#[derive(Debug, PartialEq)]
pub struct ChatChoice {
    pub message: ChatMessage,
}

/// Details of the tokens of a prompt.
#[derive(Debug, Clone, Copy, PartialEq, Eq)]
pub struct PromptTokensDetails {
    pub cached_tokens: Option<u32>,
}

/// How many tokens a Chat Completions call took.
#[derive(Debug, Clone, Copy, PartialEq, Eq)]
pub struct ChatUsage {
    pub prompt_tokens: u32,
    pub completion_tokens: u32,
    pub total_tokens: u32,
    pub prompt_cache_hit_tokens: Option<u32>,
    pub prompt_cache_miss_tokens: Option<u32>,
    pub prompt_tokens_details: Option<PromptTokensDetails>,
}

/// A response of Chat Completions.
#[derive(Debug, PartialEq)]
pub struct ChatResponse {
    pub choices: Vec<ChatChoice>,
    pub usage: Option<ChatUsage>,
}

/// What a streamed piece adds to a tool call.
#[derive(Debug, PartialEq, Eq)]
pub struct ToolCallDelta {
    pub index: u32,
    pub id: Option<String>,
    pub name: Option<String>,
    pub arguments: Option<String>,
}

/// What a streamed piece adds to a choice.
#[derive(Debug, PartialEq, Eq)]
pub struct ChatStreamChoice {
    pub content: Option<String>,
    /// What was thought.
    pub reasoning_content: Option<String>,
    /// What was thought, by the other name that upstream may use for it.
    pub reasoning: Option<String>,
    pub tool_calls: Vec<ToolCallDelta>,
    /// Whether the choice comes with a finish reason.
    pub finished: bool,
}

/// One piece of a streamed Chat Completions response.
#[derive(Debug, PartialEq)]
pub struct ChatStreamChunk {
    pub choices: Vec<ChatStreamChoice>,
    pub usage: Option<ChatUsage>,
}

// ---------------------------------------------------------------------------
// Responses
// ---------------------------------------------------------------------------

/// A part of a message's content.
#[derive(Debug, PartialEq)]
pub struct ContentPart {
    pub kind: String,
    pub text: Option<String>,
}

/// The content of an input message.
#[derive(Debug, PartialEq)]
pub enum ResponsesContent {
    Text(String),
    Parts(Vec<ContentPart>),
}

/// An input message.
#[derive(Debug, PartialEq)]
pub struct ResponsesMessage {
    pub role: String,
    pub content: ResponsesContent,
}

/// A function that the model may call; `parameters` is the schema of its arguments.
#[derive(Debug, PartialEq)]
pub struct FunctionTool {
    pub name: String,
    pub description: Option<String>,
    pub parameters: Option<Value>,
    pub strict: Option<bool>,
}

/// A tool that a request declares.
#[derive(Debug, PartialEq)]
pub enum Tool {
    Function(FunctionTool),
    /// A tool that takes free text.
    Custom { name: String, description: Option<String> },
    /// A group of functions.
    Namespace { name: String, tools: Vec<FunctionTool> },
    Other(Value),
}

/// An item of a request's input.
#[derive(Debug, PartialEq)]
pub enum InputItem {
    Message(ResponsesMessage),
    /// A call of a function in an earlier turn.
    FunctionCall {
        call_id: String,
        name: String,
        namespace: Option<String>,
        arguments: String,
    },
    /// A call of a custom tool in an earlier turn.
    CustomToolCall { call_id: String, name: String, input: String },
    /// What a call gave.
    ToolOutput { call_id: String, output: String },
    /// Anything else.
    Other,
}

/// The input of a request.
#[derive(Debug, PartialEq)]
pub enum ResponsesInput {
    Text(String),
    Messages(Vec<InputItem>),
}

/// A request to the Responses API. The temperature is held as the bits of its
/// double-precision value.
#[derive(Debug, PartialEq)]
pub struct ResponsesRequest {
    pub model: String,
    pub input: ResponsesInput,
    pub previous_response_id: Option<String>,
    pub system: Option<String>,
    pub tools: Vec<Tool>,
    pub temperature: Option<u64>,
    pub max_output_tokens: Option<u32>,
    pub stream: bool,
}

/// An item of a response's output.
#[derive(Debug, PartialEq)]
pub enum ResponsesOutputItem {
    /// What the model thought.
    Reasoning { id: String, summary: String },
    Message { role: String, content: Vec<ContentPart> },
    FunctionCall {
        id: String,
        call_id: String,
        name: String,
        namespace: Option<String>,
        arguments: String,
    },
    CustomToolCall { id: String, call_id: String, name: String, input: String },
}

/// What a part of a message's content is.
pub struct PartView {
    pub kind: Seq<char>,
    pub text: Option<Seq<char>>,
}

/// What an item of a response's output is.
#[verifier::ext_equal]
pub enum ItemView {
    Reasoning { id: Seq<char>, summary: Seq<char> },
    Message { role: Seq<char>, content: Seq<PartView> },
    FunctionCall {
        id: Seq<char>,
        call_id: Seq<char>,
        name: Seq<char>,
        namespace: Option<Seq<char>>,
        arguments: Seq<char>,
    },
    CustomToolCall { id: Seq<char>, call_id: Seq<char>, name: Seq<char>, input: Seq<char> },
}

impl View for ContentPart {
    type V = PartView;

    open spec fn view(&self) -> PartView {
        PartView { kind: self.kind@, text: text_of(self.text) }
    }
}

/// What the parts of a message's content are.
pub open spec fn parts_view(parts: Seq<ContentPart>) -> Seq<PartView> {
    parts.map_values(|p: ContentPart| p@)
}

impl View for ResponsesOutputItem {
    type V = ItemView;

    open spec fn view(&self) -> ItemView {
        match self {
            ResponsesOutputItem::Reasoning { id, summary } => ItemView::Reasoning {
                id: id@,
                summary: summary@,
            },
            ResponsesOutputItem::Message { role, content } => ItemView::Message {
                role: role@,
                content: parts_view(content@),
            },
            ResponsesOutputItem::FunctionCall { id, call_id, name, namespace, arguments } =>
                ItemView::FunctionCall {
                id: id@,
                call_id: call_id@,
                name: name@,
                namespace: text_of(*namespace),
                arguments: arguments@,
            },
            ResponsesOutputItem::CustomToolCall { id, call_id, name, input } =>
                ItemView::CustomToolCall { id: id@, call_id: call_id@, name: name@, input: input@ },
        }
    }
}

/// What the items of a response's output are.
pub open spec fn items_view(items: Seq<ResponsesOutputItem>) -> Seq<ItemView> {
    items.map_values(|i: ResponsesOutputItem| i@)
}

/// Details of the tokens of an input.
#[derive(Debug, Clone, Copy, PartialEq, Eq)]
pub struct InputTokensDetails {
    pub cached_tokens: u32,
}

/// How many tokens a response took.
#[derive(Debug, Clone, Copy, PartialEq, Eq)]
pub struct ResponsesUsage {
    pub input_tokens: u32,
    pub output_tokens: u32,
    pub total_tokens: u32,
    pub input_tokens_details: InputTokensDetails,
}

/// A response of the Responses API.
#[derive(Debug, PartialEq)]
pub struct ResponsesResponse {
    pub id: String,
    pub object: &'static str,
    pub model: String,
    pub output: Vec<ResponsesOutputItem>,
    pub usage: ResponsesUsage,
}

} // verus!
