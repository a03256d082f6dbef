//! Translation between the Responses API and Chat Completions.

use crate::dsml;
use crate::dsml::heal::{calls_healed, heals_to};
use crate::json::json_texts;
use crate::output::{call_items, calls_in, message_item, output_items, outputs};
use crate::quirks::Quirks;
use crate::think;
use crate::think::heal::{heals, think_healed};
use crate::tools::{
    chat_tools, convert_tools, custom_field, field_from, flat_name, free_text_field, join_name,
    wrap_text, wrapped,
};
use crate::types::{
    calls_view, items_view, messages_view, plain, text_of, ChatChoice, ChatMessage, ChatRequest,
    ChatResponse, ChatUsage, ContentPart, InputItem, InputTokensDetails, ItemView, MessageView,
    ResponsesContent, ResponsesInput, ResponsesRequest, ResponsesResponse, ResponsesUsage, Tool,
    ToolCall, ToolCallView,
};
use vstd::prelude::*;
use vstd::string::*;

verus! {

// ---------------------------------------------------------------------------
// Requests
// ---------------------------------------------------------------------------

/// The texts of the first `n` parts, one after the other; a part without text
/// adds nothing.
pub open spec fn joined(parts: Seq<ContentPart>, n: int) -> Seq<char>
    decreases n,
{
    if n <= 0 {
        Seq::empty()
    } else {
        joined(parts, n - 1) + match parts[n - 1].text {
            Some(text) => text@,
            None => Seq::empty(),
        }
    }
}

/// The text of an input message's content.
pub open spec fn content_text(content: ResponsesContent) -> Seq<char> {
    match content {
        ResponsesContent::Text(s) => s@,
        ResponsesContent::Parts(parts) => joined(parts@, parts@.len() as int),
    }
}

/// An assistant message that holds nothing but one call.
pub open spec fn calling(id: Seq<char>, name: Seq<char>, arguments: Seq<char>) -> MessageView {
    MessageView {
        role: "assistant"@,
        content: None,
        reasoning_content: None,
        tool_calls: Some(seq![ToolCallView::Function { id, name, arguments }]),
        tool_call_id: None,
        name: None,
    }
}

/// The message with what a call gave.
pub open spec fn tool_result(id: Seq<char>, output: Seq<char>) -> MessageView {
    MessageView { tool_call_id: Some(id), ..plain("tool"@, output) }
}

/// The parameter that holds the text of the custom tool `name`, given the declared
/// tools.
pub open spec fn replay_field(tools: Seq<Tool>, name: Seq<char>) -> Seq<char> {
    match field_from(tools, 0, name) {
        Some(field) => field,
        None => custom_field(name),
    }
}

/// The messages that an item of the input adds to a conversation. Earlier calls are
/// replayed in the form in which Chat Completions knows them.
pub open spec fn item_messages(item: InputItem, tools: Seq<Tool>) -> Seq<MessageView> {
    match item {
        InputItem::Message(m) => seq![plain(m.role@, content_text(m.content))],
        InputItem::FunctionCall { call_id, name, namespace, arguments } => seq![
            calling(
                call_id@,
                match namespace {
                    Some(namespace) => flat_name(namespace@, name@),
                    None => name@,
                },
                arguments@,
            ),
        ],
        InputItem::CustomToolCall { call_id, name, input } => seq![
            calling(call_id@, name@, wrapped(replay_field(tools, name@), input@)),
        ],
        InputItem::ToolOutput { call_id, output } => seq![tool_result(call_id@, output@)],
        InputItem::Other => Seq::empty(),
    }
}

/// The messages that the first `n` items of the input add to a conversation.
pub open spec fn items_messages(items: Seq<InputItem>, n: int, tools: Seq<Tool>) -> Seq<MessageView>
    decreases n,
{
    if n <= 0 {
        Seq::empty()
    } else {
        items_messages(items, n - 1, tools) + item_messages(items[n - 1], tools)
    }
}

/// The messages that an input adds to a conversation.
pub open spec fn input_messages(input: ResponsesInput, tools: Seq<Tool>) -> Seq<MessageView> {
    match input {
        ResponsesInput::Text(text) => seq![plain("user"@, text@)],
        ResponsesInput::Messages(items) => items_messages(items@, items@.len() as int, tools),
    }
}

/// A history, led by the system prompt if there is one and the history does not
/// begin with one already.
pub open spec fn with_system(system: Option<Seq<char>>, history: Seq<MessageView>) -> Seq<
    MessageView,
> {
    match system {
        Some(prompt) if history.len() == 0 || history[0].role != "system"@ => seq![
            plain("system"@, prompt),
        ] + history,
        _ => history,
    }
}

/// The messages of the Chat Completions request for `req`, given the history of
/// the conversation.
pub open spec fn request_messages(req: ResponsesRequest, history: Seq<MessageView>) -> Seq<
    MessageView,
> {
    with_system(text_of(req.system), history) + input_messages(req.input, req.tools@)
}

/// Converts a Responses API request and prior history into a Chat Completions
/// request.
pub fn to_chat_request(req: &ResponsesRequest, history: Vec<ChatMessage>) -> (r: ChatRequest)
    ensures
        r.model@ == req.model@,
        messages_view(r.messages@) == request_messages(*req, messages_view(history@)),
        json_texts(r.tools@) == chat_tools(req.tools@, req.tools@.len() as int),
        r.temperature == req.temperature,
        r.max_tokens == req.max_output_tokens,
        r.stream == req.stream,
        r.include_usage == req.stream,
        !r.thinking,
{
    let ghost before = messages_view(history@);
    let mut messages: Vec<ChatMessage> = history;
    match &req.system {
        Some(system) => {
            if messages.len() == 0 || messages[0].role != "system".to_owned() {
                messages.insert(0, ChatMessage::with_text("system", system.clone()));
            }
        },
        None => {},
    }
    let ghost led = with_system(text_of(req.system), before);
    assert(messages_view(messages@) =~= led);
    match &req.input {
        ResponsesInput::Text(text) => {
            messages.push(ChatMessage::with_text("user", text.clone()));
            assert(messages_view(messages@) =~= led + input_messages(req.input, req.tools@));
        },
        ResponsesInput::Messages(items) => {
            let mut i: usize = 0;
            assert(led + items_messages(items@, 0, req.tools@) =~= led);
            while i < items.len()
                invariant
                    i <= items@.len(),
                    messages_view(messages@) == led + items_messages(
                        items@,
                        i as int,
                        req.tools@,
                    ),
                decreases items@.len() - i,
            {
                let ghost so_far = messages_view(messages@);
                match message_for(&items[i], &req.tools) {
                    Some(message) => {
                        messages.push(message);
                        assert(messages_view(messages@) =~= so_far + seq![message@]);
                    },
                    None => {
                        assert(so_far + Seq::<MessageView>::empty() =~= so_far);
                    },
                }
                proof {
                    let added = item_messages(items@[i as int], req.tools@);
                    assert(messages_view(messages@) == so_far + added);
                    assert(led + items_messages(items@, i + 1, req.tools@) =~= so_far + added);
                }
                i = i + 1;
            }
        },
    }
    ChatRequest {
        model: req.model.clone(),
        messages,
        tools: convert_tools(&req.tools),
        temperature: req.temperature,
        max_tokens: req.max_output_tokens,
        stream: req.stream,
        include_usage: req.stream,
        thinking: false,
    }
}

/// The message that an item of the input adds to a conversation, if it adds one.
fn message_for(item: &InputItem, tools: &Vec<Tool>) -> (r: Option<ChatMessage>)
    ensures
        item_messages(*item, tools@) == match r {
            Some(message) => seq![message@],
            None => Seq::<MessageView>::empty(),
        },
{
    match item {
        InputItem::Message(m) => Some(
            ChatMessage::with_text(m.role.as_str(), content_to_string(&m.content)),
        ),
        InputItem::FunctionCall { call_id, name, namespace, arguments } => {
            let known: String = match namespace {
                Some(namespace) => join_name(namespace.as_str(), name.as_str()),
                None => name.clone(),
            };
            Some(call_message(call_id.clone(), known, arguments.clone()))
        },
        InputItem::CustomToolCall { call_id, name, input } => {
            let arguments: String = match free_text_field(tools, name.as_str()) {
                Some(field) => wrap_text(field.as_str(), input.as_str()),
                None => if name.clone() == "apply_patch".to_owned() {
                    wrap_text("patch", input.as_str())
                } else {
                    wrap_text("input", input.as_str())
                },
            };
            Some(call_message(call_id.clone(), name.clone(), arguments))
        },
        InputItem::ToolOutput { call_id, output } => {
            let mut message: ChatMessage = ChatMessage::with_text("tool", output.clone());
            message.tool_call_id = Some(call_id.clone());
            Some(message)
        },
        InputItem::Other => None,
    }
}

/// An assistant message that holds nothing but one call.
fn call_message(id: String, name: String, arguments: String) -> (r: ChatMessage)
    ensures
        r@ == calling(id@, name@, arguments@),
{
    let mut calls: Vec<ToolCall> = Vec::new();
    calls.push(ToolCall::Function { id, name, arguments });
    assert(calls_view(calls@) =~= seq![
        ToolCallView::Function { id: id@, name: name@, arguments: arguments@ },
    ]);
    ChatMessage {
        role: "assistant".to_owned(),
        content: None,
        reasoning_content: None,
        tool_calls: Some(calls),
        tool_call_id: None,
        name: None,
    }
}

/// The text of an input message's content.
fn content_to_string(content: &ResponsesContent) -> (r: String)
    ensures
        r@ == content_text(*content),
{
    match content {
        ResponsesContent::Text(s) => s.clone(),
        ResponsesContent::Parts(parts) => {
            let mut r: String = String::new();
            let mut i: usize = 0;
            while i < parts.len()
                invariant
                    i <= parts@.len(),
                    r@ == joined(parts@, i as int),
                decreases parts@.len() - i,
            {
                match &parts[i].text {
                    Some(text) => {
                        r.append(text.as_str());
                    },
                    None => {
                        assert(r@ + Seq::<char>::empty() =~= r@);
                    },
                }
                i = i + 1;
            }
            r
        },
    }
}

// ---------------------------------------------------------------------------
// Responses
// ---------------------------------------------------------------------------

/// The message that a Chat Completions response answers with: that of its first
/// choice, or an empty one.
pub open spec fn answer(chat: ChatResponse) -> MessageView {
    if chat.choices@.len() > 0 {
        chat.choices@[0].message@
    } else {
        plain("assistant"@, Seq::empty())
    }
}

/// The number of tokens of the prompt that upstream had cached.
pub open spec fn cached_tokens(usage: ChatUsage) -> u32 {
    match (usage.prompt_cache_hit_tokens, usage.prompt_tokens_details) {
        (Some(n), _) => n,
        (None, Some(details)) => match details.cached_tokens {
            Some(n) => n,
            None => 0,
        },
        (None, None) => 0,
    }
}

/// A usage that upstream reports.
pub open spec fn reported(usage: ChatUsage) -> ResponsesUsage {
    ResponsesUsage {
        input_tokens: usage.prompt_tokens,
        output_tokens: usage.completion_tokens,
        total_tokens: usage.total_tokens,
        input_tokens_details: InputTokensDetails { cached_tokens: cached_tokens(usage) },
    }
}

/// The usage that upstream reports; zero where it reports none.
pub open spec fn usage_of(usage: Option<ChatUsage>) -> ResponsesUsage {
    match usage {
        Some(usage) => reported(usage),
        None => ResponsesUsage {
            input_tokens: 0,
            output_tokens: 0,
            total_tokens: 0,
            input_tokens_details: InputTokensDetails { cached_tokens: 0 },
        },
    }
}

/// A usage that upstream reports.
pub fn report_usage(usage: &ChatUsage) -> (r: ResponsesUsage)
    ensures
        r == reported(*usage),
{
    ResponsesUsage {
        input_tokens: usage.prompt_tokens,
        output_tokens: usage.completion_tokens,
        total_tokens: usage.total_tokens,
        input_tokens_details: InputTokensDetails {
            cached_tokens: match (usage.prompt_cache_hit_tokens, usage.prompt_tokens_details) {
                (Some(n), _) => n,
                (None, Some(details)) => match details.cached_tokens {
                    Some(n) => n,
                    None => 0,
                },
                (None, None) => 0,
            },
        },
    }
}

/// The usage that upstream reports; zero where it reports none.
pub fn convert_usage(usage: Option<ChatUsage>) -> (r: ResponsesUsage)
    ensures
        r == usage_of(usage),
{
    match usage {
        Some(usage) => report_usage(&usage),
        None => ResponsesUsage {
            input_tokens: 0,
            output_tokens: 0,
            total_tokens: 0,
            input_tokens_details: InputTokensDetails { cached_tokens: 0 },
        },
    }
}

/// Whether `after` is what the enabled quirks make of the message `before`: think
/// markup is split off first, so that nothing in the reasoning is taken for a call;
/// then leaked calls are healed.
pub open spec fn repaired(before: MessageView, quirks: Quirks, after: MessageView) -> bool {
    let split = if quirks.think_tags {
        think_healed(before)
    } else {
        before
    };
    if quirks.dsml_heal {
        heals_to(split, after)
    } else {
        after == split
    }
}

/// Which quirks had to repair a response, so that a caller can log it.
#[derive(Debug, Clone, Copy, PartialEq, Eq)]
pub struct Repairs {
    /// Whether think markup was split off.
    pub think_tags: bool,
    /// How many leaked calls were healed.
    pub dsml_heal: usize,
    /// Whether a stream that ended without `[DONE]` was taken for complete.
    pub missing_done: bool,
}

/// What the enabled quirks have to repair in the message `m`.
pub open spec fn repairs_of(m: MessageView, quirks: Quirks, r: Repairs) -> bool {
    let split = if quirks.think_tags {
        think_healed(m)
    } else {
        m
    };
    &&& r.think_tags == (quirks.think_tags && heals(m.text()))
    &&& r.dsml_heal == if quirks.dsml_heal {
        calls_healed(split.text())
    } else {
        0
    }
    &&& !r.missing_done
}

/// Repairs a message with the enabled quirks, and says what was repaired.
pub fn repair(message: &mut ChatMessage, quirks: Quirks) -> (r: Repairs)
    ensures
        repaired(old(message)@, quirks, final(message)@),
        repairs_of(old(message)@, quirks, r),
{
    let think_tags: bool = if quirks.think_tags {
        think::heal::heal_chat_message(message)
    } else {
        false
    };
    let dsml_heal: usize = if quirks.dsml_heal {
        dsml::heal::heal_chat_message(message)
    } else {
        0
    };
    Repairs { think_tags, dsml_heal, missing_done: false }
}

/// Whether `r` is the response called `id` of `model` with the given output.
pub open spec fn is_response(
    r: ResponsesResponse,
    id: Seq<char>,
    model: Seq<char>,
    output: Seq<ItemView>,
    usage: ResponsesUsage,
) -> bool {
    &&& r.id@ == id
    &&& r.object@ == "response"@
    &&& r.model@ == model
    &&& items_view(r.output@) == output
    &&& r.usage == usage
}

/// The response called `id` whose output is that of `message`.
pub fn response_for(
    id: String,
    model: &str,
    message: &ChatMessage,
    usage: Option<ChatUsage>,
    tools: &Vec<Tool>,
) -> (r: ResponsesResponse)
    ensures
        is_response(
            r,
            id@,
            model@,
            output_items(id@, tools@, message@),
            usage_of(usage),
        ),
{
    let output = outputs(id.as_str(), tools, message);
    ResponsesResponse {
        id,
        object: "response",
        model: model.to_owned(),
        output,
        usage: convert_usage(usage),
    }
}

/// Whether `r` is what a Chat Completions response is converted to: a response, and
/// the message that answers with it, repaired by the enabled quirks.
pub open spec fn is_conversion(
    r: (ResponsesResponse, Vec<ChatMessage>),
    id: Seq<char>,
    model: Seq<char>,
    chat: ChatResponse,
    tools: Seq<Tool>,
    quirks: Quirks,
) -> bool {
    &&& r.1@.len() == 1
    &&& repaired(answer(chat), quirks, r.1@[0]@)
    &&& is_response(r.0, id, model, output_items(id, tools, r.1@[0]@), usage_of(chat.usage))
}

/// Converts a Chat Completions response into a Responses API response, and gives
/// the message that answers with it. The message is repaired by the enabled quirks,
/// and its calls are named as the declared tools are.
pub fn from_chat_response_with_tools(
    id: String,
    model: &str,
    chat: ChatResponse,
    tools: &Vec<Tool>,
    quirks: Quirks,
) -> (r: (ResponsesResponse, Vec<ChatMessage>))
    ensures
        is_conversion(r, id@, model@, chat, tools@, quirks),
{
    let mut choices: Vec<ChatChoice> = chat.choices;
    let mut message: ChatMessage = if choices.len() > 0 {
        let first: ChatChoice = choices.remove(0);
        first.message
    } else {
        ChatMessage::with_text("assistant", String::new())
    };
    assert(message@ == answer(chat));
    repair(&mut message, quirks);
    let response: ResponsesResponse = response_for(id, model, &message, chat.usage, tools);
    let mut messages: Vec<ChatMessage> = Vec::new();
    messages.push(message);
    (response, messages)
}

/// Converts a Chat Completions response into a Responses API response, and gives
/// the message that answers with it: with no declared tools, and nothing repaired.
pub fn from_chat_response(id: String, model: &str, chat: ChatResponse) -> (r: (
    ResponsesResponse,
    Vec<ChatMessage>,
))
    ensures
        is_response(
            r.0,
            id@,
            model@,
            output_items(id@, Seq::empty(), answer(chat)),
            usage_of(chat.usage),
        ),
        messages_view(r.1@) == seq![answer(chat)],
{
    let none: Vec<Tool> = Vec::new();
    let off: Quirks = Quirks {
        glm_thinking: false,
        dsml_heal: false,
        missing_done: false,
        think_tags: false,
    };
    let r = from_chat_response_with_tools(id, model, chat, &none, off);
    proof {
        assert(none@ =~= Seq::<Tool>::empty());
        assert(messages_view(r.1@) =~= seq![answer(chat)]);
    }
    r
}

// ---------------------------------------------------------------------------
// Laws
// ---------------------------------------------------------------------------

/// A message that only says something comes out as one message item.
pub proof fn law_plain_answer_is_one_message(
    id: Seq<char>,
    tools: Seq<Tool>,
    role: Seq<char>,
    text: Seq<char>,
)
    ensures
        output_items(id, tools, plain(role, text)) == seq![message_item(text)],
{
    let m = plain(role, text);
    assert(call_items(tools, calls_in(m), 0) =~= Seq::empty());
    assert(output_items(id, tools, m) =~= seq![message_item(text)]);
}

/// The system prompt is injected once: a history that it leads is left as it is.
pub proof fn law_system_prompt_is_injected_once(
    system: Option<Seq<char>>,
    history: Seq<MessageView>,
)
    ensures
        with_system(system, with_system(system, history)) == with_system(system, history),
{
}

} // verus!
