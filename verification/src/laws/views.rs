//! What contracts know of the values that they speak of: nothing of them is left out.

use crate::json::{json_text, json_texts};
use crate::stream::events::{events_view, SseEvent};
use crate::text::texts;
use crate::types::{
    calls_view, items_view, messages_view, parts_view, ChatMessage, ContentPart, ContentView,
    ItemView, MessageContent, MessageView, ResponsesOutputItem, ToolCall, ToolCallView,
};
use serde_json::Value;
use vstd::prelude::*;

verus! {

/// Whether an optional text is what an optional string holds.
pub open spec fn same_text(held: Option<Seq<char>>, s: Option<String>) -> bool {
    match s {
        Some(s) => held == Some(s@),
        None => held is None,
    }
}

/// A message is known by all its fields.
pub proof fn law_message_is_known_in_full(m: ChatMessage)
    ensures
        m@.role == m.role@,
        m.content is None <==> m@.content is None,
        m.content matches Some(MessageContent::Text(s)) ==> m@.content == Some(
            ContentView::Text(s@),
        ),
        m.content matches Some(MessageContent::Other(v)) ==> m@.content == Some(
            ContentView::Other(json_text(v)),
        ),
        same_text(m@.reasoning_content, m.reasoning_content),
        same_text(m@.tool_call_id, m.tool_call_id),
        same_text(m@.name, m.name),
        m.tool_calls is None <==> m@.tool_calls is None,
        m.tool_calls matches Some(calls) ==> m@.tool_calls->0.len() == calls@.len(),
        m.tool_calls matches Some(calls) ==> forall|i: int|
            0 <= i < calls@.len() ==> #[trigger] m@.tool_calls->0[i] == calls@[i]@,
{
}

/// A tool call is known by its id, its name and its arguments, or by its JSON text.
pub proof fn law_tool_call_is_known_in_full(c: ToolCall)
    ensures
        c matches ToolCall::Function { id, name, arguments } ==> c@ == (ToolCallView::Function {
            id: id@,
            name: name@,
            arguments: arguments@,
        }),
        c matches ToolCall::Other(v) ==> c@ == ToolCallView::Other(json_text(v)),
{
}

/// The plain text of a message is that of its content.
pub proof fn law_text_is_that_of_the_content(m: MessageView)
    ensures
        m.content matches Some(ContentView::Text(s)) ==> m.text() == s,
        m.content is None ==> m.text().len() == 0,
        m.content matches Some(ContentView::Other(_)) ==> m.text().len() == 0,
{
}

/// An output item is known by all its fields.
pub proof fn law_item_is_known_in_full(item: ResponsesOutputItem)
    ensures
        item matches ResponsesOutputItem::Reasoning { id, summary } ==> item@
            == (ItemView::Reasoning { id: id@, summary: summary@ }),
        item matches ResponsesOutputItem::Message { role, content } ==> {
            &&& item@ matches ItemView::Message { role: seen, content: parts } && seen == role@
                && parts.len() == content@.len()
            &&& forall|i: int|
                0 <= i < content@.len() ==> {
                    &&& (#[trigger] item@->Message_content[i]).kind == content@[i].kind@
                    &&& same_text(item@->Message_content[i].text, content@[i].text)
                }
        },
        item matches ResponsesOutputItem::FunctionCall { id, call_id, name, namespace, arguments }
            ==> {
            &&& item@ is FunctionCall
            &&& item@->FunctionCall_id == id@
            &&& item@->FunctionCall_call_id == call_id@
            &&& item@->FunctionCall_name == name@
            &&& same_text(item@->namespace, namespace)
            &&& item@->arguments == arguments@
        },
        item matches ResponsesOutputItem::CustomToolCall { id, call_id, name, input } ==> item@
            == (ItemView::CustomToolCall {
            id: id@,
            call_id: call_id@,
            name: name@,
            input: input@,
        }),
{
}

/// A list is known by what each of its values is, in order.
pub proof fn law_lists_are_known_in_full(
    messages: Seq<ChatMessage>,
    calls: Seq<ToolCall>,
    items: Seq<ResponsesOutputItem>,
    parts: Seq<ContentPart>,
    events: Seq<SseEvent>,
    values: Seq<Value>,
    strings: Seq<String>,
    i: int,
)
    ensures
        messages_view(messages).len() == messages.len(),
        0 <= i < messages.len() ==> messages_view(messages)[i] == messages[i]@,
        calls_view(calls).len() == calls.len(),
        0 <= i < calls.len() ==> calls_view(calls)[i] == calls[i]@,
        items_view(items).len() == items.len(),
        0 <= i < items.len() ==> items_view(items)[i] == items[i]@,
        parts_view(parts).len() == parts.len(),
        0 <= i < parts.len() ==> parts_view(parts)[i] == parts[i]@,
        events_view(events).len() == events.len(),
        0 <= i < events.len() ==> events_view(events)[i].name == events[i].name@
            && events_view(events)[i].data == events[i].data@,
        json_texts(values).len() == values.len(),
        0 <= i < values.len() ==> json_texts(values)[i] == json_text(values[i]),
        texts(strings).len() == strings.len(),
        0 <= i < strings.len() ==> texts(strings)[i] == strings[i]@,
{
}

} // verus!
