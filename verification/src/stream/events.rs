//! The events of the outgoing stream.

use crate::body::{item_json, item_value, items_json, output_value, usage_json, usage_value};
use crate::json::{
    decimal, empty_object, json_array, json_object, json_string, members_of, no_members,
    number_value, object_value, set_member, value_text,
};
use crate::tools::set_text;
use crate::translate::{report_usage, reported};
use crate::types::{items_view, ChatUsage, ItemView, ResponsesOutputItem, ResponsesUsage};
use serde_json::Value;
use vstd::prelude::*;
use vstd::string::*;

verus! {

/// An event of the outgoing stream: its name, and its data as JSON text.
#[derive(Debug, PartialEq, Eq)]
pub struct SseEvent {
    pub name: &'static str,
    pub data: String,
}

/// What an event says.
pub struct EventView {
    pub name: Seq<char>,
    pub data: Seq<char>,
}

impl View for SseEvent {
    type V = EventView;

    open spec fn view(&self) -> EventView {
        EventView { name: self.name@, data: self.data@ }
    }
}

/// What a list of events says.
pub open spec fn events_view(events: Seq<SseEvent>) -> Seq<EventView> {
    events.map_values(|e: SseEvent| e@)
}

// ---------------------------------------------------------------------------
// Events
// ---------------------------------------------------------------------------

/// The event with the given name, which is also the type in its data.
pub open spec fn event_with(name: Seq<char>, members: Map<Seq<char>, Seq<char>>) -> EventView {
    EventView { name, data: json_object(members.insert("type"@, json_string(name))) }
}

/// The event that announces a response.
pub open spec fn created_event(id: Seq<char>, model: Seq<char>) -> EventView {
    let response = no_members().insert("id"@, json_string(id)).insert(
        "status"@,
        json_string("in_progress"@),
    ).insert("model"@, json_string(model));
    event_with("response.created"@, no_members().insert("response"@, json_object(response)))
}

/// The event for a piece of text.
pub open spec fn delta_event(text: Seq<char>) -> EventView {
    event_with("response.output_text.delta"@, no_members().insert("delta"@, json_string(text)))
}

/// The event for a piece of what is thought, in the item with the given id.
pub open spec fn reasoning_event(item_id: Seq<char>, text: Seq<char>) -> EventView {
    event_with(
        "response.reasoning_summary_text.delta"@,
        no_members().insert("item_id"@, json_string(item_id)).insert(
            "output_index"@,
            decimal(0),
        ).insert("summary_index"@, decimal(0)).insert("delta"@, json_string(text)),
    )
}

/// The event for an output item that begins, or is done.
pub open spec fn item_event(name: Seq<char>, index: nat, item: ItemView) -> EventView {
    event_with(
        name,
        no_members().insert("output_index"@, decimal(index)).insert("item"@, item_json(item)),
    )
}

/// The event for an output item that begins.
pub open spec fn added_event(index: nat, item: ItemView) -> EventView {
    item_event("response.output_item.added"@, index, item)
}

/// The event for an output item that is done.
pub open spec fn done_event(index: nat, item: ItemView) -> EventView {
    item_event("response.output_item.done"@, index, item)
}

/// The event for the text that a call hands to a tool of free text.
pub open spec fn input_event(index: nat, item_id: Seq<char>, input: Seq<char>) -> EventView {
    event_with(
        "response.custom_tool_call_input.delta"@,
        no_members().insert("item_id"@, json_string(item_id)).insert(
            "output_index"@,
            decimal(index),
        ).insert("delta"@, json_string(input)),
    )
}

/// The event for a request that upstream refused with a status.
pub open spec fn refused_event(status: u16, body: Seq<char>) -> EventView {
    event_with(
        "error"@,
        no_members().insert("code"@, decimal(status as nat)).insert("message"@, json_string(body)),
    )
}

/// The event for a request that did not reach upstream.
pub open spec fn unsent_event(message: Seq<char>) -> EventView {
    event_with("error"@, no_members().insert("message"@, json_string(message)))
}

/// The event for a response that is cut off.
pub open spec fn failed_event(id: Seq<char>, model: Seq<char>) -> EventView {
    let error = no_members().insert("code"@, json_string("upstream_stream_truncated"@)).insert(
        "message"@,
        json_string("upstream ended the stream before the response was finished"@),
    );
    let response = no_members().insert("id"@, json_string(id)).insert(
        "status"@,
        json_string("failed"@),
    ).insert("model"@, json_string(model)).insert("error"@, json_object(error));
    event_with("response.failed"@, no_members().insert("response"@, json_object(response)))
}

/// The event that ends a response, with its whole output, and its usage if upstream has
/// reported one.
pub open spec fn completed_event(
    id: Seq<char>,
    model: Seq<char>,
    output: Seq<ItemView>,
    usage: Option<ChatUsage>,
) -> EventView {
    let response = no_members().insert("id"@, json_string(id)).insert(
        "status"@,
        json_string("completed"@),
    ).insert("model"@, json_string(model)).insert("output"@, json_array(items_json(output)));
    let with_usage = match usage {
        Some(usage) => response.insert("usage"@, usage_json(reported(usage))),
        None => response,
    };
    event_with("response.completed"@, no_members().insert("response"@, json_object(with_usage)))
}

/// A call with nothing handed over yet.
pub open spec fn emptied(item: ItemView) -> ItemView {
    match item {
        ItemView::FunctionCall { id, call_id, name, namespace, arguments } =>
            ItemView::FunctionCall { id, call_id, name, namespace, arguments: Seq::empty() },
        ItemView::CustomToolCall { id, call_id, name, input } => ItemView::CustomToolCall {
            id,
            call_id,
            name,
            input: Seq::empty(),
        },
        _ => item,
    }
}

/// The events for the output item at `index` when the response ends. What was thought
/// is done, and so is a message that was announced; a call begins and is done.
pub open spec fn closing(index: nat, item: ItemView, announced: bool) -> Seq<EventView> {
    match item {
        ItemView::Reasoning { .. } => seq![done_event(index, item)],
        ItemView::Message { .. } => if announced {
            seq![done_event(index, item)]
        } else {
            Seq::empty()
        },
        ItemView::FunctionCall { .. } => seq![
            added_event(index, emptied(item)),
            done_event(index, item),
        ],
        ItemView::CustomToolCall { id, input, .. } => seq![
            added_event(index, emptied(item)),
            input_event(index, id, input),
            done_event(index, item),
        ],
    }
}

/// The events for the first `n` output items when the response ends.
pub open spec fn closings(items: Seq<ItemView>, n: int, announced: bool) -> Seq<EventView>
    decreases n,
{
    if n <= 0 {
        Seq::empty()
    } else {
        closings(items, n - 1, announced) + closing((n - 1) as nat, items[n - 1], announced)
    }
}

// ---------------------------------------------------------------------------
// Executable functions
// ---------------------------------------------------------------------------

/// The event of that name, with the object as its data.
fn event(name: &'static str, members: serde_json::Map<String, Value>) -> (r: SseEvent)
    ensures
        r@ == event_with(name@, members_of(members)),
{
    let mut m: serde_json::Map<String, Value> = members;
    set_text(&mut m, "type", name);
    SseEvent { name, data: value_text(&object_value(m)) }
}

/// The event for a response, with the object as that response.
fn response_event(name: &'static str, response: serde_json::Map<String, Value>) -> (r: SseEvent)
    ensures
        r@ == event_with(
            name@,
            no_members().insert("response"@, json_object(members_of(response))),
        ),
{
    let mut m: serde_json::Map<String, Value> = empty_object();
    set_member(&mut m, "response".to_owned(), object_value(response));
    event(name, m)
}

/// The members that say which response it is, and where it stands.
fn status_of(id: &str, status: &str, model: &str) -> (m: serde_json::Map<String, Value>)
    ensures
        members_of(m) == no_members().insert("id"@, json_string(id@)).insert(
            "status"@,
            json_string(status@),
        ).insert("model"@, json_string(model@)),
{
    let mut m: serde_json::Map<String, Value> = empty_object();
    set_text(&mut m, "id", id);
    set_text(&mut m, "status", status);
    set_text(&mut m, "model", model);
    m
}

/// The event that announces a response.
pub(crate) fn created(id: &str, model: &str) -> (r: SseEvent)
    ensures
        r@ == created_event(id@, model@),
{
    response_event("response.created", status_of(id, "in_progress", model))
}

/// The event for a piece of text.
pub(crate) fn text_delta(text: &str) -> (r: SseEvent)
    ensures
        r@ == delta_event(text@),
{
    let mut m: serde_json::Map<String, Value> = empty_object();
    set_text(&mut m, "delta", text);
    event("response.output_text.delta", m)
}

/// The event for a piece of what is thought.
pub(crate) fn reasoning_delta(item_id: &str, text: &str) -> (r: SseEvent)
    ensures
        r@ == reasoning_event(item_id@, text@),
{
    let mut m: serde_json::Map<String, Value> = empty_object();
    set_text(&mut m, "item_id", item_id);
    set_member(&mut m, "output_index".to_owned(), number_value(0));
    set_member(&mut m, "summary_index".to_owned(), number_value(0));
    set_text(&mut m, "delta", text);
    event("response.reasoning_summary_text.delta", m)
}

/// The event for an output item that begins, or is done.
fn item_report(name: &'static str, index: u64, item: &ResponsesOutputItem) -> (r: SseEvent)
    ensures
        r@ == item_event(name@, index as nat, item@),
{
    let mut m: serde_json::Map<String, Value> = empty_object();
    set_member(&mut m, "output_index".to_owned(), number_value(index));
    set_member(&mut m, "item".to_owned(), item_value(item));
    event(name, m)
}

/// The event for an output item that begins.
pub(crate) fn item_added(index: u64, item: &ResponsesOutputItem) -> (r: SseEvent)
    ensures
        r@ == added_event(index as nat, item@),
{
    item_report("response.output_item.added", index, item)
}

/// The event for an output item that is done.
fn item_done(index: u64, item: &ResponsesOutputItem) -> (r: SseEvent)
    ensures
        r@ == done_event(index as nat, item@),
{
    item_report("response.output_item.done", index, item)
}

/// The event for the text that a call hands to a tool of free text.
fn input_delta(index: u64, item_id: &str, input: &str) -> (r: SseEvent)
    ensures
        r@ == input_event(index as nat, item_id@, input@),
{
    let mut m: serde_json::Map<String, Value> = empty_object();
    set_text(&mut m, "item_id", item_id);
    set_member(&mut m, "output_index".to_owned(), number_value(index));
    set_text(&mut m, "delta", input);
    event("response.custom_tool_call_input.delta", m)
}

/// The event for a request that upstream refused with a status.
pub(crate) fn refused(status: u16, body: &str) -> (r: SseEvent)
    ensures
        r@ == refused_event(status, body@),
{
    let mut m: serde_json::Map<String, Value> = empty_object();
    set_member(&mut m, "code".to_owned(), number_value(status as u64));
    set_text(&mut m, "message", body);
    event("error", m)
}

/// The event for a request that did not reach upstream.
pub(crate) fn unsent(message: &str) -> (r: SseEvent)
    ensures
        r@ == unsent_event(message@),
{
    let mut m: serde_json::Map<String, Value> = empty_object();
    set_text(&mut m, "message", message);
    event("error", m)
}

/// The event for a response that is cut off.
pub(crate) fn failed(id: &str, model: &str) -> (r: SseEvent)
    ensures
        r@ == failed_event(id@, model@),
{
    let mut error: serde_json::Map<String, Value> = empty_object();
    set_text(&mut error, "code", "upstream_stream_truncated");
    set_text(
        &mut error,
        "message",
        "upstream ended the stream before the response was finished",
    );
    let mut response: serde_json::Map<String, Value> = status_of(id, "failed", model);
    set_member(&mut response, "error".to_owned(), object_value(error));
    response_event("response.failed", response)
}

/// The event that ends a response, with its whole output.
pub(crate) fn completed(
    id: &str,
    model: &str,
    output: &Vec<ResponsesOutputItem>,
    usage: &Option<ChatUsage>,
) -> (r: SseEvent)
    ensures
        r@ == completed_event(id@, model@, items_view(output@), *usage),
{
    let mut response: serde_json::Map<String, Value> = status_of(id, "completed", model);
    set_member(&mut response, "output".to_owned(), output_value(output));
    match usage {
        Some(usage) => {
            let shown: ResponsesUsage = report_usage(usage);
            set_member(&mut response, "usage".to_owned(), usage_value(&shown));
        },
        None => {},
    }
    response_event("response.completed", response)
}

/// A call with nothing handed over yet.
fn begin_call(item: &ResponsesOutputItem) -> (r: Option<ResponsesOutputItem>)
    ensures
        match r {
            Some(begun) => (item is FunctionCall || item is CustomToolCall) && begun@ == emptied(
                item@,
            ),
            None => item is Reasoning || item is Message,
        },
{
    match item {
        ResponsesOutputItem::FunctionCall { id, call_id, name, namespace, .. } => {
            let nothing: String = String::new();
            assert(nothing@ =~= Seq::empty());
            Some(
                ResponsesOutputItem::FunctionCall {
                    id: id.clone(),
                    call_id: call_id.clone(),
                    name: name.clone(),
                    namespace: match namespace {
                        Some(namespace) => Some(namespace.clone()),
                        None => None,
                    },
                    arguments: nothing,
                },
            )
        },
        ResponsesOutputItem::CustomToolCall { id, call_id, name, .. } => {
            let nothing: String = String::new();
            assert(nothing@ =~= Seq::empty());
            Some(
                ResponsesOutputItem::CustomToolCall {
                    id: id.clone(),
                    call_id: call_id.clone(),
                    name: name.clone(),
                    input: nothing,
                },
            )
        },
        _ => None,
    }
}

/// Adds the events for an output item when the response ends.
fn close_item(events: &mut Vec<SseEvent>, index: u64, item: &ResponsesOutputItem, announced: bool)
    ensures
        events_view(final(events)@) == events_view(old(events)@) + closing(
            index as nat,
            item@,
            announced,
        ),
{
    let ghost before = events_view(events@);
    match begin_call(item) {
        Some(begun) => {
            events.push(item_added(index, &begun));
            if let ResponsesOutputItem::CustomToolCall { id, input, .. } = item {
                events.push(input_delta(index, id.as_str(), input.as_str()));
            }
            events.push(item_done(index, item));
        },
        None => {
            let shown: bool = match item {
                ResponsesOutputItem::Message { .. } => announced,
                _ => true,
            };
            if shown {
                events.push(item_done(index, item));
            }
        },
    }
    assert(events_view(events@) =~= before + closing(index as nat, item@, announced));
}

/// Adds the events for the output items when the response ends.
pub(crate) fn close_items(
    events: &mut Vec<SseEvent>,
    items: &Vec<ResponsesOutputItem>,
    announced: bool,
)
    ensures
        events_view(final(events)@) == events_view(old(events)@) + closings(
            items_view(items@),
            items@.len() as int,
            announced,
        ),
{
    let ghost before = events_view(events@);
    let ghost seen = items_view(items@);
    let mut i: usize = 0;
    assert(before + closings(seen, 0, announced) =~= before);
    while i < items.len()
        invariant
            i <= items@.len(),
            seen == items_view(items@),
            events_view(events@) == before + closings(seen, i as int, announced),
        decreases items@.len() - i,
    {
        let ghost so_far = events_view(events@);
        close_item(events, i as u64, &items[i], announced);
        proof {
            let more = closing(i as nat, seen[i as int], announced);
            assert(events_view(events@) == so_far + more);
            assert(before + closings(seen, i + 1, announced) =~= so_far + more);
        }
        i = i + 1;
    }
}

} // verus!
