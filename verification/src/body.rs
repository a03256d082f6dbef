//! Responses as JSON.

use crate::json::{
    array_value, decimal, empty_object, json_array, json_object, json_string, json_text, json_texts,
    members_of, no_members, number_value, object_value, set_member,
};
use crate::tools::{array_of_one, set_text};
use crate::types::{
    items_view, parts_view, ContentPart, ItemView, PartView, ResponsesOutputItem, ResponsesResponse,
    ResponsesUsage,
};
use serde_json::Value;
use vstd::prelude::*;
use vstd::string::*;

verus! {

/// The members of an object that has only a type.
pub open spec fn only_type(kind: Seq<char>) -> Map<Seq<char>, Seq<char>> {
    no_members().insert("type"@, json_string(kind))
}

/// A part of a message's content as JSON.
pub open spec fn part_json(part: PartView) -> Seq<char> {
    json_object(
        match part.text {
            Some(text) => only_type(part.kind).insert("text"@, json_string(text)),
            None => only_type(part.kind),
        },
    )
}

/// The parts of a message's content as JSON, each by itself.
pub open spec fn parts_json(parts: Seq<PartView>) -> Seq<Seq<char>> {
    parts.map_values(|p: PartView| part_json(p))
}

/// The summary of what was thought as JSON: one part, or none where it is empty.
pub open spec fn summary_json(summary: Seq<char>) -> Seq<char> {
    json_array(
        if summary.len() == 0 {
            Seq::empty()
        } else {
            seq![json_object(only_type("summary_text"@).insert("text"@, json_string(summary)))]
        },
    )
}

/// The members of the JSON for a call of a function. A call of a function of the
/// namespace `collaboration` says that none of its arguments is encrypted.
pub open spec fn function_call_members(
    id: Seq<char>,
    call_id: Seq<char>,
    name: Seq<char>,
    namespace: Option<Seq<char>>,
    arguments: Seq<char>,
) -> Map<Seq<char>, Seq<char>> {
    let call = only_type("function_call"@).insert("id"@, json_string(id)).insert(
        "call_id"@,
        json_string(call_id),
    ).insert("name"@, json_string(name)).insert("arguments"@, json_string(arguments));
    match namespace {
        Some(namespace) => if namespace == "collaboration"@ {
            call.insert("namespace"@, json_string(namespace)).insert(
                "encrypted_function_args"@,
                json_array(Seq::empty()),
            )
        } else {
            call.insert("namespace"@, json_string(namespace))
        },
        None => call,
    }
}

/// An output item as JSON.
pub open spec fn item_json(item: ItemView) -> Seq<char> {
    json_object(
        match item {
            ItemView::Reasoning { id, summary } => only_type("reasoning"@).insert(
                "id"@,
                json_string(id),
            ).insert("summary"@, summary_json(summary)),
            ItemView::Message { role, content } => only_type("message"@).insert(
                "role"@,
                json_string(role),
            ).insert("content"@, json_array(parts_json(content))),
            ItemView::FunctionCall { id, call_id, name, namespace, arguments } =>
                function_call_members(id, call_id, name, namespace, arguments),
            ItemView::CustomToolCall { id, call_id, name, input } => only_type(
                "custom_tool_call"@,
            ).insert("id"@, json_string(id)).insert("call_id"@, json_string(call_id)).insert(
                "name"@,
                json_string(name),
            ).insert("input"@, json_string(input)),
        },
    )
}

/// Output items as JSON, each by itself.
pub open spec fn items_json(items: Seq<ItemView>) -> Seq<Seq<char>> {
    items.map_values(|i: ItemView| item_json(i))
}

/// A usage as JSON.
pub open spec fn usage_json(usage: ResponsesUsage) -> Seq<char> {
    let details = no_members().insert(
        "cached_tokens"@,
        decimal(usage.input_tokens_details.cached_tokens as nat),
    );
    json_object(
        no_members().insert("input_tokens"@, decimal(usage.input_tokens as nat)).insert(
            "output_tokens"@,
            decimal(usage.output_tokens as nat),
        ).insert("total_tokens"@, decimal(usage.total_tokens as nat)).insert(
            "input_tokens_details"@,
            json_object(details),
        ),
    )
}

/// A response as JSON.
pub open spec fn response_json(r: ResponsesResponse) -> Seq<char> {
    json_object(
        no_members().insert("id"@, json_string(r.id@)).insert(
            "object"@,
            json_string(r.object@),
        ).insert("model"@, json_string(r.model@)).insert(
            "output"@,
            json_array(items_json(items_view(r.output@))),
        ).insert("usage"@, usage_json(r.usage)),
    )
}

// ---------------------------------------------------------------------------
// Executable functions
// ---------------------------------------------------------------------------

/// An object with the member `type`.
fn typed(kind: &str) -> (m: serde_json::Map<String, Value>)
    ensures
        members_of(m) == only_type(kind@),
{
    let mut m: serde_json::Map<String, Value> = empty_object();
    set_text(&mut m, "type", kind);
    m
}

fn part_value(part: &ContentPart) -> (v: Value)
    ensures
        json_text(v) == part_json(part@),
{
    let mut m: serde_json::Map<String, Value> = typed(part.kind.as_str());
    match &part.text {
        Some(text) => set_text(&mut m, "text", text.as_str()),
        None => {},
    }
    object_value(m)
}

fn parts_value(parts: &Vec<ContentPart>) -> (v: Value)
    ensures
        json_text(v) == json_array(parts_json(parts_view(parts@))),
{
    let mut values: Vec<Value> = Vec::new();
    let mut i: usize = 0;
    while i < parts.len()
        invariant
            i <= parts@.len(),
            values@.len() == i,
            forall|j: int| 0 <= j < i ==> json_text(#[trigger] values@[j]) == part_json(parts@[j]@),
        decreases parts@.len() - i,
    {
        values.push(part_value(&parts[i]));
        i = i + 1;
    }
    assert(json_texts(values@) =~= parts_json(parts_view(parts@)));
    array_value(values)
}

fn summary_value(summary: &str) -> (v: Value)
    ensures
        json_text(v) == summary_json(summary@),
{
    if summary.is_empty() {
        empty_array()
    } else {
        let mut part: serde_json::Map<String, Value> = typed("summary_text");
        set_text(&mut part, "text", summary);
        array_of_one(object_value(part))
    }
}

fn empty_array() -> (v: Value)
    ensures
        json_text(v) == json_array(Seq::empty()),
{
    let none: Vec<Value> = Vec::new();
    assert(json_texts(none@) =~= Seq::empty());
    array_value(none)
}

/// The JSON for a call of a function.
fn function_call_value(
    id: &str,
    call_id: &str,
    name: &str,
    namespace: &Option<String>,
    arguments: &str,
) -> (v: Value)
    ensures
        json_text(v) == json_object(
            function_call_members(
                id@,
                call_id@,
                name@,
                match *namespace {
                    Some(namespace) => Some(namespace@),
                    None => None,
                },
                arguments@,
            ),
        ),
{
    let mut m: serde_json::Map<String, Value> = typed("function_call");
    set_text(&mut m, "id", id);
    set_text(&mut m, "call_id", call_id);
    set_text(&mut m, "name", name);
    set_text(&mut m, "arguments", arguments);
    match namespace {
        Some(namespace) => {
            set_text(&mut m, "namespace", namespace.as_str());
            if *namespace == "collaboration".to_owned() {
                set_member(&mut m, "encrypted_function_args".to_owned(), empty_array());
            }
        },
        None => {},
    }
    object_value(m)
}

/// The JSON for an output item.
pub(crate) fn item_value(item: &ResponsesOutputItem) -> (v: Value)
    ensures
        json_text(v) == item_json(item@),
{
    match item {
        ResponsesOutputItem::Reasoning { id, summary } => {
            let mut m: serde_json::Map<String, Value> = typed("reasoning");
            set_text(&mut m, "id", id.as_str());
            set_member(&mut m, "summary".to_owned(), summary_value(summary.as_str()));
            object_value(m)
        },
        ResponsesOutputItem::Message { role, content } => {
            let mut m: serde_json::Map<String, Value> = typed("message");
            set_text(&mut m, "role", role.as_str());
            set_member(&mut m, "content".to_owned(), parts_value(content));
            object_value(m)
        },
        ResponsesOutputItem::FunctionCall { id, call_id, name, namespace, arguments } =>
            function_call_value(
            id.as_str(),
            call_id.as_str(),
            name.as_str(),
            namespace,
            arguments.as_str(),
        ),
        ResponsesOutputItem::CustomToolCall { id, call_id, name, input } => {
            let mut m: serde_json::Map<String, Value> = typed("custom_tool_call");
            set_text(&mut m, "id", id.as_str());
            set_text(&mut m, "call_id", call_id.as_str());
            set_text(&mut m, "name", name.as_str());
            set_text(&mut m, "input", input.as_str());
            object_value(m)
        },
    }
}

/// The JSON for the output of a response.
pub(crate) fn output_value(items: &Vec<ResponsesOutputItem>) -> (v: Value)
    ensures
        json_text(v) == json_array(items_json(items_view(items@))),
{
    let mut values: Vec<Value> = Vec::new();
    let mut i: usize = 0;
    while i < items.len()
        invariant
            i <= items@.len(),
            values@.len() == i,
            forall|j: int| 0 <= j < i ==> json_text(#[trigger] values@[j]) == item_json(items@[j]@),
        decreases items@.len() - i,
    {
        values.push(item_value(&items[i]));
        i = i + 1;
    }
    assert(json_texts(values@) =~= items_json(items_view(items@)));
    array_value(values)
}

/// The JSON for a usage.
pub(crate) fn usage_value(usage: &ResponsesUsage) -> (v: Value)
    ensures
        json_text(v) == usage_json(*usage),
{
    let mut details: serde_json::Map<String, Value> = empty_object();
    let cached: u32 = usage.input_tokens_details.cached_tokens;
    set_member(&mut details, "cached_tokens".to_owned(), number_value(cached as u64));
    let mut m: serde_json::Map<String, Value> = empty_object();
    set_member(&mut m, "input_tokens".to_owned(), number_value(usage.input_tokens as u64));
    set_member(&mut m, "output_tokens".to_owned(), number_value(usage.output_tokens as u64));
    set_member(&mut m, "total_tokens".to_owned(), number_value(usage.total_tokens as u64));
    set_member(&mut m, "input_tokens_details".to_owned(), object_value(details));
    object_value(m)
}

/// The JSON for a response.
pub fn response_value(r: &ResponsesResponse) -> (v: Value)
    ensures
        json_text(v) == response_json(*r),
{
    let mut m: serde_json::Map<String, Value> = empty_object();
    set_text(&mut m, "id", r.id.as_str());
    set_text(&mut m, "object", r.object);
    set_text(&mut m, "model", r.model.as_str());
    set_member(&mut m, "output".to_owned(), output_value(&r.output));
    set_member(&mut m, "usage".to_owned(), usage_value(&r.usage));
    object_value(m)
}

} // verus!
