//! The output items of a response.

use crate::json::is_ordinary;
use crate::tools::{
    field_from, flat_name, free_text_field, held_text, law_flat_name_is_reversible, member_from,
    namespace_from, split_name, text_or, unwrap_text, wrapped,
};
use crate::translate::{calling, item_messages};
use crate::types::{
    calls_view, items_view, parts_view, ChatMessage, ContentPart, FunctionTool, InputItem, ItemView,
    MessageView, PartView, ResponsesOutputItem, Tool, ToolCall, ToolCallView,
};
use vstd::prelude::*;
use vstd::string::*;

verus! {

/// The item for what the model thought.
pub open spec fn reasoning_item(response_id: Seq<char>, summary: Seq<char>) -> ItemView {
    ItemView::Reasoning { id: "rs_"@ + response_id, summary }
}

/// The item for an assistant message.
pub open spec fn message_item(text: Seq<char>) -> ItemView {
    ItemView::Message {
        role: "assistant"@,
        content: seq![PartView { kind: "output_text"@, text: Some(text) }],
    }
}

/// The item for a call of the function that is known as `name`. A call of a tool of
/// free text holds that text; a call of a function of a namespace names both.
pub open spec fn call_item(
    tools: Seq<Tool>,
    id: Seq<char>,
    name: Seq<char>,
    arguments: Seq<char>,
) -> ItemView {
    match field_from(tools, 0, name) {
        Some(field) => ItemView::CustomToolCall {
            id: "ctc_"@ + id,
            call_id: id,
            name,
            input: text_or(arguments, held_text(arguments, field)),
        },
        None => match namespace_from(tools, 0, name) {
            Some((namespace, own)) => ItemView::FunctionCall {
                id: "fc_"@ + id,
                call_id: id,
                name: own,
                namespace: Some(namespace),
                arguments,
            },
            None => ItemView::FunctionCall {
                id: "fc_"@ + id,
                call_id: id,
                name,
                namespace: None,
                arguments,
            },
        },
    }
}

/// The items for the first `n` tool calls.
pub open spec fn call_items(tools: Seq<Tool>, calls: Seq<ToolCallView>, n: int) -> Seq<ItemView>
    decreases n,
{
    if n <= 0 {
        Seq::empty()
    } else {
        match calls[n - 1] {
            ToolCallView::Function { id, name, arguments } => call_items(tools, calls, n - 1).push(
                call_item(tools, id, name, arguments),
            ),
            ToolCallView::Other(_) => call_items(tools, calls, n - 1),
        }
    }
}

/// The tool calls of a message.
pub open spec fn calls_in(m: MessageView) -> Seq<ToolCallView> {
    match m.tool_calls {
        Some(calls) => calls,
        None => Seq::empty(),
    }
}

/// What a message says was thought.
pub open spec fn thought_in(m: MessageView) -> Seq<char> {
    match m.reasoning_content {
        Some(reasoning) => reasoning,
        None => Seq::empty(),
    }
}

/// The output items for an assistant message: what was thought, if anything; the
/// text, unless it is empty and there are calls; and the calls.
pub open spec fn output_items(response_id: Seq<char>, tools: Seq<Tool>, m: MessageView) -> Seq<
    ItemView,
> {
    let reasoning = if thought_in(m).len() > 0 {
        seq![reasoning_item(response_id, thought_in(m))]
    } else {
        Seq::empty()
    };
    let message = if m.text().len() > 0 || calls_in(m).len() == 0 {
        seq![message_item(m.text())]
    } else {
        Seq::empty()
    };
    reasoning + message + call_items(tools, calls_in(m), calls_in(m).len() as int)
}

/// `prefix` and `s`, joined.
pub(crate) fn prefixed(prefix: &str, s: &str) -> (r: String)
    ensures
        r@ == prefix@ + s@,
{
    let mut r: String = prefix.to_owned();
    r.append(s);
    r
}

/// The item for what the model thought.
pub(crate) fn reasoning_output(response_id: &str, summary: String) -> (r: ResponsesOutputItem)
    ensures
        r@ == reasoning_item(response_id@, summary@),
{
    ResponsesOutputItem::Reasoning { id: prefixed("rs_", response_id), summary }
}

/// The item for an assistant message.
pub(crate) fn message_output(text: String) -> (r: ResponsesOutputItem)
    ensures
        r@ == message_item(text@),
{
    let mut content: Vec<ContentPart> = Vec::new();
    content.push(ContentPart { kind: "output_text".to_owned(), text: Some(text) });
    assert(parts_view(content@) =~= seq![PartView { kind: "output_text"@, text: Some(text@) }]);
    ResponsesOutputItem::Message { role: "assistant".to_owned(), content }
}

/// The item for a call of the function that is known as `name`. Where the arguments of a
/// tool of free text were made to hold a text, the item holds that text.
pub fn call_output(tools: &Vec<Tool>, id: &str, name: &str, arguments: &str) -> (r:
    ResponsesOutputItem)
    ensures
        r@ == call_item(tools@, id@, name@, arguments@),
        forall|field: Seq<char>, input: Seq<char>|
            field_from(tools@, 0, name@) == Some(field) && is_ordinary(field) && arguments@
                == #[trigger] wrapped(field, input) ==> r@ == (ItemView::CustomToolCall {
                id: "ctc_"@ + id@,
                call_id: id@,
                name: name@,
                input,
            }),
{
    match free_text_field(tools, name) {
        Some(field) => ResponsesOutputItem::CustomToolCall {
            id: prefixed("ctc_", id),
            call_id: id.to_owned(),
            name: name.to_owned(),
            input: unwrap_text(arguments, field.as_str()),
        },
        None => match split_name(tools, name) {
            Some((namespace, own)) => ResponsesOutputItem::FunctionCall {
                id: prefixed("fc_", id),
                call_id: id.to_owned(),
                name: own,
                namespace: Some(namespace),
                arguments: arguments.to_owned(),
            },
            None => ResponsesOutputItem::FunctionCall {
                id: prefixed("fc_", id),
                call_id: id.to_owned(),
                name: name.to_owned(),
                namespace: None,
                arguments: arguments.to_owned(),
            },
        },
    }
}

/// Adds the items for tool calls.
pub(crate) fn push_call_outputs(
    items: &mut Vec<ResponsesOutputItem>,
    tools: &Vec<Tool>,
    calls: &Vec<ToolCall>,
)
    ensures
        items_view(final(items)@) == items_view(old(items)@) + call_items(
            tools@,
            calls_view(calls@),
            calls@.len() as int,
        ),
{
    let ghost seen = calls_view(calls@);
    let ghost before = items_view(items@);
    let mut i: usize = 0;
    assert(before + call_items(tools@, seen, 0) =~= before);
    while i < calls.len()
        invariant
            i <= calls@.len(),
            seen == calls_view(calls@),
            items_view(items@) == before + call_items(tools@, seen, i as int),
        decreases calls@.len() - i,
    {
        let ghost so_far = items_view(items@);
        match &calls[i] {
            ToolCall::Function { id, name, arguments } => {
                let item: ResponsesOutputItem = call_output(
                    tools,
                    id.as_str(),
                    name.as_str(),
                    arguments.as_str(),
                );
                let ghost added = item@;
                items.push(item);
                proof {
                    assert(items_view(items@) =~= so_far.push(added));
                    assert(seen[i as int] == (ToolCallView::Function {
                        id: id@,
                        name: name@,
                        arguments: arguments@,
                    }));
                    assert(before + call_items(tools@, seen, i + 1) =~= so_far.push(added));
                }
            },
            ToolCall::Other(_) => {
                assert(seen[i as int] is Other);
            },
        }
        i = i + 1;
    }
}

/// The output items for an assistant message.
pub fn outputs(response_id: &str, tools: &Vec<Tool>, message: &ChatMessage) -> (r: Vec<
    ResponsesOutputItem,
>)
    ensures
        items_view(r@) == output_items(response_id@, tools@, message@),
{
    let mut items: Vec<ResponsesOutputItem> = Vec::new();
    let ghost m = message@;
    assert(items_view(items@) =~= Seq::empty());
    match &message.reasoning_content {
        Some(reasoning) => {
            if !reasoning.as_str().is_empty() {
                items.push(reasoning_output(response_id, reasoning.clone()));
            }
        },
        None => {},
    }
    let ghost reasoning = if thought_in(m).len() > 0 {
        seq![reasoning_item(response_id@, thought_in(m))]
    } else {
        Seq::empty()
    };
    assert(items_view(items@) =~= reasoning);
    let text: &str = message.text_content();
    let calls: bool = match &message.tool_calls {
        Some(calls) => calls.len() > 0,
        None => false,
    };
    if !text.is_empty() || !calls {
        items.push(message_output(text.to_owned()));
    }
    let ghost said = if m.text().len() > 0 || calls_in(m).len() == 0 {
        seq![message_item(m.text())]
    } else {
        Seq::empty()
    };
    assert(items_view(items@) =~= reasoning + said);
    match &message.tool_calls {
        Some(calls) => push_call_outputs(&mut items, tools, calls),
        None => {
            assert(reasoning + said + call_items(tools@, calls_in(m), 0) =~= reasoning + said);
        },
    }
    items
}

// ---------------------------------------------------------------------------
// Laws
// ---------------------------------------------------------------------------

/// The namespace and the name that are found for a function make up the name by which
/// it is known.
proof fn lemma_found_names_join(tools: Seq<Tool>, i: int, flat: Seq<char>)
    requires
        0 <= i,
    ensures
        match namespace_from(tools, i, flat) {
            Some((namespace, own)) => flat_name(namespace, own) == flat,
            None => true,
        },
    decreases tools.len() - i,
{
    if i < tools.len() {
        if let Tool::Namespace { name, tools: functions } = tools[i] {
            lemma_found_member_joins(name@, functions@, 0, flat);
        }
        lemma_found_names_join(tools, i + 1, flat);
    }
}

proof fn lemma_found_member_joins(
    namespace: Seq<char>,
    functions: Seq<FunctionTool>,
    k: int,
    flat: Seq<char>,
)
    requires
        0 <= k,
    ensures
        match member_from(namespace, functions, k, flat) {
            Some(own) => flat_name(namespace, own) == flat,
            None => true,
        },
    decreases functions.len() - k,
{
    if k < functions.len() {
        lemma_found_member_joins(namespace, functions, k + 1, flat);
    }
}

/// A call of a function that is sent back as it was shown is known to upstream by the
/// name by which it was called, with the same arguments.
pub proof fn law_shown_call_is_replayed(
    tools: Seq<Tool>,
    id: Seq<char>,
    flat: Seq<char>,
    arguments: Seq<char>,
    shown: ResponsesOutputItem,
    sent_back: InputItem,
)
    requires
        shown@ == call_item(tools, id, flat, arguments),
        shown matches ResponsesOutputItem::FunctionCall {
            call_id,
            name,
            namespace,
            arguments,
            ..
        } && sent_back == (InputItem::FunctionCall { call_id, name, namespace, arguments }),
    ensures
        item_messages(sent_back, tools) == seq![calling(id, flat, arguments)],
{
    lemma_found_names_join(tools, 0, flat);
    let m = item_messages(sent_back, tools)[0];
    assert(m == calling(id, flat, arguments));
}

/// A call of a function of a namespace is shown with the namespace and the function's
/// own name, if no other tool is known by the same name.
pub proof fn law_call_shows_namespace(
    tools: Seq<Tool>,
    i: int,
    k: int,
    id: Seq<char>,
    arguments: Seq<char>,
)
    requires
        0 <= i < tools.len(),
        tools[i] is Namespace,
        0 <= k < tools[i]->Namespace_tools@.len(),
        field_from(
            tools,
            0,
            flat_name(tools[i]->Namespace_name@, tools[i]->Namespace_tools@[k].name@),
        ) is None,
        forall|j: int|
            0 <= j < i && (#[trigger] tools[j]) is Namespace ==> member_from(
                tools[j]->Namespace_name@,
                tools[j]->Namespace_tools@,
                0,
                flat_name(tools[i]->Namespace_name@, tools[i]->Namespace_tools@[k].name@),
            ) is None,
    ensures
        ({
            let namespace = tools[i]->Namespace_name@;
            let name = tools[i]->Namespace_tools@[k].name@;
            call_item(tools, id, flat_name(namespace, name), arguments)
                == (ItemView::FunctionCall {
                id: "fc_"@ + id,
                call_id: id,
                name,
                namespace: Some(namespace),
                arguments,
            })
        }),
{
    law_flat_name_is_reversible(tools, i, k);
}

proof fn lemma_no_namespace(tools: Seq<Tool>, i: int, flat: Seq<char>)
    requires
        0 <= i,
        forall|j: int| 0 <= j < tools.len() ==> !((#[trigger] tools[j]) is Namespace),
    ensures
        namespace_from(tools, i, flat) is None,
    decreases tools.len() - i,
{
    if i < tools.len() {
        assert(!(tools[i] is Namespace));
        lemma_no_namespace(tools, i + 1, flat);
    }
}

/// Where no namespace is declared, no name is taken apart, hyphens or not.
pub proof fn law_flat_call_keeps_its_name(
    tools: Seq<Tool>,
    id: Seq<char>,
    name: Seq<char>,
    arguments: Seq<char>,
)
    requires
        forall|j: int| 0 <= j < tools.len() ==> !((#[trigger] tools[j]) is Namespace),
        field_from(tools, 0, name) is None,
    ensures
        call_item(tools, id, name, arguments) == (ItemView::FunctionCall {
            id: "fc_"@ + id,
            call_id: id,
            name,
            namespace: None,
            arguments,
        }),
{
    lemma_no_namespace(tools, 0, name);
}

} // verus!
