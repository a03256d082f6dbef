//! What clients read: responses, output items and events as JSON, member by member.

use crate::body::{item_json, items_json, parts_json, response_json, usage_json};
use crate::json::{decimal, json_array, json_object, json_string, no_members};
use crate::stream::events::{
    added_event, closings, completed_event, created_event, delta_event, done_event, failed_event,
    input_event, reasoning_event, refused_event, unsent_event,
};
use crate::translate::reported;
use crate::types::{items_view, ChatUsage, ItemView, PartView, ResponsesResponse, ResponsesUsage};
use vstd::prelude::*;
use vstd::string::*;

verus! {

// ---------------------------------------------------------------------------
// Output items
// ---------------------------------------------------------------------------

/// What was thought is written with its id, and as a summary of one part, or of none
/// where nothing was thought.
pub proof fn law_reasoning_is_written(id: Seq<char>, summary: Seq<char>)
    ensures
        item_json(ItemView::Reasoning { id, summary }) == json_object(
            map![
                "type"@ => json_string("reasoning"@),
                "id"@ => json_string(id),
                "summary"@ => json_array(
                    if summary.len() == 0 {
                        Seq::empty()
                    } else {
                        seq![
                            json_object(
                                map![
                                    "type"@ => json_string("summary_text"@),
                                    "text"@ => json_string(summary),
                                ],
                            ),
                        ]
                    },
                ),
            ],
        ),
{
    lemma_names();
    assert(no_members().insert("type"@, json_string("summary_text"@)).insert(
        "text"@,
        json_string(summary),
    ) =~= map!["type"@ => json_string("summary_text"@), "text"@ => json_string(summary)]);
}

/// The names of members differ.
proof fn lemma_names()
    ensures
        "type"@ != "text"@,
{
    reveal_strlit("type");
    reveal_strlit("text");
    assert("type"@[1] == 'y' && "text"@[1] == 'e');
}

/// Each part of a message is written, in order, with its kind, and with its text if it
/// has one.
pub proof fn law_parts_are_written(parts: Seq<PartView>, i: int)
    requires
        0 <= i < parts.len(),
    ensures
        parts_json(parts).len() == parts.len(),
        parts[i].text matches Some(text) ==> parts_json(parts)[i] == json_object(
            map!["type"@ => json_string(parts[i].kind), "text"@ => json_string(text)],
        ),
        parts[i].text is None ==> parts_json(parts)[i] == json_object(
            map!["type"@ => json_string(parts[i].kind)],
        ),
{
    lemma_names();
}

/// A message is written with its role and its parts.
pub proof fn law_message_is_written(role: Seq<char>, content: Seq<PartView>)
    ensures
        item_json(ItemView::Message { role, content }) == json_object(
            map![
                "type"@ => json_string("message"@),
                "role"@ => json_string(role),
                "content"@ => json_array(parts_json(content)),
            ],
        ),
{
}

/// A call of a function is written with its ids, its name and its arguments, and with
/// its namespace if it has one. A call of a function of the namespace `collaboration`
/// says that none of its arguments is encrypted.
pub proof fn law_function_call_is_written(
    id: Seq<char>,
    call_id: Seq<char>,
    name: Seq<char>,
    namespace: Option<Seq<char>>,
    arguments: Seq<char>,
)
    ensures
        ({
            let call = map![
                "type"@ => json_string("function_call"@),
                "id"@ => json_string(id),
                "call_id"@ => json_string(call_id),
                "name"@ => json_string(name),
                "arguments"@ => json_string(arguments),
            ];
            let text = item_json(
                ItemView::FunctionCall { id, call_id, name, namespace, arguments },
            );
            &&& namespace is None ==> text == json_object(call)
            &&& namespace matches Some(group) ==> text == json_object(
                if group == "collaboration"@ {
                    call.insert("namespace"@, json_string(group)).insert(
                        "encrypted_function_args"@,
                        json_array(Seq::empty()),
                    )
                } else {
                    call.insert("namespace"@, json_string(group))
                },
            )
        }),
{
}

/// A call of a custom tool is written with its ids, its name and its text.
pub proof fn law_custom_call_is_written(
    id: Seq<char>,
    call_id: Seq<char>,
    name: Seq<char>,
    input: Seq<char>,
)
    ensures
        item_json(ItemView::CustomToolCall { id, call_id, name, input }) == json_object(
            map![
                "type"@ => json_string("custom_tool_call"@),
                "id"@ => json_string(id),
                "call_id"@ => json_string(call_id),
                "name"@ => json_string(name),
                "input"@ => json_string(input),
            ],
        ),
{
}

/// All output items are written, in order.
pub proof fn law_all_items_are_written(items: Seq<ItemView>, i: int)
    requires
        0 <= i < items.len(),
    ensures
        items_json(items).len() == items.len(),
        items_json(items)[i] == item_json(items[i]),
{
}

/// A usage is written with each of its counts.
pub proof fn law_usage_is_written(usage: ResponsesUsage)
    ensures
        usage_json(usage) == json_object(
            map![
                "input_tokens"@ => decimal(usage.input_tokens as nat),
                "output_tokens"@ => decimal(usage.output_tokens as nat),
                "total_tokens"@ => decimal(usage.total_tokens as nat),
                "input_tokens_details"@ => json_object(
                    map![
                        "cached_tokens"@ => decimal(
                            usage.input_tokens_details.cached_tokens as nat,
                        ),
                    ],
                ),
            ],
        ),
{
}

/// A response is written with its id, its model, its output and its usage.
pub proof fn law_response_is_written(r: ResponsesResponse)
    ensures
        response_json(r) == json_object(
            map![
                "id"@ => json_string(r.id@),
                "object"@ => json_string(r.object@),
                "model"@ => json_string(r.model@),
                "output"@ => json_array(items_json(items_view(r.output@))),
                "usage"@ => usage_json(r.usage),
            ],
        ),
{
}

// ---------------------------------------------------------------------------
// Events
// ---------------------------------------------------------------------------

/// A response is announced with its id and its model.
pub proof fn law_response_is_announced(id: Seq<char>, model: Seq<char>)
    ensures
        created_event(id, model).name == "response.created"@,
        created_event(id, model).data == json_object(
            map![
                "response"@ => json_object(
                    map![
                        "id"@ => json_string(id),
                        "status"@ => json_string("in_progress"@),
                        "model"@ => json_string(model),
                    ],
                ),
                "type"@ => json_string("response.created"@),
            ],
        ),
{
}

/// A piece of text is sent as it is.
pub proof fn law_text_is_sent_as_it_is(text: Seq<char>)
    ensures
        delta_event(text).name == "response.output_text.delta"@,
        delta_event(text).data == json_object(
            map![
                "delta"@ => json_string(text),
                "type"@ => json_string("response.output_text.delta"@),
            ],
        ),
{
}

/// A piece of what is thought is sent as it is, for the item that it belongs to.
pub proof fn law_thought_is_sent_as_it_is(item_id: Seq<char>, text: Seq<char>)
    ensures
        reasoning_event(item_id, text).name == "response.reasoning_summary_text.delta"@,
        reasoning_event(item_id, text).data == json_object(
            map![
                "item_id"@ => json_string(item_id),
                "output_index"@ => decimal(0),
                "summary_index"@ => decimal(0),
                "delta"@ => json_string(text),
                "type"@ => json_string("response.reasoning_summary_text.delta"@),
            ],
        ),
{
}

/// An item that begins, or is done, is sent with its place in the output.
pub proof fn law_item_is_sent_with_its_place(index: nat, item: ItemView)
    ensures
        added_event(index, item).name == "response.output_item.added"@,
        added_event(index, item).data == json_object(
            map![
                "output_index"@ => decimal(index),
                "item"@ => item_json(item),
                "type"@ => json_string("response.output_item.added"@),
            ],
        ),
        done_event(index, item).name == "response.output_item.done"@,
        done_event(index, item).data == json_object(
            map![
                "output_index"@ => decimal(index),
                "item"@ => item_json(item),
                "type"@ => json_string("response.output_item.done"@),
            ],
        ),
{
}

/// The text for a custom tool is sent as it is, for the item that it belongs to.
pub proof fn law_tool_text_is_sent_as_it_is(index: nat, item_id: Seq<char>, input: Seq<char>)
    ensures
        input_event(index, item_id, input).name == "response.custom_tool_call_input.delta"@,
        input_event(index, item_id, input).data == json_object(
            map![
                "item_id"@ => json_string(item_id),
                "output_index"@ => decimal(index),
                "delta"@ => json_string(input),
                "type"@ => json_string("response.custom_tool_call_input.delta"@),
            ],
        ),
{
}

/// What upstream refuses is passed on with its status and its words, what does not reach
/// it with the words alone.
pub proof fn law_refusal_is_sent(status: u16, body: Seq<char>)
    ensures
        refused_event(status, body).name == "error"@,
        refused_event(status, body).data == json_object(
            map![
                "code"@ => decimal(status as nat),
                "message"@ => json_string(body),
                "type"@ => json_string("error"@),
            ],
        ),
        unsent_event(body).name == "error"@,
        unsent_event(body).data == json_object(
            map!["message"@ => json_string(body), "type"@ => json_string("error"@)],
        ),
{
}

/// A response that is cut off is said to have failed, under its id.
pub proof fn law_failure_is_sent(id: Seq<char>, model: Seq<char>)
    ensures
        failed_event(id, model).name == "response.failed"@,
        exists|response: Map<Seq<char>, Seq<char>>|
            {
                &&& failed_event(id, model).data == json_object(
                    map![
                        "response"@ => #[trigger] json_object(response),
                        "type"@ => json_string("response.failed"@),
                    ],
                )
                &&& response.contains_key("id"@) && response["id"@] == json_string(id)
                &&& response.contains_key("model"@) && response["model"@] == json_string(model)
                &&& response.contains_key("status"@) && response["status"@] == json_string(
                    "failed"@,
                )
            },
{
    reveal_strlit("id");
    reveal_strlit("status");
    reveal_strlit("model");
    reveal_strlit("error");
    assert("id"@.len() == 2 && "status"@.len() == 6);
    assert("model"@[0] == 'm' && "error"@[0] == 'e');
    let error = no_members().insert("code"@, json_string("upstream_stream_truncated"@)).insert(
        "message"@,
        json_string("upstream ended the stream before the response was finished"@),
    );
    let response = no_members().insert("id"@, json_string(id)).insert(
        "status"@,
        json_string("failed"@),
    ).insert("model"@, json_string(model)).insert("error"@, json_object(error));
    assert(no_members().insert("response"@, json_object(response)).insert(
        "type"@,
        json_string("response.failed"@),
    ) =~= map![
        "response"@ => json_object(response),
        "type"@ => json_string("response.failed"@),
    ]);
}

/// A complete response is sent with its id, its model and its whole output, and with its
/// usage if upstream has reported one.
pub proof fn law_completion_is_sent(
    id: Seq<char>,
    model: Seq<char>,
    output: Seq<ItemView>,
    usage: Option<ChatUsage>,
)
    ensures
        completed_event(id, model, output, usage).name == "response.completed"@,
        ({
            let response = map![
                "id"@ => json_string(id),
                "status"@ => json_string("completed"@),
                "model"@ => json_string(model),
                "output"@ => json_array(items_json(output)),
            ];
            completed_event(id, model, output, usage).data == json_object(
                map![
                    "response"@ => json_object(
                        match usage {
                            Some(usage) => response.insert("usage"@, usage_json(reported(usage))),
                            None => response,
                        },
                    ),
                    "type"@ => json_string("response.completed"@),
                ],
            )
        }),
{
}

// ---------------------------------------------------------------------------
// The events at the end of a response
// ---------------------------------------------------------------------------

proof fn lemma_closings_grow(items: Seq<ItemView>, i: int, n: int, announced: bool)
    requires
        0 <= i <= n <= items.len(),
    ensures
        closings(items, i, announced).len() <= closings(items, n, announced).len(),
        closings(items, n, announced).take(closings(items, i, announced).len() as int) == closings(
            items,
            i,
            announced,
        ),
    decreases n - i,
{
    let first = closings(items, i, announced);
    if i < n {
        lemma_closings_grow(items, i, n - 1, announced);
        let before = closings(items, n - 1, announced);
        assert(closings(items, n, announced).take(first.len() as int) =~= before.take(
            first.len() as int,
        ));
    } else {
        assert(first.take(first.len() as int) =~= first);
    }
}

/// Each call of a function begins and is done, in its place: the events for it stand
/// behind those for the items before it. It begins without its arguments, and is done
/// with them.
pub proof fn law_each_call_begins_and_is_done(
    items: Seq<ItemView>,
    i: int,
    announced: bool,
    id: Seq<char>,
    call_id: Seq<char>,
    name: Seq<char>,
    namespace: Option<Seq<char>>,
    arguments: Seq<char>,
)
    requires
        0 <= i < items.len(),
        items[i] == (ItemView::FunctionCall { id, call_id, name, namespace, arguments }),
    ensures
        ({
            let all = closings(items, items.len() as int, announced);
            let at = closings(items, i, announced).len() as int;
            &&& closings(items, i + 1, announced).len() == at + 2 <= all.len()
            &&& all[at] == added_event(
                i as nat,
                ItemView::FunctionCall { id, call_id, name, namespace, arguments: Seq::empty() },
            )
            &&& all[at + 1] == done_event(i as nat, items[i])
        }),
{
    let all = closings(items, items.len() as int, announced);
    let some = closings(items, i + 1, announced);
    let at = closings(items, i, announced).len() as int;
    lemma_closings_grow(items, i + 1, items.len() as int, announced);
    assert(all[at] == all.take(some.len() as int)[at]);
    assert(all[at + 1] == all.take(some.len() as int)[at + 1]);
}

/// Each call of a custom tool begins, gets its text and is done, in its place.
pub proof fn law_each_custom_call_begins_and_is_done(
    items: Seq<ItemView>,
    i: int,
    announced: bool,
    id: Seq<char>,
    call_id: Seq<char>,
    name: Seq<char>,
    input: Seq<char>,
)
    requires
        0 <= i < items.len(),
        items[i] == (ItemView::CustomToolCall { id, call_id, name, input }),
    ensures
        ({
            let all = closings(items, items.len() as int, announced);
            let at = closings(items, i, announced).len() as int;
            &&& closings(items, i + 1, announced).len() == at + 3 <= all.len()
            &&& all[at] == added_event(
                i as nat,
                ItemView::CustomToolCall { id, call_id, name, input: Seq::empty() },
            )
            &&& all[at + 1] == input_event(i as nat, id, input)
            &&& all[at + 2] == done_event(i as nat, items[i])
        }),
{
    let all = closings(items, items.len() as int, announced);
    let some = closings(items, i + 1, announced);
    let at = closings(items, i, announced).len() as int;
    lemma_closings_grow(items, i + 1, items.len() as int, announced);
    assert(all[at] == all.take(some.len() as int)[at]);
    assert(all[at + 1] == all.take(some.len() as int)[at + 1]);
    assert(all[at + 2] == all.take(some.len() as int)[at + 2]);
}

/// What was thought is done when the response ends, and so is a message that was
/// announced; a message that was not is not mentioned.
pub proof fn law_reasoning_and_message_are_done(items: Seq<ItemView>, i: int, announced: bool)
    requires
        0 <= i < items.len(),
        items[i] is Reasoning || items[i] is Message,
    ensures
        ({
            let all = closings(items, items.len() as int, announced);
            let at = closings(items, i, announced).len() as int;
            let next = closings(items, i + 1, announced).len();
            if items[i] is Reasoning || announced {
                next == at + 1 <= all.len() && all[at] == done_event(i as nat, items[i])
            } else {
                next == at
            }
        }),
{
    let all = closings(items, items.len() as int, announced);
    let some = closings(items, i + 1, announced);
    let at = closings(items, i, announced).len() as int;
    lemma_closings_grow(items, i + 1, items.len() as int, announced);
    if items[i] is Reasoning || announced {
        assert(all[at] == all.take(some.len() as int)[at]);
    }
}

} // verus!
