//! What a request says to upstream: the prompt, the history and each item of the input.

use crate::json::{json_object, json_string, no_members};
use crate::text::concat;
use crate::tools::field_from;
use crate::translate::{input_messages, item_messages, items_messages, joined, request_messages};
use crate::types::{
    ContentPart, ContentView, InputItem, MessageView, ResponsesContent, ResponsesInput,
    ResponsesMessage, ResponsesRequest, Tool, ToolCallView,
};
use vstd::prelude::*;
use vstd::string::*;

verus! {

// ---------------------------------------------------------------------------
// One item
// ---------------------------------------------------------------------------

/// Whether `m` says `text` in that role, and nothing else.
pub open spec fn only_says(m: MessageView, role: Seq<char>, text: Seq<char>) -> bool {
    &&& m.role == role
    &&& m.content == Some(ContentView::Text(text))
    &&& m.reasoning_content is None
    &&& m.tool_calls is None
    &&& m.tool_call_id is None
    &&& m.name is None
}

/// Whether `m` is a message of the assistant that makes one call, and nothing else.
pub open spec fn only_calls(
    m: MessageView,
    id: Seq<char>,
    name: Seq<char>,
    arguments: Seq<char>,
) -> bool {
    &&& m.role == "assistant"@
    &&& m.content is None
    &&& m.reasoning_content is None
    &&& m.tool_calls matches Some(calls) && calls.len() == 1 && calls[0]
        == (ToolCallView::Function { id, name, arguments })
    &&& m.tool_call_id is None
    &&& m.name is None
}

/// Whether `s` is the text of a part; a part without text has an empty one.
pub open spec fn is_text_of(s: Seq<char>, part: ContentPart) -> bool {
    match part.text {
        Some(text) => s == text@,
        None => s.len() == 0,
    }
}

proof fn lemma_joined(parts: Seq<ContentPart>, said: Seq<Seq<char>>, n: int)
    requires
        0 <= n <= parts.len() == said.len(),
        forall|i: int| 0 <= i < parts.len() ==> is_text_of(#[trigger] said[i], parts[i]),
    ensures
        joined(parts, n) == concat(said.take(n)),
    decreases n,
{
    if n > 0 {
        lemma_joined(parts, said, n - 1);
        assert(said.take(n).drop_last() =~= said.take(n - 1));
        assert(is_text_of(said[n - 1], parts[n - 1]));
        if parts[n - 1].text is None {
            assert(said[n - 1] =~= Seq::empty());
        }
    } else {
        assert(said.take(0) =~= Seq::empty());
    }
}

/// A message of parts says the texts of all its parts that have one, one after the
/// other, whatever the kinds of the parts. It keeps its role.
pub proof fn law_all_parts_are_said(
    m: ResponsesMessage,
    parts: Vec<ContentPart>,
    said: Seq<Seq<char>>,
    tools: Seq<Tool>,
)
    requires
        m.content == ResponsesContent::Parts(parts),
        said.len() == parts@.len(),
        forall|i: int| 0 <= i < parts@.len() ==> is_text_of(#[trigger] said[i], parts@[i]),
    ensures
        item_messages(InputItem::Message(m), tools).len() == 1,
        only_says(item_messages(InputItem::Message(m), tools)[0], m.role@, concat(said)),
{
    lemma_joined(parts@, said, parts@.len() as int);
    assert(said.take(said.len() as int) =~= said);
}

/// A message of one part says the text of the part, whatever its kind.
pub proof fn law_one_part_is_said(
    m: ResponsesMessage,
    parts: Vec<ContentPart>,
    text: String,
    tools: Seq<Tool>,
)
    requires
        m.content == ResponsesContent::Parts(parts),
        parts@.len() == 1,
        parts@[0].text == Some(text),
    ensures
        item_messages(InputItem::Message(m), tools).len() == 1,
        only_says(item_messages(InputItem::Message(m), tools)[0], m.role@, text@),
{
    let said = seq![text@];
    law_all_parts_are_said(m, parts, said, tools);
    reveal_with_fuel(concat, 2);
    assert(said.drop_last() =~= Seq::empty());
    assert(concat(said) =~= text@);
}

/// The kinds of the parts make no difference to what a message says.
pub proof fn law_kinds_make_no_difference(
    a: ResponsesMessage,
    some: Vec<ContentPart>,
    b: ResponsesMessage,
    others: Vec<ContentPart>,
    tools: Seq<Tool>,
)
    requires
        a.role@ == b.role@,
        a.content == ResponsesContent::Parts(some),
        b.content == ResponsesContent::Parts(others),
        some@.len() == others@.len(),
        forall|i: int|
            0 <= i < some@.len() ==> (#[trigger] some@[i]).text == (#[trigger] others@[i]).text,
    ensures
        item_messages(InputItem::Message(a), tools) == item_messages(InputItem::Message(b), tools),
{
    let said = some@.map_values(
        |p: ContentPart|
            match p.text {
                Some(text) => text@,
                None => Seq::empty(),
            },
    );
    lemma_joined(some@, said, some@.len() as int);
    lemma_joined(others@, said, others@.len() as int);
}

/// A message of plain text says that text in its role.
pub proof fn law_plain_text_is_said(m: ResponsesMessage, text: String, tools: Seq<Tool>)
    requires
        m.content == ResponsesContent::Text(text),
    ensures
        item_messages(InputItem::Message(m), tools).len() == 1,
        only_says(item_messages(InputItem::Message(m), tools)[0], m.role@, text@),
{
}

/// A call of an earlier turn is replayed with its id, its name and its arguments. A
/// function of a namespace is called by the name of the namespace, a hyphen and its own.
pub proof fn law_call_is_replayed(
    call_id: String,
    name: String,
    namespace: Option<String>,
    arguments: String,
    tools: Seq<Tool>,
)
    ensures
        ({
            let sent = item_messages(
                InputItem::FunctionCall { call_id, name, namespace, arguments },
                tools,
            );
            &&& sent.len() == 1
            &&& namespace is None ==> only_calls(sent[0], call_id@, name@, arguments@)
            &&& namespace matches Some(group) ==> only_calls(
                sent[0],
                call_id@,
                group@ + "-"@ + name@,
                arguments@,
            )
        }),
{
}

/// A call of a custom tool is replayed with its id and its name, and with its text as
/// the one argument: the one that the declared tool takes it in, or else `patch` for a
/// patch and `input` for anything else.
pub proof fn law_custom_call_is_replayed(
    call_id: String,
    name: String,
    input: String,
    tools: Seq<Tool>,
    field: Seq<char>,
)
    requires
        match field_from(tools, 0, name@) {
            Some(declared) => field == declared,
            None => field == if name@ == "apply_patch"@ {
                "patch"@
            } else {
                "input"@
            },
        },
    ensures
        ({
            let sent = item_messages(InputItem::CustomToolCall { call_id, name, input }, tools);
            &&& sent.len() == 1
            &&& only_calls(
                sent[0],
                call_id@,
                name@,
                json_object(no_members().insert(field, json_string(input@))),
            )
        }),
{
}

/// What a call gave is said in the role of a tool, and names the call.
pub proof fn law_output_answers_its_call(call_id: String, output: String, tools: Seq<Tool>)
    ensures
        ({
            let sent = item_messages(InputItem::ToolOutput { call_id, output }, tools);
            &&& sent.len() == 1
            &&& sent[0].role == "tool"@
            &&& sent[0].content == Some(ContentView::Text(output@))
            &&& sent[0].tool_call_id == Some(call_id@)
            &&& sent[0].reasoning_content is None
            &&& sent[0].tool_calls is None
            &&& sent[0].name is None
        }),
{
}

/// An item of another kind says nothing.
pub proof fn law_other_item_says_nothing(tools: Seq<Tool>)
    ensures
        item_messages(InputItem::Other, tools).len() == 0,
{
}

// ---------------------------------------------------------------------------
// All items, in order
// ---------------------------------------------------------------------------

/// The number of messages that the first `n` items stand for.
pub open spec fn messages_before(items: Seq<InputItem>, n: int) -> int
    decreases n,
{
    if n <= 0 {
        0
    } else if items[n - 1] is Other {
        messages_before(items, n - 1)
    } else {
        messages_before(items, n - 1) + 1
    }
}

proof fn lemma_items(items: Seq<InputItem>, n: int, tools: Seq<Tool>)
    requires
        0 <= n <= items.len(),
    ensures
        0 <= messages_before(items, n),
        items_messages(items, n, tools).len() == messages_before(items, n),
    decreases n,
{
    if n > 0 {
        lemma_items(items, n - 1, tools);
    }
}

proof fn lemma_item_in_place(items: Seq<InputItem>, n: int, k: int, tools: Seq<Tool>)
    requires
        0 <= k < n <= items.len(),
        !(items[k] is Other),
    ensures
        0 <= messages_before(items, k) < messages_before(items, n),
        items_messages(items, n, tools)[messages_before(items, k)] == item_messages(
            items[k],
            tools,
        )[0],
    decreases n,
{
    lemma_items(items, n - 1, tools);
    if k < n - 1 {
        lemma_item_in_place(items, n - 1, k, tools);
    }
}

/// Each item of the input that says something is sent, in its place: behind those before
/// it, which say one message each.
pub proof fn law_every_item_is_sent(items: Vec<InputItem>, k: int, tools: Seq<Tool>)
    requires
        0 <= k < items@.len(),
        !(items@[k] is Other),
    ensures
        ({
            let sent = input_messages(ResponsesInput::Messages(items), tools);
            &&& sent.len() == messages_before(items@, items@.len() as int)
            &&& 0 <= messages_before(items@, k) < sent.len()
            &&& sent[messages_before(items@, k)] == item_messages(items@[k], tools)[0]
        }),
{
    lemma_items(items@, items@.len() as int, tools);
    lemma_item_in_place(items@, items@.len() as int, k, tools);
}

/// Input that consists of items says nothing besides them: with none that say something,
/// it says nothing.
pub proof fn law_input_says_only_its_items(items: Vec<InputItem>, tools: Seq<Tool>)
    ensures
        input_messages(ResponsesInput::Messages(items), tools).len() == messages_before(
            items@,
            items@.len() as int,
        ),
{
    lemma_items(items@, items@.len() as int, tools);
}

/// Input that is plain text is said by the user.
pub proof fn law_text_input_is_said_by_the_user(text: String, tools: Seq<Tool>)
    ensures
        input_messages(ResponsesInput::Text(text), tools).len() == 1,
        only_says(input_messages(ResponsesInput::Text(text), tools)[0], "user"@, text@),
{
}

/// A request sends the whole history, message by message, and behind it all of its
/// input. Before it stands the system prompt, if there is one and the history does not
/// begin with one already.
pub proof fn law_history_and_input_are_sent(req: ResponsesRequest, history: Seq<MessageView>)
    ensures
        ({
            let sent = request_messages(req, history);
            let input = input_messages(req.input, req.tools@);
            let prompted = req.system is Some && (history.len() == 0 || history[0].role
                != "system"@);
            let lead: int = if prompted {
                1
            } else {
                0
            };
            &&& sent.len() == lead + history.len() + input.len()
            &&& prompted ==> only_says(sent[0], "system"@, req.system->0@)
            &&& forall|i: int| 0 <= i < history.len() ==> sent[lead + i] == #[trigger] history[i]
            &&& forall|i: int|
                0 <= i < input.len() ==> sent[lead + history.len() + i] == #[trigger] input[i]
        }),
{
}

} // verus!
