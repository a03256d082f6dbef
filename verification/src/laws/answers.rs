//! What becomes of an answer of upstream: what is shown of it, and what is stored.

use super::offered::{
    is_known_as, law_first_function_of_a_name_counts, law_name_is_taken_apart_as_declared,
    law_other_calls_hold_no_text, takes_text,
};
use crate::dsml::heal::law_message_without_marker_stays;
use crate::dsml::stream::markers;
use crate::ids::is_id;
use crate::json::{member_of, parsed_text, string_in};
use crate::output::{call_item, call_items, calls_in, output_items, thought_in};
use crate::quirks::Quirks;
use crate::relay::{passes_on, settled, Outcome, Reply};
use crate::session::SessionStore;
use crate::stream::turns::{is_turn, shows};
use crate::tags::first_tag;
use crate::think::filter::all_tags;
use crate::think::laws::law_message_without_tags_stays;
use crate::tools::field_from;
use crate::translate::{answer, repaired, reported, usage_of};
use crate::types::{
    items_view, ChatResponse, ChatUsage, ContentView, MessageView, Tool, ToolCallView,
};
use vstd::prelude::*;
use vstd::string::*;

verus! {

// ---------------------------------------------------------------------------
// What is shown of a message
// ---------------------------------------------------------------------------

/// Whether `m` has that reasoning, and those calls; none where they are empty.
pub open spec fn holds(m: MessageView, reasoning: Seq<char>, calls: Seq<ToolCallView>) -> bool {
    &&& match m.reasoning_content {
        Some(s) => reasoning == s,
        None => reasoning.len() == 0,
    }
    &&& match m.tool_calls {
        Some(present) => calls == present,
        None => calls.len() == 0,
    }
}

proof fn lemma_calls_shown(tools: Seq<Tool>, calls: Seq<ToolCallView>, n: int)
    requires
        0 <= n <= calls.len(),
        forall|i: int| 0 <= i < calls.len() ==> (#[trigger] calls[i]) is Function,
    ensures
        call_items(tools, calls, n).len() == n,
        forall|i: int|
            0 <= i < n ==> call_items(tools, calls, n)[i] == call_item(
                tools,
                (#[trigger] calls[i])->id,
                calls[i]->name,
                calls[i]->arguments,
            ),
    decreases n,
{
    if n > 0 {
        lemma_calls_shown(tools, calls, n - 1);
        assert(calls[n - 1] is Function);
    }
}

/// A message is shown in full: what was thought, if anything; its text, unless that is
/// empty and there are calls; and each of its calls, in order.
pub proof fn law_message_is_shown_in_full(
    id: Seq<char>,
    tools: Seq<Tool>,
    m: MessageView,
    text: Seq<char>,
    reasoning: Seq<char>,
    calls: Seq<ToolCallView>,
)
    requires
        m.text() == text,
        holds(m, reasoning, calls),
        forall|i: int| 0 <= i < calls.len() ==> (#[trigger] calls[i]) is Function,
    ensures
        shows(output_items(id, tools, m), id, tools, text, reasoning, calls),
{
    assert(calls_in(m) =~= calls);
    assert(thought_in(m) =~= reasoning);
    lemma_calls_shown(tools, calls, calls.len() as int);
}

/// A tool call that is no function call is not shown, and changes nothing about the
/// others.
pub proof fn law_other_call_is_not_shown(
    tools: Seq<Tool>,
    calls: Seq<ToolCallView>,
    other: Seq<char>,
    n: int,
)
    requires
        0 <= n == calls.len(),
    ensures
        call_items(tools, calls.push(ToolCallView::Other(other)), n + 1) == call_items(
            tools,
            calls,
            n,
        ),
{
    let more = calls.push(ToolCallView::Other(other));
    lemma_same_calls(tools, calls, more, n);
}

proof fn lemma_same_calls(tools: Seq<Tool>, a: Seq<ToolCallView>, b: Seq<ToolCallView>, n: int)
    requires
        0 <= n <= a.len() <= b.len(),
        forall|i: int| 0 <= i < n ==> (#[trigger] a[i]) == b[i],
    ensures
        call_items(tools, a, n) == call_items(tools, b, n),
    decreases n,
{
    if n > 0 {
        assert(a[n - 1] == b[n - 1]);
        lemma_same_calls(tools, a, b, n - 1);
    }
}

/// A call of a tool of free text is shown as such: with its id, its name, and the text
/// that its arguments hold in the parameter for it, or else the arguments themselves.
pub proof fn law_call_with_text_shows_the_text(
    tools: Seq<Tool>,
    id: Seq<char>,
    name: Seq<char>,
    arguments: Seq<char>,
    field: Seq<char>,
)
    requires
        field_from(tools, 0, name) == Some(field),
    ensures
        ({
            let item = call_item(tools, id, name, arguments);
            &&& item is CustomToolCall
            &&& item->CustomToolCall_id == "ctc_"@ + id
            &&& item->CustomToolCall_call_id == id
            &&& item->CustomToolCall_name == name
            &&& parsed_text(arguments) is None ==> item->input == arguments
            &&& parsed_text(arguments) matches Some(value) ==> match member_of(value, field) {
                Some(member) => match string_in(member) {
                    Some(text) => item->input == text,
                    None => item->input == arguments,
                },
                None => item->input == arguments,
            }
        }),
{
}

/// A call of a function of a namespace is shown with its id, the names of the namespace
/// and of the function, and its arguments.
pub proof fn law_call_in_namespace_shows_both_names(
    tools: Seq<Tool>,
    id: Seq<char>,
    flat: Seq<char>,
    arguments: Seq<char>,
    i: int,
    k: int,
)
    requires
        forall|j: int| 0 <= j < tools.len() ==> !takes_text(#[trigger] tools[j], flat),
        is_known_as(tools, i, k, flat),
        forall|j: int, l: int| j < i ==> !#[trigger] is_known_as(tools, j, l, flat),
    ensures
        ({
            let item = call_item(tools, id, flat, arguments);
            &&& item is FunctionCall
            &&& item->FunctionCall_id == "fc_"@ + id
            &&& item->FunctionCall_call_id == id
            &&& item->FunctionCall_name == tools[i]->Namespace_tools@[k].name@
            &&& item->namespace == Some(tools[i]->Namespace_name@)
            &&& item->arguments == arguments
        }),
{
    law_other_calls_hold_no_text(tools, flat);
    law_first_function_of_a_name_counts(tools, i, k, flat);
}

/// Any other call is shown with its id, its name as it is, and its arguments.
pub proof fn law_other_call_keeps_its_name(
    tools: Seq<Tool>,
    id: Seq<char>,
    name: Seq<char>,
    arguments: Seq<char>,
)
    requires
        forall|j: int| 0 <= j < tools.len() ==> !takes_text(#[trigger] tools[j], name),
        forall|i: int, k: int| !#[trigger] is_known_as(tools, i, k, name),
    ensures
        ({
            let item = call_item(tools, id, name, arguments);
            &&& item is FunctionCall
            &&& item->FunctionCall_id == "fc_"@ + id
            &&& item->FunctionCall_call_id == id
            &&& item->FunctionCall_name == name
            &&& item->namespace is None
            &&& item->arguments == arguments
        }),
{
    law_other_calls_hold_no_text(tools, name);
    law_name_is_taken_apart_as_declared(tools, 0, name);
}

// ---------------------------------------------------------------------------
// Usage
// ---------------------------------------------------------------------------

/// The tokens that upstream reports are passed on as they are. Cached ones are those of
/// the prompt that hit the cache, or else those that the details give.
pub proof fn law_usage_is_passed_on(usage: ChatUsage)
    ensures
        ({
            let r = usage_of(Some(usage));
            &&& r == reported(usage)
            &&& r.input_tokens == usage.prompt_tokens
            &&& r.output_tokens == usage.completion_tokens
            &&& r.total_tokens == usage.total_tokens
            &&& usage.prompt_cache_hit_tokens matches Some(n)
                ==> r.input_tokens_details.cached_tokens == n
            &&& usage.prompt_cache_hit_tokens is None ==> match usage.prompt_tokens_details {
                Some(details) => match details.cached_tokens {
                    Some(n) => r.input_tokens_details.cached_tokens == n,
                    None => r.input_tokens_details.cached_tokens == 0,
                },
                None => r.input_tokens_details.cached_tokens == 0,
            }
        }),
{
}

/// Where upstream reports no usage, all counts are zero.
pub proof fn law_no_usage_is_zero()
    ensures
        usage_of(None).input_tokens == 0,
        usage_of(None).output_tokens == 0,
        usage_of(None).total_tokens == 0,
        usage_of(None).input_tokens_details.cached_tokens == 0,
{
}

// ---------------------------------------------------------------------------
// Answers
// ---------------------------------------------------------------------------

/// Upstream answers with the message of its first choice. Where it gives none, the
/// answer is an empty message of the assistant.
pub proof fn law_first_choice_answers(chat: ChatResponse)
    ensures
        chat.choices@.len() > 0 ==> answer(chat) == chat.choices@[0].message@,
        chat.choices@.len() == 0 ==> {
            let m = answer(chat);
            &&& m.role == "assistant"@
            &&& m.content matches Some(ContentView::Text(s)) && s.len() == 0
            &&& m.reasoning_content is None && m.tool_calls is None
            &&& m.tool_call_id is None && m.name is None
        },
{
}

/// A message without markup is not changed by any quirk.
pub proof fn law_healthy_message_is_not_repaired(
    before: MessageView,
    quirks: Quirks,
    after: MessageView,
)
    requires
        repaired(before, quirks, after),
        first_tag(before.text(), all_tags()) is None,
        first_tag(before.text(), markers()) is None,
    ensures
        after == before,
{
    law_message_without_tags_stays(before);
    if quirks.dsml_heal {
        law_message_without_marker_stays(before, after);
    }
}

/// Where neither quirk is enabled, no message is changed.
pub proof fn law_disabled_quirks_repair_nothing(
    before: MessageView,
    quirks: Quirks,
    after: MessageView,
)
    requires
        repaired(before, quirks, after),
        !quirks.think_tags,
        !quirks.dsml_heal,
    ensures
        after == before,
{
}

/// An answer of text without markup is passed on and stored as it is, whatever quirks
/// are enabled. The response shows its text, its reasoning and its calls, and what
/// upstream says it took. The turn is stored under the id of the response: what was sent
/// upstream, and behind it the message of upstream. No other turn changes.
pub proof fn law_healthy_answer_is_passed_on(
    before: SessionStore,
    after: SessionStore,
    asked: Seq<MessageView>,
    model: Seq<char>,
    tools: Seq<Tool>,
    quirks: Quirks,
    chat: ChatResponse,
    r: Reply,
    text: Seq<char>,
    reasoning: Seq<char>,
    calls: Seq<ToolCallView>,
)
    requires
        settled(before, after, asked, model, tools, quirks, Outcome::Answered(chat), r),
        chat.choices@.len() > 0,
        ({
            let m = chat.choices@[0].message@;
            &&& m.text() == text
            &&& holds(m, reasoning, calls)
        }),
        forall|i: int| 0 <= i < calls.len() ==> (#[trigger] calls[i]) is Function,
        first_tag(text, all_tags()) is None,
        first_tag(text, markers()) is None,
    ensures
        r is Response,
        ({
            let response = r->Response_0;
            let id = response.id@;
            &&& is_id(id, "resp_"@)
            &&& response.object@ == "response"@
            &&& response.model@ == model
            &&& shows(items_view(response.output@), id, tools, text, reasoning, calls)
            &&& chat.usage matches Some(usage) ==> response.usage == reported(usage)
            &&& chat.usage is None ==> response.usage == usage_of(None)
            &&& after@.contains_key(id)
            &&& is_turn(after@[id], asked, chat.choices@[0].message@)
            &&& forall|other: Seq<char>|
                other != id ==> {
                    &&& (#[trigger] after@.contains_key(other)) == before@.contains_key(other)
                    &&& before@.contains_key(other) ==> after@[other] == before@[other]
                }
        }),
{
    let m = chat.choices@[0].message@;
    let response = r->Response_0;
    let answered = choose|answered: MessageView|
        #[trigger] passes_on(before, after, asked, model, tools, quirks, chat, response, answered);
    law_healthy_message_is_not_repaired(m, quirks, answered);
    law_message_is_shown_in_full(response.id@, tools, m, text, reasoning, calls);
}

/// Whatever upstream answers, the message that is stored is what the response shows, and
/// it stands behind what was sent upstream.
pub proof fn law_stored_answer_is_the_shown_one(
    before: SessionStore,
    after: SessionStore,
    asked: Seq<MessageView>,
    model: Seq<char>,
    tools: Seq<Tool>,
    quirks: Quirks,
    chat: ChatResponse,
    r: Reply,
)
    requires
        settled(before, after, asked, model, tools, quirks, Outcome::Answered(chat), r),
    ensures
        r is Response,
        ({
            let response = r->Response_0;
            let id = response.id@;
            &&& after@.contains_key(id)
            &&& is_turn(after@[id], asked, after@[id].last())
            &&& items_view(response.output@) == output_items(id, tools, after@[id].last())
            &&& repaired(answer(chat), quirks, after@[id].last())
        }),
{
}

/// What upstream refuses, or what does not reach it, is passed on with its own words, and
/// nothing is stored: with the status of upstream if that is one that a response can
/// have, and as a fault of the gateway otherwise. An answer that cannot be read is a
/// fault of the server.
pub proof fn law_failure_is_passed_on(
    before: SessionStore,
    after: SessionStore,
    asked: Seq<MessageView>,
    model: Seq<char>,
    tools: Seq<Tool>,
    quirks: Quirks,
    outcome: Outcome,
    r: Reply,
)
    requires
        settled(before, after, asked, model, tools, quirks, outcome, r),
        !(outcome is Answered),
    ensures
        after@ == before@,
        r is Error,
        outcome matches Outcome::Failed { message } ==> r->status == 502 && r->text@ == message@,
        outcome matches Outcome::Unreadable { message } ==> r->status == 500 && r->text@
            == message@,
        outcome matches Outcome::Refused { status, body } ==> {
            &&& r->text@ == body@
            &&& 100 <= status <= 999 ==> r->status == status
            &&& status < 100 || status > 999 ==> r->status == 502
        },
{
}

} // verus!
