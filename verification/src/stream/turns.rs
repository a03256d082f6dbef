//! What a whole turn amounts to that is streamed in chunks: all that was said, all that
//! was thought, and all calls.

use super::chunks::{choice_contents, chunk_contents, chunks_came, lemma_content_keeps};
use super::events::{
    added_event, closings, completed_event, delta_event, failed_event, reasoning_event,
    refused_event, unsent_event,
};
use super::laws::{contents_came, law_healthy_stream_is_untouched, lemma_concat_joined};
use super::state::{
    all_filtered, bare, begun, call_came, calls_came, choice_came, choices_came, content_came,
    drained, extended, filtered, in_full, lemma_drained_keeps, parted, place_of, reasoning_in,
    spoke, step_after, text_in, thought, whole_calls, Next, PartialView, Progress, StreamState,
    Upstream,
};
use crate::dsml::grammar::Call;
use crate::dsml::heal::identified;
use crate::dsml::stream::markers;
use crate::output::{call_item, call_items, output_items};
use crate::quirks::Quirks;
use crate::tags::first_tag;
use crate::tags::growth::lemma_first_tag_stays;
use crate::text::{concat, trim};
use crate::think::filter::{all_tags, fresh_think, think_finish, think_push, think_run, think_split};
use crate::think::laws::{law_disabled_filter_passes, law_plain_text_passes, lemma_tags};
use crate::types::{
    ChatStreamChoice, ChatStreamChunk, ContentView, ItemView, MessageView, Tool, ToolCallDelta,
    ToolCallView,
};
use vstd::prelude::*;
use vstd::string::*;

verus! {

// ---------------------------------------------------------------------------
// The end of a turn
// ---------------------------------------------------------------------------

/// Whether a stream in state `st` is complete with what is heard: upstream says that it
/// is done, or the stream is over behind a finish reason and that quirk is enabled.
pub open spec fn ends_turn(st: StreamState, heard: Upstream) -> bool {
    ||| heard matches Upstream::Data(data) && trim(data@) == "[DONE]"@
    ||| (heard is Closed || heard is Broken) && st.finished && st.quirks.missing_done
}

/// Whether `calls` are the calls that were streamed, in order, and behind them the
/// healed ones, which get the given ids.
pub open spec fn are_all_calls(
    calls: Seq<ToolCallView>,
    streamed: Seq<PartialView>,
    healed: Seq<Call>,
    ids: Seq<Seq<char>>,
) -> bool {
    &&& calls.len() == streamed.len() + healed.len()
    &&& forall|i: int|
        0 <= i < streamed.len() ==> {
            &&& (#[trigger] calls[i]) is Function
            &&& calls[i]->id == streamed[i].id
            &&& calls[i]->name == streamed[i].name
            &&& calls[i]->arguments == streamed[i].arguments
        }
    &&& forall|i: int|
        0 <= i < healed.len() ==> {
            let call = calls[streamed.len() + i];
            &&& call is Function
            &&& call->id == ids[i]
            &&& call->name == (#[trigger] healed[i]).name
            &&& call->arguments == healed[i].arguments
        }
}

/// Whether `m` is the message of the assistant with that text, that reasoning and those
/// calls.
pub open spec fn amounts_to(
    m: MessageView,
    text: Seq<char>,
    reasoning: Seq<char>,
    calls: Seq<ToolCallView>,
) -> bool {
    &&& m.role == "assistant"@
    &&& text.len() > 0 ==> m.content == Some(ContentView::Text(text))
    &&& text.len() == 0 && calls.len() > 0 ==> m.content is None
    &&& text.len() == 0 && calls.len() == 0 ==> m.content == Some(ContentView::Text(text))
    &&& reasoning.len() > 0 ==> m.reasoning_content == Some(reasoning)
    &&& reasoning.len() == 0 ==> m.reasoning_content is None
    &&& calls.len() > 0 ==> m.tool_calls == Some(calls)
    &&& calls.len() == 0 ==> m.tool_calls is None
    &&& m.tool_call_id is None
    &&& m.name is None
}

/// Whether a turn is what was sent upstream and, behind it, `m`.
pub open spec fn is_turn(turn: Seq<MessageView>, asked: Seq<MessageView>, m: MessageView) -> bool {
    &&& turn.len() == asked.len() + 1
    &&& forall|i: int| 0 <= i < asked.len() ==> turn[i] == #[trigger] asked[i]
    &&& turn[asked.len() as int] == m
}

/// Whether the output shows what was thought, if anything, then the text, unless it is
/// empty and there are calls, and then each call, in order.
pub open spec fn shows(
    items: Seq<ItemView>,
    id: Seq<char>,
    tools: Seq<Tool>,
    text: Seq<char>,
    reasoning: Seq<char>,
    calls: Seq<ToolCallView>,
) -> bool {
    let thoughts: int = if reasoning.len() > 0 {
        1
    } else {
        0
    };
    let said: int = if text.len() > 0 || calls.len() == 0 {
        1
    } else {
        0
    };
    &&& items.len() == thoughts + said + calls.len()
    &&& thoughts == 1 ==> items[0] == (ItemView::Reasoning { id: "rs_"@ + id, summary: reasoning })
    &&& said == 1 ==> items[thoughts] is Message && items[thoughts]->role == "assistant"@
        && items[thoughts]->content.len() == 1 && items[thoughts]->content[0].kind
        == "output_text"@ && items[thoughts]->content[0].text == Some(text)
    &&& forall|i: int|
        0 <= i < calls.len() ==> items[thoughts + said + i] == call_item(
            tools,
            (#[trigger] calls[i])->id,
            calls[i]->name,
            calls[i]->arguments,
        )
}

proof fn lemma_call_items(tools: Seq<Tool>, calls: Seq<ToolCallView>, n: int)
    requires
        0 <= n <= calls.len(),
        forall|i: int| 0 <= i < calls.len() ==> (#[trigger] calls[i]) is Function,
    ensures
        call_items(tools, calls, n).len() == n,
        forall|i: int|
            0 <= i < n ==> call_items(tools, calls, n)[i] == call_item(
                tools,
                (#[trigger] calls[i])->id,
                calls[i]->name,
                calls[i]->arguments,
            ),
    decreases n,
{
    if n > 0 {
        lemma_call_items(tools, calls, n - 1);
        assert(calls[n - 1] is Function);
    }
}

proof fn lemma_shown(
    id: Seq<char>,
    tools: Seq<Tool>,
    m: MessageView,
    text: Seq<char>,
    reasoning: Seq<char>,
    calls: Seq<ToolCallView>,
)
    requires
        amounts_to(m, text, reasoning, calls),
        forall|i: int| 0 <= i < calls.len() ==> (#[trigger] calls[i]) is Function,
    ensures
        shows(output_items(id, tools, m), id, tools, text, reasoning, calls),
{
    lemma_call_items(tools, calls, calls.len() as int);
    if text.len() == 0 {
        assert(m.text() =~= text);
    }
}

/// When a stream is complete, the turn is stored under the id of the response: what was
/// sent upstream, and behind it one message of the assistant. It has all that was said
/// and all that was thought, and its tool calls are all calls that were streamed, with
/// the id, the name and the arguments of each, followed by those that were healed,
/// whatever else came in the same stream. The last event shows the same, call by call.
/// No other turn changes.
#[verifier::rlimit(50)]
pub proof fn law_complete_turn_has_all_calls(
    st: StreamState,
    stored: Map<Seq<char>, Seq<MessageView>>,
    heard: Upstream,
    ids: Seq<Seq<char>>,
    calls: Seq<ToolCallView>,
)
    requires
        ends_turn(st, heard),
        are_all_calls(calls, st.calls, drained(Progress { st, sent: Seq::empty() }).1, ids),
    ensures
        ({
            let last = drained(Progress { st, sent: Seq::empty() }).0.st;
            let after = step_after(st, stored, heard, ids);
            &&& after.next == Next::Stop
            &&& after.stored.contains_key(st.id)
            &&& is_turn(after.stored[st.id], st.asked, after.stored[st.id].last())
            &&& amounts_to(after.stored[st.id].last(), last.text, last.reasoning, calls)
            &&& forall|other: Seq<char>|
                other != st.id ==> {
                    &&& (#[trigger] after.stored.contains_key(other)) == stored.contains_key(other)
                    &&& stored.contains_key(other) ==> after.stored[other] == stored[other]
                }
            &&& exists|items: Seq<ItemView>|
                shows(items, st.id, st.tools, last.text, last.reasoning, calls) && after.events
                    == drained(Progress { st, sent: Seq::empty() }).0.sent + closings(
                    items,
                    items.len() as int,
                    last.announced,
                ).push(#[trigger] completed_event(st.id, st.model, items, st.usage))
        }),
{
    let here = Progress { st, sent: Seq::empty() };
    lemma_drained_keeps(here);
    let (last, healed) = drained(here);
    let after = step_after(st, stored, heard, ids);
    let m = after.stored[st.id].last();
    lemma_all_calls(st.calls, healed, ids, calls);
    assert(amounts_to(m, last.st.text, last.st.reasoning, calls));
    lemma_shown(st.id, st.tools, m, last.st.text, last.st.reasoning, calls);
    let items = output_items(st.id, st.tools, m);
    assert(after.events == last.sent + closings(
        items,
        items.len() as int,
        last.st.announced,
    ).push(completed_event(st.id, st.model, items, st.usage)));
}

proof fn lemma_all_calls(
    streamed: Seq<PartialView>,
    healed: Seq<Call>,
    ids: Seq<Seq<char>>,
    calls: Seq<ToolCallView>,
)
    requires
        are_all_calls(calls, streamed, healed, ids),
    ensures
        calls == whole_calls(streamed) + identified(healed, ids),
        forall|i: int| 0 <= i < calls.len() ==> (#[trigger] calls[i]) is Function,
{
    assert forall|i: int| 0 <= i < calls.len() implies (#[trigger] calls[i]) is Function by {
        if i >= streamed.len() {
            let k = i - streamed.len();
            assert(calls[streamed.len() + k]->name == healed[k].name);
        }
    }
    let all = whole_calls(streamed) + identified(healed, ids);
    assert forall|i: int| 0 <= i < calls.len() implies #[trigger] calls[i] == all[i] by {
        if i >= streamed.len() {
            let k = i - streamed.len();
            assert(calls[streamed.len() + k]->name == healed[k].name);
        }
    }
    assert(calls =~= all);
}

// ---------------------------------------------------------------------------
// Calls that are streamed in pieces
// ---------------------------------------------------------------------------

/// The id that the first `n` pieces give the call with that index: the last that is
/// given.
pub open spec fn given_id(deltas: Seq<ToolCallDelta>, n: int, index: u32) -> Seq<char>
    decreases n,
{
    if n <= 0 {
        Seq::empty()
    } else {
        match deltas[n - 1].id {
            Some(id) if deltas[n - 1].index == index => id@,
            _ => given_id(deltas, n - 1, index),
        }
    }
}

/// The name that the first `n` pieces give the call with that index: the last that is
/// given.
pub open spec fn given_name(deltas: Seq<ToolCallDelta>, n: int, index: u32) -> Seq<char>
    decreases n,
{
    if n <= 0 {
        Seq::empty()
    } else {
        match deltas[n - 1].name {
            Some(name) if deltas[n - 1].index == index => name@,
            _ => given_name(deltas, n - 1, index),
        }
    }
}

/// The arguments that the first `n` pieces give the call with that index, one after the
/// other.
pub open spec fn given_arguments(deltas: Seq<ToolCallDelta>, n: int, index: u32) -> Seq<char>
    decreases n,
{
    if n <= 0 {
        Seq::empty()
    } else {
        match deltas[n - 1].arguments {
            Some(more) if deltas[n - 1].index == index => given_arguments(deltas, n - 1, index)
                + more@,
            _ => given_arguments(deltas, n - 1, index),
        }
    }
}

/// The first piece of the call with that index, from the `i`-th on; the number of pieces
/// where there is none.
pub open spec fn first_piece(deltas: Seq<ToolCallDelta>, i: int, index: u32) -> int
    decreases deltas.len() - i,
{
    if i < 0 || i >= deltas.len() {
        deltas.len() as int
    } else if deltas[i].index == index {
        i
    } else {
        first_piece(deltas, i + 1, index)
    }
}

/// Whether one of the calls has that index.
pub open spec fn has_index(calls: Seq<PartialView>, index: u32) -> bool {
    exists|a: int| 0 <= a < calls.len() && (#[trigger] calls[a]).index == index
}

/// Whether `calls` are those that the first `n` pieces make up.
pub open spec fn are_made_of(
    calls: Seq<PartialView>,
    deltas: Seq<ToolCallDelta>,
    n: int,
) -> bool {
    &&& forall|i: int| 0 <= i < n ==> has_index(calls, (#[trigger] deltas[i]).index)
    &&& forall|a: int|
        0 <= a < calls.len() ==> {
            let index = (#[trigger] calls[a]).index;
            &&& calls[a].id == given_id(deltas, n, index)
            &&& calls[a].name == given_name(deltas, n, index)
            &&& calls[a].arguments == given_arguments(deltas, n, index)
            &&& first_piece(deltas, 0, index) < n
        }
    &&& forall|a: int, b: int|
        0 <= a < b < calls.len() ==> first_piece(deltas, 0, (#[trigger] calls[a]).index)
            < first_piece(deltas, 0, (#[trigger] calls[b]).index)
}

proof fn lemma_place_of(calls: Seq<PartialView>, index: u32, from: int)
    requires
        0 <= from,
    ensures
        match place_of(calls, index, from) {
            Some(at) => from <= at < calls.len() && calls[at].index == index,
            None => forall|j: int|
                from <= j < calls.len() ==> (#[trigger] calls[j]).index != index,
        },
    decreases calls.len() - from,
{
    if from < calls.len() {
        lemma_place_of(calls, index, from + 1);
    }
}

proof fn lemma_unseen(deltas: Seq<ToolCallDelta>, n: int, index: u32)
    requires
        0 <= n <= deltas.len(),
        forall|j: int| 0 <= j < n ==> (#[trigger] deltas[j]).index != index,
    ensures
        given_id(deltas, n, index) == Seq::<char>::empty(),
        given_name(deltas, n, index) == Seq::<char>::empty(),
        given_arguments(deltas, n, index) == Seq::<char>::empty(),
    decreases n,
{
    if n > 0 {
        assert(deltas[n - 1].index != index);
        lemma_unseen(deltas, n - 1, index);
    }
}

proof fn lemma_first_piece(deltas: Seq<ToolCallDelta>, i: int, index: u32, at: int)
    requires
        0 <= i <= at < deltas.len(),
        deltas[at].index == index,
        forall|j: int| i <= j < at ==> (#[trigger] deltas[j]).index != index,
    ensures
        first_piece(deltas, i, index) == at,
    decreases at - i,
{
    if i < at {
        assert(deltas[i].index != index);
        lemma_first_piece(deltas, i + 1, index, at);
    }
}

/// Tool calls that are streamed in pieces, in whatever order the pieces of different
/// calls come, come out whole and told apart by their index: one call for each index, in
/// the order in which they begin, each with its own id and name, and with all of its own
/// arguments, one after the other.
pub proof fn law_streamed_calls_are_told_apart(deltas: Seq<ToolCallDelta>, n: int)
    requires
        0 <= n <= deltas.len(),
    ensures
        are_made_of(calls_came(Seq::empty(), deltas, n), deltas, n),
    decreases n,
{
    if n > 0 {
        law_streamed_calls_are_told_apart(deltas, n - 1);
        let before = calls_came(Seq::empty(), deltas, n - 1);
        let calls = calls_came(Seq::empty(), deltas, n);
        assert(calls == call_came(before, deltas[n - 1]));
        lemma_place_of(before, deltas[n - 1].index, 0);
        match place_of(before, deltas[n - 1].index, 0) {
            Some(at) => lemma_told_apart_known(before, calls, deltas, n, at),
            None => lemma_told_apart_new(before, calls, deltas, n),
        }
    }
}

proof fn lemma_told_apart_known(
    before: Seq<PartialView>,
    calls: Seq<PartialView>,
    deltas: Seq<ToolCallDelta>,
    n: int,
    at: int,
)
    requires
        0 < n <= deltas.len(),
        are_made_of(before, deltas, n - 1),
        0 <= at < before.len(),
        before[at].index == deltas[n - 1].index,
        calls == before.update(at, extended(before[at], deltas[n - 1])),
    ensures
        are_made_of(calls, deltas, n),
{
    assert forall|i: int| 0 <= i < n implies has_index(calls, (#[trigger] deltas[i]).index) by {
        if i < n - 1 {
            let a = choose|a: int|
                0 <= a < before.len() && (#[trigger] before[a]).index == deltas[i].index;
            assert(calls[a].index == deltas[i].index);
        } else {
            assert(calls[at].index == deltas[i].index);
        }
    }
    assert forall|a: int| 0 <= a < calls.len() implies ({
        let own = (#[trigger] calls[a]).index;
        &&& calls[a].id == given_id(deltas, n, own)
        &&& calls[a].name == given_name(deltas, n, own)
        &&& calls[a].arguments == given_arguments(deltas, n, own)
        &&& first_piece(deltas, 0, own) < n
    }) by {
        let own = before[a].index;
        assert(before[a].id == given_id(deltas, n - 1, own));
        if a != at && own == before[at].index {
            assert(a < at ==> first_piece(deltas, 0, before[a].index) < first_piece(
                deltas,
                0,
                before[at].index,
            ));
            assert(at < a ==> first_piece(deltas, 0, before[at].index) < first_piece(
                deltas,
                0,
                before[a].index,
            ));
        }
    }
    assert forall|a: int, b: int| 0 <= a < b < calls.len() implies first_piece(
        deltas,
        0,
        (#[trigger] calls[a]).index,
    ) < first_piece(deltas, 0, (#[trigger] calls[b]).index) by {
        assert(calls[a].index == before[a].index && calls[b].index == before[b].index);
    }
}

proof fn lemma_told_apart_new(
    before: Seq<PartialView>,
    calls: Seq<PartialView>,
    deltas: Seq<ToolCallDelta>,
    n: int,
)
    requires
        0 < n <= deltas.len(),
        are_made_of(before, deltas, n - 1),
        forall|j: int|
            0 <= j < before.len() ==> (#[trigger] before[j]).index != deltas[n - 1].index,
        calls == before.push(extended(bare(deltas[n - 1].index), deltas[n - 1])),
    ensures
        are_made_of(calls, deltas, n),
{
    let index = deltas[n - 1].index;
    let last = calls.len() - 1;
    assert forall|i: int| 0 <= i < n implies has_index(calls, (#[trigger] deltas[i]).index) by {
        if i < n - 1 {
            let a = choose|a: int|
                0 <= a < before.len() && (#[trigger] before[a]).index == deltas[i].index;
            assert(calls[a].index == deltas[i].index);
        } else {
            assert(calls[last].index == deltas[i].index);
        }
    }
    assert forall|j: int| 0 <= j < n - 1 implies (#[trigger] deltas[j]).index != index by {
        assert(has_index(before, deltas[j].index));
    }
    lemma_unseen(deltas, n - 1, index);
    lemma_first_piece(deltas, 0, index, n - 1);
    assert forall|a: int| 0 <= a < calls.len() implies ({
        let own = (#[trigger] calls[a]).index;
        &&& calls[a].id == given_id(deltas, n, own)
        &&& calls[a].name == given_name(deltas, n, own)
        &&& calls[a].arguments == given_arguments(deltas, n, own)
        &&& first_piece(deltas, 0, own) < n
    }) by {
        if a < last {
            assert(calls[a] == before[a]);
        }
    }
    assert forall|a: int, b: int| 0 <= a < b < calls.len() implies first_piece(
        deltas,
        0,
        (#[trigger] calls[a]).index,
    ) < first_piece(deltas, 0, (#[trigger] calls[b]).index) by {
        assert(calls[a] == before[a]);
        if b < last {
            assert(calls[b] == before[b]);
        }
    }
}

// ---------------------------------------------------------------------------
// What is said does not depend on what is thought or called
// ---------------------------------------------------------------------------

/// Whether two translations have said the same, and withhold the same.
spec fn same_speech(a: StreamState, b: StreamState) -> bool {
    &&& a.quirks == b.quirks
    &&& a.think == b.think
    &&& a.opening == b.opening
    &&& a.dsml == b.dsml
    &&& a.text == b.text
}

proof fn lemma_filtered_same(p: Progress, q: Progress, s: Seq<char>)
    requires
        same_speech(p.st, q.st),
    ensures
        same_speech(filtered(p, s).st, filtered(q, s).st),
        filtered(p, s).st.think == p.st.think,
        filtered(p, s).st.opening == p.st.opening,
        filtered(p, s).st.reasoning == p.st.reasoning,
        filtered(p, s).st.calls == p.st.calls,
{
}

proof fn lemma_all_filtered_same(p: Progress, q: Progress, texts: Seq<Seq<char>>)
    requires
        same_speech(p.st, q.st),
    ensures
        same_speech(all_filtered(p, texts).st, all_filtered(q, texts).st),
        all_filtered(p, texts).st.think == p.st.think,
        all_filtered(p, texts).st.opening == p.st.opening,
        all_filtered(p, texts).st.reasoning == p.st.reasoning,
        all_filtered(p, texts).st.calls == p.st.calls,
    decreases texts.len(),
{
    if texts.len() > 0 {
        lemma_all_filtered_same(p, q, texts.drop_last());
        lemma_filtered_same(
            all_filtered(p, texts.drop_last()),
            all_filtered(q, texts.drop_last()),
            texts.last(),
        );
    }
}

proof fn lemma_parts_same(
    p: Progress,
    q: Progress,
    earlier: Seq<Seq<char>>,
    reasoning: Seq<char>,
    now: Seq<char>,
)
    requires
        same_speech(p.st, q.st),
    ensures
        ({
            let a = filtered(thought(all_filtered(p, earlier), reasoning), now).st;
            let b = filtered(thought(all_filtered(q, earlier), reasoning), now).st;
            &&& same_speech(a, b)
            &&& a.think == p.st.think
            &&& a.opening == p.st.opening
            &&& a.reasoning == p.st.reasoning + reasoning
            &&& a.calls == p.st.calls
        }),
{
    lemma_all_filtered_same(p, q, earlier);
    let a = thought(all_filtered(p, earlier), reasoning);
    let b = thought(all_filtered(q, earlier), reasoning);
    if reasoning.len() == 0 {
        assert(p.st.reasoning + reasoning =~= p.st.reasoning);
    }
    lemma_filtered_same(a, b, now);
}

proof fn lemma_content_same(p: Progress, q: Progress, s: Seq<char>)
    requires
        same_speech(p.st, q.st),
    ensures
        same_speech(content_came(p, s).st, content_came(q, s).st),
        content_came(p, s).st.think == think_push(p.st.think, s).0,
        content_came(p, s).st.calls == p.st.calls,
        think_push(p.st.think, s).1.reasoning.len() == 0 ==> content_came(p, s).st.reasoning
            == p.st.reasoning,
{
    let (think, split) = think_push(p.st.think, s);
    let none = Seq::<Seq<char>>::empty();
    if split.reasoning.len() == 0 {
        assert(p.st.reasoning + split.reasoning =~= p.st.reasoning);
    }
    if !p.st.think.undecided() {
        let a = Progress { st: StreamState { think, ..p.st }, ..p };
        let b = Progress { st: StreamState { think, ..q.st }, ..q };
        assert(all_filtered(a, none) == a && all_filtered(b, none) == b);
        lemma_parts_same(a, b, none, split.reasoning, split.text);
    } else if !think.undecided() {
        let raw = concat(p.st.opening) + s;
        let (earlier, now) = parted(p.st.opening, in_full(raw, think.fired, split.text));
        let a = Progress { st: StreamState { think, opening: none, ..p.st }, ..p };
        let b = Progress { st: StreamState { think, opening: none, ..q.st }, ..q };
        lemma_parts_same(a, b, earlier, split.reasoning, now);
    }
}

proof fn lemma_drained_same(p: Progress, q: Progress)
    requires
        same_speech(p.st, q.st),
    ensures
        drained(p).0.st.text == drained(q).0.st.text,
        drained(p).1 == drained(q).1,
        drained(p).0.st.reasoning == p.st.reasoning + think_finish(p.st.think).reasoning,
{
    let split = think_finish(p.st.think);
    let none = Seq::<Seq<char>>::empty();
    let think = fresh_think(p.st.quirks.think_tags);
    let (earlier, now) = if p.st.think.undecided() {
        parted(p.st.opening, in_full(concat(p.st.opening), false, split.text))
    } else {
        (none, split.text)
    };
    let a = Progress { st: StreamState { think, opening: none, ..p.st }, ..p };
    let b = Progress { st: StreamState { think, opening: none, ..q.st }, ..q };
    lemma_parts_same(a, b, earlier, split.reasoning, now);
}

// ---------------------------------------------------------------------------
// Chunks
// ---------------------------------------------------------------------------

/// The pieces of tool calls in the first `n` choices.
pub open spec fn choice_deltas(choices: Seq<ChatStreamChoice>, n: int) -> Seq<ToolCallDelta>
    decreases n,
{
    if n <= 0 {
        Seq::empty()
    } else {
        choice_deltas(choices, n - 1) + choices[n - 1].tool_calls@
    }
}

/// The pieces of tool calls in some chunks.
pub open spec fn chunk_deltas(chunks: Seq<ChatStreamChunk>) -> Seq<ToolCallDelta>
    decreases chunks.len(),
{
    if chunks.len() == 0 {
        Seq::empty()
    } else {
        chunk_deltas(chunks.drop_last()) + choice_deltas(
            chunks.last().choices@,
            chunks.last().choices@.len() as int,
        )
    }
}

/// What the first `n` choices say was thought.
pub open spec fn choice_thoughts(choices: Seq<ChatStreamChoice>, n: int) -> Seq<char>
    decreases n,
{
    if n <= 0 {
        Seq::empty()
    } else {
        choice_thoughts(choices, n - 1) + reasoning_in(choices[n - 1])
    }
}

/// What some chunks say was thought.
pub open spec fn chunk_thoughts(chunks: Seq<ChatStreamChunk>) -> Seq<char>
    decreases chunks.len(),
{
    if chunks.len() == 0 {
        Seq::empty()
    } else {
        chunk_thoughts(chunks.drop_last()) + choice_thoughts(
            chunks.last().choices@,
            chunks.last().choices@.len() as int,
        )
    }
}

proof fn lemma_calls_joined(
    calls: Seq<PartialView>,
    a: Seq<ToolCallDelta>,
    b: Seq<ToolCallDelta>,
    n: int,
)
    requires
        0 <= n <= b.len(),
    ensures
        calls_came(calls_came(calls, a, a.len() as int), b, n) == calls_came(
            calls,
            a + b,
            a.len() + n,
        ),
    decreases n,
{
    if n > 0 {
        lemma_calls_joined(calls, a, b, n - 1);
        assert((a + b)[a.len() + n - 1] == b[n - 1]);
    } else {
        lemma_calls_same(calls, a, a + b, a.len() as int);
    }
}

proof fn lemma_calls_same(
    calls: Seq<PartialView>,
    a: Seq<ToolCallDelta>,
    b: Seq<ToolCallDelta>,
    n: int,
)
    requires
        0 <= n <= a.len() <= b.len(),
        forall|i: int| 0 <= i < n ==> (#[trigger] a[i]) == b[i],
    ensures
        calls_came(calls, a, n) == calls_came(calls, b, n),
    decreases n,
{
    if n > 0 {
        assert(a[n - 1] == b[n - 1]);
        lemma_calls_same(calls, a, b, n - 1);
    }
}

/// Whether the filter for what was thought finds nothing in a stream of these pieces.
spec fn is_quiet(enabled: bool, contents: Seq<Seq<char>>) -> bool {
    forall|k: int|
        0 <= k < contents.len() ==> think_push(
            think_run(fresh_think(enabled), contents.take(k)).0,
            #[trigger] contents[k],
        ).1.reasoning.len() == 0
}

proof fn lemma_choices_taken(
    p: Progress,
    q: Progress,
    choices: Seq<ChatStreamChoice>,
    n: int,
)
    requires
        same_speech(p.st, q.st),
        n <= choices.len(),
    ensures
        ({
            let after = choices_came(p, choices, n).st;
            let deltas = choice_deltas(choices, n);
            &&& same_speech(after, contents_came(q, choice_contents(choices, n)).st)
            &&& after.calls == calls_came(p.st.calls, deltas, deltas.len() as int)
        }),
    decreases n,
{
    if n > 0 {
        lemma_choices_taken(p, q, choices, n - 1);
        let before = choices_came(p, choices, n - 1);
        let contents = choice_contents(choices, n - 1);
        let choice = choices[n - 1];
        let reasoned = thought(before, reasoning_in(choice));
        let s = text_in(choice.content);
        lemma_content_same(reasoned, contents_came(q, contents), s);
        assert(contents.push(s).drop_last() =~= contents);
        let deltas = choice_deltas(choices, n - 1);
        lemma_calls_joined(
            p.st.calls,
            deltas,
            choice.tool_calls@,
            choice.tool_calls@.len() as int,
        );
    }
}

proof fn lemma_contents_after(p: Progress, a: Seq<Seq<char>>, b: Seq<Seq<char>>)
    ensures
        contents_came(contents_came(p, a), b) == contents_came(p, a + b),
    decreases b.len(),
{
    if b.len() == 0 {
        assert(a + b =~= a);
    } else {
        lemma_contents_after(p, a, b.drop_last());
        assert((a + b).drop_last() =~= a + b.drop_last());
    }
}

proof fn lemma_chunks_taken(p: Progress, chunks: Seq<ChatStreamChunk>)
    ensures
        ({
            let after = chunks_came(p, chunks).st;
            let deltas = chunk_deltas(chunks);
            &&& same_speech(after, contents_came(p, chunk_contents(chunks)).st)
            &&& after.calls == calls_came(p.st.calls, deltas, deltas.len() as int)
        }),
    decreases chunks.len(),
{
    if chunks.len() > 0 {
        let front = chunks.drop_last();
        let choices = chunks.last().choices@;
        let n = choices.len() as int;
        lemma_chunks_taken(p, front);
        let before = chunks_came(p, front);
        let q = contents_came(p, chunk_contents(front));
        lemma_choices_taken(before, q, choices, n);
        lemma_contents_after(p, chunk_contents(front), choice_contents(choices, n));
        lemma_calls_joined(
            p.st.calls,
            chunk_deltas(front),
            choice_deltas(choices, n),
            choice_deltas(choices, n).len() as int,
        );
    }
}

/// What is said, and which calls leaked into it, depends on the contents of the chunks
/// alone; the calls that are streamed depend on the pieces of calls in them alone. It
/// makes no difference what was thought, or what else came in the same chunk.
pub proof fn law_text_and_calls_do_not_interfere(p: Progress, chunks: Seq<ChatStreamChunk>)
    ensures
        ({
            let all = drained(chunks_came(p, chunks));
            let said = drained(contents_came(p, chunk_contents(chunks)));
            let deltas = chunk_deltas(chunks);
            &&& all.0.st.text == said.0.st.text
            &&& all.1 == said.1
            &&& all.0.st.calls == calls_came(p.st.calls, deltas, deltas.len() as int)
        }),
{
    lemma_chunks_taken(p, chunks);
    lemma_drained_same(chunks_came(p, chunks), contents_came(p, chunk_contents(chunks)));
    lemma_drained_keeps(chunks_came(p, chunks));
}

// ---------------------------------------------------------------------------
// Streams without markup
// ---------------------------------------------------------------------------

proof fn lemma_quiet(enabled: bool, contents: Seq<Seq<char>>)
    requires
        first_tag(concat(contents), all_tags()) is None,
    ensures
        is_quiet(enabled, contents),
        think_finish(think_run(fresh_think(enabled), contents).0).reasoning.len() == 0,
{
    let fresh = fresh_think(enabled);
    if enabled {
        law_plain_text_passes(contents);
        assert(think_split(contents).reasoning.len() == 0);
    } else {
        law_disabled_filter_passes(contents);
    }
    assert forall|k: int| 0 <= k < contents.len() implies think_push(
        think_run(fresh, contents.take(k)).0,
        #[trigger] contents[k],
    ).1.reasoning.len() == 0 by {
        let front = contents.take(k + 1);
        assert(front.drop_last() =~= contents.take(k));
        if enabled {
            lemma_tags();
            lemma_concat_joined(front, contents.skip(k + 1));
            assert(front + contents.skip(k + 1) =~= contents);
            if first_tag(concat(front), all_tags()) is Some {
                lemma_first_tag_stays(concat(front), concat(contents.skip(k + 1)), all_tags());
            }
            law_plain_text_passes(front);
            assert(think_split(front).reasoning.len() == 0);
        } else {
            law_disabled_filter_passes(contents.take(k));
        }
    }
}

/// Whether `a` is the beginning of `b`.
spec fn leads(a: Seq<Seq<char>>, b: Seq<Seq<char>>) -> bool {
    a.len() <= b.len() && b.take(a.len() as int) == a
}

proof fn lemma_choice_thought(
    p: Progress,
    enabled: bool,
    before: Seq<Seq<char>>,
    choice: ChatStreamChoice,
    all: Seq<Seq<char>>,
)
    requires
        p.st.think == think_run(fresh_think(enabled), before).0,
        leads(before, all),
        text_in(choice.content).len() > 0 ==> before.len() < all.len() && all[before.len() as int]
            == text_in(choice.content),
        is_quiet(enabled, all),
    ensures
        ({
            let after = choice_came(p, choice).st;
            let s = text_in(choice.content);
            &&& after.reasoning == p.st.reasoning + reasoning_in(choice)
            &&& after.think == think_run(
                fresh_think(enabled),
                if s.len() > 0 {
                    before.push(s)
                } else {
                    before
                },
            ).0
        }),
{
    let s = text_in(choice.content);
    let reasoned = thought(p, reasoning_in(choice));
    if reasoning_in(choice).len() == 0 {
        assert(p.st.reasoning + reasoning_in(choice) =~= p.st.reasoning);
    }
    if s.len() > 0 {
        assert(before.push(s).drop_last() =~= before);
        let k = before.len() as int;
        assert(think_push(think_run(fresh_think(enabled), all.take(k)).0, all[k]).1.reasoning.len()
            == 0);
        lemma_content_same(reasoned, reasoned, s);
    }
}

#[verifier::rlimit(50)]
proof fn lemma_choices_thought(
    p: Progress,
    enabled: bool,
    before: Seq<Seq<char>>,
    choices: Seq<ChatStreamChoice>,
    n: int,
    all: Seq<Seq<char>>,
)
    requires
        n <= choices.len(),
        p.st.think == think_run(fresh_think(enabled), before).0,
        leads(before + choice_contents(choices, n), all),
        is_quiet(enabled, all),
    ensures
        ({
            let after = choices_came(p, choices, n).st;
            &&& after.reasoning == p.st.reasoning + choice_thoughts(choices, n)
            &&& after.think == think_run(
                fresh_think(enabled),
                before + choice_contents(choices, n),
            ).0
        }),
    decreases n,
{
    if n > 0 {
        let front = before + choice_contents(choices, n - 1);
        let choice = choices[n - 1];
        lemma_lead_by_choice(before, choices, n, all);
        lemma_choices_thought(p, enabled, before, choices, n - 1, all);
        let earlier = choices_came(p, choices, n - 1);
        lemma_choice_thought(earlier, enabled, front, choice, all);
        let r = p.st.reasoning;
        let t = choice_thoughts(choices, n - 1);
        assert(r + t + reasoning_in(choice) =~= r + (t + reasoning_in(choice)));
    } else {
        assert(before + choice_contents(choices, n) =~= before);
        assert(p.st.reasoning + choice_thoughts(choices, n) =~= p.st.reasoning);
    }
}

/// What a choice says comes next, if it says something.
proof fn lemma_lead_by_choice(
    before: Seq<Seq<char>>,
    choices: Seq<ChatStreamChoice>,
    n: int,
    all: Seq<Seq<char>>,
)
    requires
        0 < n <= choices.len(),
        leads(before + choice_contents(choices, n), all),
    ensures
        ({
            let front = before + choice_contents(choices, n - 1);
            let whole = before + choice_contents(choices, n);
            let s = text_in(choices[n - 1].content);
            &&& leads(front, all)
            &&& s.len() > 0 ==> whole == front.push(s) && front.len() < all.len()
                && all[front.len() as int] == s
            &&& s.len() == 0 ==> whole == front
        }),
{
    let front = before + choice_contents(choices, n - 1);
    let whole = before + choice_contents(choices, n);
    let s = text_in(choices[n - 1].content);
    if s.len() > 0 {
        assert(whole =~= front.push(s));
    } else {
        assert(whole =~= front);
    }
    let k = front.len() as int;
    assert(all.take(k) =~= front) by {
        assert forall|i: int| 0 <= i < k implies all.take(k)[i] == #[trigger] front[i] by {
            assert(all.take(whole.len() as int)[i] == whole[i]);
        }
    }
    if s.len() > 0 {
        assert(all[k] == all.take(whole.len() as int)[k]);
    }
}

proof fn lemma_chunks_thought(
    start: Progress,
    quirks: Quirks,
    chunks: Seq<ChatStreamChunk>,
    all: Seq<Seq<char>>,
)
    requires
        start.st == begun(start.st.id, start.st.model, start.st.asked, start.st.tools, quirks),
        leads(chunk_contents(chunks), all),
        is_quiet(quirks.think_tags, all),
    ensures
        ({
            let after = chunks_came(start, chunks).st;
            &&& after.reasoning == chunk_thoughts(chunks)
            &&& after.think == think_run(
                fresh_think(quirks.think_tags),
                chunk_contents(chunks),
            ).0
        }),
    decreases chunks.len(),
{
    if chunks.len() > 0 {
        let front = chunks.drop_last();
        let choices = chunks.last().choices@;
        let n = choices.len() as int;
        let before = chunk_contents(front);
        let whole = chunk_contents(chunks);
        assert(before =~= whole.take(before.len() as int));
        assert(all.take(before.len() as int) =~= whole.take(before.len() as int));
        lemma_chunks_thought(start, quirks, front, all);
        lemma_choices_thought(
            chunks_came(start, front),
            quirks.think_tags,
            before,
            choices,
            n,
            all,
        );
    }
}

/// A stream of text, reasoning and tool calls is stored and shown in full, whatever
/// quirks are enabled, if there is no markup in its text. The message has the contents of
/// all chunks as its text, what all chunks say was thought as its reasoning, and all
/// calls that the pieces in the chunks make up, whichever of these come together.
#[verifier::rlimit(50)]
pub proof fn law_turn_is_stored_in_full(
    start: Progress,
    quirks: Quirks,
    chunks: Seq<ChatStreamChunk>,
    stored: Map<Seq<char>, Seq<MessageView>>,
    heard: Upstream,
    ids: Seq<Seq<char>>,
    streamed: Seq<PartialView>,
    calls: Seq<ToolCallView>,
)
    requires
        start.st == begun(start.st.id, start.st.model, start.st.asked, start.st.tools, quirks),
        first_tag(concat(chunk_contents(chunks)), all_tags()) is None,
        first_tag(concat(chunk_contents(chunks)), markers()) is None,
        ends_turn(chunks_came(start, chunks).st, heard),
        streamed == calls_came(
            Seq::empty(),
            chunk_deltas(chunks),
            chunk_deltas(chunks).len() as int,
        ),
        are_all_calls(calls, streamed, Seq::empty(), ids),
    ensures
        ({
            let text = concat(chunk_contents(chunks));
            let reasoning = chunk_thoughts(chunks);
            let here = chunks_came(start, chunks).st;
            let after = step_after(here, stored, heard, ids);
            let id = start.st.id;
            &&& are_made_of(streamed, chunk_deltas(chunks), chunk_deltas(chunks).len() as int)
            &&& after.stored.contains_key(id)
            &&& is_turn(after.stored[id], start.st.asked, after.stored[id].last())
            &&& amounts_to(after.stored[id].last(), text, reasoning, calls)
            &&& exists|items: Seq<ItemView>|
                shows(items, id, start.st.tools, text, reasoning, calls) && after.events.last()
                    == #[trigger] completed_event(id, start.st.model, items, here.usage)
        }),
{
    let contents = chunk_contents(chunks);
    let here = chunks_came(start, chunks);
    let bare = Progress { st: here.st, sent: Seq::empty() };
    let said = contents_came(start, contents);
    let deltas = chunk_deltas(chunks);
    law_streamed_calls_are_told_apart(deltas, deltas.len() as int);
    law_healthy_stream_is_untouched(start, quirks, contents);
    lemma_chunks_taken(start, chunks);
    lemma_drained_same(bare, said);
    lemma_quiet(quirks.think_tags, contents);
    assert(contents.take(contents.len() as int) =~= contents);
    lemma_chunks_thought(start, quirks, chunks, contents);
    lemma_chunks_keep(start, chunks);
    let last = drained(bare).0.st;
    assert(last.reasoning =~= chunk_thoughts(chunks));
    let healed = drained(bare).1;
    assert(healed =~= Seq::empty());
    law_complete_turn_has_all_calls(here.st, stored, heard, ids, calls);
}

/// Chunks change nothing about what was asked.
proof fn lemma_chunks_keep(p: Progress, chunks: Seq<ChatStreamChunk>)
    ensures
        ({
            let st = chunks_came(p, chunks).st;
            &&& st.id == p.st.id
            &&& st.model == p.st.model
            &&& st.asked == p.st.asked
            &&& st.tools == p.st.tools
            &&& st.quirks == p.st.quirks
        }),
    decreases chunks.len(),
{
    if chunks.len() > 0 {
        let before = chunks_came(p, chunks.drop_last());
        lemma_chunks_keep(p, chunks.drop_last());
        let choices = chunks.last().choices@;
        lemma_choices_keep(before, choices, choices.len() as int);
    }
}

proof fn lemma_choices_keep(p: Progress, choices: Seq<ChatStreamChoice>, n: int)
    ensures
        ({
            let st = choices_came(p, choices, n).st;
            &&& st.id == p.st.id
            &&& st.model == p.st.model
            &&& st.asked == p.st.asked
            &&& st.tools == p.st.tools
            &&& st.quirks == p.st.quirks
        }),
    decreases n,
{
    if n > 0 {
        let before = choices_came(p, choices, n - 1);
        lemma_choices_keep(p, choices, n - 1);
        let reasoned = thought(before, reasoning_in(choices[n - 1]));
        lemma_content_keeps(reasoned, text_in(choices[n - 1].content));
        lemma_content_same(reasoned, reasoned, text_in(choices[n - 1].content));
        lemma_content_quirks(reasoned, text_in(choices[n - 1].content));
    }
}

proof fn lemma_content_quirks(p: Progress, s: Seq<char>)
    ensures
        content_came(p, s).st.quirks == p.st.quirks,
{
    let (think, split) = think_push(p.st.think, s);
    let decided = StreamState { think, opening: Seq::empty(), ..p.st };
    lemma_all_filtered_quirks(Progress { st: decided, ..p }, p.st.opening);
}

proof fn lemma_all_filtered_quirks(p: Progress, texts: Seq<Seq<char>>)
    ensures
        all_filtered(p, texts).st.quirks == p.st.quirks,
    decreases texts.len(),
{
    if texts.len() > 0 {
        lemma_all_filtered_quirks(p, texts.drop_last());
    }
}

// ---------------------------------------------------------------------------
// One step
// ---------------------------------------------------------------------------

/// A stream begins with nothing said, thought or called, and nothing withheld.
pub proof fn law_stream_begins_with_nothing(
    id: Seq<char>,
    model: Seq<char>,
    asked: Seq<MessageView>,
    tools: Seq<Tool>,
    quirks: Quirks,
)
    ensures
        ({
            let st = begun(id, model, asked, tools, quirks);
            &&& st.id == id && st.model == model && st.asked == asked && st.tools == tools
            &&& st.quirks == quirks
            &&& st.text.len() == 0 && st.reasoning.len() == 0 && st.calls.len() == 0
            &&& st.think.pending.len() == 0 && !st.think.in_think && !st.think.fired
            &&& st.think.enabled == quirks.think_tags
            &&& st.dsml.pending.len() == 0 && !st.dsml.in_dsml
            &&& st.dsml.enabled == quirks.dsml_heal
            &&& st.opening.len() == 0 && !st.announced && !st.finished && st.usage is None
        }),
{
}

/// What is thought may stand under either of two names: the one counts unless it holds
/// nothing.
pub proof fn law_reasoning_stands_under_either_name(choice: ChatStreamChoice)
    ensures
        choice.reasoning_content matches Some(s) ==> s@.len() > 0 ==> reasoning_in(choice) == s@,
        (choice.reasoning_content matches Some(s) ==> s@.len() == 0) ==> match choice.reasoning {
            Some(other) => reasoning_in(choice) == other@,
            None => reasoning_in(choice).len() == 0,
        },
        choice.content matches Some(s) ==> text_in(choice.content) == s@,
        choice.content is None ==> text_in(choice.content).len() == 0,
{
}

/// A finish reason in any choice is remembered, and the usage that was reported last
/// counts. A chunk stores nothing.
#[verifier::rlimit(50)]
pub proof fn law_finish_and_usage_are_remembered(
    st: StreamState,
    stored: Map<Seq<char>, Seq<MessageView>>,
    chunk: ChatStreamChunk,
    ids: Seq<Seq<char>>,
)
    ensures
        ({
            let after = step_after(st, stored, Upstream::Chunk(chunk), ids);
            &&& after.st.finished == (st.finished || exists|i: int|
                0 <= i < chunk.choices@.len() && (#[trigger] chunk.choices@[i]).finished)
            &&& chunk.usage is Some ==> after.st.usage == chunk.usage
            &&& chunk.usage is None ==> after.st.usage == st.usage
            &&& after.stored == stored
            &&& after.next == Next::Read
        }),
{
    let p = Progress { st, sent: Seq::empty() };
    lemma_choices_finish(p, chunk.choices@, chunk.choices@.len() as int);
}

proof fn lemma_choices_finish(p: Progress, choices: Seq<ChatStreamChoice>, n: int)
    requires
        n <= choices.len(),
    ensures
        choices_came(p, choices, n).st.finished == (p.st.finished || exists|i: int|
            0 <= i < n && (#[trigger] choices[i]).finished),
        choices_came(p, choices, n).st.usage == p.st.usage,
    decreases n,
{
    if n > 0 {
        lemma_choices_finish(p, choices, n - 1);
        let before = choices_came(p, choices, n - 1);
        let choice = choices[n - 1];
        let reasoned = thought(before, reasoning_in(choice));
        lemma_content_keeps(reasoned, text_in(choice.content));
        if choices_came(p, choices, n).st.finished && !p.st.finished {
            if choice.finished {
                assert(choices[n - 1].finished);
            } else {
                let i = choose|i: int| 0 <= i < n - 1 && (#[trigger] choices[i]).finished;
                assert(choices[i].finished);
            }
        }
    }
}

/// Data is read as a chunk, unless it is empty or says that the stream is done. Data that
/// is no chunk is passed over.
#[verifier::rlimit(50)]
pub proof fn law_data_is_read_as_chunk(
    st: StreamState,
    stored: Map<Seq<char>, Seq<MessageView>>,
    data: String,
    ids: Seq<Seq<char>>,
)
    ensures
        trim(data@) != "[DONE]"@ ==> {
            let after = step_after(st, stored, Upstream::Data(data), ids);
            &&& after.st == st && after.stored == stored && after.events.len() == 0
            &&& data@.len() == 0 ==> after.next == Next::Read
            &&& data@.len() > 0 ==> after.next == Next::Parse
        },
        ({
            let after = step_after(st, stored, Upstream::Unreadable, ids);
            &&& after.st == st && after.stored == stored && after.events.len() == 0
            &&& after.next == Next::Read
        }),
{
}

/// A piece of what was thought is added and sent. The first of it is announced before,
/// as the first output item.
pub proof fn law_first_thought_is_announced(p: Progress, s: Seq<char>)
    ensures
        s.len() == 0 ==> thought(p, s) == p,
        s.len() > 0 ==> {
            let after = thought(p, s);
            &&& after.st.reasoning == p.st.reasoning + s
            &&& after.st.text == p.st.text && after.st.calls == p.st.calls
            &&& p.st.reasoning.len() > 0 ==> after.sent == p.sent.push(
                reasoning_event("rs_"@ + p.st.id, s),
            )
            &&& p.st.reasoning.len() == 0 ==> after.sent == p.sent.push(
                added_event(
                    0,
                    ItemView::Reasoning { id: "rs_"@ + p.st.id, summary: Seq::empty() },
                ),
            ).push(reasoning_event("rs_"@ + p.st.id, s))
        },
{
}

/// A piece of text is added and sent. The first of it is announced before, as the second
/// output item, if something was thought; else no item is announced.
pub proof fn law_message_behind_thoughts_is_announced(p: Progress, s: Seq<char>)
    ensures
        s.len() == 0 ==> spoke(p, s) == p,
        s.len() > 0 ==> {
            let after = spoke(p, s);
            &&& after.st.text == p.st.text + s
            &&& after.st.reasoning == p.st.reasoning && after.st.calls == p.st.calls
            &&& p.st.text.len() == 0 && p.st.reasoning.len() > 0 ==> after.st.announced
                && after.sent == p.sent.push(
                added_event(
                    1,
                    ItemView::Message { role: "assistant"@, content: Seq::empty() },
                ),
            ).push(delta_event(s))
            &&& p.st.text.len() > 0 || p.st.reasoning.len() == 0 ==> after.st.announced
                == p.st.announced && after.sent == p.sent.push(delta_event(s))
        },
{
}

/// What ends a stream without an answer is told in one event, nothing is stored, and nothing
/// more is read. A refusal is told with its status and its body, a failure with its words.
/// A stream that is over before the turn is complete is told as the failure of this
/// response.
#[verifier::rlimit(50)]
pub proof fn law_failures_are_told(
    st: StreamState,
    stored: Map<Seq<char>, Seq<MessageView>>,
    heard: Upstream,
    ids: Seq<Seq<char>>,
)
    requires
        !ends_turn(st, heard),
    ensures
        ({
            let after = step_after(st, stored, heard, ids);
            &&& heard matches Upstream::Refused { status, body } ==> after.events == seq![
                refused_event(status, body@),
            ]
            &&& heard matches Upstream::Failed { message } ==> after.events == seq![
                unsent_event(message@),
            ]
            &&& heard is Broken || heard is Closed ==> after.events == seq![
                failed_event(st.id, st.model),
            ]
            &&& heard is Refused || heard is Failed || heard is Broken || heard is Closed ==> {
                &&& after.stored == stored
                &&& after.st == st
                &&& after.next == Next::Stop
            }
        }),
{
}

} // verus!
