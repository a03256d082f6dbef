//! What a streamed response holds so far, and what each piece from upstream does to
//! it.

use super::events::{
    added_event, closings, completed_event, delta_event, failed_event, reasoning_event,
    refused_event, unsent_event, EventView,
};
use crate::dsml::grammar::Call;
use crate::dsml::heal::{are_call_ids, identified};
use crate::dsml::stream::{filter_finish, filter_push, fresh_filter, FilterState};
use crate::output::{output_items, reasoning_item};
use crate::quirks::Quirks;
use crate::text::{concat, leading_white, occurs_at, trim};
use crate::think::filter::{fresh_think, speaks_first, think_finish, think_push, ThinkState};
use crate::translate::Repairs;
use crate::types::{
    ChatStreamChoice, ChatStreamChunk, ChatUsage, ContentView, ItemView, MessageView, Tool,
    ToolCallDelta, ToolCallView,
};
use vstd::prelude::*;
use vstd::string::*;

verus! {

/// What the relay hears from upstream.
#[derive(Debug, PartialEq)]
pub enum Upstream {
    /// The request was answered with a status that is no success.
    Refused { status: u16, body: String },
    /// The request could not be sent.
    Failed { message: String },
    /// The data of one server-sent event.
    Data(String),
    /// The chunk that the data of the last event denotes.
    Chunk(ChatStreamChunk),
    /// The data of the last event denotes no chunk.
    Unreadable,
    /// The stream could not be read further.
    Broken,
    /// The stream ended.
    Closed,
}

/// What the relay does next.
#[derive(Debug, Clone, Copy, PartialEq, Eq)]
pub enum Next {
    /// Read the next event from upstream.
    Read,
    /// Parse the data of the event as a chunk.
    Parse,
    /// End the outgoing stream.
    Stop,
}

/// A tool call as far as it has been streamed.
#[verifier::ext_equal]
pub struct PartialView {
    pub index: u32,
    pub id: Seq<char>,
    pub name: Seq<char>,
    pub arguments: Seq<char>,
}

/// The state of a translation.
#[verifier::ext_equal]
pub struct StreamState {
    /// The id of the response.
    pub id: Seq<char>,
    pub model: Seq<char>,
    /// The messages that were sent upstream.
    pub asked: Seq<MessageView>,
    /// The tools that the request declares.
    pub tools: Seq<Tool>,
    pub quirks: Quirks,
    /// The filter that splits off what was thought.
    pub think: ThinkState,
    /// The pieces of content so far, as long as that filter is undecided.
    pub opening: Seq<Seq<char>>,
    /// The filter that heals leaked calls in the rest.
    pub dsml: FilterState,
    /// What was thought so far.
    pub reasoning: Seq<char>,
    /// The text of the response so far.
    pub text: Seq<char>,
    /// Whether the message was announced.
    pub announced: bool,
    /// The tool calls so far, in the order in which they began.
    pub calls: Seq<PartialView>,
    /// The usage that upstream reported last.
    pub usage: Option<ChatUsage>,
    /// Whether a finish reason has come.
    pub finished: bool,
}

/// The state of a translation that has heard nothing.
pub open spec fn begun(
    id: Seq<char>,
    model: Seq<char>,
    asked: Seq<MessageView>,
    tools: Seq<Tool>,
    quirks: Quirks,
) -> StreamState {
    StreamState {
        id,
        model,
        asked,
        tools,
        quirks,
        think: fresh_think(quirks.think_tags),
        opening: Seq::empty(),
        dsml: fresh_filter(quirks.dsml_heal),
        reasoning: Seq::empty(),
        text: Seq::empty(),
        announced: false,
        calls: Seq::empty(),
        usage: None,
        finished: false,
    }
}

/// The state of a translation, and the events that were sent on the way to it.
#[verifier::ext_equal]
pub struct Progress {
    pub st: StreamState,
    pub sent: Seq<EventView>,
}

// ---------------------------------------------------------------------------
// Pieces of a response
// ---------------------------------------------------------------------------

/// A message that has begun.
pub open spec fn begun_message() -> ItemView {
    ItemView::Message { role: "assistant"@, content: Seq::empty() }
}

/// Something more was thought. The first of it is announced as an output item.
pub open spec fn thought(p: Progress, s: Seq<char>) -> Progress {
    if s.len() == 0 {
        p
    } else {
        let before = if p.st.reasoning.len() == 0 {
            p.sent.push(added_event(0, reasoning_item(p.st.id, Seq::empty())))
        } else {
            p.sent
        };
        Progress {
            st: StreamState { reasoning: p.st.reasoning + s, ..p.st },
            sent: before.push(reasoning_event("rs_"@ + p.st.id, s)),
        }
    }
}

/// Something more is said. Where something was thought before, the first of it is
/// announced as an output item behind that.
pub open spec fn spoke(p: Progress, s: Seq<char>) -> Progress {
    if s.len() == 0 {
        p
    } else if p.st.text.len() == 0 && p.st.reasoning.len() > 0 {
        Progress {
            st: StreamState { text: p.st.text + s, announced: true, ..p.st },
            sent: p.sent.push(added_event(1, begun_message())).push(delta_event(s)),
        }
    } else {
        Progress {
            st: StreamState { text: p.st.text + s, ..p.st },
            sent: p.sent.push(delta_event(s)),
        }
    }
}

/// Text has come out of the filter for what was thought: what the filter for leaked
/// calls lets through of it is said.
pub open spec fn filtered(p: Progress, s: Seq<char>) -> Progress {
    let (dsml, safe) = filter_push(p.st.dsml, s);
    spoke(Progress { st: StreamState { dsml, ..p.st }, ..p }, safe)
}

/// Several texts have come out of that filter, one after the other.
pub open spec fn all_filtered(p: Progress, texts: Seq<Seq<char>>) -> Progress
    decreases texts.len(),
{
    if texts.len() == 0 {
        p
    } else {
        filtered(all_filtered(p, texts.drop_last()), texts.last())
    }
}

/// The visible text that comes out of the filter for what was thought when it decides,
/// where `raw` is all content so far and `text` what the filter gives. White space
/// that leads the response belongs to it, unless a tag has been seen before any
/// visible text.
pub open spec fn in_full(raw: Seq<char>, fired: bool, text: Seq<char>) -> Seq<char> {
    if !fired || speaks_first(raw) {
        leading_white(raw) + text
    } else {
        text
    }
}

/// The parts of a text that begins with the pieces that waited for it: these, and the
/// rest. A text that does not begin with them is all rest.
pub open spec fn parted(waiting: Seq<Seq<char>>, text: Seq<char>) -> (Seq<Seq<char>>, Seq<char>) {
    if occurs_at(text, 0, concat(waiting)) {
        (waiting, text.skip(concat(waiting).len() as int))
    } else {
        (Seq::empty(), text)
    }
}

/// A piece of content has come. As long as it is undecided whether the response
/// speaks, the pieces wait. Once it does, each of them is said by itself.
pub open spec fn content_came(p: Progress, s: Seq<char>) -> Progress {
    let (think, split) = think_push(p.st.think, s);
    if !p.st.think.undecided() {
        filtered(
            thought(Progress { st: StreamState { think, ..p.st }, ..p }, split.reasoning),
            split.text,
        )
    } else if think.undecided() {
        Progress {
            st: StreamState { think, opening: p.st.opening.push(s), ..p.st },
            ..p
        }
    } else {
        let raw = concat(p.st.opening) + s;
        let (earlier, now) = parted(p.st.opening, in_full(raw, think.fired, split.text));
        let decided = StreamState { think, opening: Seq::empty(), ..p.st };
        filtered(
            thought(all_filtered(Progress { st: decided, ..p }, earlier), split.reasoning),
            now,
        )
    }
}

/// The place of the call with that index, from the `i`-th on.
pub open spec fn place_of(calls: Seq<PartialView>, index: u32, i: int) -> Option<int>
    decreases calls.len() - i,
{
    if i < 0 || i >= calls.len() {
        None
    } else if calls[i].index == index {
        Some(i)
    } else {
        place_of(calls, index, i + 1)
    }
}

/// `call`, with what `delta` adds: an id and a name take the place of earlier ones,
/// arguments are added.
pub open spec fn extended(call: PartialView, delta: ToolCallDelta) -> PartialView {
    PartialView {
        index: call.index,
        id: match delta.id {
            Some(id) => id@,
            None => call.id,
        },
        name: match delta.name {
            Some(name) => name@,
            None => call.name,
        },
        arguments: match delta.arguments {
            Some(arguments) => call.arguments + arguments@,
            None => call.arguments,
        },
    }
}

/// A call of which nothing but its index is known.
pub open spec fn bare(index: u32) -> PartialView {
    PartialView { index, id: Seq::empty(), name: Seq::empty(), arguments: Seq::empty() }
}

/// The calls once `delta` has come: it adds to the call of its index, or begins it.
pub open spec fn call_came(calls: Seq<PartialView>, delta: ToolCallDelta) -> Seq<PartialView> {
    match place_of(calls, delta.index, 0) {
        Some(at) => calls.update(at, extended(calls[at], delta)),
        None => calls.push(extended(bare(delta.index), delta)),
    }
}

/// The calls once the first `n` of `deltas` have come.
pub open spec fn calls_came(
    calls: Seq<PartialView>,
    deltas: Seq<ToolCallDelta>,
    n: int,
) -> Seq<PartialView>
    decreases n,
{
    if n <= 0 {
        calls
    } else {
        call_came(calls_came(calls, deltas, n - 1), deltas[n - 1])
    }
}

/// The text of an optional string; empty where there is none.
pub open spec fn text_in(s: Option<String>) -> Seq<char> {
    match s {
        Some(s) => s@,
        None => Seq::empty(),
    }
}

/// What a choice says was thought: by the one name or, where that holds nothing, by the
/// other.
pub open spec fn reasoning_in(choice: ChatStreamChoice) -> Seq<char> {
    if text_in(choice.reasoning_content).len() > 0 {
        text_in(choice.reasoning_content)
    } else {
        text_in(choice.reasoning)
    }
}

/// A choice of a chunk has come.
pub open spec fn choice_came(p: Progress, choice: ChatStreamChoice) -> Progress {
    let reasoned = thought(p, reasoning_in(choice));
    let said = if text_in(choice.content).len() == 0 {
        reasoned
    } else {
        content_came(reasoned, text_in(choice.content))
    };
    Progress {
        st: StreamState {
            calls: calls_came(
                said.st.calls,
                choice.tool_calls@,
                choice.tool_calls@.len() as int,
            ),
            finished: said.st.finished || choice.finished,
            ..said.st
        },
        ..said
    }
}

/// The first `n` choices of a chunk have come.
pub open spec fn choices_came(p: Progress, choices: Seq<ChatStreamChoice>, n: int) -> Progress
    decreases n,
{
    if n <= 0 {
        p
    } else {
        choice_came(choices_came(p, choices, n - 1), choices[n - 1])
    }
}

/// A chunk has come.
pub open spec fn chunk_came(p: Progress, chunk: ChatStreamChunk) -> Progress {
    let after = choices_came(p, chunk.choices@, chunk.choices@.len() as int);
    Progress {
        st: StreamState {
            usage: match chunk.usage {
                Some(usage) => Some(usage),
                None => after.st.usage,
            },
            ..after.st
        },
        ..after
    }
}

// ---------------------------------------------------------------------------
// The end of a response
// ---------------------------------------------------------------------------

/// The filters give what they withhold: what was thought, what is still said, and
/// the leaked calls that heal.
pub open spec fn drained(p: Progress) -> (Progress, Seq<Call>) {
    let split = think_finish(p.st.think);
    let (earlier, now) = if p.st.think.undecided() {
        parted(p.st.opening, in_full(concat(p.st.opening), false, split.text))
    } else {
        (Seq::empty(), split.text)
    };
    let emptied = StreamState {
        think: fresh_think(p.st.quirks.think_tags),
        opening: Seq::empty(),
        ..p.st
    };
    let passed = filtered(
        thought(all_filtered(Progress { st: emptied, ..p }, earlier), split.reasoning),
        now,
    );
    let (rest, calls) = filter_finish(passed.st.dsml);
    let clean = StreamState { dsml: fresh_filter(p.st.quirks.dsml_heal), ..passed.st };
    (spoke(Progress { st: clean, ..passed }, rest), calls)
}

/// Whether a message was announced only behind something that was thought.
pub open spec fn is_in_order(st: StreamState) -> bool {
    st.announced ==> st.reasoning.len() > 0
}

/// What the filters give changes nothing else.
pub proof fn lemma_drained_keeps(p: Progress)
    ensures
        ({
            let st = drained(p).0.st;
            &&& st.id == p.st.id
            &&& st.model == p.st.model
            &&& st.asked == p.st.asked
            &&& st.tools == p.st.tools
            &&& st.calls == p.st.calls
            &&& st.usage == p.st.usage
            &&& st.finished == p.st.finished
            &&& is_in_order(p.st) ==> is_in_order(st)
        }),
{
    let split = think_finish(p.st.think);
    let emptied = StreamState {
        think: fresh_think(p.st.quirks.think_tags),
        opening: Seq::empty(),
        ..p.st
    };
    lemma_all_filtered_keeps(Progress { st: emptied, ..p }, p.st.opening);
}

/// Text that comes out of the filters changes nothing else.
pub proof fn lemma_all_filtered_keeps(p: Progress, texts: Seq<Seq<char>>)
    ensures
        ({
            let st = all_filtered(p, texts).st;
            &&& st.id == p.st.id
            &&& st.model == p.st.model
            &&& st.asked == p.st.asked
            &&& st.tools == p.st.tools
            &&& st.calls == p.st.calls
            &&& st.usage == p.st.usage
            &&& st.finished == p.st.finished
            &&& is_in_order(p.st) ==> is_in_order(st)
        }),
    decreases texts.len(),
{
    if texts.len() > 0 {
        lemma_all_filtered_keeps(p, texts.drop_last());
    }
}

/// The streamed calls as tool calls.
pub open spec fn whole_calls(calls: Seq<PartialView>) -> Seq<ToolCallView> {
    calls.map_values(
        |c: PartialView|
            ToolCallView::Function { id: c.id, name: c.name, arguments: c.arguments },
    )
}

/// The message that the response amounts to, with the given calls.
pub open spec fn whole_message(st: StreamState, calls: Seq<ToolCallView>) -> MessageView {
    MessageView {
        role: "assistant"@,
        content: if st.text.len() > 0 || calls.len() == 0 {
            Some(ContentView::Text(st.text))
        } else {
            None
        },
        reasoning_content: if st.reasoning.len() > 0 {
            Some(st.reasoning)
        } else {
            None
        },
        tool_calls: if calls.len() > 0 {
            Some(calls)
        } else {
            None
        },
        tool_call_id: None,
        name: None,
    }
}

/// The message that the response amounts to when the leaked calls `healed` get the
/// given ids.
pub open spec fn last_message(
    st: StreamState,
    healed: Seq<Call>,
    ids: Seq<Seq<char>>,
) -> MessageView {
    whole_message(st, whole_calls(st.calls) + identified(healed, ids))
}

/// The events with which a response ends that amounts to the message `m`.
pub open spec fn last_events(st: StreamState, m: MessageView) -> Seq<EventView> {
    let items = output_items(st.id, st.tools, m);
    closings(items, items.len() as int, st.announced).push(
        completed_event(st.id, st.model, items, st.usage),
    )
}

// ---------------------------------------------------------------------------
// Steps
// ---------------------------------------------------------------------------

/// Whether the data of an event says that the stream is over.
pub open spec fn is_done(data: Seq<char>) -> bool {
    trim(data) == "[DONE]"@
}

/// Whether a stream is over without having said so.
pub open spec fn is_over(heard: Upstream) -> bool {
    heard is Broken || heard is Closed
}

/// Whether what is heard completes the response: upstream says that it is done, or
/// the stream is over behind a finish reason.
pub open spec fn completes(st: StreamState, heard: Upstream) -> bool {
    match heard {
        Upstream::Data(data) => is_done(data@),
        Upstream::Broken | Upstream::Closed => st.finished && st.quirks.missing_done,
        _ => false,
    }
}

/// What there is after a step.
#[verifier::ext_equal]
pub struct Stepped {
    pub st: StreamState,
    pub stored: Map<Seq<char>, Seq<MessageView>>,
    pub events: Seq<EventView>,
    pub next: Next,
}

/// The number of ids for healed calls that a step needs.
pub open spec fn ids_needed(st: StreamState, heard: Upstream) -> nat {
    if completes(st, heard) {
        drained(Progress { st, sent: Seq::empty() }).1.len()
    } else {
        0
    }
}

/// What there is once `heard` has come from upstream, where healed calls get the
/// given ids. A response that is complete is stored: what was sent upstream, and the
/// message that it amounts to. A stream that is cut off fails, and nothing is stored.
pub open spec fn step_after(
    st: StreamState,
    stored: Map<Seq<char>, Seq<MessageView>>,
    heard: Upstream,
    ids: Seq<Seq<char>>,
) -> Stepped {
    let here = Progress { st, sent: Seq::empty() };
    if completes(st, heard) {
        let (last, healed) = drained(here);
        let m = last_message(last.st, healed, ids);
        Stepped {
            st: last.st,
            stored: stored.insert(st.id, st.asked.push(m)),
            events: last.sent + last_events(last.st, m),
            next: Next::Stop,
        }
    } else {
        match heard {
            Upstream::Refused { status, body } => Stepped {
                st,
                stored,
                events: seq![refused_event(status, body@)],
                next: Next::Stop,
            },
            Upstream::Failed { message } => Stepped {
                st,
                stored,
                events: seq![unsent_event(message@)],
                next: Next::Stop,
            },
            Upstream::Data(data) => Stepped {
                st,
                stored,
                events: Seq::empty(),
                next: if data@.len() == 0 {
                    Next::Read
                } else {
                    Next::Parse
                },
            },
            Upstream::Chunk(chunk) => Stepped {
                st: chunk_came(here, chunk).st,
                stored,
                events: chunk_came(here, chunk).sent,
                next: Next::Read,
            },
            Upstream::Unreadable => Stepped { st, stored, events: Seq::empty(), next: Next::Read },
            Upstream::Broken | Upstream::Closed => Stepped {
                st,
                stored,
                events: seq![failed_event(st.id, st.model)],
                next: Next::Stop,
            },
        }
    }
}

/// Whether there can be `after` once `heard` has come from upstream: healed calls get
/// ids of their own.
pub open spec fn steps_to(
    st: StreamState,
    stored: Map<Seq<char>, Seq<MessageView>>,
    heard: Upstream,
    after: Stepped,
) -> bool {
    exists|ids: Seq<Seq<char>>|
        #[trigger] are_call_ids(ids, ids_needed(st, heard) as int) && after == step_after(
            st,
            stored,
            heard,
            ids,
        )
}

/// What had to be repaired, which is known when the response is complete.
pub open spec fn repairs_at(st: StreamState, heard: Upstream, r: Repairs) -> bool {
    &&& r.think_tags == (completes(st, heard) && st.think.fired)
    &&& r.dsml_heal == ids_needed(st, heard)
    &&& r.missing_done == (completes(st, heard) && is_over(heard))
}

} // verus!
