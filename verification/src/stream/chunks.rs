//! What a stream of chunks amounts to.

use super::events::{closings, completed_event, EventView};
use super::laws::{contents_came, law_healthy_stream_is_untouched, law_only_complete_turn_is_stored};
use super::sent::{are_whole, delta_events, law_healthy_pieces_are_sent_as_they_come};
use super::state::{
    all_filtered, begun, choice_came, choices_came, chunk_came, completes, content_came, drained,
    filtered, in_full, is_in_order, last_events, last_message, lemma_all_filtered_keeps,
    lemma_drained_keeps, parted, reasoning_in, spoke, step_after, text_in, thought, whole_calls,
    Progress, StreamState, Upstream,
};
use crate::dsml::heal::identified;
use crate::dsml::stream::{filter_finish, filter_push, fresh_filter, markers};
use crate::output::{call_items, message_item, output_items};
use crate::quirks::Quirks;
use crate::tags::first_tag;
use crate::text::concat;
use crate::think::filter::{all_tags, fresh_think, think_finish, think_push};
use crate::types::{ChatStreamChoice, ChatStreamChunk, ChatUsage, ContentView, MessageView};
use vstd::prelude::*;
use vstd::string::*;

verus! {

/// Where a translation stands after some chunks.
pub open spec fn chunks_came(p: Progress, chunks: Seq<ChatStreamChunk>) -> Progress
    decreases chunks.len(),
{
    if chunks.len() == 0 {
        p
    } else {
        chunk_came(chunks_came(p, chunks.drop_last()), chunks.last())
    }
}

/// `p`, where nothing has been sent.
pub open spec fn unsent(p: Progress) -> Progress {
    Progress { sent: Seq::empty(), ..p }
}

/// `p` behind events that were sent before, with what is known of the end of the stream.
spec fn behind(
    sent: Seq<EventView>,
    p: Progress,
    finished: bool,
    usage: Option<ChatUsage>,
) -> Progress {
    Progress { st: StreamState { finished, usage, ..p.st }, sent: sent + p.sent }
}

// ---------------------------------------------------------------------------
// What pieces do, whatever was sent before
// ---------------------------------------------------------------------------

proof fn lemma_thought_behind(
    sent: Seq<EventView>,
    p: Progress,
    finished: bool,
    usage: Option<ChatUsage>,
    s: Seq<char>,
)
    ensures
        thought(behind(sent, p, finished, usage), s) == behind(
            sent,
            thought(p, s),
            finished,
            usage,
        ),
{
    assert(thought(behind(sent, p, finished, usage), s).sent =~= sent + thought(p, s).sent);
}

proof fn lemma_spoke_behind(
    sent: Seq<EventView>,
    p: Progress,
    finished: bool,
    usage: Option<ChatUsage>,
    s: Seq<char>,
)
    ensures
        spoke(behind(sent, p, finished, usage), s) == behind(sent, spoke(p, s), finished, usage),
{
    assert(spoke(behind(sent, p, finished, usage), s).sent =~= sent + spoke(p, s).sent);
}

proof fn lemma_filtered_behind(
    sent: Seq<EventView>,
    p: Progress,
    finished: bool,
    usage: Option<ChatUsage>,
    s: Seq<char>,
)
    ensures
        filtered(behind(sent, p, finished, usage), s) == behind(
            sent,
            filtered(p, s),
            finished,
            usage,
        ),
{
    let (dsml, safe) = filter_push(p.st.dsml, s);
    lemma_spoke_behind(
        sent,
        Progress { st: StreamState { dsml, ..p.st }, ..p },
        finished,
        usage,
        safe,
    );
}

proof fn lemma_all_filtered_behind(
    sent: Seq<EventView>,
    p: Progress,
    finished: bool,
    usage: Option<ChatUsage>,
    texts: Seq<Seq<char>>,
)
    ensures
        all_filtered(behind(sent, p, finished, usage), texts) == behind(
            sent,
            all_filtered(p, texts),
            finished,
            usage,
        ),
    decreases texts.len(),
{
    if texts.len() > 0 {
        lemma_all_filtered_behind(sent, p, finished, usage, texts.drop_last());
        lemma_filtered_behind(
            sent,
            all_filtered(p, texts.drop_last()),
            finished,
            usage,
            texts.last(),
        );
    }
}

/// Pieces that waited, what was thought and the rest come out one after the other.
proof fn lemma_parts_behind(
    sent: Seq<EventView>,
    p: Progress,
    finished: bool,
    usage: Option<ChatUsage>,
    earlier: Seq<Seq<char>>,
    reasoning: Seq<char>,
    now: Seq<char>,
)
    ensures
        filtered(
            thought(all_filtered(behind(sent, p, finished, usage), earlier), reasoning),
            now,
        ) == behind(
            sent,
            filtered(thought(all_filtered(p, earlier), reasoning), now),
            finished,
            usage,
        ),
{
    lemma_all_filtered_behind(sent, p, finished, usage, earlier);
    lemma_thought_behind(sent, all_filtered(p, earlier), finished, usage, reasoning);
    lemma_filtered_behind(
        sent,
        thought(all_filtered(p, earlier), reasoning),
        finished,
        usage,
        now,
    );
}

proof fn lemma_content_behind(
    sent: Seq<EventView>,
    p: Progress,
    finished: bool,
    usage: Option<ChatUsage>,
    s: Seq<char>,
)
    ensures
        content_came(behind(sent, p, finished, usage), s) == behind(
            sent,
            content_came(p, s),
            finished,
            usage,
        ),
{
    let (think, split) = think_push(p.st.think, s);
    let none = Seq::<Seq<char>>::empty();
    if !p.st.think.undecided() {
        let next = Progress { st: StreamState { think, ..p.st }, ..p };
        assert(all_filtered(next, none) == next);
        assert(all_filtered(behind(sent, next, finished, usage), none) == behind(
            sent,
            next,
            finished,
            usage,
        ));
        lemma_parts_behind(sent, next, finished, usage, none, split.reasoning, split.text);
    } else if !think.undecided() {
        let raw = concat(p.st.opening) + s;
        let (earlier, now) = parted(p.st.opening, in_full(raw, think.fired, split.text));
        let decided = Progress {
            st: StreamState { think, opening: Seq::empty(), ..p.st },
            ..p
        };
        lemma_parts_behind(sent, decided, finished, usage, earlier, split.reasoning, now);
    }
}

proof fn lemma_drained_behind(
    sent: Seq<EventView>,
    p: Progress,
    finished: bool,
    usage: Option<ChatUsage>,
)
    ensures
        drained(behind(sent, p, finished, usage)) == (
            behind(sent, drained(p).0, finished, usage),
            drained(p).1,
        ),
{
    let split = think_finish(p.st.think);
    let (earlier, now) = if p.st.think.undecided() {
        parted(p.st.opening, in_full(concat(p.st.opening), false, split.text))
    } else {
        (Seq::empty(), split.text)
    };
    let emptied = Progress {
        st: StreamState {
            think: fresh_think(p.st.quirks.think_tags),
            opening: Seq::empty(),
            ..p.st
        },
        ..p
    };
    lemma_parts_behind(sent, emptied, finished, usage, earlier, split.reasoning, now);
    let passed = filtered(thought(all_filtered(emptied, earlier), split.reasoning), now);
    let (rest, calls) = filter_finish(passed.st.dsml);
    let clean = Progress {
        st: StreamState { dsml: fresh_filter(p.st.quirks.dsml_heal), ..passed.st },
        ..passed
    };
    lemma_spoke_behind(sent, clean, finished, usage, rest);
}

/// A choice does the same whatever was sent before it.
proof fn lemma_choice_behind(sent: Seq<EventView>, p: Progress, choice: ChatStreamChoice)
    ensures
        ({
            let alone = choice_came(p, choice);
            choice_came(behind(sent, p, p.st.finished, p.st.usage), choice) == behind(
                sent,
                alone,
                alone.st.finished,
                alone.st.usage,
            )
        }),
{
    let reasoning = reasoning_in(choice);
    let reasoned = thought(p, reasoning);
    lemma_thought_behind(sent, p, p.st.finished, p.st.usage, reasoning);
    lemma_content_behind(sent, reasoned, p.st.finished, p.st.usage, text_in(choice.content));
    lemma_content_keeps(reasoned, text_in(choice.content));
}

proof fn lemma_choices_behind(
    sent: Seq<EventView>,
    p: Progress,
    choices: Seq<ChatStreamChoice>,
    n: int,
)
    ensures
        ({
            let alone = choices_came(p, choices, n);
            choices_came(behind(sent, p, p.st.finished, p.st.usage), choices, n) == behind(
                sent,
                alone,
                alone.st.finished,
                alone.st.usage,
            )
        }),
    decreases n,
{
    if n > 0 {
        lemma_choices_behind(sent, p, choices, n - 1);
        lemma_choice_behind(sent, choices_came(p, choices, n - 1), choices[n - 1]);
    }
}

/// The end of a stream sends the same events whatever was sent before.
proof fn lemma_end_adds_up(p: Progress)
    ensures
        ({
            let (alone, calls) = drained(unsent(p));
            drained(p) == (Progress { sent: p.sent + alone.sent, ..alone }, calls)
        }),
{
    let alone = unsent(p);
    assert(behind(p.sent, alone, p.st.finished, p.st.usage) =~= p);
    lemma_drained_behind(p.sent, alone, p.st.finished, p.st.usage);
    lemma_drained_keeps(alone);
    lemma_behind(p.sent, drained(alone).0);
}

proof fn lemma_behind(sent: Seq<EventView>, p: Progress)
    ensures
        behind(sent, p, p.st.finished, p.st.usage) == (Progress { sent: sent + p.sent, ..p }),
{
}

/// The events of a stream add up: a chunk, and likewise the end, sends the same events
/// whatever was sent before, and does the same to the response.
pub proof fn law_events_add_up(p: Progress, chunk: ChatStreamChunk)
    ensures
        ({
            let alone = chunk_came(unsent(p), chunk);
            chunk_came(p, chunk) == (Progress { sent: p.sent + alone.sent, ..alone })
        }),
        ({
            let (alone, calls) = drained(unsent(p));
            drained(p) == (Progress { sent: p.sent + alone.sent, ..alone }, calls)
        }),
{
    let alone = unsent(p);
    assert(behind(p.sent, alone, p.st.finished, p.st.usage) =~= p);
    lemma_choices_behind(p.sent, alone, chunk.choices@, chunk.choices@.len() as int);
    lemma_end_adds_up(p);
}

// ---------------------------------------------------------------------------
// Streams of text
// ---------------------------------------------------------------------------

/// The contents of the first `n` choices that hold something.
pub open spec fn choice_contents(choices: Seq<ChatStreamChoice>, n: int) -> Seq<Seq<char>>
    decreases n,
{
    if n <= 0 {
        Seq::empty()
    } else if text_in(choices[n - 1].content).len() == 0 {
        choice_contents(choices, n - 1)
    } else {
        choice_contents(choices, n - 1).push(text_in(choices[n - 1].content))
    }
}

/// The contents of some chunks that hold something.
pub open spec fn chunk_contents(chunks: Seq<ChatStreamChunk>) -> Seq<Seq<char>>
    decreases chunks.len(),
{
    if chunks.len() == 0 {
        Seq::empty()
    } else {
        chunk_contents(chunks.drop_last()) + choice_contents(
            chunks.last().choices@,
            chunks.last().choices@.len() as int,
        )
    }
}

/// Whether a choice brings neither tool calls nor anything that was thought.
pub open spec fn is_of_text(choice: ChatStreamChoice) -> bool {
    reasoning_in(choice).len() == 0 && choice.tool_calls@.len() == 0
}

/// Whether all choices of some chunks are such.
pub open spec fn are_of_text(chunks: Seq<ChatStreamChunk>) -> bool {
    forall|i: int, j: int|
        0 <= i < chunks.len() && 0 <= j < chunks[i].choices@.len() ==> is_of_text(
            #[trigger] chunks[i].choices@[j],
        )
}

proof fn lemma_contents_joined(p: Progress, a: Seq<Seq<char>>, b: Seq<Seq<char>>)
    ensures
        contents_came(contents_came(p, a), b) == contents_came(p, a + b),
    decreases b.len(),
{
    if b.len() == 0 {
        assert(a + b =~= a);
    } else {
        lemma_contents_joined(p, a, b.drop_last());
        assert((a + b).drop_last() =~= a + b.drop_last());
    }
}

proof fn lemma_choices_of_text(
    p: Progress,
    finished: bool,
    usage: Option<ChatUsage>,
    choices: Seq<ChatStreamChoice>,
    n: int,
)
    requires
        n <= choices.len(),
        forall|j: int| 0 <= j < n ==> is_of_text(#[trigger] choices[j]),
    ensures
        ({
            let none = Seq::<EventView>::empty();
            let after = choices_came(behind(none, p, finished, usage), choices, n);
            after == behind(
                none,
                contents_came(p, choice_contents(choices, n)),
                after.st.finished,
                usage,
            )
        }),
    decreases n,
{
    let none = Seq::<EventView>::empty();
    if n > 0 {
        lemma_choices_of_text(p, finished, usage, choices, n - 1);
        let before = choices_came(behind(none, p, finished, usage), choices, n - 1);
        let contents = choice_contents(choices, n - 1);
        let s = text_in(choices[n - 1].content);
        lemma_content_behind(none, contents_came(p, contents), before.st.finished, usage, s);
        assert(contents.push(s).drop_last() =~= contents);
    }
}

/// Chunks that bring neither tool calls nor anything that was thought are taken in as
/// their contents, one after the other. Besides, they say whether the stream is
/// finished, and what was used.
pub proof fn law_chunks_of_text_are_their_contents(p: Progress, chunks: Seq<ChatStreamChunk>)
    requires
        are_of_text(chunks),
    ensures
        ({
            let all = chunks_came(p, chunks);
            let contents = contents_came(p, chunk_contents(chunks));
            &&& all.sent == contents.sent
            &&& all.st == (StreamState {
                finished: all.st.finished,
                usage: all.st.usage,
                ..contents.st
            })
            &&& drained(all).0.sent == drained(contents).0.sent
            &&& drained(all).0.st == (StreamState {
                finished: all.st.finished,
                usage: all.st.usage,
                ..drained(contents).0.st
            })
            &&& drained(all).1 == drained(contents).1
        }),
    decreases chunks.len(),
{
    let none = Seq::<EventView>::empty();
    if chunks.len() > 0 {
        let before = chunks.drop_last();
        assert forall|i: int, j: int|
            0 <= i < before.len() && 0 <= j < before[i].choices@.len() implies is_of_text(
            #[trigger] before[i].choices@[j],
        ) by {
            assert(before[i] == chunks[i]);
            assert(is_of_text(chunks[i].choices@[j]));
        }
        law_chunks_of_text_are_their_contents(p, before);
        let earlier = chunks_came(p, before);
        let chunk = chunks.last();
        let n = chunk.choices@.len() as int;
        assert forall|j: int| 0 <= j < n implies is_of_text(#[trigger] chunk.choices@[j]) by {
            assert(is_of_text(chunks[chunks.len() - 1].choices@[j]));
        }
        let contents = contents_came(p, chunk_contents(before));
        assert(behind(none, contents, earlier.st.finished, earlier.st.usage) =~= earlier);
        lemma_choices_of_text(
            contents,
            earlier.st.finished,
            earlier.st.usage,
            chunk.choices@,
            n,
        );
        lemma_contents_joined(p, chunk_contents(before), choice_contents(chunk.choices@, n));
    }
    let all = chunks_came(p, chunks);
    let contents = contents_came(p, chunk_contents(chunks));
    assert(none + contents.sent =~= contents.sent);
    assert(behind(none, contents, all.st.finished, all.st.usage) =~= all);
    lemma_drained_behind(none, contents, all.st.finished, all.st.usage);
    assert(none + drained(contents).0.sent =~= drained(contents).0.sent);
}

/// A piece of content changes nothing but what was thought and said.
pub proof fn lemma_content_keeps(p: Progress, s: Seq<char>)
    ensures
        ({
            let st = content_came(p, s).st;
            &&& st.id == p.st.id
            &&& st.model == p.st.model
            &&& st.asked == p.st.asked
            &&& st.tools == p.st.tools
            &&& st.calls == p.st.calls
            &&& st.usage == p.st.usage
            &&& st.finished == p.st.finished
            &&& is_in_order(p.st) ==> is_in_order(st)
        }),
{
    let (think, split) = think_push(p.st.think, s);
    let decided = StreamState { think, opening: Seq::empty(), ..p.st };
    lemma_all_filtered_keeps(Progress { st: decided, ..p }, p.st.opening);
}

proof fn lemma_contents_keep(p: Progress, deltas: Seq<Seq<char>>)
    ensures
        ({
            let st = contents_came(p, deltas).st;
            &&& st.id == p.st.id
            &&& st.model == p.st.model
            &&& st.asked == p.st.asked
            &&& st.tools == p.st.tools
            &&& st.calls == p.st.calls
            &&& is_in_order(p.st) ==> is_in_order(st)
        }),
    decreases deltas.len(),
{
    if deltas.len() > 0 {
        lemma_contents_keep(p, deltas.drop_last());
        lemma_content_keeps(contents_came(p, deltas.drop_last()), deltas.last());
    }
}

/// The message of the assistant that holds nothing but `text`.
pub open spec fn plain_answer(text: Seq<char>) -> MessageView {
    MessageView {
        role: "assistant"@,
        content: Some(ContentView::Text(text)),
        reasoning_content: None,
        tool_calls: None,
        tool_call_id: None,
        name: None,
    }
}

/// How a stream of text without markup ends.
proof fn lemma_healthy_end(start: Progress, quirks: Quirks, chunks: Seq<ChatStreamChunk>)
    requires
        start.st == begun(start.st.id, start.st.model, start.st.asked, start.st.tools, quirks),
        are_of_text(chunks),
        first_tag(concat(chunk_contents(chunks)), all_tags()) is None,
        first_tag(concat(chunk_contents(chunks)), markers()) is None,
    ensures
        ({
            let contents = chunk_contents(chunks);
            let here = chunks_came(start, chunks);
            let (last, calls) = drained(unsent(here));
            &&& here.st.id == start.st.id && last.st.id == start.st.id
            &&& here.st.model == start.st.model && last.st.model == start.st.model
            &&& here.st.asked == start.st.asked
            &&& here.st.tools == start.st.tools && last.st.tools == start.st.tools
            &&& last.st.calls.len() == 0
            &&& last.st.usage == here.st.usage
            &&& last.st.text == concat(contents)
            &&& last.st.reasoning.len() == 0
            &&& !last.st.announced
            &&& calls.len() == 0
            &&& are_whole(contents) ==> here.sent + last.sent == start.sent + delta_events(
                contents,
            )
        }),
{
    let contents = chunk_contents(chunks);
    let here = chunks_came(start, chunks);
    law_chunks_of_text_are_their_contents(start, chunks);
    law_healthy_stream_is_untouched(start, quirks, contents);
    lemma_contents_keep(start, contents);
    lemma_end_adds_up(here);
    lemma_drained_keeps(here);
    if are_whole(contents) {
        law_healthy_pieces_are_sent_as_they_come(start, quirks, contents);
    }
}

/// A response that amounts to nothing but text ends with one event.
proof fn lemma_plain_end(st: StreamState, m: MessageView)
    requires
        !st.announced,
        m == plain_answer(m.text()),
    ensures
        last_events(st, m).len() == 1,
{
    reveal_with_fuel(closings, 3);
    reveal_with_fuel(call_items, 1);
    assert(output_items(st.id, st.tools, m) =~= seq![message_item(m.text())]);
}

/// A stream of text without markup is stored as it came, whatever quirks are enabled:
/// behind what was sent upstream stands one message of the assistant, with the contents
/// of the chunks as its text and nothing else. The last event shows that message. If no
/// piece ends in the beginning of markup, the events before it are one for each content.
pub proof fn law_healthy_turn_is_stored(
    start: Progress,
    quirks: Quirks,
    chunks: Seq<ChatStreamChunk>,
    stored: Map<Seq<char>, Seq<MessageView>>,
    heard: Upstream,
    ids: Seq<Seq<char>>,
)
    requires
        start.st == begun(start.st.id, start.st.model, start.st.asked, start.st.tools, quirks),
        are_of_text(chunks),
        first_tag(concat(chunk_contents(chunks)), all_tags()) is None,
        first_tag(concat(chunk_contents(chunks)), markers()) is None,
        completes(chunks_came(start, chunks).st, heard),
    ensures
        ({
            let here = chunks_came(start, chunks);
            let after = step_after(here.st, stored, heard, ids);
            let m = plain_answer(concat(chunk_contents(chunks)));
            let shown = completed_event(
                start.st.id,
                start.st.model,
                output_items(start.st.id, start.st.tools, m),
                here.st.usage,
            );
            &&& after.stored == stored.insert(start.st.id, start.st.asked.push(m))
            &&& after.events.last() == shown
            &&& are_whole(chunk_contents(chunks)) ==> here.sent + after.events == (start.sent
                + delta_events(chunk_contents(chunks))).push(shown)
        }),
{
    let contents = chunk_contents(chunks);
    let here = chunks_came(start, chunks);
    let (last, calls) = drained(unsent(here));
    let m = plain_answer(concat(contents));
    lemma_healthy_end(start, quirks, chunks);
    law_only_complete_turn_is_stored(here.st, stored, heard, ids);
    assert(whole_calls(last.st.calls) + identified(calls, ids) =~= Seq::empty());
    assert(last_message(last.st, calls, ids) =~= m);
    if are_whole(contents) {
        lemma_plain_end(last.st, m);
        let shown = last_events(last.st, m);
        assert(here.sent + (last.sent + shown) =~= (here.sent + last.sent) + shown);
        assert(shown =~= seq![shown.last()]);
        assert((here.sent + last.sent) + shown =~= (here.sent + last.sent).push(shown.last()));
    }
}

} // verus!
