//! What the quirks that repair an answer do together, and what they say of it.

use super::answers::{holds, law_healthy_message_is_not_repaired, law_message_is_shown_in_full};
use super::healing::{has_calls, law_all_leaked_calls_are_adopted, law_each_leaked_call_is_adopted};
use super::markup::{
    around_blocks, inside_blocks, law_all_blocks_are_reasoning, law_all_blocks_leave_the_message,
    lemma_blocks, mused, Musing,
};
use crate::dsml::grammar::healed;
use crate::dsml::heal::{heals_to, law_message_without_marker_stays};
use crate::dsml::several::{around_leaks, can_leak, law_all_leaked_calls_heal, leaked, Leak};
use crate::dsml::stream::markers;
use crate::ids::is_id;
use crate::output::output_items;
use crate::quirks::Quirks;
use crate::stream::laws::{
    contents_came, law_stream_amounts_to_its_text, lemma_unmarked, lemma_white_before_block,
};
use crate::stream::state::{
    begun, drained, lemma_drained_keeps, repairs_at, steps_to, Progress, Stepped, StreamState,
    Upstream,
};
use crate::stream::turns::{ends_turn, shows};
use crate::tags::first_tag;
use crate::text::{concat, is_blank, lemma_trim_start_joined, trim, trim_start};
use crate::think::filter::{all_tags, close_tags, think_split};
use crate::think::heal::think_healed;
use crate::think::laws::{law_message_without_tags_stays, law_text_without_tags_fires_nothing};
use crate::think::opening::{kept_white, law_kept_white_is_that_of_the_text};
use crate::translate::{answer, is_conversion, repaired, repairs_of, usage_of, Repairs};
use crate::types::{
    items_view, ChatMessage, ChatResponse, MessageView, ResponsesResponse, Tool, ToolCallView,
};
use vstd::prelude::*;
use vstd::string::*;

verus! {

// ---------------------------------------------------------------------------
// Messages
// ---------------------------------------------------------------------------

/// Each of the two quirks works by itself: with the one, only blocks leave the text; with
/// the other, only calls do.
pub proof fn law_quirks_work_by_themselves(
    before: MessageView,
    quirks: Quirks,
    after: MessageView,
)
    requires
        repaired(before, quirks, after),
    ensures
        quirks.think_tags && !quirks.dsml_heal ==> after == think_healed(before),
        quirks.dsml_heal && !quirks.think_tags ==> heals_to(before, after),
        quirks.dsml_heal && first_tag(before.text(), all_tags()) is None ==> heals_to(
            before,
            after,
        ),
{
    if first_tag(before.text(), all_tags()) is None {
        law_message_without_tags_stays(before);
    }
}

/// What stands in blocks is no call. Where the text around them holds no marker, all that
/// the blocks hold is reasoning, whatever it is, and no tool call is added.
#[verifier::rlimit(50)]
pub proof fn law_no_call_is_read_in_reasoning(
    before: MessageView,
    quirks: Quirks,
    after: MessageView,
    blocks: Seq<Musing>,
    tail: Seq<char>,
)
    requires
        repaired(before, quirks, after),
        quirks.think_tags,
        before.text() == mused(blocks, tail),
        blocks.len() > 0,
        forall|i: int| 0 <= i < blocks.len() ==> (#[trigger] blocks[i]).is_sound(),
        first_tag(tail, all_tags()) is None,
        first_tag(trim_start(around_blocks(blocks, tail)), markers()) is None,
        inside_blocks(blocks).len() > 0,
    ensures
        after.tool_calls == before.tool_calls,
        after.text() == trim_start(around_blocks(blocks, tail)),
        before.reasoning_content is None ==> after.reasoning_content == Some(
            inside_blocks(blocks),
        ),
        before.reasoning_content matches Some(had) ==> after.reasoning_content == Some(
            had + inside_blocks(blocks),
        ),
{
    let split = think_healed(before);
    let text = trim_start(around_blocks(blocks, tail));
    law_all_blocks_leave_the_message(before, blocks, tail);
    if text.len() == 0 {
        assert(split.text() =~= text);
    }
    if quirks.dsml_heal {
        law_message_without_marker_stays(split, after);
    }
}

/// A message in whose text both blocks and calls leaked is repaired in full: what the blocks
/// hold is added to the reasoning, each call becomes a tool call with its own name and
/// arguments, and the text around both is left.
#[verifier::rlimit(50)]
pub proof fn law_blocks_and_calls_are_both_repaired(
    before: MessageView,
    quirks: Quirks,
    after: MessageView,
    had: Seq<ToolCallView>,
    blocks: Seq<Musing>,
    end: Seq<char>,
    leaks: Seq<Leak>,
    tail: Seq<char>,
)
    requires
        repaired(before, quirks, after),
        quirks.think_tags && quirks.dsml_heal,
        has_calls(before, had),
        before.text() == mused(blocks, end),
        blocks.len() > 0,
        forall|i: int| 0 <= i < blocks.len() ==> (#[trigger] blocks[i]).is_sound(),
        first_tag(end, all_tags()) is None,
        trim_start(around_blocks(blocks, end)) == leaked(leaks, tail),
        leaks.len() > 0,
        can_leak(leaks, tail),
        inside_blocks(blocks).len() > 0,
    ensures
        after.tool_calls is Some,
        after.tool_calls->0.len() == had.len() + leaks.len(),
        forall|i: int| 0 <= i < had.len() ==> after.tool_calls->0[i] == #[trigger] had[i],
        forall|i: int|
            0 <= i < leaks.len() ==> {
                let added = after.tool_calls->0[had.len() + i];
                &&& added is Function
                &&& added->name == (#[trigger] leaks[i]).name
                &&& added->arguments == leaks[i].json()
                &&& is_id(added->id, "call_dsml_"@)
            },
        after.text() == trim(around_leaks(leaks, tail)),
        before.reasoning_content is None ==> after.reasoning_content == Some(
            inside_blocks(blocks),
        ),
        before.reasoning_content matches Some(thought) ==> after.reasoning_content == Some(
            thought + inside_blocks(blocks),
        ),
        after.role == before.role,
{
    let split = think_healed(before);
    law_all_blocks_leave_the_message(before, blocks, end);
    if leaked(leaks, tail).len() == 0 {
        assert(split.text() =~= leaked(leaks, tail));
    }
    law_all_leaked_calls_are_adopted(split, after, had, leaks, tail);
}

/// What is said of a repair is true of it. As many calls were healed as the message has more
/// of than before. Where neither calls were healed nor think markup was split off, the
/// message is as it was. A quirk that is not enabled repairs nothing.
pub proof fn law_repairs_are_reported(
    before: MessageView,
    quirks: Quirks,
    after: MessageView,
    r: Repairs,
    had: Seq<ToolCallView>,
    has: Seq<ToolCallView>,
)
    requires
        repaired(before, quirks, after),
        repairs_of(before, quirks, r),
        has_calls(before, had),
        has_calls(after, has),
    ensures
        has.len() == had.len() + r.dsml_heal,
        !r.think_tags && r.dsml_heal == 0 ==> after == before,
        !quirks.think_tags ==> !r.think_tags,
        !quirks.dsml_heal ==> r.dsml_heal == 0,
        first_tag(before.text(), all_tags()) is None ==> !r.think_tags,
        !r.missing_done,
{
    let split = if quirks.think_tags {
        think_healed(before)
    } else {
        before
    };
    if quirks.dsml_heal {
        if let Some((cleaned, calls)) = healed(split.text()) {
            law_each_leaked_call_is_adopted(split, after, had, cleaned, calls);
        }
    }
    if first_tag(before.text(), all_tags()) is None {
        law_text_without_tags_fires_nothing(before.text());
    }
}

/// Think markup that holds something is reported.
pub proof fn law_blocks_are_reported(
    before: MessageView,
    quirks: Quirks,
    r: Repairs,
    blocks: Seq<Musing>,
    tail: Seq<char>,
)
    requires
        repairs_of(before, quirks, r),
        quirks.think_tags,
        before.text() == mused(blocks, tail),
        blocks.len() > 0,
        forall|i: int| 0 <= i < blocks.len() ==> (#[trigger] blocks[i]).is_sound(),
        first_tag(tail, all_tags()) is None,
        inside_blocks(blocks).len() > 0,
    ensures
        r.think_tags,
{
    law_all_blocks_leave_the_message(before, blocks, tail);
}

// ---------------------------------------------------------------------------
// Answers
// ---------------------------------------------------------------------------

/// An answer is converted into a response and one message. The response has the given id
/// and model, and the usage of upstream; it shows what the message holds. A message without
/// markup is that of the first choice.
pub proof fn law_answer_is_converted(
    r: (ResponsesResponse, Vec<ChatMessage>),
    id: Seq<char>,
    model: Seq<char>,
    chat: ChatResponse,
    tools: Seq<Tool>,
    quirks: Quirks,
    reasoning: Seq<char>,
    calls: Seq<ToolCallView>,
)
    requires
        is_conversion(r, id, model, chat, tools, quirks),
        holds(answer(chat), reasoning, calls),
        forall|i: int| 0 <= i < calls.len() ==> (#[trigger] calls[i]) is Function,
        first_tag(answer(chat).text(), all_tags()) is None,
        first_tag(answer(chat).text(), markers()) is None,
    ensures
        r.1@.len() == 1,
        chat.choices@.len() > 0 ==> r.1@[0]@ == chat.choices@[0].message@,
        r.0.id@ == id,
        r.0.object@ == "response"@,
        r.0.model@ == model,
        r.0.usage == usage_of(chat.usage),
        shows(items_view(r.0.output@), id, tools, r.1@[0]@.text(), reasoning, calls),
{
    let m = answer(chat);
    law_healthy_message_is_not_repaired(m, quirks, r.1@[0]@);
    law_message_is_shown_in_full(id, tools, m, m.text(), reasoning, calls);
}

/// Whatever is repaired, the response shows the message that is given with it.
pub proof fn law_converted_answer_shows_its_message(
    r: (ResponsesResponse, Vec<ChatMessage>),
    id: Seq<char>,
    model: Seq<char>,
    chat: ChatResponse,
    tools: Seq<Tool>,
    quirks: Quirks,
)
    requires
        is_conversion(r, id, model, chat, tools, quirks),
    ensures
        r.1@.len() == 1,
        repaired(answer(chat), quirks, r.1@[0]@),
        items_view(r.0.output@) == output_items(id, tools, r.1@[0]@),
{
}

// ---------------------------------------------------------------------------
// Streams
// ---------------------------------------------------------------------------

/// The text around blocks as a stream shows it: all of it, if some of it comes before the
/// first block, and otherwise without leading white space.
pub open spec fn seen_around(blocks: Seq<Musing>, tail: Seq<char>) -> Seq<char> {
    if blocks.len() > 0 && is_blank(blocks[0].before) {
        trim_start(around_blocks(blocks, tail))
    } else {
        around_blocks(blocks, tail)
    }
}

proof fn lemma_streamed_blocks(deltas: Seq<Seq<char>>, blocks: Seq<Musing>, tail: Seq<char>)
    requires
        concat(deltas) == mused(blocks, tail),
        blocks.len() > 0,
        forall|i: int| 0 <= i < blocks.len() ==> (#[trigger] blocks[i]).is_sound(),
        first_tag(tail, all_tags()) is None,
    ensures
        kept_white(deltas) + think_split(deltas).text == seen_around(blocks, tail),
{
    let b = blocks[0];
    let rest = blocks.drop_first();
    let after = around_blocks(rest, tail);
    assert(b.is_sound());
    law_all_blocks_are_reasoning(deltas, blocks, tail);
    lemma_blocks(blocks, tail, false);
    law_kept_white_is_that_of_the_text(deltas);
    lemma_white_before_block(
        b.before,
        b.open,
        b.body + close_tags()[b.close] + mused(rest, tail),
        after,
    );
    lemma_trim_start_joined(b.before, after);
}

/// Any number of blocks in a stream are what was thought, however it is cut into deltas, and
/// the text around them is said. Nothing in them is taken for a call.
pub proof fn law_all_streamed_blocks_are_thought(
    start: Progress,
    quirks: Quirks,
    deltas: Seq<Seq<char>>,
    blocks: Seq<Musing>,
    tail: Seq<char>,
)
    requires
        start.st == begun(start.st.id, start.st.model, start.st.asked, start.st.tools, quirks),
        quirks.think_tags,
        concat(deltas) == mused(blocks, tail),
        blocks.len() > 0,
        forall|i: int| 0 <= i < blocks.len() ==> (#[trigger] blocks[i]).is_sound(),
        first_tag(tail, all_tags()) is None,
        first_tag(seen_around(blocks, tail), markers()) is None,
    ensures
        ({
            let (last, calls) = drained(contents_came(start, deltas));
            &&& last.st.reasoning == inside_blocks(blocks)
            &&& last.st.text == seen_around(blocks, tail)
            &&& calls.len() == 0
        }),
{
    law_stream_amounts_to_its_text(start, quirks, deltas);
    law_all_blocks_are_reasoning(deltas, blocks, tail);
    lemma_streamed_blocks(deltas, blocks, tail);
    lemma_unmarked(quirks, seen_around(blocks, tail));
}

/// Calls that leaked into the text around blocks heal in a stream: as many come out as
/// leaked, in the same order, each with its own name and its own arguments.
pub proof fn law_calls_around_streamed_blocks_heal(
    start: Progress,
    quirks: Quirks,
    deltas: Seq<Seq<char>>,
    blocks: Seq<Musing>,
    end: Seq<char>,
    leaks: Seq<Leak>,
    tail: Seq<char>,
)
    requires
        start.st == begun(start.st.id, start.st.model, start.st.asked, start.st.tools, quirks),
        quirks.think_tags && quirks.dsml_heal,
        concat(deltas) == mused(blocks, end),
        blocks.len() > 0,
        forall|i: int| 0 <= i < blocks.len() ==> (#[trigger] blocks[i]).is_sound(),
        first_tag(end, all_tags()) is None,
        seen_around(blocks, end) == leaked(leaks, tail),
        leaks.len() > 0,
        can_leak(leaks, tail),
    ensures
        ({
            let (last, calls) = drained(contents_came(start, deltas));
            &&& last.st.reasoning == inside_blocks(blocks)
            &&& calls.len() == leaks.len()
            &&& forall|i: int|
                0 <= i < leaks.len() ==> (#[trigger] calls[i]).name == leaks[i].name
                    && calls[i].arguments == leaks[i].json()
        }),
{
    law_stream_amounts_to_its_text(start, quirks, deltas);
    law_all_blocks_are_reasoning(deltas, blocks, end);
    lemma_streamed_blocks(deltas, blocks, end);
    law_all_leaked_calls_heal(leaks, tail);
}

/// What is said of the repair of a stream is true of it: as many calls were healed as the
/// stored message has beside those that were streamed, and the stream was taken for complete
/// without a word where that is so. Of a stream that is not complete, nothing is said.
#[verifier::rlimit(50)]
pub proof fn law_repairs_of_stream_are_reported(
    st: StreamState,
    stored: Map<Seq<char>, Seq<MessageView>>,
    heard: Upstream,
    after: Stepped,
    r: Repairs,
    has: Seq<ToolCallView>,
)
    requires
        steps_to(st, stored, heard, after),
        repairs_at(st, heard, r),
        ends_turn(st, heard) ==> has_calls(after.stored[st.id].last(), has),
    ensures
        ends_turn(st, heard) ==> has.len() == st.calls.len() + r.dsml_heal,
        r.missing_done == (ends_turn(st, heard) && (heard is Closed || heard is Broken)),
        !ends_turn(st, heard) ==> !r.think_tags && r.dsml_heal == 0,
{
    lemma_drained_keeps(Progress { st, sent: Seq::empty() });
}

} // verus!
