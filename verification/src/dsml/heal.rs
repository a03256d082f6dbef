//! Healing of blocking Chat Completions messages.

use super::grammar::{healed, Call, DsmlDialect};
use super::laws::law_text_without_marker_stays;
use super::parser::{calls_seen, parse_leaked_chars, DsmlToolCall};
use super::stream::{detect_dialect, markers};
use super::written::{are_sound, arguments, law_envelope_heals, written_envelope, Parameter};
use crate::ids::{is_id, new_id};
use crate::json::{json_object, no_members};
use crate::tags::first_tag;
use crate::text::{chars_of, is_blank, texts, trim};
use crate::types::{
    calls_view, content_of, ChatMessage, MessageContent, MessageView, ToolCall, ToolCallView,
};
use vstd::prelude::*;
use vstd::string::*;

verus! {

/// Tool calls with the given ids.
pub open spec fn identified(calls: Seq<Call>, ids: Seq<Seq<char>>) -> Seq<ToolCallView> {
    Seq::new(
        calls.len(),
        |i: int|
            ToolCallView::Function {
                id: ids[i],
                name: calls[i].name,
                arguments: calls[i].arguments,
            },
    )
}

/// A message whose text is `cleaned`, with the given calls behind those it has.
pub open spec fn with_calls(
    m: MessageView,
    cleaned: Seq<char>,
    calls: Seq<Call>,
    ids: Seq<Seq<char>>,
) -> MessageView {
    MessageView {
        content: content_of(cleaned),
        tool_calls: Some(
            match m.tool_calls {
                Some(present) => present,
                None => Seq::empty(),
            } + identified(calls, ids),
        ),
        ..m
    }
}

/// Whether `ids` are `n` ids for healed calls.
pub open spec fn are_call_ids(ids: Seq<Seq<char>>, n: int) -> bool {
    ids.len() == n && forall|i: int| 0 <= i < n ==> is_id(#[trigger] ids[i], "call_dsml_"@)
}

/// Whether healing makes `after` of `before`: the calls leaked in its text become
/// tool calls with ids of their own and leave the text. A message in which nothing
/// heals stays as it is.
pub open spec fn heals_to(before: MessageView, after: MessageView) -> bool {
    match healed(before.text()) {
        Some((cleaned, calls)) => exists|ids: Seq<Seq<char>>|
            #[trigger] are_call_ids(ids, calls.len() as int) && after == with_calls(
                before,
                cleaned,
                calls,
                ids,
            ),
        None => after == before,
    }
}

/// The number of calls that heal in a text.
pub open spec fn calls_healed(text: Seq<char>) -> nat {
    match healed(text) {
        Some((_, calls)) => calls.len(),
        None => 0,
    }
}

/// A new id for a healed call.
pub(crate) fn synthesize_call_id() -> (r: String)
    ensures
        is_id(r@, "call_dsml_"@),
{
    new_id("call_dsml_")
}

/// Gives `message` the text `cleaned` and adds the calls, the ids being those
/// given.
pub fn adopt_calls(
    message: &mut ChatMessage,
    cleaned: String,
    calls: Vec<DsmlToolCall>,
    ids: Vec<String>,
)
    requires
        ids@.len() == calls@.len(),
    ensures
        final(message)@ == with_calls(
            old(message)@,
            cleaned@,
            calls_seen(calls@),
            texts(ids@),
        ),
{
    let ghost before = message@;
    message.content = if cleaned.as_str().is_empty() {
        None
    } else {
        Some(MessageContent::Text(cleaned))
    };
    let mut all: Vec<ToolCall> = match message.tool_calls.take() {
        Some(present) => present,
        None => Vec::new(),
    };
    let ghost present = calls_view(all@);
    let ghost added = identified(calls_seen(calls@), texts(ids@));
    proof {
        if before.tool_calls is None {
            assert(present =~= Seq::empty());
        }
        assert(present + added.take(0) =~= present);
    }
    let mut i: usize = 0;
    while i < calls.len()
        invariant
            i <= calls@.len() == ids@.len(),
            added == identified(calls_seen(calls@), texts(ids@)),
            calls_view(all@) == present + added.take(i as int),
        decreases calls@.len() - i,
    {
        let call: &DsmlToolCall = &calls[i];
        let ghost so_far = calls_view(all@);
        all.push(
            ToolCall::Function {
                id: ids[i].clone(),
                name: call.name.clone(),
                arguments: call.arguments.clone(),
            },
        );
        proof {
            assert(calls_view(all@) =~= so_far.push(added[i as int]));
            assert(present + added.take(i + 1) =~= so_far.push(added[i as int]));
        }
        i = i + 1;
    }
    assert(added.take(i as int) =~= added);
    message.tool_calls = Some(all);
}

/// Heals a blocking Chat Completions assistant message in place: leaked markup in
/// its text becomes tool calls with new ids, and leaves the visible text. A
/// message in which nothing heals stays as it is. Gives the number of calls that
/// were healed, so that a caller can log it.
pub fn heal_chat_message(message: &mut ChatMessage) -> (r: usize)
    ensures
        heals_to(old(message)@, final(message)@),
        r == calls_healed(old(message)@.text()),
{
    let text: Vec<char> = chars_of(message.text_content());
    if detect_dialect(text.as_slice()).is_none() {
        proof {
            law_text_without_marker_stays(text@);
        }
        return 0;
    }
    match parse_leaked_chars(text.as_slice()) {
        Some((cleaned, calls)) => {
            let mut ids: Vec<String> = Vec::new();
            while ids.len() < calls.len()
                invariant
                    ids@.len() <= calls@.len(),
                    forall|i: int|
                        0 <= i < ids@.len() ==> is_id((#[trigger] ids@[i])@, "call_dsml_"@),
                decreases calls@.len() - ids@.len(),
            {
                ids.push(synthesize_call_id());
            }
            let ghost found = calls_seen(calls@);
            let ghost given = texts(ids@);
            assert(are_call_ids(given, found.len() as int));
            let ghost kept = cleaned@;
            let count: usize = calls.len();
            adopt_calls(message, cleaned, calls, ids);
            assert(message@ == with_calls(old(message)@, kept, found, given));
            count
        },
        None => 0,
    }
}

/// A message without the marker of either dialect is left as it is.
pub proof fn law_message_without_marker_stays(before: MessageView, after: MessageView)
    requires
        heals_to(before, after),
        first_tag(before.text(), markers()) is None,
    ensures
        after == before,
{
    law_text_without_marker_stays(before.text());
}

/// A call that leaked into a message in its envelope becomes a tool call of the
/// message, with an id of its own; the text around it stays, and nothing else
/// changes.
pub proof fn law_envelope_leaves_message(
    before: MessageView,
    after: MessageView,
    lead: Seq<char>,
    d: DsmlDialect,
    name: Seq<char>,
    params: Seq<Parameter>,
    gap: Seq<char>,
    tail: Seq<char>,
)
    requires
        heals_to(before, after),
        before.text() == lead + written_envelope(d, name, params, gap) + tail,
        first_tag(lead, markers()) is None,
        first_tag(tail, markers()) is None,
        name.len() > 0,
        are_sound(d, params),
        is_blank(gap),
    ensures
        exists|ids: Seq<Seq<char>>|
            #[trigger] are_call_ids(ids, 1) && after == with_calls(
                before,
                trim(lead + tail),
                seq![Call { name, arguments: json_object(arguments(params, no_members())) }],
                ids,
            ),
{
    law_envelope_heals(lead, d, name, params, gap, tail);
}

} // verus!
