//! What the relay decides: which history a request continues, and what its body holds.

use super::requests::{law_history_and_input_are_sent, only_says};
use crate::json::{json_bool, json_object, json_string, no_members};
use crate::output::calls_in;
use crate::quirks::is_glm_name;
use crate::relay::{continued, ends_in_spawn, shaped, spawns, with_options};
use crate::text::{ascii_lower, lower, occurs_at};
use crate::translate::{input_messages, request_messages};
use crate::types::{ChatRequest, MessageView, ResponsesInput, ResponsesRequest, ToolCallView};
use vstd::prelude::*;
use vstd::string::*;

verus! {

// ---------------------------------------------------------------------------
// Histories
// ---------------------------------------------------------------------------

/// Whether a call is one of the tool that spawns a child agent, in a namespace or not.
pub open spec fn calls_spawn(call: ToolCallView) -> bool {
    call is Function && (call->name == "spawn_agent"@ || exists|group: Seq<char>|
        call->name == #[trigger] (group + "-spawn_agent"@))
}

/// Whether a turn ends with a message that spawns a child agent.
pub open spec fn spawned(turn: Seq<MessageView>) -> bool {
    turn.len() > 0 && (turn[turn.len() - 1].tool_calls matches Some(calls) && exists|i: int|
        0 <= i < calls.len() && calls_spawn(#[trigger] calls[i]))
}

/// Whether an input says what a call gave.
pub open spec fn gives_output(input: ResponsesInput) -> bool {
    input matches ResponsesInput::Messages(items) && exists|i: int|
        0 <= i < items@.len() && (#[trigger] items@[i]) is ToolOutput
}

proof fn lemma_spawn(call: ToolCallView)
    ensures
        spawns(call) == calls_spawn(call),
{
    reveal_strlit("-spawn_agent");
    if let ToolCallView::Function { name, .. } = call {
        let end = "-spawn_agent"@;
        if occurs_at(name, name.len() - 12, end) {
            let group = name.take(name.len() - 12);
            assert(name =~= group + end);
        }
        if exists|group: Seq<char>| name == #[trigger] (group + end) {
            let group = choose|group: Seq<char>| name == #[trigger] (group + end);
            assert(occurs_at(name, name.len() - 12, end));
        }
    }
}

proof fn lemma_spawned(turn: Seq<MessageView>)
    ensures
        ends_in_spawn(turn) == spawned(turn),
{
    if turn.len() > 0 {
        let calls = calls_in(turn.last());
        assert forall|i: int| 0 <= i < calls.len() implies spawns(#[trigger] calls[i])
            == calls_spawn(calls[i]) by {
            lemma_spawn(calls[i]);
        }
        if ends_in_spawn(turn) {
            let i = choose|i: int| 0 <= i < calls.len() && spawns(#[trigger] calls[i]);
            assert(calls_spawn(turn[turn.len() - 1].tool_calls->0[i]));
        }
        if spawned(turn) {
            let i = choose|i: int| 0 <= i < calls.len() && calls_spawn(#[trigger] calls[i]);
            assert(spawns(calls_in(turn.last())[i]));
        }
    }
}

/// Whether the messages that are sent are the system prompt of the request, if it is
/// needed, then `history`, then the input.
pub open spec fn sends(
    sent: Seq<MessageView>,
    req: ResponsesRequest,
    history: Seq<MessageView>,
) -> bool {
    let input = input_messages(req.input, req.tools@);
    let prompted = req.system is Some && (history.len() == 0 || history[0].role != "system"@);
    let lead: int = if prompted {
        1
    } else {
        0
    };
    &&& sent.len() == lead + history.len() + input.len()
    &&& prompted ==> only_says(sent[0], "system"@, req.system->0@)
    &&& forall|i: int| 0 <= i < history.len() ==> sent[lead + i] == #[trigger] history[i]
    &&& forall|i: int|
        0 <= i < input.len() ==> sent[lead + history.len() + i] == #[trigger] input[i]
}

/// A request that names a stored turn continues it: all of its messages are sent, in
/// order, and behind them the input. This does not hold of a child agent: a request that
/// names the turn in which it was spawned, but does not say what a call gave.
pub proof fn law_named_turn_is_continued(
    stored: Map<Seq<char>, Seq<MessageView>>,
    req: ResponsesRequest,
    id: String,
)
    requires
        req.previous_response_id == Some(id),
        stored.contains_key(id@),
        !spawned(stored[id@]) || gives_output(req.input),
    ensures
        sends(request_messages(req, continued(stored, req)), req, stored[id@]),
{
    lemma_spawned(stored[id@]);
    law_history_and_input_are_sent(req, stored[id@]);
}

/// Any other request sends only its own prompt and its own input: one that names no turn,
/// or one that is not stored, and that of a child agent.
pub proof fn law_other_request_sends_only_its_own(
    stored: Map<Seq<char>, Seq<MessageView>>,
    req: ResponsesRequest,
)
    requires
        req.previous_response_id matches Some(id) ==> !stored.contains_key(id@) || (spawned(
            stored[id@],
        ) && !gives_output(req.input)),
    ensures
        sends(request_messages(req, continued(stored, req)), req, Seq::empty()),
{
    let none = Seq::<MessageView>::empty();
    if let Some(id) = req.previous_response_id {
        if stored.contains_key(id@) {
            lemma_spawned(stored[id@]);
        }
    }
    assert(continued(stored, req) =~= none);
    law_history_and_input_are_sent(req, none);
}

// ---------------------------------------------------------------------------
// Bodies
// ---------------------------------------------------------------------------

/// A request that wants usage in the stream asks for it, one that wants thinking says so,
/// and nothing else of its body changes.
pub proof fn law_options_are_asked_for(
    body: Map<Seq<char>, Seq<char>>,
    request: ChatRequest,
    name: Seq<char>,
)
    ensures
        ({
            let sent = with_options(body, request);
            let usage = json_object(no_members().insert("include_usage"@, json_bool(true)));
            let thinking = json_object(no_members().insert("type"@, json_string("enabled"@)));
            &&& request.include_usage ==> sent.contains_key("stream_options"@)
                && sent["stream_options"@] == usage
            &&& request.thinking ==> sent.contains_key("thinking"@) && sent["thinking"@]
                == thinking
            &&& !(request.include_usage && name == "stream_options"@) && !(request.thinking && name
                == "thinking"@) ==> sent.contains_key(name) == body.contains_key(name) && (
            body.contains_key(name) ==> sent[name] == body[name])
        }),
{
    reveal_strlit("stream_options");
    reveal_strlit("thinking");
    assert("stream_options"@.len() == 14 && "thinking"@.len() == 8);
}

/// The members that are sent are those of the request and the extra ones, which take the
/// place of others, without those that are dropped.
pub proof fn law_body_is_shaped(
    body: Map<Seq<char>, Seq<char>>,
    extra: Map<Seq<char>, Seq<char>>,
    dropped: Seq<Seq<char>>,
    n: int,
    name: Seq<char>,
)
    requires
        0 <= n <= dropped.len(),
    ensures
        ({
            let sent = shaped(body, extra, dropped, n);
            let is_dropped = exists|i: int| 0 <= i < n && #[trigger] dropped[i] == name;
            &&& sent.contains_key(name) == (!is_dropped && (extra.contains_key(name)
                || body.contains_key(name)))
            &&& sent.contains_key(name) && extra.contains_key(name) ==> sent[name] == extra[name]
            &&& sent.contains_key(name) && !extra.contains_key(name) ==> sent[name] == body[name]
        }),
    decreases n,
{
    if n > 0 {
        law_body_is_shaped(body, extra, dropped, n - 1, name);
        if dropped[n - 1] == name {
            assert(dropped[n - 1] == name);
        } else if exists|i: int| 0 <= i < n && #[trigger] dropped[i] == name {
            let i = choose|i: int| 0 <= i < n && #[trigger] dropped[i] == name;
            assert(0 <= i < n - 1 && dropped[i] == name);
        }
    }
}

// ---------------------------------------------------------------------------
// Models
// ---------------------------------------------------------------------------

/// Whether the characters of `s` from `i` on are those of `word`, in upper or lower case.
pub open spec fn reads(s: Seq<char>, i: int, word: Seq<char>) -> bool {
    &&& 0 <= i && i + word.len() <= s.len()
    &&& forall|k: int| 0 <= k < word.len() ==> lower(s[i + k]) == #[trigger] word[k]
}

/// An ASCII letter in upper case is lowered, and no other character is changed.
pub proof fn law_only_letters_are_lowered(s: Seq<char>, i: int)
    requires
        0 <= i < s.len(),
    ensures
        ascii_lower(s).len() == s.len(),
        ascii_lower(s)[i] == lower(s[i]),
        'A' <= s[i] <= 'Z' ==> ascii_lower(s)[i] as int == s[i] as int + 32,
        !('A' <= s[i] <= 'Z') ==> ascii_lower(s)[i] == s[i],
{
}

/// A model is told to think if one of three words stands in its name, in upper or lower
/// case, and no other is.
pub proof fn law_model_is_known_by_its_name(model: Seq<char>)
    ensures
        is_glm_name(model) <==> exists|i: int|
            #[trigger] reads(model, i, "glm"@) || reads(model, i, "zhipu"@) || reads(
                model,
                i,
                "bigmodel"@,
            ),
{
    let m = ascii_lower(model);
    assert forall|i: int, word: Seq<char>| #[trigger] occurs_at(m, i, word) implies reads(
        model,
        i,
        word,
    ) by {
        assert forall|k: int| 0 <= k < word.len() implies lower(model[i + k]) == #[trigger]
            word[k] by {
            assert(m[i + k] == word[k]);
        }
    }
    assert forall|i: int, word: Seq<char>| #[trigger] reads(model, i, word) implies occurs_at(
        m,
        i,
        word,
    ) by {
        assert forall|k: int| 0 <= k < word.len() implies m[i + k] == #[trigger] word[k] by {}
    }
    if is_glm_name(model) {
        let i = choose|i: int|
            occurs_at(m, i, "glm"@) || occurs_at(m, i, "zhipu"@) || occurs_at(m, i, "bigmodel"@);
        assert(reads(model, i, "glm"@) || reads(model, i, "zhipu"@) || reads(
            model,
            i,
            "bigmodel"@,
        ));
    }
}

} // verus!
