//! What becomes of tool calls that leaked into the text, one by one.

use crate::dsml::grammar::{healed, lemma_markup_lengths, Call, DsmlDialect};
use crate::dsml::heal::{are_call_ids, heals_to, identified, with_calls};
use crate::dsml::laws::lemma_markers;
use crate::dsml::parser::{calls_seen, DsmlToolCall};
use crate::dsml::several::{around_leaks, can_leak, law_all_leaked_calls_heal, leaked, Leak};
use crate::dsml::stream::markers;
use crate::dsml::written::{are_sound, arguments, written_envelope, Parameter, Written};
use crate::ids::is_id;
use crate::json::{json_object, json_string, no_members, parsed_text};
use crate::quirks::Quirks;
use crate::stream::laws::{contents_came, law_unsplit_stream_is_filtered_whole};
use crate::stream::state::{begun, drained, Progress};
use crate::tags::growth::lemma_first_tag_at_seam;
use crate::tags::{first_tag, lemma_first_tag_from};
use crate::text::{concat, trim};
use crate::think::filter::all_tags;
use crate::types::{ContentView, MessageView, ToolCallView};
use vstd::prelude::*;
use vstd::string::*;

verus! {

// ---------------------------------------------------------------------------
// Messages
// ---------------------------------------------------------------------------

/// The tool calls that a message has.
pub open spec fn has_calls(m: MessageView, calls: Seq<ToolCallView>) -> bool {
    match m.tool_calls {
        Some(present) => calls == present,
        None => calls.len() == 0,
    }
}

/// A message whose text heals keeps the tool calls that it has, and gets one more for
/// each call that is read from its text, in the same order: with the name and the
/// arguments of that call, and with an id of its own. Its text is what is left, and
/// nothing else changes.
pub proof fn law_each_leaked_call_is_adopted(
    before: MessageView,
    after: MessageView,
    had: Seq<ToolCallView>,
    cleaned: Seq<char>,
    calls: Seq<Call>,
)
    requires
        heals_to(before, after),
        healed(before.text()) == Some((cleaned, calls)),
        has_calls(before, had),
    ensures
        after.tool_calls is Some,
        after.tool_calls->0.len() == had.len() + calls.len(),
        forall|i: int| 0 <= i < had.len() ==> after.tool_calls->0[i] == #[trigger] had[i],
        forall|i: int|
            0 <= i < calls.len() ==> {
                let added = after.tool_calls->0[had.len() + i];
                &&& added is Function
                &&& added->name == (#[trigger] calls[i]).name
                &&& added->arguments == calls[i].arguments
                &&& is_id(added->id, "call_dsml_"@)
            },
        cleaned.len() == 0 ==> after.content is None,
        cleaned.len() > 0 ==> after.content == Some(ContentView::Text(cleaned)),
        after.role == before.role,
        after.reasoning_content == before.reasoning_content,
        after.tool_call_id == before.tool_call_id,
        after.name == before.name,
{
    let ids = choose|ids: Seq<Seq<char>>|
        #[trigger] are_call_ids(ids, calls.len() as int) && after
            == with_calls(before, cleaned, calls, ids);
    assert(after.tool_calls->0 =~= had + identified(calls, ids));
    assert forall|i: int| 0 <= i < calls.len() implies ({
        let added = after.tool_calls->0[had.len() + i];
        &&& added is Function
        &&& added->name == (#[trigger] calls[i]).name
        &&& added->arguments == calls[i].arguments
        &&& is_id(added->id, "call_dsml_"@)
    }) by {
        assert(is_id(ids[i], "call_dsml_"@));
    }
}

/// A message in which no call is read is left as it is.
pub proof fn law_message_without_calls_stays(before: MessageView, after: MessageView)
    requires
        heals_to(before, after),
        healed(before.text()) is None,
    ensures
        after == before,
{
}

/// Calls that were read are known by their names and arguments, in order.
pub proof fn law_read_calls_are_known_in_full(calls: Seq<DsmlToolCall>, i: int)
    ensures
        calls_seen(calls).len() == calls.len(),
        0 <= i < calls.len() ==> calls_seen(calls)[i].name == calls[i].name@
            && calls_seen(calls)[i].arguments == calls[i].arguments@,
{
}

// ---------------------------------------------------------------------------
// Any number of calls in one text
// ---------------------------------------------------------------------------

/// A message into whose text calls leaked gets a tool call for each of them: behind those
/// that it has, in the same order, each with its own name, its own arguments and an id
/// of its own.
pub proof fn law_all_leaked_calls_are_adopted(
    before: MessageView,
    after: MessageView,
    had: Seq<ToolCallView>,
    leaks: Seq<Leak>,
    tail: Seq<char>,
)
    requires
        heals_to(before, after),
        has_calls(before, had),
        before.text() == leaked(leaks, tail),
        leaks.len() > 0,
        can_leak(leaks, tail),
    ensures
        after.tool_calls is Some,
        after.tool_calls->0.len() == had.len() + leaks.len(),
        forall|i: int| 0 <= i < had.len() ==> after.tool_calls->0[i] == #[trigger] had[i],
        forall|i: int|
            0 <= i < leaks.len() ==> {
                let added = after.tool_calls->0[had.len() + i];
                &&& added is Function
                &&& added->name == (#[trigger] leaks[i]).name
                &&& added->arguments == leaks[i].json()
                &&& is_id(added->id, "call_dsml_"@)
            },
        after.text() == trim(around_leaks(leaks, tail)),
        after.reasoning_content == before.reasoning_content,
        after.role == before.role,
{
    law_all_leaked_calls_heal(leaks, tail);
    let (cleaned, calls) = healed(before.text())->0;
    law_each_leaked_call_is_adopted(before, after, had, cleaned, calls);
    assert forall|i: int| 0 <= i < leaks.len() implies ({
        let added = after.tool_calls->0[had.len() + i];
        &&& added is Function
        &&& added->name == (#[trigger] leaks[i]).name
        &&& added->arguments == leaks[i].json()
        &&& is_id(added->id, "call_dsml_"@)
    }) by {
        assert(calls[i].name == leaks[i].name);
    }
    assert(cleaned.len() == 0 ==> after.text() =~= cleaned);
}

/// Two calls in a row, each in its envelope, become two tool calls: the first with the
/// name and the arguments of the first, the second with those of the second.
pub proof fn law_two_leaked_calls_are_told_apart(
    before: MessageView,
    after: MessageView,
    d: DsmlDialect,
    name: Seq<char>,
    params: Seq<Parameter>,
    other: DsmlDialect,
    other_name: Seq<char>,
    other_params: Seq<Parameter>,
)
    requires
        heals_to(before, after),
        before.tool_calls is None,
        before.text() == written_envelope(d, name, params, Seq::empty()) + written_envelope(
            other,
            other_name,
            other_params,
            Seq::empty(),
        ),
        name.len() > 0 && are_sound(d, params),
        other_name.len() > 0 && are_sound(other, other_params),
    ensures
        after.tool_calls is Some,
        after.tool_calls->0.len() == 2,
        after.tool_calls->0[0] is Function,
        after.tool_calls->0[0]->name == name,
        after.tool_calls->0[0]->arguments == json_object(arguments(params, no_members())),
        after.tool_calls->0[1] is Function,
        after.tool_calls->0[1]->name == other_name,
        after.tool_calls->0[1]->arguments == json_object(arguments(other_params, no_members())),
        after.content is None,
{
    let none = Seq::<char>::empty();
    let first = Leak {
        before: none,
        dialect: d,
        name,
        params,
        gap: none,
        opened: true,
        closed: true,
    };
    let second = Leak { dialect: other, name: other_name, params: other_params, ..first };
    let had = Seq::<ToolCallView>::empty();
    lemma_two_calls_heal(first, second);
    lemma_envelope(first);
    lemma_envelope(second);
    let (cleaned, calls) = healed(before.text())->0;
    law_each_leaked_call_is_adopted(before, after, had, cleaned, calls);
    assert(calls[0].name == first.name && calls[1].name == second.name);
}

/// A call in its envelope, with nothing before it.
proof fn lemma_envelope(k: Leak)
    requires
        k.opened && k.closed && k.before.len() == 0,
    ensures
        k.opening() + (k.call() + k.closing()) == written_envelope(
            k.dialect,
            k.name,
            k.params,
            k.gap,
        ),
{
    assert(k.opening() + (k.call() + k.closing()) =~= written_envelope(
        k.dialect,
        k.name,
        k.params,
        k.gap,
    ));
}

#[verifier::rlimit(50)]
proof fn lemma_two_calls_heal(first: Leak, second: Leak)
    requires
        first.before.len() == 0 && first.is_sound() && first.closed,
        second.before.len() == 0 && second.is_sound() && second.closed,
    ensures
        match healed(
            first.opening() + (first.call() + first.closing()) + (second.opening() + (second.call()
                + second.closing())),
        ) {
            Some((cleaned, calls)) => {
                &&& cleaned.len() == 0
                &&& calls.len() == 2
                &&& calls[0].name == first.name && calls[0].arguments == first.json()
                &&& calls[1].name == second.name && calls[1].arguments == second.json()
            },
            None => false,
        },
{
    let none = Seq::<char>::empty();
    let leaks = seq![first, second];
    let one = seq![second];
    lemma_first_tag_from(none, 0, markers());
    assert(leaks.drop_first() =~= one);
    assert(one.drop_first() =~= Seq::empty());
    assert(leaked(Seq::empty(), none) == none);
    assert(leaked(one, none) =~= second.opening() + (second.call() + second.closing()));
    assert(leaked(leaks, none) =~= first.opening() + (first.call() + first.closing()) + (
    second.opening() + (second.call() + second.closing())));
    assert(around_leaks(Seq::empty(), none) == none);
    assert(around_leaks(one, none) =~= none);
    assert(around_leaks(leaks, none) =~= none);
    assert(can_leak(Seq::empty(), none));
    assert(can_leak(one, none));
    assert(can_leak(leaks, none));
    law_all_leaked_calls_heal(leaks, none);
    let (cleaned, calls) = healed(leaked(leaks, none))->0;
    assert(calls[0].name == leaks[0].name);
    assert(calls[1].name == leaks[1].name);
    assert(cleaned =~= none);
}

// ---------------------------------------------------------------------------
// Parameters
// ---------------------------------------------------------------------------

proof fn lemma_arguments(
    d: DsmlDialect,
    params: Seq<Parameter>,
    seen: Map<Seq<char>, Seq<char>>,
    key: Seq<char>,
)
    requires
        are_sound(d, params),
        forall|i: int| 0 <= i < params.len() ==> !seen.contains_key((#[trigger] params[i]).name),
    ensures
        ({
            let all = arguments(params, seen);
            &&& all.contains_key(key) == (seen.contains_key(key) || exists|i: int|
                0 <= i < params.len() && (#[trigger] params[i]).name == key)
            &&& seen.contains_key(key) ==> all[key] == seen[key]
            &&& forall|i: int|
                0 <= i < params.len() && (#[trigger] params[i]).name == key ==> params[i].json()
                    == Some(all[key])
        }),
    decreases params.len(),
{
    if params.len() > 0 {
        let first = params[0];
        let rest = params.drop_first();
        assert(first.is_sound(d));
        let value = match first.json() {
            Some(json) => json,
            None => Seq::empty(),
        };
        let more = seen.insert(first.name, value);
        assert forall|i: int| 0 <= i < rest.len() implies (#[trigger] rest[i]).is_sound(d) by {
            assert(rest[i] == params[i + 1]);
        }
        assert forall|i: int, j: int| 0 <= i < j < rest.len() implies (#[trigger] rest[i]).name
            != (#[trigger] rest[j]).name by {
            assert(rest[i] == params[i + 1] && rest[j] == params[j + 1]);
        }
        assert forall|i: int| 0 <= i < rest.len() implies !more.contains_key(
            (#[trigger] rest[i]).name,
        ) by {
            assert(rest[i] == params[i + 1]);
            assert(params[0].name != params[i + 1].name);
        }
        lemma_arguments(d, rest, more, key);
        let all = arguments(params, seen);
        if exists|i: int| 0 <= i < params.len() && (#[trigger] params[i]).name == key {
            let i = choose|i: int| 0 <= i < params.len() && (#[trigger] params[i]).name == key;
            if i > 0 {
                assert(rest[i - 1].name == key);
            }
        }
        if exists|i: int| 0 <= i < rest.len() && (#[trigger] rest[i]).name == key {
            let i = choose|i: int| 0 <= i < rest.len() && (#[trigger] rest[i]).name == key;
            assert(params[i + 1].name == key);
        }
        assert forall|i: int| 0 <= i < params.len() && (#[trigger] params[i]).name
            == key implies params[i].json() == Some(all[key]) by {
            if i > 0 {
                assert(rest[i - 1] == params[i]);
            }
        }
        if all.contains_key(key) && !seen.contains_key(key) && key == first.name {
            assert(params[0].name == key);
        }
    }
}

/// Each parameter of a call is an argument, under its own name and with its own value: as
/// a string where it is written as text, and as the JSON that it holds otherwise. There
/// are no other arguments.
pub proof fn law_each_parameter_is_an_argument(
    d: DsmlDialect,
    params: Seq<Parameter>,
    i: int,
    key: Seq<char>,
)
    requires
        are_sound(d, params),
        0 <= i < params.len(),
    ensures
        ({
            let all = arguments(params, no_members());
            &&& all.contains_key(params[i].name)
            &&& params[i].value matches Written::Inline(v) ==> all[params[i].name] == json_string(v)
            &&& params[i].value matches Written::Text(v) ==> all[params[i].name] == json_string(v)
            &&& params[i].value matches Written::Json(v) ==> parsed_text(trim(v)) == Some(
                all[params[i].name],
            )
            &&& all.contains_key(key) ==> exists|j: int|
                0 <= j < params.len() && (#[trigger] params[j]).name == key
        }),
{
    lemma_arguments(d, params, no_members(), params[i].name);
    lemma_arguments(d, params, no_members(), key);
    assert(params[i].name == params[i].name);
}

// ---------------------------------------------------------------------------
// Streams
// ---------------------------------------------------------------------------

/// The first call in a text stands behind the text before it.
proof fn lemma_first_marker(k: Leak, rest: Seq<char>)
    requires
        k.is_sound(),
    ensures
        first_tag(k.before + (k.opening() + (k.call() + rest)), markers()) matches Some((at, _))
            && at == k.before.len(),
{
    let d = k.dialect;
    let m = d.marker();
    let body = k.opening() + (k.call() + rest);
    let t: int = if d.double_bar {
        0
    } else {
        1
    };
    lemma_markers();
    lemma_markup_lengths(d);
    reveal_strlit("<｜｜DSML｜｜tool_calls>");
    reveal_strlit("<｜DSML｜tool_calls>");
    reveal_strlit("<｜｜DSML｜｜");
    reveal_strlit("<｜DSML｜");
    assert(body.take(m.len() as int) =~= m);
    assert(body =~= m + body.skip(m.len() as int));
    assert(markers()[t] == m);
    assert(k.before + body =~= k.before + m + body.skip(m.len() as int));
    lemma_first_tag_at_seam(k.before, body.skip(m.len() as int), markers(), t);
}

/// Calls that leaked into a stream without think markup heal, however the stream is cut
/// into deltas: as many come out as leaked, in the same order, each with its own name and
/// its own arguments. What was said before the first of them stays as it is, and of the
/// rest exactly their markup is taken out.
#[verifier::rlimit(50)]
pub proof fn law_calls_leaked_into_a_stream_heal(
    start: Progress,
    quirks: Quirks,
    deltas: Seq<Seq<char>>,
    leaks: Seq<Leak>,
    tail: Seq<char>,
)
    requires
        start.st == begun(start.st.id, start.st.model, start.st.asked, start.st.tools, quirks),
        quirks.dsml_heal,
        first_tag(concat(deltas), all_tags()) is None,
        concat(deltas) == leaked(leaks, tail),
        leaks.len() > 0,
        can_leak(leaks, tail),
    ensures
        ({
            let (last, calls) = drained(contents_came(start, deltas));
            &&& calls.len() == leaks.len()
            &&& forall|i: int|
                0 <= i < leaks.len() ==> (#[trigger] calls[i]).name == leaks[i].name
                    && calls[i].arguments == leaks[i].json()
            &&& last.st.text == leaks[0].before + trim(around_leaks(leaks.drop_first(), tail))
            &&& last.st.reasoning.len() == 0
        }),
{
    let raw = concat(deltas);
    let k = leaks[0];
    let bare = Leak { before: Seq::empty(), ..k };
    let later = leaks.update(0, bare);
    let rest = leaked(leaks.drop_first(), tail);
    law_unsplit_stream_is_filtered_whole(start, quirks, deltas);
    lemma_first_marker(k, k.closing() + rest);
    let none = Seq::<char>::empty();
    assert(none + raw =~= raw);
    let at = k.before.len() as int;
    assert(raw.take(at) =~= k.before);
    assert(later.drop_first() =~= leaks.drop_first());
    lemma_first_tag_from(none, 0, markers());
    assert(leaked(later, tail) =~= raw.skip(at));
    assert(around_leaks(later, tail) =~= around_leaks(leaks.drop_first(), tail));
    law_all_leaked_calls_heal(later, tail);
    let (_, calls) = healed(raw.skip(at))->0;
    assert forall|i: int| 0 <= i < leaks.len() implies (#[trigger] calls[i]).name == leaks[i].name
        && calls[i].arguments == leaks[i].json() by {
        assert(later[i].name == leaks[i].name && later[i].json() == leaks[i].json());
    }
}

} // verus!
