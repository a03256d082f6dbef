//! The events of a whole stream.

use super::chunks::chunks_came;
use super::events::{closing, closings, delta_event, reasoning_event, EventView};
use super::laws::contents_came;
use super::state::{
    all_filtered, begun, choices_came, content_came, drained, filtered, in_full, last_events,
    last_message, parted, reasoning_in, spoke, text_in, thought, Progress, StreamState,
};
use crate::dsml::laws::lemma_markers;
use crate::dsml::stream::{filter_finish, filter_push, fresh_filter, markers};
use crate::output::{output_items, thought_in};
use crate::quirks::Quirks;
use crate::tags::growth::lemma_first_tag_stays;
use crate::tags::{ends_in_part, first_tag, held, lemma_held};
use crate::text::{
    concat, is_blank, is_white, leading_white, lemma_leading_white, lemma_trim_start_blank,
    lemma_trim_start_joined, occurs_at, trim_start,
};
use crate::think::filter::{
    all_tags, fresh_think, think_finish, think_push, think_run, Channels, ThinkState,
};
use crate::think::laws::{lemma_first_of_all, lemma_rest_has_none, lemma_tags};
use crate::think::opening::{lemma_decided_stays, lemma_opening_run, lemma_push_opens, opens};
use crate::types::{ChatStreamChoice, ChatStreamChunk, ItemView};
use vstd::prelude::*;
use vstd::string::*;

verus! {

/// The events for some pieces of text.
pub open spec fn delta_events(pieces: Seq<Seq<char>>) -> Seq<EventView> {
    pieces.map_values(|s: Seq<char>| delta_event(s))
}

// ---------------------------------------------------------------------------
// Healthy streams
// ---------------------------------------------------------------------------

/// Whether each of the pieces holds something, and none ends in the beginning of a tag
/// or of a marker.
pub open spec fn are_whole(deltas: Seq<Seq<char>>) -> bool {
    forall|i: int|
        0 <= i < deltas.len() ==> (#[trigger] deltas[i]).len() > 0 && held(deltas[i], all_tags())
            == 0 && held(deltas[i], markers()) == 0
}

/// Whether each of the pieces can pass the filter for leaked calls by itself.
spec fn are_unmarked(texts: Seq<Seq<char>>) -> bool {
    forall|i: int|
        0 <= i < texts.len() ==> (#[trigger] texts[i]).len() > 0 && held(texts[i], markers()) == 0
            && first_tag(texts[i], markers()) is None
}

/// Where a translation stands that has said some more pieces, with nothing thought.
spec fn told(p: Progress, texts: Seq<Seq<char>>) -> Progress {
    Progress {
        st: StreamState { text: p.st.text + concat(texts), ..p.st },
        sent: p.sent + delta_events(texts),
    }
}

/// A piece that passes the filter for leaked calls by itself is said as it is.
proof fn lemma_told_one(p: Progress, s: Seq<char>)
    requires
        p.st.dsml.pending.len() == 0 && !p.st.dsml.in_dsml,
        p.st.reasoning.len() == 0,
        s.len() > 0 && held(s, markers()) == 0,
        first_tag(s, markers()) is None,
    ensures
        filtered(p, s) == (Progress {
            st: StreamState { text: p.st.text + s, ..p.st },
            sent: p.sent.push(delta_event(s)),
        }),
{
    let none = Seq::<char>::empty();
    assert(p.st.dsml.pending =~= none);
    assert(none + s =~= s);
    assert(s.take(s.len() as int) =~= s);
    assert(s.skip(s.len() as int) =~= none);
    let (dsml, safe) = filter_push(p.st.dsml, s);
    assert(dsml =~= p.st.dsml);
    assert(safe == s);
}

/// Nothing leaves a filter for leaked calls that withholds nothing as it is.
proof fn lemma_told_nothing(p: Progress)
    requires
        p.st.dsml.pending.len() == 0 && !p.st.dsml.in_dsml,
    ensures
        filtered(p, Seq::empty()) == p,
{
    let none = Seq::<char>::empty();
    assert(p.st.dsml.pending =~= none);
    assert(none + none =~= none);
    lemma_held(none, markers());
    assert(none.skip(0) =~= none && none.take(0) =~= none);
    let (dsml, safe) = filter_push(p.st.dsml, none);
    assert(dsml =~= p.st.dsml);
    assert(safe.len() == 0);
}

/// Pieces that pass the filter for leaked calls by themselves are said one by one.
proof fn lemma_told(p: Progress, texts: Seq<Seq<char>>)
    requires
        p.st.dsml.pending.len() == 0 && !p.st.dsml.in_dsml,
        p.st.reasoning.len() == 0,
        are_unmarked(texts),
    ensures
        all_filtered(p, texts) == told(p, texts),
    decreases texts.len(),
{
    if texts.len() == 0 {
        assert(p.st.text + concat(texts) =~= p.st.text);
        assert(p.sent + delta_events(texts) =~= p.sent);
    } else {
        let front = texts.drop_last();
        let last = texts.last();
        assert(texts[texts.len() - 1] == last);
        assert forall|i: int| 0 <= i < front.len() implies (#[trigger] front[i]).len() > 0 && held(
            front[i],
            markers(),
        ) == 0 && first_tag(front[i], markers()) is None by {
            assert(front[i] == texts[i]);
        }
        lemma_told(p, front);
        lemma_told_one(told(p, front), last);
        assert((p.st.text + concat(front)) + last =~= p.st.text + concat(texts));
        assert((p.sent + delta_events(front)).push(delta_event(last)) =~= p.sent + delta_events(
            texts,
        ));
    }
}

/// Two texts that do not end in the beginning of a tag do not do so together.
proof fn lemma_held_joined(a: Seq<char>, b: Seq<char>, tags: Seq<Seq<char>>)
    requires
        held(a, tags) == 0,
        held(b, tags) == 0,
    ensures
        held(a + b, tags) == 0,
{
    let s = a + b;
    lemma_held(a, tags);
    lemma_held(b, tags);
    lemma_held(s, tags);
    let k = held(s, tags);
    if k > 0 {
        let t = choose|t: int|
            #![trigger tags[t]]
            0 <= t < tags.len() && 0 < k < tags[t].len() && occurs_at(
                s,
                s.len() - k,
                tags[t].take(k),
            );
        let part = tags[t].take(k);
        if k <= b.len() {
            assert forall|i: int| 0 <= i < k implies b[b.len() - k + i] == #[trigger] part[i] by {
                assert(s[s.len() - k + i] == part[i]);
            }
            assert(occurs_at(b, b.len() - k, part));
            assert(ends_in_part(b, k, tags));
        } else {
            let m = k - b.len();
            let lead = tags[t].take(m);
            assert forall|i: int| 0 <= i < m implies a[a.len() - m + i] == #[trigger] lead[i] by {
                assert(s[s.len() - k + i] == part[i]);
            }
            assert(occurs_at(a, a.len() - m, lead));
            assert(ends_in_part(a, m, tags));
        }
    }
}

/// Each of the pieces of a text without tags is without tags.
proof fn lemma_pieces_hold_none(deltas: Seq<Seq<char>>, more: Seq<char>, i: int)
    requires
        first_tag(concat(deltas) + more, markers()) is None,
        0 <= i < deltas.len(),
    ensures
        first_tag(deltas[i], markers()) is None,
    decreases deltas.len(),
{
    let front = deltas.drop_last();
    let last = deltas.last();
    let s = concat(deltas) + more;
    assert(s =~= concat(front) + (last + more));
    if i < deltas.len() - 1 {
        lemma_pieces_hold_none(front, last + more, i);
        assert(front[i] == deltas[i]);
    } else {
        lemma_rest_has_none(s, concat(front).len() as int, markers());
        assert(s.skip(concat(front).len() as int) =~= last + more);
        lemma_markers();
        if first_tag(last, markers()) is Some {
            lemma_first_tag_stays(last, more, markers());
        }
    }
}

/// The pieces of a healthy stream pass the filter for leaked calls by themselves.
proof fn lemma_unmarked_pieces(deltas: Seq<Seq<char>>, more: Seq<char>)
    requires
        are_whole(deltas),
        first_tag(concat(deltas) + more, markers()) is None,
    ensures
        are_unmarked(deltas),
{
    assert forall|i: int| 0 <= i < deltas.len() implies (#[trigger] deltas[i]).len() > 0 && held(
        deltas[i],
        markers(),
    ) == 0 && first_tag(deltas[i], markers()) is None by {
        lemma_pieces_hold_none(deltas, more, i);
    }
}

/// Where a translation stands in a healthy stream: all pieces wait, or all have been
/// said.
spec fn is_healthy(start: Progress, quirks: Quirks, deltas: Seq<Seq<char>>, p: Progress) -> bool {
    let think = p.st.think;
    &&& think.enabled == quirks.think_tags && !think.fired && !think.in_think
    &&& p.st.dsml.pending.len() == 0 && !p.st.dsml.in_dsml
    &&& p.st.reasoning.len() == 0
    &&& p.st.quirks == quirks
    &&& if think.undecided() {
        &&& opens(concat(deltas), think)
        &&& held(think.pending, all_tags()) == 0
        &&& p.st.opening == deltas
        &&& p.sent == start.sent
    } else {
        &&& think.pending.len() == 0
        &&& p.sent == start.sent + delta_events(deltas)
    }
}

/// A piece of a healthy stream comes when it is decided that the response speaks.
proof fn lemma_healthy_goes_on(start: Progress, quirks: Quirks, deltas: Seq<Seq<char>>, p: Progress)
    requires
        deltas.len() > 0,
        is_healthy(start, quirks, deltas.drop_last(), p),
        !p.st.think.undecided(),
        deltas.last().len() > 0,
        held(deltas.last(), all_tags()) == 0,
        held(deltas.last(), markers()) == 0,
        first_tag(deltas.last(), all_tags()) is None,
        first_tag(deltas.last(), markers()) is None,
    ensures
        is_healthy(start, quirks, deltas, content_came(p, deltas.last())),
{
    let s = deltas.last();
    let none = Seq::<char>::empty();
    let (think, split) = think_push(p.st.think, s);
    assert(p.st.think.pending =~= none);
    assert(none + s =~= s);
    assert(s.take(s.len() as int) =~= s && s.skip(s.len() as int) =~= none);
    lemma_first_of_all(s);
    assert(split =~= Channels::none().say(s));
    assert(split.text =~= s && split.reasoning =~= none);
    let next = Progress { st: StreamState { think, ..p.st }, ..p };
    lemma_told_one(next, s);
    assert((start.sent + delta_events(deltas.drop_last())).push(delta_event(s)) =~= start.sent
        + delta_events(deltas));
}

/// A piece of a healthy stream comes while it is undecided whether the response speaks.
proof fn lemma_healthy_begins(start: Progress, quirks: Quirks, deltas: Seq<Seq<char>>, p: Progress)
    requires
        deltas.len() > 0,
        is_healthy(start, quirks, deltas.drop_last(), p),
        p.st.think.undecided(),
        are_whole(deltas),
        are_unmarked(deltas),
        first_tag(concat(deltas), all_tags()) is None,
    ensures
        is_healthy(start, quirks, deltas, content_came(p, deltas.last())),
{
    let front = deltas.drop_last();
    let s = deltas.last();
    let raw = concat(deltas);
    let none = Seq::<char>::empty();
    let (think, split) = think_push(p.st.think, s);
    let pending = p.st.think.pending + s;
    assert(deltas[deltas.len() - 1] == s);
    assert(front.push(s) =~= deltas);
    assert(concat(front) + s == raw);
    lemma_push_opens(concat(front), p.st.think, s);
    lemma_held_joined(p.st.think.pending, s, all_tags());
    assert(pending.skip(pending.len() - 0) =~= none);
    lemma_held(none, all_tags());
    if !think.undecided() {
        assert(think.pending =~= none);
        assert(leading_white(raw) + split.text + none =~= leading_white(raw) + split.text);
        let full = in_full(raw, think.fired, split.text);
        assert(full == raw);
        assert(occurs_at(raw, 0, concat(front)));
        assert(raw.skip(concat(front).len() as int) =~= s);
        assert(parted(front, full) == (front, s));
        let decided = Progress {
            st: StreamState { think, opening: Seq::empty(), ..p.st },
            ..p
        };
        assert forall|i: int| 0 <= i < front.len() implies (#[trigger] front[i]).len() > 0 && held(
            front[i],
            markers(),
        ) == 0 && first_tag(front[i], markers()) is None by {
            assert(front[i] == deltas[i]);
        }
        lemma_told(decided, front);
        let earlier = told(decided, front);
        assert(thought(earlier, split.reasoning) == earlier);
        lemma_told_one(earlier, s);
        assert((p.sent + delta_events(front)).push(delta_event(s)) =~= start.sent + delta_events(
            deltas,
        ));
    }
}

/// Some pieces of a healthy stream have come.
proof fn lemma_healthy(start: Progress, quirks: Quirks, deltas: Seq<Seq<char>>)
    requires
        start.st == begun(start.st.id, start.st.model, start.st.asked, start.st.tools, quirks),
        first_tag(concat(deltas), all_tags()) is None,
        first_tag(concat(deltas), markers()) is None,
        are_whole(deltas),
    ensures
        is_healthy(start, quirks, deltas, contents_came(start, deltas)),
    decreases deltas.len(),
{
    let none = Seq::<char>::empty();
    if deltas.len() == 0 {
        assert(deltas =~= Seq::empty());
        assert(start.sent + delta_events(deltas) =~= start.sent);
        lemma_opening_run(deltas);
        lemma_held(none, all_tags());
    } else {
        let front = deltas.drop_last();
        let s = deltas.last();
        let raw = concat(deltas);
        assert(deltas[deltas.len() - 1] == s);
        assert forall|i: int| 0 <= i < front.len() implies (#[trigger] front[i]).len() > 0 && held(
            front[i],
            all_tags(),
        ) == 0 && held(front[i], markers()) == 0 by {
            assert(front[i] == deltas[i]);
        }
        lemma_tags();
        lemma_markers();
        if first_tag(concat(front), all_tags()) is Some {
            lemma_first_tag_stays(concat(front), s, all_tags());
        }
        if first_tag(concat(front), markers()) is Some {
            lemma_first_tag_stays(concat(front), s, markers());
        }
        lemma_healthy(start, quirks, front);
        let p = contents_came(start, front);
        assert(raw + none =~= raw);
        lemma_unmarked_pieces(deltas, none);
        if p.st.think.undecided() {
            lemma_healthy_begins(start, quirks, deltas, p);
        } else {
            lemma_rest_has_none(raw, concat(front).len() as int, all_tags());
            assert(raw.skip(concat(front).len() as int) =~= s);
            lemma_healthy_goes_on(start, quirks, deltas, p);
        }
    }
}

/// A healthy stream ends.
proof fn lemma_healthy_ends(start: Progress, quirks: Quirks, deltas: Seq<Seq<char>>, p: Progress)
    requires
        is_healthy(start, quirks, deltas, p),
        are_unmarked(deltas),
    ensures
        drained(p).0.sent == start.sent + delta_events(deltas),
{
    let none = Seq::<char>::empty();
    let no_pieces = Seq::<Seq<char>>::empty();
    let think = p.st.think;
    let raw = concat(deltas);
    let end = think_finish(think);
    let emptied = Progress {
        st: StreamState {
            think: fresh_think(p.st.quirks.think_tags),
            opening: no_pieces,
            ..p.st
        },
        ..p
    };
    assert(think.pending.take(think.pending.len() as int) =~= think.pending);
    assert(end.reasoning.len() == 0);
    if think.undecided() {
        let d = raw.take(raw.len() - think.pending.len());
        assert(raw =~= d + think.pending);
        lemma_trim_start_joined(d, think.pending);
        lemma_leading_white(raw);
        assert(end.text =~= trim_start(think.pending));
        assert(in_full(raw, false, end.text) == raw);
        assert(occurs_at(raw, 0, raw));
        assert(raw.skip(raw.len() as int) =~= none);
        assert(parted(deltas, raw) == (deltas, none));
        lemma_told(emptied, deltas);
        let earlier = told(emptied, deltas);
        assert(thought(earlier, end.reasoning) == earlier);
        lemma_told_nothing(earlier);
        lemma_rests(earlier);
    } else {
        assert(think.pending =~= none);
        assert(trim_start(none) =~= none);
        assert(end.text =~= none);
        assert(all_filtered(emptied, no_pieces) == emptied);
        assert(thought(emptied, end.reasoning) == emptied);
        lemma_told_nothing(emptied);
        lemma_rests(emptied);
    }
}

/// A filter for leaked calls that withholds nothing gives nothing at the end.
proof fn lemma_rests(p: Progress)
    requires
        p.st.dsml.pending.len() == 0 && !p.st.dsml.in_dsml,
    ensures
        filter_finish(p.st.dsml).0.len() == 0,
{
}

/// A stream without markup is sent as it comes, whatever quirks are enabled: one event
/// for each piece, with nothing between. Pieces that hold nothing are left out here, and
/// so are those that end in the beginning of markup, which wait for the next.
pub proof fn law_healthy_pieces_are_sent_as_they_come(
    start: Progress,
    quirks: Quirks,
    deltas: Seq<Seq<char>>,
)
    requires
        start.st == begun(start.st.id, start.st.model, start.st.asked, start.st.tools, quirks),
        first_tag(concat(deltas), all_tags()) is None,
        first_tag(concat(deltas), markers()) is None,
        are_whole(deltas),
    ensures
        drained(contents_came(start, deltas)).0.sent == start.sent + delta_events(deltas),
{
    let none = Seq::<char>::empty();
    assert(concat(deltas) + none =~= concat(deltas));
    lemma_unmarked_pieces(deltas, none);
    lemma_healthy(start, quirks, deltas);
    lemma_healthy_ends(start, quirks, deltas, contents_came(start, deltas));
}

/// Where all pieces of a stream without tags still wait, they wait for the next one, and
/// at most one of them holds more than white space.
proof fn lemma_pieces_wait(deltas: Seq<Seq<char>>, i: int, j: int)
    requires
        first_tag(concat(deltas), all_tags()) is None,
        forall|k: int| 0 <= k < deltas.len() ==> held(#[trigger] deltas[k], all_tags()) == 0,
    ensures
        ({
            let think = think_run(fresh_think(true), deltas).0;
            think.undecided() ==> {
                &&& think.lead == think.pending.len()
                &&& held(think.pending, all_tags()) == 0
                &&& !(0 <= i < j < deltas.len() && !is_blank(deltas[i]) && !is_blank(deltas[j]))
            }
        }),
    decreases deltas.len(),
{
    lemma_held(Seq::empty(), all_tags());
    if deltas.len() > 0 {
        let front = deltas.drop_last();
        let s = deltas.last();
        let raw = concat(front);
        let before = think_run(fresh_think(true), front).0;
        assert(deltas[deltas.len() - 1] == s);
        assert forall|k: int| 0 <= k < front.len() implies held(#[trigger] front[k], all_tags())
            == 0 by {
            assert(front[k] == deltas[k]);
        }
        lemma_tags();
        if first_tag(raw, all_tags()) is Some {
            lemma_first_tag_stays(raw, s, all_tags());
        }
        lemma_pieces_wait(front, i, j);
        if !before.undecided() {
            lemma_decided_stays(before, s);
        } else {
            lemma_opening_run(front);
            lemma_piece_waits(raw, before, s);
            if 0 <= i < j == front.len() && !is_blank(deltas[i]) {
                lemma_piece_in_whole(front, i);
            }
        }
    }
}

/// A piece waits behind others only where one of the two holds nothing but white space.
proof fn lemma_piece_waits(raw: Seq<char>, before: ThinkState, s: Seq<char>)
    requires
        opens(raw, before),
        before.lead == before.pending.len(),
        held(before.pending, all_tags()) == 0,
        held(s, all_tags()) == 0,
        first_tag(raw + s, all_tags()) is None,
    ensures
        ({
            let after = think_push(before, s).0;
            after.undecided() ==> {
                &&& after.lead == after.pending.len()
                &&& held(after.pending, all_tags()) == 0
                &&& is_blank(raw) || is_blank(s)
            }
        }),
{
    let none = Seq::<char>::empty();
    lemma_held(none, all_tags());
    let pending = before.pending + s;
    let d = raw.len() - before.pending.len();
    assert(raw + s =~= raw.take(d) + pending);
    lemma_held_joined(before.pending, s, all_tags());
    lemma_rest_has_none(raw + s, d, all_tags());
    assert((raw + s).skip(d) =~= pending);
    lemma_first_of_all(pending);
    assert(pending.take(pending.len() as int) =~= pending);
    assert(pending.skip(pending.len() as int) =~= none);
    lemma_trim_start_blank(pending);
    if !is_blank(raw) && !is_blank(s) {
        let k = choose|k: int| 0 <= k < raw.len() && !is_white(#[trigger] raw[k]);
        if k < d {
            assert(raw.take(d)[k] == raw[k]);
        }
        let m = choose|m: int| 0 <= m < s.len() && !is_white(#[trigger] s[m]);
        assert(pending[before.pending.len() + m] == s[m]);
    }
}

/// What a piece of content does to the filter for what was thought.
proof fn lemma_content_thinks(p: Progress, s: Seq<char>)
    ensures
        content_came(p, s).st.think == think_push(p.st.think, s).0,
{
    let (think, split) = think_push(p.st.think, s);
    let raw = concat(p.st.opening) + s;
    let (earlier, now) = parted(p.st.opening, in_full(raw, think.fired, split.text));
    let decided = StreamState { think, opening: Seq::empty(), ..p.st };
    lemma_filter_keeps_think(Progress { st: decided, ..p }, earlier);
}

/// What pieces of content do to it.
proof fn lemma_contents_think(p: Progress, deltas: Seq<Seq<char>>)
    ensures
        contents_came(p, deltas).st.think == think_run(p.st.think, deltas).0,
    decreases deltas.len(),
{
    if deltas.len() > 0 {
        lemma_contents_think(p, deltas.drop_last());
        lemma_content_thinks(contents_came(p, deltas.drop_last()), deltas.last());
    }
}

proof fn lemma_filter_keeps_think(p: Progress, texts: Seq<Seq<char>>)
    ensures
        all_filtered(p, texts).st.think == p.st.think,
    decreases texts.len(),
{
    if texts.len() > 0 {
        lemma_filter_keeps_think(p, texts.drop_last());
    }
}

/// A piece that holds more than white space is in the whole.
proof fn lemma_piece_in_whole(deltas: Seq<Seq<char>>, i: int)
    requires
        0 <= i < deltas.len(),
        !is_blank(deltas[i]),
    ensures
        !is_blank(concat(deltas)),
    decreases deltas.len(),
{
    let front = deltas.drop_last();
    let all = concat(deltas);
    if i < front.len() {
        assert(front[i] == deltas[i]);
        lemma_piece_in_whole(front, i);
        let k = choose|k: int|
            0 <= k < concat(front).len() && !is_white(#[trigger] concat(front)[k]);
        assert(all[k] == concat(front)[k]);
    } else {
        let m = choose|m: int| 0 <= m < deltas[i].len() && !is_white(#[trigger] deltas[i][m]);
        assert(all[concat(front).len() + m] == deltas[i][m]);
    }
}

/// A stream without markup is sent while it comes: once two pieces have come that hold more
/// than white space, nothing is held back. Where think markup is not looked for, nothing
/// ever is.
pub proof fn law_healthy_pieces_are_not_held_back(
    start: Progress,
    quirks: Quirks,
    deltas: Seq<Seq<char>>,
    i: int,
    j: int,
)
    requires
        start.st == begun(start.st.id, start.st.model, start.st.asked, start.st.tools, quirks),
        first_tag(concat(deltas), all_tags()) is None,
        first_tag(concat(deltas), markers()) is None,
        are_whole(deltas),
        !quirks.think_tags || (0 <= i < j < deltas.len() && !is_blank(deltas[i]) && !is_blank(
            deltas[j],
        )),
    ensures
        contents_came(start, deltas).sent == start.sent + delta_events(deltas),
{
    lemma_healthy(start, quirks, deltas);
    lemma_contents_think(start, deltas);
    if quirks.think_tags {
        lemma_pieces_wait(deltas, i, j);
    }
}

// ---------------------------------------------------------------------------
// Any stream
// ---------------------------------------------------------------------------

/// The events of that name.
pub open spec fn events_named(events: Seq<EventView>, name: Seq<char>) -> Seq<EventView>
    decreases events.len(),
{
    if events.len() == 0 {
        Seq::empty()
    } else if events.last().name == name {
        events_named(events.drop_last(), name).push(events.last())
    } else {
        events_named(events.drop_last(), name)
    }
}

/// The events for some pieces of what is thought, in the item with the given id.
pub open spec fn reasoning_events(item_id: Seq<char>, pieces: Seq<Seq<char>>) -> Seq<EventView> {
    pieces.map_values(|s: Seq<char>| reasoning_event(item_id, s))
}

/// Whether the events for pieces of text make up `text`.
pub open spec fn tell(events: Seq<EventView>, text: Seq<char>) -> bool {
    exists|pieces: Seq<Seq<char>>|
        #![trigger delta_events(pieces)]
        events_named(events, "response.output_text.delta"@) == delta_events(pieces) && concat(
            pieces,
        ) == text
}

/// Whether the events for pieces of what is thought make up `reasoning`.
pub open spec fn ponder(events: Seq<EventView>, item_id: Seq<char>, reasoning: Seq<char>) -> bool {
    exists|pieces: Seq<Seq<char>>|
        #![trigger reasoning_events(item_id, pieces)]
        events_named(events, "response.reasoning_summary_text.delta"@) == reasoning_events(
            item_id,
            pieces,
        ) && concat(pieces) == reasoning
}

/// Whether the events that were sent make up what the response holds.
pub open spec fn is_reported(p: Progress) -> bool {
    tell(p.sent, p.st.text) && ponder(p.sent, "rs_"@ + p.st.id, p.st.reasoning)
}

/// The names of the events differ.
proof fn lemma_names()
    ensures
        "response.output_text.delta"@ != "response.reasoning_summary_text.delta"@,
        "response.output_text.delta"@ != "response.output_item.added"@,
        "response.output_text.delta"@ != "response.output_item.done"@,
        "response.output_text.delta"@ != "response.custom_tool_call_input.delta"@,
        "response.output_text.delta"@ != "response.completed"@,
        "response.reasoning_summary_text.delta"@ != "response.output_item.added"@,
        "response.reasoning_summary_text.delta"@ != "response.output_item.done"@,
        "response.reasoning_summary_text.delta"@ != "response.custom_tool_call_input.delta"@,
        "response.reasoning_summary_text.delta"@ != "response.completed"@,
{
    reveal_strlit("response.output_text.delta");
    reveal_strlit("response.reasoning_summary_text.delta");
    reveal_strlit("response.output_item.added");
    reveal_strlit("response.output_item.done");
    reveal_strlit("response.custom_tool_call_input.delta");
    reveal_strlit("response.completed");
    assert("response.output_text.delta"@[16] != "response.output_item.added"@[16]);
    assert("response.output_text.delta"@[16] != "response.output_item.done"@[16]);
    assert("response.output_text.delta"@[9] != "response.custom_tool_call_input.delta"@[9]);
    assert("response.output_text.delta"@[9] != "response.reasoning_summary_text.delta"@[9]);
    assert("response.output_text.delta"@[9] != "response.completed"@[9]);
    assert("response.reasoning_summary_text.delta"@[9] != "response.output_item.added"@[9]);
    assert("response.reasoning_summary_text.delta"@[9] != "response.output_item.done"@[9]);
    assert("response.reasoning_summary_text.delta"@[9]
        != "response.custom_tool_call_input.delta"@[9]);
    assert("response.reasoning_summary_text.delta"@[9] != "response.completed"@[9]);
}

/// One more event.
proof fn lemma_named_push(events: Seq<EventView>, e: EventView, name: Seq<char>)
    ensures
        events_named(events.push(e), name) == if e.name == name {
            events_named(events, name).push(e)
        } else {
            events_named(events, name)
        },
{
    assert(events.push(e).drop_last() =~= events);
}

/// An event of another name makes no difference.
proof fn lemma_other_event(p: Progress, e: EventView)
    requires
        is_reported(p),
        e.name != "response.output_text.delta"@,
        e.name != "response.reasoning_summary_text.delta"@,
    ensures
        is_reported(Progress { sent: p.sent.push(e), ..p }),
{
    lemma_named_push(p.sent, e, "response.output_text.delta"@);
    lemma_named_push(p.sent, e, "response.reasoning_summary_text.delta"@);
}

/// What is thought is reported.
proof fn lemma_thought_reported(p: Progress, s: Seq<char>)
    requires
        is_reported(p),
    ensures
        is_reported(thought(p, s)),
{
    lemma_names();
    if s.len() > 0 {
        let item_id = "rs_"@ + p.st.id;
        let e = reasoning_event(item_id, s);
        let after = thought(p, s);
        let before = if p.st.reasoning.len() == 0 {
            after.sent.drop_last()
        } else {
            p.sent
        };
        let announced = Progress { sent: before, ..p };
        assert(after.sent =~= before.push(e));
        if p.st.reasoning.len() == 0 {
            assert(before =~= p.sent.push(before.last()));
            lemma_other_event(p, before.last());
        }
        lemma_named_push(before, e, "response.output_text.delta"@);
        lemma_named_push(before, e, "response.reasoning_summary_text.delta"@);
        let pieces = choose|pieces: Seq<Seq<char>>|
            #![trigger reasoning_events(item_id, pieces)]
            events_named(before, "response.reasoning_summary_text.delta"@) == reasoning_events(
                item_id,
                pieces,
            ) && concat(pieces) == p.st.reasoning;
        assert(reasoning_events(item_id, pieces.push(s)) =~= reasoning_events(
            item_id,
            pieces,
        ).push(e));
        assert(pieces.push(s).drop_last() =~= pieces);
    }
}

/// What is said is reported.
proof fn lemma_spoke_reported(p: Progress, s: Seq<char>)
    requires
        is_reported(p),
    ensures
        is_reported(spoke(p, s)),
{
    lemma_names();
    if s.len() > 0 {
        let e = delta_event(s);
        let after = spoke(p, s);
        let announces = p.st.text.len() == 0 && p.st.reasoning.len() > 0;
        let before = if announces {
            after.sent.drop_last()
        } else {
            p.sent
        };
        assert(after.sent =~= before.push(e));
        if announces {
            assert(before =~= p.sent.push(before.last()));
            lemma_other_event(p, before.last());
        }
        lemma_named_push(before, e, "response.output_text.delta"@);
        lemma_named_push(before, e, "response.reasoning_summary_text.delta"@);
        let pieces = choose|pieces: Seq<Seq<char>>|
            #![trigger delta_events(pieces)]
            events_named(before, "response.output_text.delta"@) == delta_events(pieces) && concat(
                pieces,
            ) == p.st.text;
        assert(delta_events(pieces.push(s)) =~= delta_events(pieces).push(e));
        assert(pieces.push(s).drop_last() =~= pieces);
    }
}

proof fn lemma_filtered_reported(p: Progress, s: Seq<char>)
    requires
        is_reported(p),
    ensures
        is_reported(filtered(p, s)),
{
    let (dsml, safe) = filter_push(p.st.dsml, s);
    lemma_spoke_reported(Progress { st: StreamState { dsml, ..p.st }, ..p }, safe);
}

proof fn lemma_all_filtered_reported(p: Progress, texts: Seq<Seq<char>>)
    requires
        is_reported(p),
    ensures
        is_reported(all_filtered(p, texts)),
    decreases texts.len(),
{
    if texts.len() > 0 {
        lemma_all_filtered_reported(p, texts.drop_last());
        lemma_filtered_reported(all_filtered(p, texts.drop_last()), texts.last());
    }
}

/// Texts, and what is thought between the last two, are reported.
proof fn lemma_parts_reported(
    p: Progress,
    earlier: Seq<Seq<char>>,
    reasoning: Seq<char>,
    now: Seq<char>,
)
    requires
        is_reported(p),
    ensures
        is_reported(filtered(thought(all_filtered(p, earlier), reasoning), now)),
{
    lemma_all_filtered_reported(p, earlier);
    lemma_thought_reported(all_filtered(p, earlier), reasoning);
    lemma_filtered_reported(thought(all_filtered(p, earlier), reasoning), now);
}

/// A piece of content is reported.
proof fn lemma_content_reported(p: Progress, s: Seq<char>)
    requires
        is_reported(p),
    ensures
        is_reported(content_came(p, s)),
{
    let (think, split) = think_push(p.st.think, s);
    let none = Seq::<Seq<char>>::empty();
    if !p.st.think.undecided() {
        let next = Progress { st: StreamState { think, ..p.st }, ..p };
        assert(all_filtered(next, none) == next);
        lemma_parts_reported(next, none, split.reasoning, split.text);
    } else if !think.undecided() {
        let raw = concat(p.st.opening) + s;
        let (earlier, now) = parted(p.st.opening, in_full(raw, think.fired, split.text));
        let decided = StreamState { think, opening: Seq::empty(), ..p.st };
        lemma_parts_reported(Progress { st: decided, ..p }, earlier, split.reasoning, now);
    }
}

proof fn lemma_choices_reported(p: Progress, choices: Seq<ChatStreamChoice>, n: int)
    requires
        is_reported(p),
    ensures
        is_reported(choices_came(p, choices, n)),
    decreases n,
{
    if n > 0 {
        lemma_choices_reported(p, choices, n - 1);
        let before = choices_came(p, choices, n - 1);
        let choice = choices[n - 1];
        lemma_thought_reported(before, reasoning_in(choice));
        let reasoned = thought(before, reasoning_in(choice));
        lemma_content_reported(reasoned, text_in(choice.content));
    }
}

proof fn lemma_chunks_reported(p: Progress, chunks: Seq<ChatStreamChunk>)
    requires
        is_reported(p),
    ensures
        is_reported(chunks_came(p, chunks)),
    decreases chunks.len(),
{
    if chunks.len() > 0 {
        lemma_chunks_reported(p, chunks.drop_last());
        let chunk = chunks.last();
        lemma_choices_reported(
            chunks_came(p, chunks.drop_last()),
            chunk.choices@,
            chunk.choices@.len() as int,
        );
    }
}

/// What the filters give at the end is reported.
proof fn lemma_drained_reported(p: Progress)
    requires
        is_reported(p),
    ensures
        is_reported(drained(p).0),
{
    let split = think_finish(p.st.think);
    let none = Seq::<Seq<char>>::empty();
    let (earlier, now) = if p.st.think.undecided() {
        parted(p.st.opening, in_full(concat(p.st.opening), false, split.text))
    } else {
        (none, split.text)
    };
    let emptied = Progress {
        st: StreamState {
            think: fresh_think(p.st.quirks.think_tags),
            opening: none,
            ..p.st
        },
        ..p
    };
    lemma_parts_reported(emptied, earlier, split.reasoning, now);
    let passed = filtered(thought(all_filtered(emptied, earlier), split.reasoning), now);
    let rest = filter_finish(passed.st.dsml).0;
    let clean = StreamState { dsml: fresh_filter(p.st.quirks.dsml_heal), ..passed.st };
    lemma_spoke_reported(Progress { st: clean, ..passed }, rest);
}

/// The events with which output items end report no more text.
proof fn lemma_closings_add_nothing(
    events: Seq<EventView>,
    items: Seq<ItemView>,
    n: int,
    announced: bool,
    name: Seq<char>,
)
    requires
        name == "response.output_text.delta"@ || name == "response.reasoning_summary_text.delta"@,
    ensures
        events_named(events + closings(items, n, announced), name) == events_named(events, name),
    decreases n,
{
    lemma_names();
    if n <= 0 {
        assert(events + closings(items, n, announced) =~= events);
    } else {
        lemma_closings_add_nothing(events, items, n - 1, announced, name);
        let before = events + closings(items, n - 1, announced);
        let more = closing((n - 1) as nat, items[n - 1], announced);
        assert(events + closings(items, n, announced) =~= before + more);
        if more.len() == 0 {
            assert(before + more =~= before);
        } else if more.len() == 1 {
            assert(before + more =~= before.push(more[0]));
            lemma_named_push(before, more[0], name);
        } else if more.len() == 2 {
            assert(before + more =~= before.push(more[0]).push(more[1]));
            lemma_named_push(before, more[0], name);
            lemma_named_push(before.push(more[0]), more[1], name);
        } else {
            assert(before + more =~= before.push(more[0]).push(more[1]).push(more[2]));
            lemma_named_push(before, more[0], name);
            lemma_named_push(before.push(more[0]), more[1], name);
            lemma_named_push(before.push(more[0]).push(more[1]), more[2], name);
        }
    }
}

/// The pieces of text that are sent in a whole stream, one after the other, are the text
/// of the response: that of the message that is stored, and of the output in the last
/// event. So are the pieces of what was thought.
pub proof fn law_sent_pieces_make_up_the_response(
    start: Progress,
    quirks: Quirks,
    chunks: Seq<ChatStreamChunk>,
    ids: Seq<Seq<char>>,
)
    requires
        start.st == begun(start.st.id, start.st.model, start.st.asked, start.st.tools, quirks),
        start.sent.len() == 0,
    ensures
        ({
            let (last, calls) = drained(chunks_came(start, chunks));
            let m = last_message(last.st, calls, ids);
            let events = last.sent + last_events(last.st, m);
            &&& tell(events, m.text())
            &&& ponder(events, "rs_"@ + last.st.id, thought_in(m))
        }),
{
    let (last, calls) = drained(chunks_came(start, chunks));
    let m = last_message(last.st, calls, ids);
    let items = output_items(last.st.id, last.st.tools, m);
    let n = items.len() as int;
    let text = "response.output_text.delta"@;
    let reasoning = "response.reasoning_summary_text.delta"@;
    let no_pieces = Seq::<Seq<char>>::empty();
    assert(start.sent =~= Seq::empty());
    assert(delta_events(no_pieces) =~= Seq::empty());
    assert(reasoning_events("rs_"@ + start.st.id, no_pieces) =~= Seq::empty());
    assert(is_reported(start));
    lemma_chunks_reported(start, chunks);
    lemma_drained_reported(chunks_came(start, chunks));
    lemma_names();
    lemma_closings_add_nothing(last.sent, items, n, last.st.announced, text);
    lemma_closings_add_nothing(last.sent, items, n, last.st.announced, reasoning);
    let closed = last.sent + closings(items, n, last.st.announced);
    let end = last_events(last.st, m).last();
    assert(last.sent + last_events(last.st, m) =~= closed.push(end));
    lemma_named_push(closed, end, text);
    lemma_named_push(closed, end, reasoning);
    assert(m.text() =~= last.st.text);
    assert(thought_in(m) =~= last.st.reasoning);
}

} // verus!
