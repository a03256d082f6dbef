//! What holds of a streamed response as a whole.

use super::events::completed_event;
use super::state::{
    all_filtered, begun, calls_came, completes, content_came, drained, extended, filtered, in_full,
    is_done, is_over, last_message, lemma_drained_keeps, parted, place_of, spoke, step_after,
    text_in, thought, Next, PartialView, Progress, StreamState, Upstream,
};
use crate::dsml;
use crate::dsml::grammar::{double_bar, healed, single_bar, Call};
use crate::dsml::laws::law_text_without_marker_stays;
use crate::dsml::shift::law_stream_heals_like_text;
use crate::dsml::stream::{
    filter_finish, filter_push, filter_run, fresh_filter, markers, FilterState,
};
use crate::output::output_items;
use crate::quirks::Quirks;
use crate::tags::growth::lemma_first_tag_at_seam;
use crate::tags::{
    first_tag, held, lemma_first_tag_from_none, lemma_held, lemma_tag_len_at, tag_len_at,
};
use crate::text::{
    concat, is_blank, is_white, leading_white, lemma_leading_white, lemma_leading_white_stays,
    lemma_trim_start_joined, occurs_at, trim_start,
};
use crate::think;
use crate::think::filter::{
    all_tags, close_tags, fresh_think, open_tags, think_finish, think_push, think_run, think_split,
    Channels, ThinkState,
};
use crate::think::heal::split_whole;
use crate::think::laws::{
    law_block_is_reasoning, law_message_splits_like_stream, law_plain_text_passes,
    law_stray_close_ends_implicit_block, lemma_first_of_all, lemma_tags, split_of,
};
use crate::think::opening::{
    full_white, kept, kept_white, law_kept_white_is_that_of_the_text, lemma_decided_stays,
    lemma_opening_run,
};
use crate::types::{MessageView, ToolCallDelta};
use vstd::prelude::*;
use vstd::string::*;

verus! {

// ---------------------------------------------------------------------------
// Text
// ---------------------------------------------------------------------------

/// Whether no character of `s` can begin markup.
pub open spec fn is_plain(s: Seq<char>) -> bool {
    forall|i: int| 0 <= i < s.len() ==> #[trigger] s[i] != '<' && s[i] != '◁'
}

/// Whether all tags begin as markup does.
spec fn begin_as_markup(tags: Seq<Seq<char>>) -> bool {
    forall|t: int|
        0 <= t < tags.len() ==> (#[trigger] tags[t]).len() > 0 && (tags[t][0] == '<' || tags[t][0]
            == '◁')
}

/// Plain text holds no tag, nor the beginning of one.
proof fn lemma_plain(s: Seq<char>, tags: Seq<Seq<char>>)
    requires
        is_plain(s),
        begin_as_markup(tags),
    ensures
        first_tag(s, tags) is None,
        held(s, tags) == 0,
{
    assert forall|j: int| 0 <= j < s.len() implies tag_len_at(s, j, tags) == 0 by {
        lemma_tag_len_at(s, j, tags);
        if tag_len_at(s, j, tags) > 0 {
            let t = choose|t: int|
                #![trigger tags[t]]
                0 <= t < tags.len() && occurs_at(s, j, tags[t]) && tags[t].len() == tag_len_at(
                    s,
                    j,
                    tags,
                );
            assert(s[j + 0] == tags[t][0]);
        }
    }
    lemma_first_tag_from_none(s, 0, tags);
    lemma_held(s, tags);
    let k = held(s, tags);
    if k > 0 {
        let t = choose|t: int|
            #![trigger tags[t]]
            0 <= t < tags.len() && 0 < k < tags[t].len() && occurs_at(
                s,
                s.len() - k,
                tags[t].take(k),
            );
        assert(s[s.len() - k + 0] == tags[t].take(k)[0]);
    }
}

proof fn lemma_markup_begins()
    ensures
        begin_as_markup(all_tags()),
        begin_as_markup(open_tags()),
        begin_as_markup(close_tags()),
        begin_as_markup(markers()),
{
    reveal_strlit("<thinking>");
    reveal_strlit("<think>");
    reveal_strlit("◁think▷");
    reveal_strlit("</thinking>");
    reveal_strlit("</think>");
    reveal_strlit("◁/think▷");
    reveal_strlit("<｜｜DSML｜｜");
    reveal_strlit("<｜DSML｜");
    assert(markers()[0] == double_bar().marker() && markers()[1] == single_bar().marker());
    let all = all_tags();
    assert(all[0] == "<thinking>"@ && all[1] == "<think>"@ && all[2] == "◁think▷"@);
    assert(all[3] == "</thinking>"@ && all[4] == "</think>"@ && all[5] == "◁/think▷"@);
}

/// Whether the filters of a translation withhold nothing.
pub open spec fn is_clear(st: StreamState) -> bool {
    &&& st.think.pending.len() == 0
    &&& st.think.lead == 0
    &&& !st.think.in_think
    &&& st.dsml.pending.len() == 0
    &&& !st.dsml.in_dsml
}

/// Once it is decided whether the response speaks, plain text is sent at once, as one
/// event, and added to the text of the response.
pub proof fn law_plain_text_is_sent_at_once(p: Progress, s: Seq<char>)
    requires
        is_clear(p.st),
        is_plain(s),
        s.len() > 0,
        !p.st.think.undecided(),
        p.st.think.emitted_text || !p.st.think.enabled || !is_white(s[0]),
    ensures
        content_came(p, s).sent == spoke(p, s).sent,
        content_came(p, s).st == (StreamState {
            think: ThinkState {
                emitted_text: p.st.think.emitted_text || p.st.think.enabled,
                ..p.st.think
            },
            ..spoke(p, s).st
        }),
{
    let none = Seq::<char>::empty();
    let st = p.st;
    let (think, split) = think_push(st.think, s);
    lemma_markup_begins();
    lemma_plain(s, all_tags());
    lemma_plain(s, open_tags());
    lemma_plain(s, close_tags());
    lemma_plain(s, markers());
    assert(s.take(s.len() as int) =~= s && s.skip(s.len() as int) =~= none);
    assert(none + s =~= s);
    assert(st.think.pending =~= none && st.dsml.pending =~= none);
    if st.think.enabled {
        assert(!is_white(s[0]) ==> trim_start(s) == s);
        assert(split =~= Channels::none().say(s));
        assert(think =~= ThinkState { emitted_text: true, ..st.think });
    } else {
        assert(split =~= Channels::none().say(s));
    }
    assert(split.text =~= s && split.reasoning =~= none);
    assert(filter_push(st.dsml, s).1 =~= s);
    assert(filter_push(st.dsml, s).0 =~= st.dsml);
}

/// Where a translation stands after some pieces of content.
pub open spec fn contents_came(p: Progress, deltas: Seq<Seq<char>>) -> Progress
    decreases deltas.len(),
{
    if deltas.len() == 0 {
        p
    } else {
        content_came(contents_came(p, deltas.drop_last()), deltas.last())
    }
}

/// A filter that takes in pieces, and then more, has taken in all of them.
proof fn lemma_filter_run_joined(st: FilterState, a: Seq<Seq<char>>, b: Seq<Seq<char>>)
    ensures
        ({
            let (between, first) = filter_run(st, a);
            let (after, second) = filter_run(between, b);
            filter_run(st, a + b) == (after, first + second)
        }),
    decreases b.len(),
{
    let (between, first) = filter_run(st, a);
    if b.len() == 0 {
        assert(a + b =~= a);
        assert(first + Seq::empty() =~= first);
    } else {
        lemma_filter_run_joined(st, a, b.drop_last());
        assert((a + b).drop_last() =~= a + b.drop_last());
        let (before, second) = filter_run(between, b.drop_last());
        let more = filter_push(before, b.last()).1;
        assert(first + second + more =~= first + (second + more));
    }
}

/// Two lists of pieces make up one text after the other.
pub proof fn lemma_concat_joined(a: Seq<Seq<char>>, b: Seq<Seq<char>>)
    ensures
        concat(a + b) == concat(a) + concat(b),
    decreases b.len(),
{
    if b.len() == 0 {
        assert(a + b =~= a);
        assert(concat(a) + concat(b) =~= concat(a));
    } else {
        lemma_concat_joined(a, b.drop_last());
        assert((a + b).drop_last() =~= a + b.drop_last());
        assert(concat(a) + concat(b) =~= (concat(a) + concat(b.drop_last())) + b.last());
    }
}

/// One piece makes up itself.
proof fn lemma_concat_one(s: Seq<char>)
    ensures
        concat(seq![s]) == s,
{
    assert(seq![s].drop_last() =~= Seq::empty());
    assert(concat(seq![s].drop_last()) =~= Seq::empty());
    assert(concat(seq![s]) =~= s);
}

/// The texts that come out of the filter for what was thought, when a piece comes.
spec fn given(before: ThinkState, opening: Seq<Seq<char>>, s: Seq<char>) -> Seq<Seq<char>> {
    let (after, split) = think_push(before, s);
    if !before.undecided() {
        seq![split.text]
    } else if after.undecided() {
        Seq::empty()
    } else {
        let (earlier, now) = parted(
            opening,
            in_full(concat(opening) + s, after.fired, split.text),
        );
        earlier.push(now)
    }
}

/// The texts that come out of that filter at the end.
spec fn given_last(before: ThinkState, opening: Seq<Seq<char>>) -> Seq<Seq<char>> {
    let end = think_finish(before);
    if before.undecided() {
        let (earlier, now) = parted(opening, in_full(concat(opening), false, end.text));
        earlier.push(now)
    } else {
        seq![end.text]
    }
}

/// The parts of a text make it up.
proof fn lemma_parted(waiting: Seq<Seq<char>>, text: Seq<char>)
    ensures
        ({
            let (earlier, now) = parted(waiting, text);
            concat(earlier.push(now)) == text
        }),
{
    let (earlier, now) = parted(waiting, text);
    assert(earlier.push(now).drop_last() =~= earlier);
    assert(concat(earlier) + now =~= text);
}

/// What texts from that filter do to the state.
proof fn lemma_all_filtered(p: Progress, texts: Seq<Seq<char>>)
    ensures
        ({
            let (dsml, safe) = filter_run(p.st.dsml, texts);
            let after = all_filtered(p, texts).st;
            after == (StreamState {
                dsml,
                text: p.st.text + safe,
                announced: after.announced,
                ..p.st
            })
        }),
    decreases texts.len(),
{
    if texts.len() == 0 {
        assert(p.st.text + Seq::empty() =~= p.st.text);
    } else {
        lemma_all_filtered(p, texts.drop_last());
        let (between, safe) = filter_run(p.st.dsml, texts.drop_last());
        let more = filter_push(between, texts.last()).1;
        assert(p.st.text + safe + more =~= p.st.text + (safe + more));
        if more.len() == 0 {
            assert(p.st.text + safe + more =~= p.st.text + safe);
        }
    }
}

/// What texts from that filter, and something that was thought between the last two,
/// do to the state.
proof fn lemma_all_but_last(
    p: Progress,
    earlier: Seq<Seq<char>>,
    reasoning: Seq<char>,
    now: Seq<char>,
)
    ensures
        ({
            let (dsml, safe) = filter_run(p.st.dsml, earlier.push(now));
            let after = filtered(thought(all_filtered(p, earlier), reasoning), now).st;
            after == (StreamState {
                dsml,
                reasoning: p.st.reasoning + reasoning,
                text: p.st.text + safe,
                announced: after.announced,
                ..p.st
            })
        }),
{
    lemma_all_filtered(p, earlier);
    let (between, first) = filter_run(p.st.dsml, earlier);
    let second = filter_push(between, now).1;
    assert(earlier.push(now).drop_last() =~= earlier);
    if reasoning.len() == 0 {
        assert(p.st.reasoning + reasoning =~= p.st.reasoning);
    }
    assert(p.st.text + first + second =~= p.st.text + (first + second));
    if second.len() == 0 {
        assert(p.st.text + first + second =~= p.st.text + first);
    }
}

/// What a piece of content does to the state.
proof fn lemma_content(p: Progress, s: Seq<char>)
    ensures
        ({
            let (think, split) = think_push(p.st.think, s);
            let (dsml, safe) = filter_run(p.st.dsml, given(p.st.think, p.st.opening, s));
            let after = content_came(p, s).st;
            after == (StreamState {
                think,
                opening: if !p.st.think.undecided() {
                    p.st.opening
                } else if think.undecided() {
                    p.st.opening.push(s)
                } else {
                    Seq::empty()
                },
                dsml,
                reasoning: if p.st.think.undecided() && think.undecided() {
                    p.st.reasoning
                } else {
                    p.st.reasoning + split.reasoning
                },
                text: p.st.text + safe,
                announced: after.announced,
                ..p.st
            })
        }),
{
    let (think, split) = think_push(p.st.think, s);
    let none = Seq::<Seq<char>>::empty();
    if !p.st.think.undecided() {
        let next = Progress { st: StreamState { think, ..p.st }, ..p };
        assert(none.push(split.text) =~= seq![split.text]);
        lemma_all_but_last(next, none, split.reasoning, split.text);
    } else if think.undecided() {
        assert(p.st.text + Seq::empty() =~= p.st.text);
    } else {
        let raw = concat(p.st.opening) + s;
        let (earlier, now) = parted(p.st.opening, in_full(raw, think.fired, split.text));
        let decided = StreamState { think, opening: Seq::empty(), ..p.st };
        lemma_all_but_last(Progress { st: decided, ..p }, earlier, split.reasoning, now);
    }
}

/// The texts that come out of the filter for what was thought of some deltas.
spec fn pieces(fresh: ThinkState, deltas: Seq<Seq<char>>) -> Seq<Seq<char>>
    decreases deltas.len(),
{
    if deltas.len() == 0 {
        Seq::empty()
    } else {
        let front = deltas.drop_last();
        pieces(fresh, front) + given(think_run(fresh, front).0, front, deltas.last())
    }
}

/// What some pieces of content do to the state of a translation that has heard
/// nothing.
proof fn lemma_contents(start: Progress, quirks: Quirks, deltas: Seq<Seq<char>>)
    requires
        start.st == begun(start.st.id, start.st.model, start.st.asked, start.st.tools, quirks),
    ensures
        ({
            let fresh = fresh_think(quirks.think_tags);
            let (think, out) = think_run(fresh, deltas);
            let (dsml, safe) = filter_run(fresh_filter(quirks.dsml_heal), pieces(fresh, deltas));
            let after = contents_came(start, deltas).st;
            &&& after == (StreamState {
                think,
                opening: if think.undecided() {
                    deltas
                } else {
                    Seq::empty()
                },
                dsml,
                reasoning: out.reasoning,
                text: safe,
                announced: after.announced,
                ..start.st
            })
        }),
    decreases deltas.len(),
{
    let fresh = fresh_think(quirks.think_tags);
    if deltas.len() == 0 {
        assert(deltas =~= Seq::empty());
    } else {
        let front = deltas.drop_last();
        let last = deltas.last();
        lemma_contents(start, quirks, front);
        lemma_content(contents_came(start, front), last);
        let (before, out) = think_run(fresh, front);
        let (after, split) = think_push(before, last);
        if !quirks.think_tags {
            think::laws::law_disabled_filter_passes(front);
        }
        if before.undecided() {
            if after.undecided() {
                lemma_opening_run(front);
                lemma_opening_run(deltas);
            }
            assert(front.push(last) =~= deltas);
        } else {
            lemma_decided_stays(before, last);
        }
        lemma_filter_run_joined(
            fresh_filter(quirks.dsml_heal),
            pieces(fresh, front),
            given(before, front, last),
        );
    }
}

/// The texts that come out of the filter make up what it gives, and the white space
/// that leads it.
proof fn lemma_pieces(deltas: Seq<Seq<char>>)
    ensures
        ({
            let (st, out) = think_run(fresh_think(true), deltas);
            concat(pieces(fresh_think(true), deltas)) == if st.undecided() {
                Seq::empty()
            } else {
                kept(deltas) + out.text
            }
        }),
    decreases deltas.len(),
{
    let fresh = fresh_think(true);
    if deltas.len() > 0 {
        let front = deltas.drop_last();
        let last = deltas.last();
        let (before, out) = think_run(fresh, front);
        let (after, split) = think_push(before, last);
        let more = given(before, front, last);
        lemma_pieces(front);
        lemma_concat_joined(pieces(fresh, front), more);
        if !before.undecided() {
            lemma_decided_stays(before, last);
            lemma_concat_one(split.text);
            assert((kept(front) + out.text) + split.text =~= kept(front) + (out.text
                + split.text));
        } else if after.undecided() {
            assert(concat(pieces(fresh, front)) + concat(more) =~= Seq::empty());
        } else {
            lemma_opening_run(front);
            let full = in_full(concat(front) + last, after.fired, split.text);
            lemma_parted(front, full);
            assert(concat(front) + last == concat(deltas));
            assert(Channels::none().followed_by(split) =~= split);
            assert(Seq::<char>::empty() + full =~= full);
            assert(Seq::<char>::empty() + split.text =~= split.text);
            assert(kept(deltas) + split.text =~= full);
        }
    }
}

/// The texts that come out of a filter that does not split are the deltas.
proof fn lemma_disabled_pieces(deltas: Seq<Seq<char>>)
    ensures
        concat(pieces(fresh_think(false), deltas)) == concat(deltas),
    decreases deltas.len(),
{
    let fresh = fresh_think(false);
    if deltas.len() > 0 {
        let front = deltas.drop_last();
        lemma_disabled_pieces(front);
        think::laws::law_disabled_filter_passes(front);
        let more = given(think_run(fresh, front).0, front, deltas.last());
        lemma_concat_joined(pieces(fresh, front), more);
        assert(Channels::none().say(deltas.last()).text =~= deltas.last());
        lemma_concat_one(deltas.last());
    }
}

/// All that the filter for what was thought gives of a stream.
pub open spec fn split_stream(quirks: Quirks, deltas: Seq<Seq<char>>) -> Channels {
    if quirks.think_tags {
        think_split(deltas)
    } else {
        Channels::none().say(concat(deltas))
    }
}

/// All that the filter for leaked calls gives of a text at once: the visible text,
/// and the calls.
pub open spec fn filtered_whole(quirks: Quirks, text: Seq<char>) -> (Seq<char>, Seq<Call>) {
    let (st, safe) = filter_push(fresh_filter(quirks.dsml_heal), text);
    let (rest, calls) = filter_finish(st);
    (safe + rest, calls)
}

/// The white space that leads a stream and belongs to it, although the filter for what
/// was thought does not give it.
pub open spec fn white_kept(quirks: Quirks, deltas: Seq<Seq<char>>) -> Seq<char> {
    if quirks.think_tags {
        kept_white(deltas)
    } else {
        Seq::empty()
    }
}

/// What the filters give at the end.
proof fn lemma_drained(p: Progress)
    ensures
        ({
            let end = think_finish(p.st.think);
            let (dsml, safe) = filter_run(p.st.dsml, given_last(p.st.think, p.st.opening));
            let (rest, calls) = filter_finish(dsml);
            let (last, found) = drained(p);
            &&& last.st.reasoning == p.st.reasoning + end.reasoning
            &&& last.st.text == p.st.text + safe + rest
            &&& found == calls
        }),
{
    let end = think_finish(p.st.think);
    let none = Seq::<Seq<char>>::empty();
    let (earlier, now) = if p.st.think.undecided() {
        parted(p.st.opening, in_full(concat(p.st.opening), false, end.text))
    } else {
        (none, end.text)
    };
    let emptied = StreamState {
        think: fresh_think(p.st.quirks.think_tags),
        opening: none,
        ..p.st
    };
    assert(none.push(end.text) =~= seq![end.text]);
    lemma_all_but_last(Progress { st: emptied, ..p }, earlier, end.reasoning, now);
    let (dsml, safe) = filter_run(p.st.dsml, given_last(p.st.think, p.st.opening));
    let rest = filter_finish(dsml).0;
    if rest.len() == 0 {
        assert(p.st.text + safe + rest =~= p.st.text + safe);
    }
}

/// The texts that come out of the filter for what was thought, of some deltas and at
/// the end, make up all that it gives, and the white space that leads it.
proof fn lemma_all_given(quirks: Quirks, deltas: Seq<Seq<char>>)
    ensures
        ({
            let fresh = fresh_think(quirks.think_tags);
            let (think, out) = think_run(fresh, deltas);
            let opening = if think.undecided() {
                deltas
            } else {
                Seq::empty()
            };
            let all = split_stream(quirks, deltas);
            &&& out.reasoning + think_finish(think).reasoning == all.reasoning
            &&& concat(pieces(fresh, deltas) + given_last(think, opening)) == white_kept(
                quirks,
                deltas,
            ) + all.text
        }),
{
    let fresh = fresh_think(quirks.think_tags);
    let (think, out) = think_run(fresh, deltas);
    let none = Seq::<Seq<char>>::empty();
    let opening = if think.undecided() {
        deltas
    } else {
        none
    };
    let end = think_finish(think);
    let all = split_stream(quirks, deltas);
    let last = given_last(think, opening);
    lemma_concat_joined(pieces(fresh, deltas), last);
    if quirks.think_tags {
        lemma_pieces(deltas);
        if think.undecided() {
            lemma_opening_run(deltas);
            let full = in_full(concat(deltas), false, end.text);
            lemma_parted(deltas, full);
            assert(Channels::none().followed_by(end) =~= end);
            assert(Seq::<char>::empty() + full =~= full);
        } else {
            lemma_concat_one(end.text);
            assert((kept(deltas) + out.text) + end.text =~= kept(deltas) + all.text);
        }
    } else {
        think::laws::law_disabled_filter_passes(deltas);
        lemma_disabled_pieces(deltas);
        lemma_concat_one(end.text);
        assert(concat(deltas) + Seq::empty() =~= concat(deltas));
        assert(Seq::empty() + all.text =~= all.text);
        assert(all.text =~= concat(deltas));
        assert(out.reasoning + end.reasoning =~= all.reasoning);
    }
}

/// A response of text amounts to what the whole text amounts to, however it is cut
/// into deltas: what was thought is split off, and from the rest, with the white space
/// that leads it, the calls that leaked into it are healed. With that quirk enabled,
/// these are the calls that heal in the rest as a text.
pub proof fn law_stream_amounts_to_its_text(
    start: Progress,
    quirks: Quirks,
    deltas: Seq<Seq<char>>,
)
    requires
        start.st == begun(start.st.id, start.st.model, start.st.asked, start.st.tools, quirks),
    ensures
        ({
            let (last, calls) = drained(contents_came(start, deltas));
            let all = split_stream(quirks, deltas);
            let visible = white_kept(quirks, deltas) + all.text;
            &&& last.st.reasoning == all.reasoning
            &&& (last.st.text, calls) == filtered_whole(quirks, visible)
            &&& quirks.dsml_heal ==> match healed(visible) {
                Some((_, found)) => calls == found,
                None => calls.len() == 0,
            }
        }),
{
    let fresh = fresh_think(quirks.think_tags);
    let before = contents_came(start, deltas);
    let (think, out) = think_run(fresh, deltas);
    lemma_contents(start, quirks, deltas);
    lemma_drained(before);
    lemma_all_given(quirks, deltas);
    let opening = before.st.opening;
    let first = pieces(fresh, deltas);
    let last = given_last(think, opening);
    let whole = first + last;
    lemma_filter_run_joined(fresh_filter(quirks.dsml_heal), first, last);
    if quirks.dsml_heal {
        dsml::laws::law_deltas_do_not_matter(whole);
        law_stream_heals_like_text(whole);
    } else {
        dsml::laws::law_disabled_filter_passes(whole);
    }
}

/// Text without the marker of either dialect comes out of the filter for leaked calls
/// as it is.
pub proof fn lemma_unmarked(quirks: Quirks, text: Seq<char>)
    requires
        first_tag(text, markers()) is None,
    ensures
        filtered_whole(quirks, text).0 == text,
        filtered_whole(quirks, text).1.len() == 0,
{
    let none = Seq::<char>::empty();
    assert(none + text =~= text);
    law_text_without_marker_stays(text);
    if quirks.dsml_heal {
        lemma_held(text, markers());
        let emit = text.len() - held(text, markers());
        assert(text.take(emit) + text.skip(emit) =~= text);
    } else {
        dsml::laws::law_disabled_filter_passes(seq![text]);
        assert(text + none =~= text);
    }
}

/// A stream without think markup is no reasoning: all of its text goes through the filter
/// for leaked calls.
pub proof fn law_unsplit_stream_is_filtered_whole(
    start: Progress,
    quirks: Quirks,
    deltas: Seq<Seq<char>>,
)
    requires
        start.st == begun(start.st.id, start.st.model, start.st.asked, start.st.tools, quirks),
        first_tag(concat(deltas), all_tags()) is None,
    ensures
        ({
            let (last, calls) = drained(contents_came(start, deltas));
            (last.st.text, calls) == filtered_whole(quirks, concat(deltas))
                && last.st.reasoning.len() == 0
        }),
{
    let raw = concat(deltas);
    let none = Seq::<char>::empty();
    law_stream_amounts_to_its_text(start, quirks, deltas);
    lemma_first_of_all(raw);
    if quirks.think_tags {
        law_plain_text_passes(deltas);
        law_kept_white_is_that_of_the_text(deltas);
        lemma_leading_white(raw);
        assert(think_split(deltas).text =~= trim_start(raw));
    } else {
        assert(Channels::none().say(raw).text =~= raw);
        assert(none + raw =~= raw);
    }
}

/// A stream without markup is untouched, whatever quirks are enabled: its text is what
/// came, with nothing thought and nothing called.
pub proof fn law_healthy_stream_is_untouched(
    start: Progress,
    quirks: Quirks,
    deltas: Seq<Seq<char>>,
)
    requires
        start.st == begun(start.st.id, start.st.model, start.st.asked, start.st.tools, quirks),
        first_tag(concat(deltas), all_tags()) is None,
        first_tag(concat(deltas), markers()) is None,
    ensures
        ({
            let (last, calls) = drained(contents_came(start, deltas));
            last.st.text == concat(deltas) && last.st.reasoning.len() == 0 && calls.len() == 0
        }),
{
    let raw = concat(deltas);
    law_unsplit_stream_is_filtered_whole(start, quirks, deltas);
    lemma_unmarked(quirks, raw);
}

/// The text that is visible before and behind a block. White space that leads the
/// response belongs to it, unless the block comes before all visible text.
pub open spec fn around(before: Seq<char>, after: Seq<char>) -> Seq<char> {
    if is_blank(before) {
        trim_start(after)
    } else {
        before + after
    }
}

/// The white space that leads a text with a block in it.
pub proof fn lemma_white_before_block(
    before: Seq<char>,
    open: int,
    inside: Seq<char>,
    after: Seq<char>,
)
    requires
        0 <= open < open_tags().len(),
        first_tag(before, all_tags()) is None,
    ensures
        full_white(before + open_tags()[open] + inside) + trim_start(before + after) == around(
            before,
            after,
        ),
{
    let o = open_tags()[open];
    let raw = before + o + inside;
    lemma_tags();
    assert(all_tags()[open] == o);
    lemma_first_of_all(before);
    lemma_first_tag_at_seam(before, inside, all_tags(), open);
    lemma_first_tag_at_seam(before, inside, open_tags(), open);
    lemma_first_of_all(raw);
    assert(raw.take(before.len() as int) =~= before);
    lemma_trim_start_joined(before, after);
    if is_blank(before) {
        assert(Seq::<char>::empty() + trim_start(after) =~= trim_start(after));
    } else {
        assert(raw =~= before + (o + inside));
        lemma_leading_white_stays(before, o + inside);
        lemma_leading_white(before);
        assert(leading_white(before) + (trim_start(before) + after) =~= before + after);
    }
}

/// What the filter for what was thought gives of a stream with a block in it, and the
/// white space that leads it.
proof fn lemma_block_in_stream(
    deltas: Seq<Seq<char>>,
    before: Seq<char>,
    open: int,
    body: Seq<char>,
    close: int,
    after: Seq<char>,
)
    requires
        0 <= open < open_tags().len(),
        0 <= close < close_tags().len(),
        concat(deltas) == before + open_tags()[open] + body + close_tags()[close] + after,
        first_tag(before, all_tags()) is None,
        first_tag(body, close_tags()) is None,
        first_tag(after, all_tags()) is None,
    ensures
        think_split(deltas).reasoning == body,
        kept_white(deltas) + think_split(deltas).text == around(before, after),
{
    law_block_is_reasoning(deltas, before, open, body, close, after);
    law_kept_white_is_that_of_the_text(deltas);
    let inside = body + close_tags()[close] + after;
    assert(concat(deltas) =~= before + open_tags()[open] + inside);
    lemma_white_before_block(before, open, inside, after);
}

/// A block of leaked reasoning in a stream is what was thought, however it is cut into
/// deltas, and the rest is the text of the response.
pub proof fn law_streamed_block_is_thought(
    start: Progress,
    quirks: Quirks,
    deltas: Seq<Seq<char>>,
    before: Seq<char>,
    open: int,
    body: Seq<char>,
    close: int,
    after: Seq<char>,
)
    requires
        start.st == begun(start.st.id, start.st.model, start.st.asked, start.st.tools, quirks),
        quirks.think_tags,
        0 <= open < open_tags().len(),
        0 <= close < close_tags().len(),
        concat(deltas) == before + open_tags()[open] + body + close_tags()[close] + after,
        first_tag(before, all_tags()) is None,
        first_tag(body, close_tags()) is None,
        first_tag(after, all_tags()) is None,
        first_tag(around(before, after), markers()) is None,
    ensures
        ({
            let (last, calls) = drained(contents_came(start, deltas));
            &&& last.st.reasoning == body
            &&& last.st.text == around(before, after)
            &&& calls.len() == 0
        }),
{
    law_stream_amounts_to_its_text(start, quirks, deltas);
    lemma_block_in_stream(deltas, before, open, body, close, after);
    lemma_unmarked(quirks, around(before, after));
}

/// A response of text is split and healed like a message with that text, if no tag
/// closes a block that is not open before any visible text. White space that leads the
/// visible text stays, unless a tag stands before that text.
pub proof fn law_stream_is_repaired_like_message(
    start: Progress,
    quirks: Quirks,
    deltas: Seq<Seq<char>>,
)
    requires
        start.st == begun(start.st.id, start.st.model, start.st.asked, start.st.tools, quirks),
        quirks.think_tags,
        quirks.dsml_heal,
        split_of(concat(deltas), false, false) is Some,
    ensures
        ({
            let (last, calls) = drained(contents_came(start, deltas));
            let whole = split_whole(concat(deltas));
            let visible = full_white(concat(deltas)) + whole.text;
            &&& last.st.reasoning == whole.reasoning
            &&& match healed(visible) {
                Some((_, found)) => calls == found,
                None => calls.len() == 0 && last.st.text == visible,
            }
        }),
{
    let text = concat(deltas);
    let once = seq![text];
    law_stream_amounts_to_its_text(start, quirks, deltas);
    law_kept_white_is_that_of_the_text(deltas);
    think::laws::law_deltas_do_not_matter(deltas);
    lemma_concat_one(text);
    think::laws::law_deltas_do_not_matter(once);
    law_message_splits_like_stream(text);
    let visible = full_white(text) + split_whole(text).text;
    let pieces = seq![visible];
    lemma_concat_one(visible);
    dsml::laws::law_deltas_do_not_matter(pieces);
    dsml::laws::law_unhealed_stream_passes(pieces);
}

/// Text that waits turns out to be what was thought where the next piece closes a block
/// whose opening tag the prompt held.
pub proof fn law_waiting_text_turns_out_to_be_thought(
    p: Progress,
    w: Seq<char>,
    close: int,
    t: Seq<char>,
)
    requires
        p.st.think.undecided(),
        !p.st.think.in_think,
        p.st.think.pending == w,
        0 <= close < close_tags().len(),
        first_tag(w, all_tags()) is None,
        first_tag(t, all_tags()) is None,
        !(ThinkState { pending: w + (close_tags()[close] + t), ..p.st.think }).in_sentence(
            w.len() as int,
            close_tags()[close].len() as int,
        ),
    ensures
        ({
            let after = content_came(p, close_tags()[close] + t).st;
            after.reasoning == p.st.reasoning + w && after.think.fired
        }),
{
    let s = close_tags()[close] + t;
    assert(w + s =~= w + close_tags()[close] + t);
    law_stray_close_ends_implicit_block(p.st.think, s, w, close, t);
    lemma_content(p, s);
}

// ---------------------------------------------------------------------------
// Tool calls
// ---------------------------------------------------------------------------

/// The arguments in the first `n` pieces of tool calls, one after the other.
pub open spec fn joined_arguments(deltas: Seq<ToolCallDelta>, n: int) -> Seq<char>
    decreases n,
{
    if n <= 0 {
        Seq::empty()
    } else {
        joined_arguments(deltas, n - 1) + text_in(deltas[n - 1].arguments)
    }
}

proof fn lemma_place_of_last(calls: Seq<PartialView>, call: PartialView, i: int)
    requires
        0 <= i <= calls.len(),
        place_of(calls, call.index, i) is None,
    ensures
        place_of(calls.push(call), call.index, i) == Some(calls.len() as int),
    decreases calls.len() - i,
{
    if i < calls.len() {
        lemma_place_of_last(calls, call, i + 1);
    }
}

/// A tool call that is streamed in pieces comes out whole: its id and name are those of
/// the first piece, its arguments those of all pieces, one after the other.
pub proof fn law_streamed_call_is_whole(
    calls: Seq<PartialView>,
    deltas: Seq<ToolCallDelta>,
    n: int,
    id: String,
    name: String,
)
    requires
        1 <= n <= deltas.len(),
        place_of(calls, deltas[0].index, 0) is None,
        deltas[0].id == Some(id),
        deltas[0].name == Some(name),
        forall|i: int|
            1 <= i < n ==> (#[trigger] deltas[i]).index == deltas[0].index && deltas[i].id is None
                && deltas[i].name is None,
    ensures
        calls_came(calls, deltas, n) == calls.push(
            PartialView {
                index: deltas[0].index,
                id: id@,
                name: name@,
                arguments: joined_arguments(deltas, n),
            },
        ),
    decreases n,
{
    let none = Seq::<char>::empty();
    if n == 1 {
        reveal_with_fuel(calls_came, 2);
        reveal_with_fuel(joined_arguments, 2);
        assert(none + text_in(deltas[0].arguments) =~= joined_arguments(deltas, 1));
        assert(none + none =~= none);
    } else {
        law_streamed_call_is_whole(calls, deltas, n - 1, id, name);
        let call = PartialView {
            index: deltas[0].index,
            id: id@,
            name: name@,
            arguments: joined_arguments(deltas, n - 1),
        };
        lemma_place_of_last(calls, call, 0);
        let delta = deltas[n - 1];
        assert(call.arguments + none =~= call.arguments);
        assert(calls.push(call).update(calls.len() as int, extended(call, delta)) =~= calls.push(
            extended(call, delta),
        ));
    }
}

// ---------------------------------------------------------------------------
// The end
// ---------------------------------------------------------------------------

/// A stream that is over without a finish reason, and without having said that it is
/// done, is cut off: the response fails, and nothing is stored.
#[verifier::rlimit(50)]
pub proof fn law_truncated_stream_fails(
    st: StreamState,
    stored: Map<Seq<char>, Seq<MessageView>>,
    heard: Upstream,
    ids: Seq<Seq<char>>,
)
    requires
        is_over(heard),
        !st.finished,
    ensures
        ({
            let after = step_after(st, stored, heard, ids);
            &&& after.stored == stored
            &&& after.events.len() == 1
            &&& after.events[0].name == "response.failed"@
            &&& after.next == Next::Stop
        }),
{
}

/// A stream that is over behind a finish reason ends like one that says that it is
/// done, if that quirk is enabled.
#[verifier::rlimit(50)]
pub proof fn law_missing_done_completes(
    st: StreamState,
    stored: Map<Seq<char>, Seq<MessageView>>,
    heard: Upstream,
    data: String,
    ids: Seq<Seq<char>>,
)
    requires
        is_over(heard),
        st.finished,
        st.quirks.missing_done,
        is_done(data@),
    ensures
        step_after(st, stored, heard, ids) == step_after(st, stored, Upstream::Data(data), ids),
{
}

/// Nothing is stored but a complete turn. It is stored under the id of the response,
/// and ends with the message whose output the last event shows.
#[verifier::rlimit(50)]
pub proof fn law_only_complete_turn_is_stored(
    st: StreamState,
    stored: Map<Seq<char>, Seq<MessageView>>,
    heard: Upstream,
    ids: Seq<Seq<char>>,
)
    ensures
        ({
            let after = step_after(st, stored, heard, ids);
            let (last, calls) = drained(Progress { st, sent: Seq::empty() });
            let m = last_message(last.st, calls, ids);
            if completes(st, heard) {
                &&& after.stored == stored.insert(st.id, st.asked.push(m))
                &&& after.events.last() == completed_event(
                    st.id,
                    st.model,
                    output_items(st.id, st.tools, m),
                    st.usage,
                )
                &&& after.next == Next::Stop
            } else {
                after.stored == stored
            }
        }),
{
    lemma_drained_keeps(Progress { st, sent: Seq::empty() });
}

/// A request that upstream refuses, or that fails, is answered with one error event
/// and stores nothing.
#[verifier::rlimit(50)]
pub proof fn law_refusal_stores_nothing(
    st: StreamState,
    stored: Map<Seq<char>, Seq<MessageView>>,
    heard: Upstream,
    ids: Seq<Seq<char>>,
)
    requires
        heard is Refused || heard is Failed,
    ensures
        ({
            let after = step_after(st, stored, heard, ids);
            &&& after.stored == stored
            &&& after.next == Next::Stop
            &&& after.events.len() == 1
            &&& after.events[0].name == "error"@
        }),
{
}

} // verus!
