//! How a response begins, as long as it is undecided whether it speaks.

use super::filter::{
    all_tags, close_tags, fresh_think, open_tags, speaks_first, think_drain, think_push, think_run,
    Channels, ThinkState,
};
use super::laws::{
    comes_first, law_opening_tag_sets_off_filter, lemma_fired_stays, lemma_first_of_all,
    lemma_held_for_all, lemma_tag_begins_once, lemma_tags, split_of,
};
use crate::tags::growth::{
    lemma_first_tag_in_rest, lemma_first_tag_stays, lemma_no_tag_before_held, lemma_tag_at,
};
use crate::tags::{first_tag, held, lemma_first_tag_from, lemma_held, lemma_tag_len_at, tag_len_at};
use crate::text::{
    concat, is_blank, is_white, leading_white, lemma_leading_white, lemma_leading_white_stays,
    lemma_trim_start_blank, lemma_trim_start_joined, trim_start,
};
use vstd::prelude::*;

verus! {

/// The white space that leads a response of the given text and belongs to it.
pub open spec fn full_white(raw: Seq<char>) -> Seq<char> {
    if speaks_first(raw) {
        leading_white(raw)
    } else {
        Seq::empty()
    }
}

/// The white space that leads a stream and belongs to it, once it is decided that the
/// response speaks.
pub open spec fn kept(deltas: Seq<Seq<char>>) -> Seq<char>
    decreases deltas.len(),
{
    if deltas.len() == 0 {
        Seq::empty()
    } else {
        let before = think_run(fresh_think(true), deltas.drop_last()).0;
        let after = think_run(fresh_think(true), deltas).0;
        if before.undecided() && !after.undecided() {
            if !after.fired || speaks_first(concat(deltas)) {
                leading_white(concat(deltas))
            } else {
                Seq::empty()
            }
        } else {
            kept(deltas.drop_last())
        }
    }
}

/// The white space that leads a stream and belongs to it.
pub open spec fn kept_white(deltas: Seq<Seq<char>>) -> Seq<char> {
    if think_run(fresh_think(true), deltas).0.undecided() {
        leading_white(concat(deltas))
    } else {
        kept(deltas)
    }
}

/// Once visible text has been emitted, it stays so.
proof fn lemma_emitted_stays(st: ThinkState, out: Channels)
    requires
        st.emitted_text,
    ensures
        think_drain(st, out).0.emitted_text,
    decreases st.pending.len(),
{
    let p = st.pending;
    lemma_first_tag_from(p, 0, open_tags());
    lemma_first_tag_from(p, 0, close_tags());
    if st.in_think {
        if let Some((at, n)) = first_tag(p, close_tags()) {
            lemma_emitted_stays(
                ThinkState { in_think: false, ..st.past(at + n) },
                out.think(p.take(at)),
            );
        }
    } else {
        match (st.open_at(), st.close_at()) {
            (Some((at, n)), _) if st.opens_first() => {
                lemma_emitted_stays(
                    ThinkState {
                        pending: p.skip(at + n),
                        in_think: true,
                        fired: true,
                        ..st.said(at)
                    },
                    out.say(st.visible(at)),
                );
            },
            _ => {},
        }
    }
}

/// What is decided stays so.
pub proof fn lemma_decided_stays(st: ThinkState, delta: Seq<char>)
    requires
        !st.undecided(),
    ensures
        !think_push(st, delta).0.undecided(),
{
    let met = ThinkState { pending: st.pending + delta, ..st };
    if st.enabled {
        if st.fired {
            lemma_fired_stays(met, Channels::none());
        } else {
            lemma_emitted_stays(met, Channels::none());
        }
    }
}

/// Whether a filter that is undecided has seen `raw`: it withholds all of it but for
/// leading white space, and there is no tag in it.
pub open spec fn opens(raw: Seq<char>, st: ThinkState) -> bool {
    let d = raw.len() - st.pending.len();
    &&& st.undecided() && !st.in_think
    &&& 0 <= d
    &&& st.pending == raw.skip(d)
    &&& is_blank(raw.take(d))
    &&& first_tag(raw, all_tags()) is None
}

/// No tag begins in white space.
proof fn lemma_no_tag_in_blank(d: Seq<char>, p: Seq<char>, tags: Seq<Seq<char>>)
    requires
        is_blank(d),
        tags == all_tags() || tags == open_tags() || tags == close_tags(),
    ensures
        forall|j: int| 0 <= j < d.len() ==> tag_len_at(d + p, j, tags) == 0,
        first_tag(p, tags) is None <==> first_tag(d + p, tags) is None,
{
    let s = d + p;
    assert forall|j: int| 0 <= j < d.len() implies tag_len_at(s, j, tags) == 0 by {
        lemma_tag_len_at(s, j, tags);
        if tag_len_at(s, j, tags) > 0 {
            let t = lemma_tag_at(s, j, tags);
            let u = if tags == close_tags() {
                3 + t
            } else {
                t
            };
            assert(all_tags()[u] == tags[t]);
            lemma_tag_begins_once(u, 0);
            assert(s[j + 0] == tags[t][0]);
            assert(s[j] == d[j]);
        }
    }
    lemma_first_tag_in_rest(s, d.len() as int, tags);
    assert(s.skip(d.len() as int) =~= p);
}

/// What an undecided filter does with text in which there is no tag.
proof fn lemma_plain_push(raw: Seq<char>, st: ThinkState, delta: Seq<char>)
    requires
        opens(raw, st),
        first_tag(st.pending + delta, all_tags()) is None,
    ensures
        ({
            let (after, now) = think_push(st, delta);
            let p = st.pending + delta;
            if after.undecided() {
                &&& opens(raw + delta, after)
                &&& now == Channels::none()
                &&& after.pending == p || after.pending == p.skip(p.len() - held(p, all_tags()))
            } else {
                &&& !after.fired && !after.in_think && after.emitted_text && after.enabled
                &&& after.pending == p.skip(p.len() - held(p, all_tags()))
                &&& !is_blank(p.take(p.len() - held(p, all_tags())))
                &&& now.reasoning.len() == 0
                &&& leading_white(raw + delta) + now.text + after.pending == raw + delta
            }
        }),
{
    let (after, now) = think_push(st, delta);
    let none = Seq::<char>::empty();
    let d = raw.take(raw.len() - st.pending.len());
    let p = st.pending + delta;
    let all = raw + delta;
    assert(all =~= d + p);
    lemma_first_of_all(p);
    lemma_no_tag_in_blank(d, p, all_tags());
    lemma_held(p, all_tags());
    let keep = p.len() - held(p, all_tags());
    let front = p.take(keep);
    let rest = p.skip(keep);
    assert(front + rest =~= p);
    lemma_trim_start_blank(front);
    if is_blank(front) {
        assert(Channels::none().say(trim_start(front)) =~= Channels::none());
        assert(all.take(d.len() + keep) =~= d + front);
        assert(is_blank(d + front));
        assert(all.skip(d.len() + keep) =~= rest);
    } else if after.undecided() {
        assert(all.skip(d.len() as int) =~= p);
        assert(all.take(d.len() as int) =~= d);
    } else {
        lemma_trim_start_joined(d, p);
        lemma_trim_start_joined(front, rest);
        lemma_leading_white(all);
        assert(now =~= Channels::none().say(trim_start(front)));
        assert(now.text =~= trim_start(front));
        assert(leading_white(all) + now.text + rest =~= leading_white(all) + trim_start(all));
    }
}

/// A filter is decided by a piece that completes a tag.
proof fn lemma_tag_decides(st: ThinkState, delta: Seq<char>)
    requires
        st.undecided() && !st.in_think,
        first_tag(st.pending + delta, all_tags()) is Some,
    ensures
        !think_push(st, delta).0.undecided(),
{
    let met = ThinkState { pending: st.pending + delta, ..st };
    let p = met.pending;
    let out = Channels::none();
    lemma_first_of_all(p);
    lemma_first_tag_from(p, 0, open_tags());
    lemma_first_tag_from(p, 0, close_tags());
    match (met.open_at(), met.close_at()) {
        (Some((at, n)), _) if met.opens_first() => {
            lemma_fired_stays(
                ThinkState {
                    pending: p.skip(at + n),
                    in_think: true,
                    fired: true,
                    ..met.said(at)
                },
                out.say(met.visible(at)),
            );
        },
        (_, Some((at, n))) => {
            if met.in_sentence(at, n) {
                let before = p.take(at);
                assert(p.take(at + n) =~= before + p.subrange(at, at + n));
                lemma_trim_start_joined(before, p.subrange(at, at + n));
                lemma_trim_start_blank(before);
                lemma_emitted_stays(met.said(at + n), out.say(met.visible(at + n)));
            } else {
                lemma_fired_stays(
                    ThinkState { fired: true, ..met.past(at + n) },
                    out.think(p.take(at)),
                );
            }
        },
        _ => {},
    }
}

/// What an undecided filter does with a further piece.
pub proof fn lemma_push_opens(raw: Seq<char>, st: ThinkState, delta: Seq<char>)
    requires
        opens(raw, st),
    ensures
        ({
            let (after, now) = think_push(st, delta);
            let p = st.pending + delta;
            let keep = p.len() - held(p, all_tags());
            &&& first_tag(p, all_tags()) is None <==> first_tag(raw + delta, all_tags()) is None
            &&& after.undecided() ==> opens(raw + delta, after) && now == Channels::none() && (
            after.pending == p || after.pending == p.skip(keep))
            &&& first_tag(raw + delta, all_tags()) is None && !after.undecided() ==> {
                &&& !after.fired && !after.in_think && after.emitted_text && after.enabled
                &&& after.pending == p.skip(keep)
                &&& !is_blank(p.take(keep))
                &&& now.reasoning.len() == 0
                &&& leading_white(raw + delta) + now.text + after.pending == raw + delta
            }
        }),
{
    let d = raw.take(raw.len() - st.pending.len());
    let p = st.pending + delta;
    assert(raw + delta =~= d + p);
    lemma_no_tag_in_blank(d, p, all_tags());
    if first_tag(p, all_tags()) is None {
        lemma_plain_push(raw, st, delta);
    } else {
        lemma_tag_decides(st, delta);
    }
}

/// A filter that is undecided has given nothing, and withholds the stream.
pub proof fn lemma_opening_run(deltas: Seq<Seq<char>>)
    ensures
        ({
            let (st, out) = think_run(fresh_think(true), deltas);
            st.undecided() ==> opens(concat(deltas), st) && out == Channels::none()
        }),
    decreases deltas.len(),
{
    let none = Seq::<char>::empty();
    if deltas.len() == 0 {
        assert(none.skip(0) =~= none);
    } else {
        let front = deltas.drop_last();
        let before = think_run(fresh_think(true), front).0;
        lemma_opening_run(front);
        if before.undecided() {
            lemma_push_opens(concat(front), before, deltas.last());
            assert(Channels::none().followed_by(Channels::none()) =~= Channels::none());
        } else {
            lemma_decided_stays(before, deltas.last());
        }
    }
}

/// Whether the first tag of a text comes with visible text before it shows as soon as
/// the tag is there.
proof fn lemma_speaks_first_stays(raw: Seq<char>, more: Seq<char>)
    requires
        first_tag(raw, all_tags()) is Some,
        split_of(raw + more, false, false) is Some,
    ensures
        first_tag(raw, open_tags()) is Some,
        speaks_first(raw) == speaks_first(raw + more),
        speaks_first(raw) ==> !is_blank(raw),
{
    let whole = raw + more;
    lemma_tags();
    lemma_first_of_all(raw);
    lemma_first_of_all(whole);
    lemma_first_tag_stays(raw, more, all_tags());
    lemma_first_tag_from(raw, 0, all_tags());
    let (at, n) = first_tag(raw, all_tags())->0;
    if first_tag(raw, open_tags()) != Some((at, n)) {
        lemma_first_tag_stays(raw, more, close_tags());
        assert(comes_first(first_tag(whole, close_tags()), first_tag(whole, open_tags())));
    }
    lemma_first_tag_stays(raw, more, open_tags());
    let front = raw.take(at);
    assert(whole.take(at) =~= front);
    if is_blank(raw) {
        assert forall|i: int| 0 <= i < front.len() implies is_white(#[trigger] front[i]) by {
            assert(front[i] == raw[i]);
        }
    }
}

/// Text that is emitted while no tag has been seen comes before the first tag.
proof fn lemma_emitted_speaks_first(
    raw: Seq<char>,
    st: ThinkState,
    delta: Seq<char>,
    more: Seq<char>,
)
    requires
        opens(raw, st),
        first_tag(raw + delta, all_tags()) is None,
        !think_push(st, delta).0.undecided(),
        split_of(raw + delta + more, false, false) is Some,
    ensures
        speaks_first(raw + delta + more),
        !is_blank(raw + delta),
{
    lemma_push_opens(raw, st, delta);
    let d = raw.take(raw.len() - st.pending.len());
    let p = st.pending + delta;
    let now = raw + delta;
    let whole = now + more;
    assert(now =~= d + p);
    assert(whole =~= d + (p + more));
    lemma_held(p, all_tags());
    lemma_held(p, open_tags());
    lemma_held_for_all(p);
    lemma_first_of_all(p);
    let keep = p.len() - held(p, all_tags());
    let front = p.take(keep);
    let i = choose|i: int| 0 <= i < front.len() && !is_white(#[trigger] front[i]);
    assert(now[d.len() + i] == front[i]);
    lemma_no_tag_before_held(p, more, open_tags());
    lemma_no_tag_in_blank(d, p + more, open_tags());
    lemma_first_of_all(whole);
    lemma_first_tag_from(whole, 0, open_tags());
    if let Some((at, _)) = first_tag(whole, open_tags()) {
        lemma_first_tag_in_rest(whole, d.len() as int, open_tags());
        assert(whole.skip(d.len() as int) =~= p + more);
        lemma_first_tag_from(p + more, 0, open_tags());
        assert(at - d.len() >= keep);
        let lead = whole.take(at);
        assert(lead[d.len() + i] == front[i]);
    }
}

/// The white space that belongs to a stream is that of its text, once it is decided
/// that the response speaks.
proof fn lemma_kept(deltas: Seq<Seq<char>>, more: Seq<char>)
    requires
        split_of(concat(deltas) + more, false, false) is Some,
        !think_run(fresh_think(true), deltas).0.undecided(),
    ensures
        kept(deltas) == full_white(concat(deltas) + more),
    decreases deltas.len(),
{
    if deltas.len() > 0 {
        let front = deltas.drop_last();
        let last = deltas.last();
        let before = think_run(fresh_think(true), front).0;
        let raw = concat(deltas);
        assert(raw + more =~= concat(front) + (last + more));
        if before.undecided() {
            lemma_opening_run(front);
            lemma_push_opens(concat(front), before, last);
            assert(concat(front) + last == raw);
            if first_tag(raw, all_tags()) is Some {
                lemma_speaks_first_stays(raw, more);
                law_opening_tag_sets_off_filter(true, deltas);
                if speaks_first(raw) {
                    lemma_leading_white_stays(raw, more);
                }
            } else {
                lemma_emitted_speaks_first(concat(front), before, last, more);
                lemma_leading_white_stays(raw, more);
            }
        } else {
            lemma_kept(front, last + more);
        }
    }
}

/// The white space that belongs to a stream is that of its text, if no tag closes a
/// block that is not open before any visible text: how the stream is cut into deltas
/// does not matter.
pub proof fn law_kept_white_is_that_of_the_text(deltas: Seq<Seq<char>>)
    requires
        split_of(concat(deltas), false, false) is Some,
    ensures
        kept_white(deltas) == full_white(concat(deltas)),
{
    let none = Seq::<char>::empty();
    assert(concat(deltas) + none =~= concat(deltas));
    if think_run(fresh_think(true), deltas).0.undecided() {
        lemma_opening_run(deltas);
        lemma_first_of_all(concat(deltas));
    } else {
        lemma_kept(deltas, none);
    }
}

} // verus!
