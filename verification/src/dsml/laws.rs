//! What holds of healing as a whole.

use super::grammar::{
    blocks, double_bar, healed, lemma_next_invoke, next_invoke, single_bar, Call, DsmlDialect,
};
use super::stream::{filter_finish, filter_push, filter_run, fresh_filter, markers, FilterState};
use crate::tags::growth::{
    distinct_heads, lemma_first_tag_in_rest, lemma_first_tag_stays, lemma_held_in_rest,
    lemma_no_tag_before_held, lemma_occurs_in_longer, lemma_tag_at, moved,
};
use crate::tags::{
    first_tag, held, lemma_first_tag_from, lemma_first_tag_from_none, lemma_held, lemma_tag_len_at,
    tag_len_at,
};
use crate::text::{concat, occurs_at};
use vstd::prelude::*;

verus! {

/// The opening tag of a call starts with the marker of its dialect.
pub proof fn lemma_invoke_starts_with_marker(s: Seq<char>, i: int, d: DsmlDialect)
    requires
        occurs_at(s, i, d.invoke_open()),
    ensures
        occurs_at(s, i, d.marker()),
        tag_len_at(s, i, markers()) > 0,
{
    reveal_strlit("<｜｜DSML｜｜");
    reveal_strlit("<｜DSML｜");
    reveal_strlit("<｜｜DSML｜｜invoke");
    reveal_strlit("<｜DSML｜invoke");
    let p = d.marker();
    let q = d.invoke_open();
    assert forall|k: int| 0 <= k < p.len() implies s[i + k] == #[trigger] p[k] by {
        assert(q[k] == p[k]);
    }
    lemma_tag_len_at(s, i, markers());
    assert(markers()[0] == double_bar().marker() && markers()[1] == single_bar().marker());
    assert(d == double_bar() || d == single_bar());
}

/// A text without the marker of either dialect does not heal: it stays as it is.
pub proof fn law_text_without_marker_stays(s: Seq<char>)
    requires
        first_tag(s, markers()) is None,
    ensures
        healed(s) is None,
{
    lemma_next_invoke(s, 0);
    lemma_first_tag_from(s, 0, markers());
    if let Some((d, at)) = next_invoke(s, 0) {
        lemma_invoke_starts_with_marker(s, at, d);
    }
    assert(blocks(s, 0, 0).len() == 0);
}

// ---------------------------------------------------------------------------
// Streams
// ---------------------------------------------------------------------------

/// The markers have heads of their own.
pub proof fn lemma_markers()
    ensures
        distinct_heads(markers()),
{
    reveal_strlit("<｜｜DSML｜｜");
    reveal_strlit("<｜DSML｜");
    let tags = markers();
    let double = double_bar().marker();
    let single = single_bar().marker();
    assert(tags[0] == double && tags[1] == single);
    assert forall|t: int, u: int|
        0 <= t < tags.len() && 0 <= u < tags.len() && #[trigger] tags[t].len()
            <= #[trigger] tags[u].len() && tags[u].take(tags[t].len() as int)
            == tags[t] implies tags[t] == tags[u] by {
        if t != u {
            assert(tags[u].take(tags[t].len() as int)[2] == tags[t][2]);
        }
    }
}

/// A filter that has seen a marker goes on as if it had seen all at once.
proof fn lemma_push_behind_marker(s: Seq<char>, more: Seq<char>, at: int, n: int)
    requires
        first_tag(s, markers()) == Some((at, n)),
        first_tag(s + more, markers()) == Some((at, n)),
        0 <= at <= s.len(),
    ensures
        ({
            let (before, emitted) = filter_push(fresh_filter(true), s);
            let (after, now) = filter_push(before, more);
            filter_push(fresh_filter(true), s + more) == (after, emitted + now)
        }),
{
    let fresh = fresh_filter(true);
    assert(fresh.pending + s =~= s);
    assert(fresh.pending + (s + more) =~= s + more);
    assert(s.skip(at) + more =~= (s + more).skip(at));
    assert(s.take(at) + Seq::empty() =~= (s + more).take(at));
}

/// A filter that has seen no marker goes on as if it had seen all at once.
proof fn lemma_push_before_marker(s: Seq<char>, more: Seq<char>)
    requires
        first_tag(s, markers()) is None,
    ensures
        ({
            let (before, emitted) = filter_push(fresh_filter(true), s);
            let (after, now) = filter_push(before, more);
            filter_push(fresh_filter(true), s + more) == (after, emitted + now)
        }),
{
    let fresh = fresh_filter(true);
    assert(fresh.pending + s =~= s);
    assert(fresh.pending + (s + more) =~= s + more);
    lemma_held(s, markers());
    let m = s.len() - held(s, markers());
    let rest = (s + more).skip(m);
    assert(first_tag(s + more, markers()) == moved(first_tag(rest, markers()), m)) by {
        lemma_no_tag_before_held(s, more, markers());
        lemma_first_tag_in_rest(s + more, m, markers());
    }
    lemma_held_in_rest(s, more, markers());
    assert(s.skip(m) + more =~= rest);
    assert(first_tag(rest, markers()) matches Some((at, _)) ==> 0 <= at <= rest.len()) by {
        lemma_first_tag_from(rest, 0, markers());
    }
    lemma_held(rest, markers());
    let n = match first_tag(rest, markers()) {
        Some((at, _)) => at,
        None => rest.len() - held(rest, markers()),
    };
    assert(rest.skip(n) =~= (s + more).skip(m + n));
    assert(s.take(m) + rest.take(n) =~= (s + more).take(m + n));
}

/// How a stream is cut into deltas does not matter: a filter that has taken them
/// in one by one has emitted the same text, and withholds the same text, as one
/// that has taken them in at once.
pub proof fn law_deltas_do_not_matter(deltas: Seq<Seq<char>>)
    ensures
        filter_run(fresh_filter(true), deltas) == filter_push(fresh_filter(true), concat(deltas)),
    decreases deltas.len(),
{
    if deltas.len() == 0 {
        let none = Seq::<char>::empty();
        assert(none + none =~= none);
        lemma_held(none, markers());
        assert(none.skip(0) =~= none && none.take(0) =~= none);
    } else {
        let front = deltas.drop_last();
        let s = concat(front);
        let more = deltas.last();
        law_deltas_do_not_matter(front);
        match first_tag(s, markers()) {
            Some((at, n)) => {
                assert(first_tag(s + more, markers()) == Some((at, n))) by {
                    lemma_markers();
                    lemma_first_tag_stays(s, more, markers());
                }
                assert(0 <= at <= s.len()) by {
                    lemma_first_tag_from(s, 0, markers());
                }
                lemma_push_behind_marker(s, more, at, n);
            },
            None => lemma_push_before_marker(s, more),
        }
    }
}

/// What a filter has emitted and what it withholds make up the stream.
pub proof fn law_nothing_is_lost(deltas: Seq<Seq<char>>)
    ensures
        ({
            let (st, emitted) = filter_run(fresh_filter(true), deltas);
            emitted + st.pending == concat(deltas)
        }),
{
    let s = concat(deltas);
    law_deltas_do_not_matter(deltas);
    assert(fresh_filter(true).pending + s =~= s);
    lemma_first_tag_from(s, 0, markers());
    lemma_held(s, markers());
    let n = match first_tag(s, markers()) {
        Some((at, _)) => at,
        None => s.len() - held(s, markers()),
    };
    assert(s.take(n) + s.skip(n) =~= s);
}

/// No marker is ever emitted.
pub proof fn law_no_marker_is_emitted(deltas: Seq<Seq<char>>)
    ensures
        first_tag(filter_run(fresh_filter(true), deltas).1, markers()) is None,
{
    let s = concat(deltas);
    law_deltas_do_not_matter(deltas);
    assert(fresh_filter(true).pending + s =~= s);
    lemma_first_tag_from(s, 0, markers());
    lemma_held(s, markers());
    let n = match first_tag(s, markers()) {
        Some((at, _)) => at,
        None => s.len() - held(s, markers()),
    };
    let emitted = s.take(n);
    assert forall|j: int| 0 <= j < emitted.len() implies tag_len_at(emitted, j, markers()) == 0 by {
        lemma_tag_len_at(emitted, j, markers());
        if tag_len_at(emitted, j, markers()) > 0 {
            let t = lemma_tag_at(emitted, j, markers());
            lemma_occurs_in_longer(emitted, s.skip(n), j, markers()[t]);
            assert(emitted + s.skip(n) =~= s);
            lemma_tag_len_at(s, j, markers());
        }
    }
    lemma_first_tag_from_none(emitted, 0, markers());
}

/// A stream in which no call heals comes out as it went in: what is emitted, and
/// what the end of the stream gives, make up the stream.
pub proof fn law_unhealed_stream_passes(deltas: Seq<Seq<char>>)
    ensures
        ({
            let (st, emitted) = filter_run(fresh_filter(true), deltas);
            let (rest, calls) = filter_finish(st);
            calls.len() == 0 ==> emitted + rest == concat(deltas)
        }),
{
    law_nothing_is_lost(deltas);
}

/// A stream without a marker comes out as it went in, and without calls.
pub proof fn law_stream_without_marker_passes(deltas: Seq<Seq<char>>)
    requires
        first_tag(concat(deltas), markers()) is None,
    ensures
        ({
            let (st, emitted) = filter_run(fresh_filter(true), deltas);
            let (rest, calls) = filter_finish(st);
            emitted + rest == concat(deltas) && calls.len() == 0
        }),
{
    law_deltas_do_not_matter(deltas);
    law_nothing_is_lost(deltas);
    assert(fresh_filter(true).pending + concat(deltas) =~= concat(deltas));
}

/// A filter that does not filter emits each delta as it comes.
pub proof fn law_disabled_filter_passes(deltas: Seq<Seq<char>>)
    ensures
        filter_run(fresh_filter(false), deltas) == (fresh_filter(false), concat(deltas)),
        filter_finish(fresh_filter(false)) == (Seq::<char>::empty(), Seq::<Call>::empty()),
    decreases deltas.len(),
{
    if deltas.len() > 0 {
        law_disabled_filter_passes(deltas.drop_last());
    }
}

/// Text that comes before any marker is not held back: all of it is emitted but for an end
/// that is the beginning of a marker. From a marker on, and no earlier, it is withheld.
pub proof fn law_only_parts_of_markers_are_withheld(st: FilterState, delta: Seq<char>)
    requires
        st.enabled,
        !st.in_dsml,
    ensures
        ({
            let (after, now) = filter_push(st, delta);
            let rest = after.pending;
            &&& now + rest == st.pending + delta
            &&& after.in_dsml == (first_tag(st.pending + delta, markers()) is Some)
            &&& after.in_dsml ==> exists|t: int|
                #![trigger markers()[t]]
                0 <= t < markers().len() && occurs_at(rest, 0, markers()[t])
            &&& !after.in_dsml && rest.len() > 0 ==> exists|t: int|
                #![trigger markers()[t]]
                0 <= t < markers().len() && rest.len() < markers()[t].len() && rest
                    == markers()[t].take(rest.len() as int)
        }),
{
    let all = st.pending + delta;
    let (after, now) = filter_push(st, delta);
    let rest = after.pending;
    lemma_first_tag_from(all, 0, markers());
    lemma_held(all, markers());
    assert(now + rest =~= all);
    if let Some((at, _)) = first_tag(all, markers()) {
        lemma_tag_len_at(all, at, markers());
        let t = lemma_tag_at(all, at, markers());
        let tag = markers()[t];
        assert forall|i: int| 0 <= i < tag.len() implies rest[0 + i] == #[trigger] tag[i] by {
            assert(all[at + i] == tag[i]);
        }
        assert(occurs_at(rest, 0, markers()[t]));
    } else if rest.len() > 0 {
        let k = held(all, markers());
        let t = choose|t: int|
            #![trigger markers()[t]]
            0 <= t < markers().len() && 0 < k < markers()[t].len() && occurs_at(
                all,
                all.len() - k,
                markers()[t].take(k),
            );
        assert(rest =~= markers()[t].take(k)) by {
            assert forall|i: int| 0 <= i < k implies rest[i] == #[trigger] markers()[t].take(
                k,
            )[i] by {
                assert(all[all.len() - k + i] == markers()[t].take(k)[i]);
            }
        }
    }
}

} // verus!
