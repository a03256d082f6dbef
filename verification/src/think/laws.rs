//! What holds of splitting as a whole.

use super::filter::{
    all_tags, close_tags, fresh_think, open_tags, think_drain, think_finish, think_push, think_run,
    think_split, Channels, ThinkState,
};
use super::heal::{split_whole, think_healed};
use crate::tags::growth::{
    distinct_heads, lemma_first_tag_at_seam, lemma_first_tag_in_rest, lemma_first_tag_stays,
    lemma_no_tag_before_held, lemma_occurs_in_longer, lemma_occurs_in_rest, lemma_tag_at,
    lemma_tag_is,
};
use crate::tags::{
    ends_in_part, first_tag, held, lemma_first_tag_from, lemma_held, lemma_tag_len_at, tag_len_at,
};
use crate::text::{
    concat, is_blank, lemma_trim_start_blank, lemma_trim_start_joined, occurs_at, trim_start,
};
use crate::types::{content_of, MessageView};
use vstd::prelude::*;

verus! {

// ---------------------------------------------------------------------------
// The tags
// ---------------------------------------------------------------------------

/// The tags have heads of their own.
pub proof fn lemma_tags()
    ensures
        distinct_heads(all_tags()),
        distinct_heads(open_tags()),
        distinct_heads(close_tags()),
{
    reveal_strlit("<thinking>");
    reveal_strlit("<think>");
    reveal_strlit("◁think▷");
    reveal_strlit("</thinking>");
    reveal_strlit("</think>");
    reveal_strlit("◁/think▷");
    let tags = all_tags();
    assert forall|t: int, u: int|
        0 <= t < tags.len() && 0 <= u < tags.len() && #[trigger] tags[t].len()
            <= #[trigger] tags[u].len() && tags[u].take(tags[t].len() as int)
            == tags[t] implies tags[t] == tags[u] by {
        let part = tags[u].take(tags[t].len() as int);
        assert(part[0] == tags[t][0] && part[1] == tags[t][1]);
        assert(part[tags[t].len() - 1] == tags[t][tags[t].len() - 1]);
    }
    assert forall|t: int| 0 <= t < 3 implies #[trigger] open_tags()[t] == tags[t] by {}
    assert forall|t: int| 0 <= t < 3 implies #[trigger] close_tags()[t] == tags[3 + t] by {}
}

/// A tag that stands at a position either opens a block or closes one.
proof fn lemma_one_kind(s: Seq<char>, i: int)
    ensures
        tag_len_at(s, i, open_tags()) > 0 ==> tag_len_at(s, i, all_tags()) == tag_len_at(
            s,
            i,
            open_tags(),
        ) && tag_len_at(s, i, close_tags()) == 0,
        tag_len_at(s, i, close_tags()) > 0 ==> tag_len_at(s, i, all_tags()) == tag_len_at(
            s,
            i,
            close_tags(),
        ) && tag_len_at(s, i, open_tags()) == 0,
        tag_len_at(s, i, all_tags()) > 0 ==> tag_len_at(s, i, open_tags()) > 0 || tag_len_at(
            s,
            i,
            close_tags(),
        ) > 0,
{
    lemma_tags();
    let tags = all_tags();
    lemma_tag_len_at(s, i, open_tags());
    lemma_tag_len_at(s, i, close_tags());
    lemma_tag_len_at(s, i, tags);
    if tag_len_at(s, i, open_tags()) > 0 {
        let t = lemma_tag_at(s, i, open_tags());
        assert(tags[t] == open_tags()[t]);
        lemma_tag_is(s, i, tags, t);
        if tag_len_at(s, i, close_tags()) > 0 {
            let u = lemma_tag_at(s, i, close_tags());
            assert(tags[3 + u] == close_tags()[u]);
            reveal_strlit("<thinking>");
            reveal_strlit("<think>");
            reveal_strlit("◁think▷");
            reveal_strlit("</thinking>");
            reveal_strlit("</think>");
            reveal_strlit("◁/think▷");
            assert(s[i + 1] == tags[t][1] && s[i + 1] == tags[3 + u][1]);
        }
    }
    if tag_len_at(s, i, close_tags()) > 0 {
        let u = lemma_tag_at(s, i, close_tags());
        assert(tags[3 + u] == close_tags()[u]);
        lemma_tag_is(s, i, tags, 3 + u);
    }
    if tag_len_at(s, i, tags) > 0 {
        let t = lemma_tag_at(s, i, tags);
        if t < 3 {
            assert(tags[t] == open_tags()[t]);
        } else {
            assert(tags[t] == close_tags()[t - 3]);
        }
    }
}

/// Whether the first of `a` stands before the first of `b`, or there is no `b`.
pub open spec fn comes_first(a: Option<(int, int)>, b: Option<(int, int)>) -> bool {
    match (a, b) {
        (Some((i, _)), Some((j, _))) => i < j,
        (Some(_), None) => true,
        (None, _) => false,
    }
}

/// The first of all tags is the first that opens a block or the first that closes
/// one.
pub proof fn lemma_first_of_all(s: Seq<char>)
    ensures
        match first_tag(s, all_tags()) {
            Some(tag) => {
                ||| first_tag(s, open_tags()) == Some(tag) && comes_first(
                    first_tag(s, open_tags()),
                    first_tag(s, close_tags()),
                )
                ||| first_tag(s, close_tags()) == Some(tag) && comes_first(
                    first_tag(s, close_tags()),
                    first_tag(s, open_tags()),
                )
            },
            None => first_tag(s, open_tags()) is None && first_tag(s, close_tags()) is None,
        },
{
    lemma_first_tag_from(s, 0, all_tags());
    lemma_first_tag_from(s, 0, open_tags());
    lemma_first_tag_from(s, 0, close_tags());
    if let Some((at, _)) = first_tag(s, open_tags()) {
        lemma_one_kind(s, at);
    }
    if let Some((at, _)) = first_tag(s, close_tags()) {
        lemma_one_kind(s, at);
    }
    if let Some((at, _)) = first_tag(s, all_tags()) {
        lemma_one_kind(s, at);
    }
}

// ---------------------------------------------------------------------------
// Splitting a whole text
// ---------------------------------------------------------------------------

/// What is given of the rest of a text, with reasoning in front of it.
pub open spec fn thought_before(s: Seq<char>, rest: Option<Channels>) -> Option<Channels> {
    match rest {
        Some(c) => Some(Channels { reasoning: s + c.reasoning, ..c }),
        None => None,
    }
}

/// What is given of the rest of a text, with visible text in front of it.
pub open spec fn said_before(s: Seq<char>, rest: Option<Channels>) -> Option<Channels> {
    match rest {
        Some(c) => Some(Channels { text: s + c.text, ..c }),
        None => None,
    }
}

/// Text that becomes visible. White space that leads the visible text is left out.
pub open spec fn shown(s: Seq<char>, emitted: bool) -> Seq<char> {
    if emitted {
        s
    } else {
        trim_start(s)
    }
}

/// How the rest of a text is split across the channels, given whether a block is
/// open and whether visible text came before. Text inside a block is reasoning,
/// other text is visible. Nothing is given where a tag closes a block that is not
/// open and no visible text comes before it.
pub open spec fn split_of(s: Seq<char>, in_think: bool, emitted: bool) -> Option<Channels>
    decreases s.len(),
{
    let open = first_tag(s, open_tags());
    let close = first_tag(s, close_tags());
    if in_think {
        match close {
            Some((at, n)) => {
                proof {
                    lemma_first_tag_from(s, 0, close_tags());
                }
                thought_before(s.take(at), split_of(s.skip(at + n), false, emitted))
            },
            None => Some(Channels::none().think(s)),
        }
    } else if !emitted && comes_first(close, open) {
        None
    } else {
        match open {
            Some((at, n)) => {
                let now = shown(s.take(at), emitted);
                proof {
                    lemma_first_tag_from(s, 0, open_tags());
                }
                said_before(now, split_of(s.skip(at + n), true, emitted || now.len() > 0))
            },
            None => Some(Channels::none().say(shown(s, emitted))),
        }
    }
}

/// Reasoning in front of the tag that closes the block can be taken off.
proof fn lemma_thought_before(s: Seq<char>, m: int, emitted: bool)
    requires
        0 <= m <= s.len(),
        forall|j: int| 0 <= j < m ==> tag_len_at(s, j, close_tags()) == 0,
    ensures
        split_of(s, true, emitted) == thought_before(
            s.take(m),
            split_of(s.skip(m), true, emitted),
        ),
{
    let rest = s.skip(m);
    lemma_first_tag_in_rest(s, m, close_tags());
    lemma_first_tag_from(rest, 0, close_tags());
    match first_tag(rest, close_tags()) {
        Some((at, n)) => {
            assert(s.skip(m + at + n) =~= rest.skip(at + n));
            let tail = split_of(rest.skip(at + n), false, emitted);
            if let Some(c) = tail {
                assert(s.take(m + at) + c.reasoning =~= s.take(m) + (rest.take(at) + c.reasoning));
            }
        },
        None => {
            assert(s =~= s.take(m) + rest);
            assert(Channels::none().think(s) =~= (Channels {
                reasoning: s.take(m) + Channels::none().think(rest).reasoning,
                ..Channels::none().think(rest)
            }));
        },
    }
}

/// Visible text in front of the tag that opens the next block can be taken off.
proof fn lemma_said_before(s: Seq<char>, m: int)
    requires
        0 <= m <= s.len(),
        forall|j: int| 0 <= j < m ==> tag_len_at(s, j, open_tags()) == 0,
    ensures
        split_of(s, false, true) == said_before(s.take(m), split_of(s.skip(m), false, true)),
{
    let rest = s.skip(m);
    lemma_first_tag_in_rest(s, m, open_tags());
    lemma_first_tag_from(rest, 0, open_tags());
    match first_tag(rest, open_tags()) {
        Some((at, n)) => {
            assert(s.skip(m + at + n) =~= rest.skip(at + n));
            let tail = split_of(rest.skip(at + n), true, true);
            if let Some(c) = tail {
                assert(s.take(m + at) + c.text =~= s.take(m) + (rest.take(at) + c.text));
            }
        },
        None => {
            assert(s =~= s.take(m) + rest);
            assert(Channels::none().say(s) =~= (Channels {
                text: s.take(m) + Channels::none().say(rest).text,
                ..Channels::none().say(rest)
            }));
        },
    }
}

/// The first text to become visible can be taken off, once it is not blank; blank
/// text can be taken off and leaves nothing.
proof fn lemma_first_said_before(s: Seq<char>, m: int)
    requires
        0 <= m <= s.len(),
        forall|j: int| 0 <= j < m ==> tag_len_at(s, j, all_tags()) == 0,
        split_of(s, false, false) is Some,
    ensures
        split_of(s, false, false) == said_before(
            trim_start(s.take(m)),
            split_of(s.skip(m), false, !is_blank(s.take(m))),
        ),
{
    let rest = s.skip(m);
    let front = s.take(m);
    assert forall|j: int| 0 <= j < m implies tag_len_at(s, j, open_tags()) == 0 && tag_len_at(
        s,
        j,
        close_tags(),
    ) == 0 by {
        lemma_one_kind(s, j);
        lemma_tag_len_at(s, j, open_tags());
        lemma_tag_len_at(s, j, close_tags());
    }
    lemma_first_tag_in_rest(s, m, open_tags());
    lemma_first_tag_in_rest(s, m, close_tags());
    lemma_first_tag_from(rest, 0, open_tags());
    lemma_trim_start_blank(front);
    match first_tag(rest, open_tags()) {
        Some((at, n)) => {
            assert(s.skip(m + at + n) =~= rest.skip(at + n));
            assert(s.take(m + at) =~= front + rest.take(at));
            lemma_trim_start_joined(front, rest.take(at));
            let now = shown(s.take(m + at), false);
            let tail = split_of(rest.skip(at + n), true, now.len() > 0);
            if let Some(c) = tail {
                assert(now + c.text =~= trim_start(front) + (shown(
                    rest.take(at),
                    !is_blank(front),
                ) + c.text));
            }
        },
        None => {
            assert(s =~= front + rest);
            lemma_trim_start_joined(front, rest);
            assert(Channels::none().say(shown(s, false)).text =~= trim_start(front)
                + Channels::none().say(shown(rest, !is_blank(front))).text);
        },
    }
}

/// What the filter would give of the text that it withholds and more to come.
spec fn yet_to_come(st: ThinkState, more: Seq<char>) -> Option<Channels> {
    split_of(st.pending + more, st.in_think, st.emitted_text)
}

/// Whether the filter withholds no tag that has a meaning.
spec fn is_quiet(st: ThinkState) -> bool {
    if st.in_think {
        first_tag(st.pending, close_tags()) is None
    } else {
        first_tag(st.pending, open_tags()) is None && (st.emitted_text || first_tag(
            st.pending,
            close_tags(),
        ) is None)
    }
}

/// What is held back for one of all tags is at least what is held back for one
/// that opens a block.
pub proof fn lemma_held_for_all(s: Seq<char>)
    ensures
        held(s, open_tags()) <= held(s, all_tags()),
{
    lemma_held(s, open_tags());
    lemma_held(s, all_tags());
    let k = held(s, open_tags());
    if k > held(s, all_tags()) {
        let t = choose|t: int|
            #![trigger open_tags()[t]]
            {
                &&& 0 <= t < open_tags().len()
                &&& 0 < k < open_tags()[t].len()
                &&& occurs_at(s, s.len() - k, open_tags()[t].take(k))
            };
        assert(all_tags()[t] == open_tags()[t]);
        assert(ends_in_part(s, k, all_tags()));
    }
}

/// Dropping the first `m` characters of a text without tags leaves none.
pub proof fn lemma_rest_has_none(s: Seq<char>, m: int, tags: Seq<Seq<char>>)
    requires
        0 <= m <= s.len(),
        first_tag(s, tags) is None,
    ensures
        first_tag(s.skip(m), tags) is None,
{
    lemma_first_tag_from(s, 0, tags);
    lemma_first_tag_in_rest(s, m, tags);
}

/// Whether what is on the channels and what is yet to come make up the same after
/// a step as before it.
spec fn keeps(
    st: ThinkState,
    out: Channels,
    after: ThinkState,
    emitted: Channels,
    more: Seq<char>,
) -> bool {
    match (yet_to_come(st, more), yet_to_come(after, more)) {
        (Some(all), Some(rest)) => out.followed_by(all) == emitted.followed_by(rest),
        _ => false,
    }
}

/// A block that closes: its text is reasoning.
proof fn lemma_block_closes(st: ThinkState, out: Channels, more: Seq<char>, at: int, n: int)
    requires
        st.in_think,
        first_tag(st.pending, close_tags()) == Some((at, n)),
        yet_to_come(st, more) is Some,
    ensures
        keeps(
            st,
            out,
            ThinkState { in_think: false, ..st.past(at + n) },
            out.think(st.pending.take(at)),
            more,
        ),
{
    let p = st.pending;
    let s = p + more;
    lemma_tags();
    lemma_first_tag_from(p, 0, close_tags());
    lemma_first_tag_stays(p, more, close_tags());
    assert(s.take(at) =~= p.take(at));
    assert(s.skip(at + n) =~= p.skip(at + n) + more);
    let next = ThinkState { in_think: false, ..st.past(at + n) };
    lemma_followed_by_thought(out, p.take(at), yet_to_come(next, more));
}

/// A block that stays open: its text is reasoning, but for the end that is held
/// back.
proof fn lemma_block_goes_on(st: ThinkState, out: Channels, more: Seq<char>)
    requires
        st.in_think,
        first_tag(st.pending, close_tags()) is None,
        yet_to_come(st, more) is Some,
    ensures
        ({
            let keep = st.pending.len() - held(st.pending, close_tags());
            &&& keeps(st, out, st.past(keep), out.think(st.pending.take(keep)), more)
            &&& is_quiet(st.past(keep))
        }),
{
    let p = st.pending;
    let s = p + more;
    let keep = p.len() - held(p, close_tags());
    lemma_held(p, close_tags());
    lemma_no_tag_before_held(p, more, close_tags());
    assert(s.take(keep) =~= p.take(keep));
    assert(s.skip(keep) =~= p.skip(keep) + more);
    lemma_thought_before(s, keep, st.emitted_text);
    lemma_rest_has_none(p, keep, close_tags());
    lemma_followed_by_thought(out, p.take(keep), yet_to_come(st.past(keep), more));
}

/// A block that opens: the text before it is visible.
proof fn lemma_block_opens(st: ThinkState, out: Channels, more: Seq<char>, at: int, n: int)
    requires
        !st.in_think,
        st.open_at() == Some((at, n)),
        st.opens_first(),
        yet_to_come(st, more) is Some,
    ensures
        keeps(
            st,
            out,
            ThinkState {
                pending: st.pending.skip(at + n),
                in_think: true,
                fired: true,
                ..st.said(at)
            },
            out.say(st.visible(at)),
            more,
        ),
{
    let p = st.pending;
    let s = p + more;
    lemma_tags();
    lemma_first_tag_from(p, 0, open_tags());
    lemma_first_tag_stays(p, more, open_tags());
    assert(s.take(at) =~= p.take(at));
    assert(s.skip(at + n) =~= p.skip(at + n) + more);
    let next = ThinkState {
        pending: p.skip(at + n),
        in_think: true,
        fired: true,
        ..st.said(at)
    };
    lemma_followed_by_said(out, st.visible(at), yet_to_come(next, more));
}

/// A tag that closes a block that is not open, and comes first, comes first
/// whatever text follows.
proof fn lemma_stray_stays(st: ThinkState, more: Seq<char>)
    requires
        !st.in_think,
        !st.opens_first(),
        st.close_at() is Some,
    ensures
        yet_to_come(st, more) is None,
{
    let p = st.pending;
    lemma_tags();
    lemma_first_of_all(p);
    lemma_first_of_all(p + more);
    lemma_first_tag_stays(p, more, all_tags());
    lemma_first_tag_stays(p, more, close_tags());
}

/// Outside a block, with no tag that has a meaning: the text is visible, but for
/// the end that is held back.
proof fn lemma_text_goes_on(st: ThinkState, out: Channels, more: Seq<char>)
    requires
        !st.in_think,
        st.emitted_text,
        st.open_at() is None,
        yet_to_come(st, more) is Some,
    ensures
        ({
            let keep = st.pending.len() - held(st.pending, all_tags());
            &&& keeps(st, out, st.past(keep), out.say(st.visible(keep)), more)
            &&& is_quiet(st.past(keep))
        }),
{
    let p = st.pending;
    let s = p + more;
    let keep = p.len() - held(p, all_tags());
    lemma_held(p, all_tags());
    lemma_held(p, open_tags());
    lemma_held_for_all(p);
    lemma_no_tag_before_held(p, more, open_tags());
    assert(s.take(keep) =~= p.take(keep));
    assert(s.skip(keep) =~= p.skip(keep) + more);
    lemma_said_before(s, keep);
    lemma_rest_has_none(p, keep, open_tags());
    lemma_followed_by_said(out, p.take(keep), yet_to_come(st.past(keep), more));
}

/// The first text to become visible, and blank text before it.
proof fn lemma_text_begins(st: ThinkState, out: Channels, more: Seq<char>)
    requires
        !st.in_think,
        !st.emitted_text,
        st.open_at() is None,
        st.close_at() is None,
        yet_to_come(st, more) is Some,
    ensures
        ({
            let keep = st.pending.len() - held(st.pending, all_tags());
            &&& keeps(st, out, st.said(keep), out.say(st.visible(keep)), more)
            &&& is_quiet(st.said(keep))
            &&& is_blank(st.pending.take(keep)) ==> st.said(keep) == st.past(keep)
        }),
{
    let p = st.pending;
    let s = p + more;
    let keep = p.len() - held(p, all_tags());
    lemma_held(p, all_tags());
    lemma_first_of_all(p);
    lemma_no_tag_before_held(p, more, all_tags());
    assert(s.take(keep) =~= p.take(keep));
    assert(s.skip(keep) =~= p.skip(keep) + more);
    lemma_first_said_before(s, keep);
    lemma_rest_has_none(p, keep, open_tags());
    lemma_rest_has_none(p, keep, close_tags());
    lemma_trim_start_blank(p.take(keep));
    lemma_followed_by_said(out, st.visible(keep), yet_to_come(st.said(keep), more));
}

/// What the filter gives of the text that it withholds, with what is yet to come,
/// is what the whole text gives.
proof fn lemma_drain(st: ThinkState, out: Channels, more: Seq<char>)
    requires
        yet_to_come(st, more) is Some,
    ensures
        ({
            let (after, emitted) = think_drain(st, out);
            &&& keeps(st, out, after, emitted, more)
            &&& is_quiet(after)
            &&& after.enabled == st.enabled
        }),
    decreases st.pending.len(),
{
    let p = st.pending;
    lemma_first_tag_from(p, 0, open_tags());
    lemma_first_tag_from(p, 0, close_tags());
    if st.in_think {
        match first_tag(p, close_tags()) {
            Some((at, n)) => {
                lemma_block_closes(st, out, more, at, n);
                lemma_drain(
                    ThinkState { in_think: false, ..st.past(at + n) },
                    out.think(p.take(at)),
                    more,
                );
            },
            None => {
                lemma_block_goes_on(st, out, more);
            },
        }
    } else {
        match (st.open_at(), st.close_at()) {
            (Some((at, n)), _) if st.opens_first() => {
                lemma_block_opens(st, out, more, at, n);
                lemma_drain(
                    ThinkState {
                        pending: p.skip(at + n),
                        in_think: true,
                        fired: true,
                        ..st.said(at)
                    },
                    out.say(st.visible(at)),
                    more,
                );
            },
            (_, Some(_)) => {
                lemma_stray_stays(st, more);
            },
            _ => {
                if st.emitted_text {
                    lemma_text_goes_on(st, out, more);
                } else {
                    lemma_text_begins(st, out, more);
                }
            },
        }
    }
}

/// Reasoning is added to the channels before what follows it.
proof fn lemma_followed_by_thought(out: Channels, s: Seq<char>, rest: Option<Channels>)
    ensures
        match (rest, thought_before(s, rest)) {
            (Some(c), Some(all)) => out.think(s).followed_by(c) == out.followed_by(all),
            (None, None) => true,
            _ => false,
        },
{
    if let Some(c) = rest {
        assert((out.reasoning + s) + c.reasoning =~= out.reasoning + (s + c.reasoning));
    }
}

/// Visible text is added to the channels before what follows it.
proof fn lemma_followed_by_said(out: Channels, s: Seq<char>, rest: Option<Channels>)
    ensures
        match (rest, said_before(s, rest)) {
            (Some(c), Some(all)) => out.say(s).followed_by(c) == out.followed_by(all),
            (None, None) => true,
            _ => false,
        },
{
    if let Some(c) = rest {
        assert((out.text + s) + c.text =~= out.text + (s + c.text));
    }
}

/// A filter that takes in a further piece gives, with what is yet to come, what was
/// yet to come before.
proof fn lemma_push(before: ThinkState, emitted: Channels, last: Seq<char>, more: Seq<char>)
    requires
        before.enabled,
        yet_to_come(before, last + more) is Some,
    ensures
        ({
            let (after, now) = think_push(before, last);
            &&& match (yet_to_come(before, last + more), yet_to_come(after, more)) {
                (Some(all), Some(rest)) => emitted.followed_by(all) == emitted.followed_by(
                    now,
                ).followed_by(rest),
                _ => false,
            }
            &&& is_quiet(after)
            &&& after.enabled
        }),
{
    let st = ThinkState { pending: before.pending + last, ..before };
    assert(st.pending + more =~= before.pending + (last + more));
    lemma_drain(st, Channels::none(), more);
    let (after, now) = think_push(before, last);
    if let (Some(rest), Some(all)) = (yet_to_come(after, more), yet_to_come(st, more)) {
        assert(Channels::none().followed_by(all) =~= all);
        assert(emitted.followed_by(now.followed_by(rest)) =~= emitted.followed_by(now).followed_by(
            rest,
        ));
    }
}

/// A filter that takes in a stream in pieces has given, with what is yet to come,
/// what the whole text gives.
proof fn lemma_run(deltas: Seq<Seq<char>>, more: Seq<char>)
    requires
        split_of(concat(deltas) + more, false, false) is Some,
    ensures
        ({
            let (st, emitted) = think_run(fresh_think(true), deltas);
            &&& match (split_of(concat(deltas) + more, false, false), yet_to_come(st, more)) {
                (Some(all), Some(rest)) => all == emitted.followed_by(rest),
                _ => false,
            }
            &&& is_quiet(st)
            &&& st.enabled
        }),
    decreases deltas.len(),
{
    if deltas.len() == 0 {
        let none = Seq::<char>::empty();
        assert(none + more =~= more);
        lemma_first_tag_from(none, 0, open_tags());
        lemma_first_tag_from(none, 0, close_tags());
        if let Some(all) = split_of(more, false, false) {
            assert(Channels::none().followed_by(all) =~= all);
        }
    } else {
        let front = deltas.drop_last();
        let last = deltas.last();
        assert((concat(front) + last) + more =~= concat(front) + (last + more));
        lemma_run(front, last + more);
        let (before, emitted) = think_run(fresh_think(true), front);
        lemma_push(before, emitted, last, more);
    }
}

/// At the end of a stream the filter gives what is yet to come.
proof fn lemma_finish(st: ThinkState)
    requires
        is_quiet(st),
    ensures
        yet_to_come(st, Seq::empty()) == Some(think_finish(st)),
{
    assert(st.pending + Seq::empty() =~= st.pending);
    assert(st.pending.take(st.pending.len() as int) =~= st.pending);
}

/// How a stream is cut into deltas does not matter, so long as no tag closes a
/// block that is not open before any visible text: a tag that is split across
/// deltas is still recognized, text inside a block is reasoning, and other text is
/// visible.
pub proof fn law_deltas_do_not_matter(deltas: Seq<Seq<char>>)
    requires
        split_of(concat(deltas), false, false) is Some,
    ensures
        split_of(concat(deltas), false, false) == Some(think_split(deltas)),
{
    assert(concat(deltas) + Seq::empty() =~= concat(deltas));
    lemma_run(deltas, Seq::empty());
    lemma_finish(think_run(fresh_think(true), deltas).0);
}

/// Text that holds none of the tags is visible, but for leading white space, and
/// is no reasoning.
pub proof fn law_plain_text_passes(deltas: Seq<Seq<char>>)
    requires
        first_tag(concat(deltas), all_tags()) is None,
    ensures
        think_split(deltas) == Channels::none().say(trim_start(concat(deltas))),
{
    lemma_first_of_all(concat(deltas));
    law_deltas_do_not_matter(deltas);
}

/// Text between a tag that opens a block and the next that closes one is reasoning;
/// the text around is visible, but for leading white space.
pub proof fn law_block_is_reasoning(
    deltas: Seq<Seq<char>>,
    before: Seq<char>,
    open: int,
    body: Seq<char>,
    close: int,
    after: Seq<char>,
)
    requires
        0 <= open < open_tags().len(),
        0 <= close < close_tags().len(),
        concat(deltas) == before + open_tags()[open] + body + close_tags()[close] + after,
        first_tag(before, all_tags()) is None,
        first_tag(body, close_tags()) is None,
        first_tag(after, all_tags()) is None,
    ensures
        think_split(deltas) == (Channels { reasoning: body, text: trim_start(before + after) }),
        split_of(concat(deltas), false, false) is Some,
{
    let o = open_tags()[open];
    let c = close_tags()[close];
    let s = concat(deltas);
    let inside = body + c + after;
    lemma_tags();
    assert(all_tags()[open] == o);
    assert(s =~= before + o + inside);
    lemma_first_tag_at_seam(before, inside, all_tags(), open);
    lemma_first_of_all(before);
    lemma_first_tag_at_seam(before, inside, open_tags(), open);
    lemma_first_of_all(s);
    assert(s.take(before.len() as int) =~= before);
    assert(s.skip((before.len() + o.len()) as int) =~= inside);
    lemma_first_tag_at_seam(body, after, close_tags(), close);
    assert(inside.take(body.len() as int) =~= body);
    assert(inside.skip((body.len() + c.len()) as int) =~= after);
    lemma_first_of_all(after);
    lemma_trim_start_joined(before, after);
    lemma_trim_start_blank(before);
    let emitted = trim_start(before).len() > 0;
    let rest = Channels::none().say(shown(after, emitted));
    assert(split_of(after, false, emitted) == Some(rest));
    assert(body + rest.reasoning =~= body);
    assert(split_of(inside, true, emitted) == Some(
        Channels { reasoning: body, text: rest.text },
    ));
    assert(trim_start(before) + rest.text =~= trim_start(before + after));
    law_deltas_do_not_matter(deltas);
}

/// A block that is still open at the end of the stream is reasoning, not text.
pub proof fn law_unterminated_block_is_reasoning(
    deltas: Seq<Seq<char>>,
    before: Seq<char>,
    open: int,
    body: Seq<char>,
)
    requires
        0 <= open < open_tags().len(),
        concat(deltas) == before + open_tags()[open] + body,
        first_tag(before, all_tags()) is None,
        first_tag(body, close_tags()) is None,
    ensures
        think_split(deltas) == (Channels { reasoning: body, text: trim_start(before) }),
{
    let o = open_tags()[open];
    let s = concat(deltas);
    lemma_tags();
    assert(all_tags()[open] == o);
    lemma_first_tag_at_seam(before, body, all_tags(), open);
    lemma_first_of_all(before);
    lemma_first_tag_at_seam(before, body, open_tags(), open);
    lemma_first_of_all(s);
    assert(s.take(before.len() as int) =~= before);
    assert(s.skip((before.len() + o.len()) as int) =~= body);
    let rest = Channels::none().think(body);
    assert(rest.reasoning =~= body);
    assert(split_of(body, true, trim_start(before).len() > 0) == Some(rest));
    assert(trim_start(before) + rest.text =~= trim_start(before));
    law_deltas_do_not_matter(deltas);
}

/// What a filter gives from a state on, up to the end of the stream, is what the
/// text that it withholds gives.
proof fn lemma_drain_and_finish(st: ThinkState, out: Channels)
    requires
        split_of(st.pending, st.in_think, st.emitted_text) is Some,
    ensures
        ({
            let (after, emitted) = think_drain(st, out);
            match split_of(st.pending, st.in_think, st.emitted_text) {
                Some(all) => emitted.followed_by(think_finish(after)) == out.followed_by(all),
                None => false,
            }
        }),
{
    assert(st.pending + Seq::empty() =~= st.pending);
    lemma_drain(st, out, Seq::empty());
    lemma_finish(think_drain(st, out).0);
}

/// Where the prompt held the tag that opens a block, the model only closes it. On a
/// filter that has emitted nothing visible, all text up to such a tag is reasoning,
/// and what follows is visible: both at once, but for an end that could be part of
/// a tag. This does not hold of a tag that stands in a sentence.
pub proof fn law_stray_close_ends_implicit_block(
    st: ThinkState,
    delta: Seq<char>,
    r: Seq<char>,
    close: int,
    t: Seq<char>,
)
    requires
        st.enabled,
        !st.in_think,
        !st.emitted_text,
        0 <= close < close_tags().len(),
        st.pending + delta == r + close_tags()[close] + t,
        first_tag(r, all_tags()) is None,
        first_tag(t, all_tags()) is None,
        !(ThinkState { pending: st.pending + delta, ..st }).in_sentence(
            r.len() as int,
            close_tags()[close].len() as int,
        ),
    ensures
        ({
            let (after, now) = think_push(st, delta);
            &&& after.fired
            &&& now.reasoning == r
            &&& now.text == trim_start(t.take(t.len() - held(t, all_tags())))
            &&& now.followed_by(think_finish(after)) == (Channels {
                reasoning: r,
                text: trim_start(t),
            })
        }),
{
    let c = close_tags()[close];
    let s = st.pending + delta;
    let met = ThinkState { pending: s, ..st };
    let n = r.len() as int;
    lemma_tags();
    assert(all_tags()[3 + close] == c);
    lemma_first_of_all(r);
    lemma_first_tag_at_seam(r, t, all_tags(), 3 + close);
    lemma_first_tag_at_seam(r, t, close_tags(), close);
    lemma_first_of_all(s);
    let past = n + c.len();
    let next = ThinkState { fired: true, ..met.past(past) };
    let thought = Channels::none().think(s.take(n));
    assert(s.take(n) =~= r);
    assert(next.pending =~= t);
    assert(!met.opens_first());
    assert(met.close_at() == Some((n, c.len() as int)));
    assert(think_drain(met, Channels::none()) == think_drain(next, thought));
    lemma_first_of_all(t);
    lemma_held(t, all_tags());
    let keep = t.len() - held(t, all_tags());
    lemma_trim_start_blank(t.take(keep));
    let (after, now) = think_drain(next, thought);
    assert(now == thought.say(next.visible(keep)));
    assert(now.reasoning =~= r);
    assert(now.text =~= trim_start(t.take(keep)));
    let rest = Channels::none().say(trim_start(t));
    assert(split_of(t, false, false) == Some(rest));
    lemma_drain_and_finish(next, thought);
    assert(thought.followed_by(rest) =~= (Channels { reasoning: r, text: trim_start(t) }));
}

/// A tag that closes a block that is not open, and stands in a sentence, is part of
/// the visible text.
pub proof fn law_close_tag_in_sentence_is_text(
    st: ThinkState,
    delta: Seq<char>,
    a: Seq<char>,
    close: int,
    b: Seq<char>,
)
    requires
        st.enabled,
        !st.in_think,
        !st.emitted_text,
        0 <= close < close_tags().len(),
        st.pending + delta == a + close_tags()[close] + b,
        first_tag(a, all_tags()) is None,
        first_tag(b, open_tags()) is None,
        (ThinkState { pending: st.pending + delta, ..st }).in_sentence(
            a.len() as int,
            close_tags()[close].len() as int,
        ),
    ensures
        ({
            let (after, now) = think_push(st, delta);
            now.followed_by(think_finish(after)) == Channels::none().say(
                trim_start(st.pending + delta),
            )
        }),
{
    let c = close_tags()[close];
    let s = st.pending + delta;
    let met = ThinkState { pending: s, ..st };
    lemma_tags();
    assert(all_tags()[3 + close] == c);
    lemma_first_of_all(a);
    lemma_first_tag_at_seam(a, b, all_tags(), 3 + close);
    lemma_first_tag_at_seam(a, b, close_tags(), close);
    lemma_first_of_all(s);
    let past = (a.len() + c.len()) as int;
    assert(s.take(a.len() as int) =~= a);
    assert(!is_blank(a));
    let front = a + c;
    assert(s.take(past) =~= front);
    lemma_trim_start_joined(a, c);
    lemma_trim_start_blank(a);
    let next = met.said(past);
    assert(next.pending =~= b);
    assert(next.emitted_text);
    let said = Channels::none().say(met.visible(past));
    assert(!met.opens_first());
    assert(met.close_at() == Some((a.len() as int, c.len() as int)));
    assert(think_drain(met, Channels::none()) == think_drain(next, said));
    let rest = Channels::none().say(b);
    assert(split_of(b, false, true) == Some(rest));
    lemma_drain_and_finish(next, said);
    lemma_trim_start_joined(a, c + b);
    assert(a + (c + b) =~= s);
    assert(said.followed_by(rest) =~= Channels::none().say(trim_start(s)));
}

/// Text that holds none of the tags does not set off the filter.
pub proof fn law_text_without_tags_fires_nothing(s: Seq<char>)
    requires
        first_tag(s, all_tags()) is None,
    ensures
        !think_push(fresh_think(true), s).0.fired,
{
    lemma_first_of_all(s);
    assert(Seq::empty() + s =~= s);
}

/// A filter that does not split gives each delta as visible text.
pub proof fn law_disabled_filter_passes(deltas: Seq<Seq<char>>)
    ensures
        ({
            let fresh = fresh_think(false);
            &&& think_run(fresh, deltas) == (fresh, Channels::none().say(concat(deltas)))
            &&& think_finish(fresh) == Channels::none()
        }),
    decreases deltas.len(),
{
    let fresh = fresh_think(false);
    let none = Seq::<char>::empty();
    assert(none.take(0) =~= none);
    assert(think_finish(fresh) =~= Channels::none());
    if deltas.len() == 0 {
        assert(Channels::none() =~= Channels::none().say(none));
    } else {
        let front = deltas.drop_last();
        law_disabled_filter_passes(front);
        assert(Channels::none().say(concat(front)).followed_by(Channels::none().say(deltas.last()))
            =~= Channels::none().say(concat(deltas)));
    }
}

// ---------------------------------------------------------------------------
// Messages
// ---------------------------------------------------------------------------

/// The text of a message is split like a stream that comes in one delta.
pub proof fn law_message_splits_like_stream(text: Seq<char>)
    ensures
        split_whole(text) == think_split(seq![text]),
{
    reveal_with_fuel(think_run, 2);
    assert(seq![text].drop_last() =~= Seq::empty());
    let (st, now) = think_push(fresh_think(true), text);
    assert(Channels::none().followed_by(now) =~= now);
}

/// Once set off, the filter stays so.
pub proof fn lemma_fired_stays(st: ThinkState, out: Channels)
    requires
        st.fired,
    ensures
        think_drain(st, out).0.fired,
    decreases st.pending.len(),
{
    let p = st.pending;
    lemma_first_tag_from(p, 0, open_tags());
    lemma_first_tag_from(p, 0, close_tags());
    if st.in_think {
        if let Some((at, n)) = first_tag(p, close_tags()) {
            lemma_fired_stays(
                ThinkState { in_think: false, ..st.past(at + n) },
                out.think(p.take(at)),
            );
        }
    } else {
        match (st.open_at(), st.close_at()) {
            (Some((at, n)), _) if st.opens_first() => {
                lemma_fired_stays(
                    ThinkState {
                        pending: p.skip(at + n),
                        in_think: true,
                        fired: true,
                        ..st.said(at)
                    },
                    out.say(st.visible(at)),
                );
            },
            (_, Some((at, n))) => {
                if st.in_sentence(at, n) {
                    lemma_fired_stays(st.said(at + n), out.say(st.visible(at + n)));
                } else {
                    lemma_fired_stays(
                        ThinkState { fired: true, ..st.past(at + n) },
                        out.think(p.take(at)),
                    );
                }
            },
            _ => {},
        }
    }
}

/// A message without think markup is left as it is.
pub proof fn law_message_without_tags_stays(m: MessageView)
    requires
        first_tag(m.text(), all_tags()) is None,
    ensures
        think_healed(m) == m,
{
    law_text_without_tags_fires_nothing(m.text());
}

/// A message whose text holds a block heals: the text of the block is added to its
/// reasoning, the rest is its content, and nothing else changes.
pub proof fn law_block_leaves_message(
    m: MessageView,
    before: Seq<char>,
    open: int,
    body: Seq<char>,
    close: int,
    after: Seq<char>,
)
    requires
        0 <= open < open_tags().len(),
        0 <= close < close_tags().len(),
        m.text() == before + open_tags()[open] + body + close_tags()[close] + after,
        first_tag(before, all_tags()) is None,
        first_tag(body, close_tags()) is None,
        first_tag(after, all_tags()) is None,
        body.len() > 0,
    ensures
        think_healed(m) == (MessageView {
            content: content_of(trim_start(before + after)),
            reasoning_content: Some(
                match m.reasoning_content {
                    Some(present) => present + body,
                    None => body,
                },
            ),
            ..m
        }),
{
    let text = m.text();
    let deltas = seq![text];
    assert(deltas.drop_last() =~= Seq::empty());
    assert(concat(deltas.drop_last()) =~= Seq::empty());
    assert(concat(deltas) =~= text);
    law_message_splits_like_stream(text);
    law_block_is_reasoning(deltas, before, open, body, close, after);
    // The opening tag sets off the filter.
    let o = open_tags()[open];
    let inside = body + close_tags()[close] + after;
    lemma_tags();
    assert(all_tags()[open] == o);
    assert(text =~= before + o + inside);
    lemma_first_tag_at_seam(before, inside, all_tags(), open);
    lemma_first_of_all(before);
    lemma_first_tag_at_seam(before, inside, open_tags(), open);
    lemma_first_of_all(text);
    let fresh = fresh_think(true);
    let start = ThinkState { pending: fresh.pending + text, ..fresh };
    assert(start.pending =~= text);
    let at = before.len() as int;
    let next = ThinkState {
        pending: text.skip(at + o.len()),
        in_think: true,
        fired: true,
        ..start.said(at)
    };
    lemma_fired_stays(next, Channels::none().say(start.visible(at)));
}

/// A message whose text only closes a block heals, unless the tag stands in a
/// sentence: the text before the tag is added to its reasoning, the rest is its
/// content, and nothing else changes.
pub proof fn law_stray_close_leaves_message(
    m: MessageView,
    r: Seq<char>,
    close: int,
    t: Seq<char>,
)
    requires
        0 <= close < close_tags().len(),
        m.text() == r + close_tags()[close] + t,
        first_tag(r, all_tags()) is None,
        first_tag(t, all_tags()) is None,
        r.len() > 0,
        !(ThinkState { pending: m.text(), ..fresh_think(true) }).in_sentence(
            r.len() as int,
            close_tags()[close].len() as int,
        ),
    ensures
        think_healed(m) == (MessageView {
            content: content_of(trim_start(t)),
            reasoning_content: Some(
                match m.reasoning_content {
                    Some(present) => present + r,
                    None => r,
                },
            ),
            ..m
        }),
{
    assert(Seq::empty() + m.text() =~= m.text());
    law_stray_close_ends_implicit_block(fresh_think(true), m.text(), r, close, t);
}

// ---------------------------------------------------------------------------
// What is withheld, and what sets off the filter
// ---------------------------------------------------------------------------

/// Whether `s` is the beginning of a tag, short of the whole tag, or empty.
pub open spec fn is_part_of_tag(s: Seq<char>) -> bool {
    s.len() == 0 || ends_in_part(s, s.len() as int, all_tags())
}

/// The end that is held back is the beginning of a tag.
proof fn lemma_held_is_part(s: Seq<char>, tags: Seq<Seq<char>>)
    requires
        tags == all_tags() || tags == close_tags(),
    ensures
        is_part_of_tag(s.skip(s.len() - held(s, tags))),
{
    lemma_held(s, tags);
    let k = held(s, tags);
    let rest = s.skip(s.len() - k);
    if k > 0 {
        let t = choose|t: int|
            #![trigger tags[t]]
            {
                &&& 0 <= t < tags.len()
                &&& 0 < k < tags[t].len()
                &&& occurs_at(s, s.len() - k, tags[t].take(k))
            };
        lemma_occurs_in_rest(s, s.len() - k, 0, tags[t].take(k));
        let u = if tags == all_tags() {
            t
        } else {
            3 + t
        };
        assert(all_tags()[u] == tags[t]);
        assert(ends_in_part(rest, k, all_tags()));
    }
}

/// Draining leaves only what could be part of a tag, once a tag has been seen or
/// visible text has been emitted.
proof fn lemma_drain_leaves_part(st: ThinkState, out: Channels)
    ensures
        ({
            let after = think_drain(st, out).0;
            after.fired || after.in_think || after.emitted_text ==> is_part_of_tag(after.pending)
        }),
    decreases st.pending.len(),
{
    let p = st.pending;
    lemma_first_tag_from(p, 0, open_tags());
    lemma_first_tag_from(p, 0, close_tags());
    lemma_held_is_part(p, close_tags());
    lemma_held_is_part(p, all_tags());
    if st.in_think {
        if let Some((at, n)) = first_tag(p, close_tags()) {
            lemma_drain_leaves_part(
                ThinkState { in_think: false, ..st.past(at + n) },
                out.think(p.take(at)),
            );
        }
    } else {
        match (st.open_at(), st.close_at()) {
            (Some((at, n)), _) if st.opens_first() => {
                lemma_drain_leaves_part(
                    ThinkState {
                        pending: p.skip(at + n),
                        in_think: true,
                        fired: true,
                        ..st.said(at)
                    },
                    out.say(st.visible(at)),
                );
            },
            (_, Some((at, n))) => {
                if st.in_sentence(at, n) {
                    lemma_drain_leaves_part(st.said(at + n), out.say(st.visible(at + n)));
                } else {
                    lemma_drain_leaves_part(
                        ThinkState { fired: true, ..st.past(at + n) },
                        out.think(p.take(at)),
                    );
                }
            },
            _ => {},
        }
    }
}

/// Once a tag has been seen, or visible text has been emitted, a filter withholds
/// only what could be part of a tag: all other text is given with the delta that
/// brings it.
pub proof fn law_only_parts_of_tags_are_withheld(st: ThinkState, delta: Seq<char>)
    requires
        st.enabled,
    ensures
        ({
            let after = think_push(st, delta).0;
            after.fired || after.in_think || after.emitted_text ==> is_part_of_tag(after.pending)
        }),
{
    lemma_drain_leaves_part(
        ThinkState { pending: st.pending + delta, ..st },
        Channels::none(),
    );
}

/// A tag holds the character with which tags begin only at its beginning.
pub proof fn lemma_tag_begins_once(t: int, k: int)
    requires
        0 <= t < all_tags().len(),
        0 <= k < all_tags()[t].len(),
    ensures
        (all_tags()[t][k] == '<' || all_tags()[t][k] == '◁') <==> k == 0,
{
    reveal_strlit("<thinking>");
    reveal_strlit("<think>");
    reveal_strlit("◁think▷");
    reveal_strlit("</thinking>");
    reveal_strlit("</think>");
    reveal_strlit("◁/think▷");
    let tags = all_tags();
    assert(tags[0] == "<thinking>"@ && tags[1] == "<think>"@ && tags[2] == "◁think▷"@);
    assert(tags[3] == "</thinking>"@ && tags[4] == "</think>"@ && tags[5] == "◁/think▷"@);
}

/// Where the first tag closes a block, no tag opens one up to its end, whatever
/// follows.
proof fn lemma_no_open_tag_up_to_close(p: Seq<char>, more: Seq<char>, at: int, n: int)
    requires
        first_tag(p, close_tags()) == Some((at, n)),
        !comes_first(first_tag(p, open_tags()), first_tag(p, close_tags())),
    ensures
        forall|j: int| 0 <= j < at + n ==> tag_len_at(p + more, j, open_tags()) == 0,
{
    let s = p + more;
    lemma_first_tag_from(p, 0, close_tags());
    lemma_first_tag_from(p, 0, open_tags());
    let c = lemma_tag_at(p, at, close_tags());
    lemma_occurs_in_longer(p, more, at, close_tags()[c]);
    assert(all_tags()[3 + c] == close_tags()[c]);
    assert forall|j: int| 0 <= j < at + n implies tag_len_at(s, j, open_tags()) == 0 by {
        lemma_tag_len_at(s, j, open_tags());
        if tag_len_at(s, j, open_tags()) > 0 {
            let t = lemma_tag_at(s, j, open_tags());
            let o = open_tags()[t];
            assert(all_tags()[t] == o);
            if j > at {
                lemma_tag_begins_once(3 + c, j - at);
                lemma_tag_begins_once(t, 0);
                assert(s[at + (j - at)] == close_tags()[c][j - at]);
                assert(s[j + 0] == o[0]);
            } else if j == at {
                lemma_one_kind(s, at);
                lemma_tag_len_at(s, at, close_tags());
            } else if j + o.len() <= p.len() {
                lemma_occurs_in_longer(p, more, j, o);
                lemma_tag_len_at(p, j, open_tags());
            } else {
                lemma_tag_begins_once(t, at - j);
                lemma_tag_begins_once(3 + c, 0);
                assert(s[j + (at - j)] == o[at - j]);
                assert(s[at + 0] == close_tags()[c][0]);
            }
        }
    }
}

/// A filter that has not been set off is set off by draining where the withheld
/// text holds a tag that opens a block; else such a tag may still come.
proof fn lemma_drain_fires(st: ThinkState, out: Channels, more: Seq<char>)
    requires
        !st.fired,
        !st.in_think,
    ensures
        ({
            let after = think_drain(st, out).0;
            after.fired || (!after.in_think && (first_tag(after.pending + more, open_tags())
                is Some) == (first_tag(st.pending + more, open_tags()) is Some))
        }),
    decreases st.pending.len(),
{
    let p = st.pending;
    let s = p + more;
    lemma_tags();
    lemma_first_tag_from(p, 0, open_tags());
    lemma_first_tag_from(p, 0, close_tags());
    match (st.open_at(), st.close_at()) {
        (Some((at, n)), _) if st.opens_first() => {
            lemma_fired_stays(
                ThinkState {
                    pending: p.skip(at + n),
                    in_think: true,
                    fired: true,
                    ..st.said(at)
                },
                out.say(st.visible(at)),
            );
        },
        (_, Some((at, n))) => {
            if st.in_sentence(at, n) {
                lemma_no_open_tag_up_to_close(p, more, at, n);
                lemma_first_tag_in_rest(s, at + n, open_tags());
                assert(s.skip(at + n) =~= p.skip(at + n) + more);
                lemma_drain_fires(st.said(at + n), out.say(st.visible(at + n)), more);
            } else {
                lemma_fired_stays(
                    ThinkState { fired: true, ..st.past(at + n) },
                    out.think(p.take(at)),
                );
            }
        },
        _ => {
            let keep = p.len() - held(p, all_tags());
            lemma_held(p, all_tags());
            lemma_held(p, open_tags());
            lemma_held_for_all(p);
            lemma_no_tag_before_held(p, more, open_tags());
            lemma_first_tag_in_rest(s, keep, open_tags());
            assert(s.skip(keep) =~= p.skip(keep) + more);
        },
    }
}

proof fn lemma_run_fires(deltas: Seq<Seq<char>>, more: Seq<char>)
    ensures
        ({
            let st = think_run(fresh_think(true), deltas).0;
            &&& st.enabled
            &&& st.fired || (!st.in_think && (first_tag(st.pending + more, open_tags()) is Some)
                == (first_tag(concat(deltas) + more, open_tags()) is Some))
        }),
    decreases deltas.len(),
{
    if deltas.len() > 0 {
        let front = deltas.drop_last();
        let last = deltas.last();
        assert((concat(front) + last) + more =~= concat(front) + (last + more));
        lemma_run_fires(front, last + more);
        let before = think_run(fresh_think(true), front).0;
        let st = ThinkState { pending: before.pending + last, ..before };
        assert(st.pending + more =~= before.pending + (last + more));
        lemma_drain_keeps_enabled(st, Channels::none());
        if before.fired {
            lemma_fired_stays(st, Channels::none());
        } else {
            lemma_drain_fires(st, Channels::none(), more);
        }
    }
}

pub proof fn lemma_drain_keeps_enabled(st: ThinkState, out: Channels)
    ensures
        think_drain(st, out).0.enabled == st.enabled,
    decreases st.pending.len(),
{
    let p = st.pending;
    lemma_first_tag_from(p, 0, open_tags());
    lemma_first_tag_from(p, 0, close_tags());
    if st.in_think {
        if let Some((at, n)) = first_tag(p, close_tags()) {
            lemma_drain_keeps_enabled(
                ThinkState { in_think: false, ..st.past(at + n) },
                out.think(p.take(at)),
            );
        }
    } else {
        match (st.open_at(), st.close_at()) {
            (Some((at, n)), _) if st.opens_first() => {
                lemma_drain_keeps_enabled(
                    ThinkState {
                        pending: p.skip(at + n),
                        in_think: true,
                        fired: true,
                        ..st.said(at)
                    },
                    out.say(st.visible(at)),
                );
            },
            (_, Some((at, n))) => {
                if st.in_sentence(at, n) {
                    lemma_drain_keeps_enabled(st.said(at + n), out.say(st.visible(at + n)));
                } else {
                    lemma_drain_keeps_enabled(
                        ThinkState { fired: true, ..st.past(at + n) },
                        out.think(p.take(at)),
                    );
                }
            },
            _ => {},
        }
    }
}

/// A piece without tags does not set off the filter.
proof fn lemma_push_without_tags(before: ThinkState, last: Seq<char>, more: Seq<char>)
    requires
        before.enabled && !before.fired && !before.in_think,
        first_tag(before.pending + (last + more), all_tags()) is None,
    ensures
        ({
            let st = think_push(before, last).0;
            &&& st.enabled && !st.fired && !st.in_think
            &&& first_tag(st.pending + more, all_tags()) is None
        }),
{
    let p = before.pending + last;
    assert(p + more =~= before.pending + (last + more));
    lemma_tags();
    if first_tag(p, all_tags()) is Some {
        lemma_first_tag_stays(p, more, all_tags());
    }
    lemma_first_of_all(p);
    lemma_held(p, all_tags());
    let keep = p.len() - held(p, all_tags());
    lemma_rest_has_none(p + more, keep, all_tags());
    assert((p + more).skip(keep) =~= p.skip(keep) + more);
}

/// A filter that takes in a stream without tags is not set off.
proof fn lemma_run_without_tags(deltas: Seq<Seq<char>>, more: Seq<char>)
    requires
        first_tag(concat(deltas) + more, all_tags()) is None,
    ensures
        ({
            let st = think_run(fresh_think(true), deltas).0;
            &&& st.enabled && !st.fired && !st.in_think
            &&& first_tag(st.pending + more, all_tags()) is None
        }),
    decreases deltas.len(),
{
    if deltas.len() == 0 {
        assert(concat(deltas) + more =~= fresh_think(true).pending + more);
    } else {
        let front = deltas.drop_last();
        let last = deltas.last();
        assert((concat(front) + last) + more =~= concat(front) + (last + more));
        lemma_run_without_tags(front, last + more);
        lemma_push_without_tags(think_run(fresh_think(true), front).0, last, more);
    }
}

/// A stream that holds a tag that opens a block sets off the filter, if it splits at
/// all. One without any tag does not.
pub proof fn law_opening_tag_sets_off_filter(enabled: bool, deltas: Seq<Seq<char>>)
    ensures
        ({
            let fired = think_run(fresh_think(enabled), deltas).0.fired;
            &&& enabled && first_tag(concat(deltas), open_tags()) is Some ==> fired
            &&& !enabled || first_tag(concat(deltas), all_tags()) is None ==> !fired
        }),
{
    let none = Seq::<char>::empty();
    assert(concat(deltas) + none =~= concat(deltas));
    if !enabled {
        law_disabled_filter_passes(deltas);
    } else {
        lemma_run_fires(deltas, none);
        let st = think_run(fresh_think(true), deltas).0;
        assert(st.pending + none =~= st.pending);
        if first_tag(concat(deltas), all_tags()) is None {
            lemma_run_without_tags(deltas, none);
        }
        if !st.fired {
            lemma_run_quiet(deltas);
        }
    }
}

/// What a filter that is not set off withholds after a push holds no tag that opens a
/// block.
proof fn lemma_run_quiet(deltas: Seq<Seq<char>>)
    ensures
        ({
            let st = think_run(fresh_think(true), deltas).0;
            st.fired || first_tag(st.pending, open_tags()) is None
        }),
{
    if deltas.len() > 0 {
        let before = think_run(fresh_think(true), deltas.drop_last()).0;
        lemma_run_fires(deltas.drop_last(), Seq::empty());
        let st = ThinkState { pending: before.pending + deltas.last(), ..before };
        if before.fired {
            lemma_fired_stays(st, Channels::none());
        } else {
            lemma_drain_quiet(st, Channels::none());
        }
    }
}

proof fn lemma_drain_quiet(st: ThinkState, out: Channels)
    requires
        !st.in_think,
    ensures
        ({
            let after = think_drain(st, out).0;
            after.fired || first_tag(after.pending, open_tags()) is None
        }),
    decreases st.pending.len(),
{
    let p = st.pending;
    lemma_first_tag_from(p, 0, open_tags());
    lemma_first_tag_from(p, 0, close_tags());
    match (st.open_at(), st.close_at()) {
        (Some((at, n)), _) if st.opens_first() => {
            lemma_fired_stays(
                ThinkState {
                    pending: p.skip(at + n),
                    in_think: true,
                    fired: true,
                    ..st.said(at)
                },
                out.say(st.visible(at)),
            );
        },
        (_, Some((at, n))) => {
            if st.in_sentence(at, n) {
                lemma_drain_quiet(st.said(at + n), out.say(st.visible(at + n)));
            } else {
                lemma_fired_stays(
                    ThinkState { fired: true, ..st.past(at + n) },
                    out.think(p.take(at)),
                );
            }
        },
        _ => {
            lemma_held(p, all_tags());
            lemma_rest_has_none(p, p.len() - held(p, all_tags()), open_tags());
        },
    }
}

/// A filter that is set off stays so, whatever comes.
pub proof fn law_filter_stays_set_off(st: ThinkState, deltas: Seq<Seq<char>>)
    requires
        st.fired,
    ensures
        think_run(st, deltas).0.fired,
    decreases deltas.len(),
{
    if deltas.len() > 0 {
        law_filter_stays_set_off(st, deltas.drop_last());
        let before = think_run(st, deltas.drop_last()).0;
        lemma_fired_stays(
            ThinkState { pending: before.pending + deltas.last(), ..before },
            Channels::none(),
        );
    }
}

} // verus!
