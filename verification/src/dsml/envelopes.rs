//! Envelopes in a text, in whatever way they are written.

use super::grammar::{
    blocks, calls_of, double_bar, encloses, envelope_end, envelope_start, healed, invocation,
    invoke_starts_at, lemma_envelope_end, lemma_invocation_end, lemma_malformed_end,
    lemma_markup_lengths, lemma_next_invoke, lemma_next_invoke_of, malformed_end, next_invoke,
    single_bar, without, Block, Call, DsmlDialect, Invocation,
};
use super::laws::{lemma_invoke_starts_with_marker, lemma_markers};
use super::shift::{
    lemma_blocks_shift, lemma_invocation_shift, lemma_one_envelope, lemma_skip_white_shift,
    parts_onward,
};
use super::stability::{agree, lemma_invocation_stable, lemma_skip_white_stable};
use super::stream::markers;
use super::structure::{
    in_order, is_part, law_malformed_call_stays, law_parts_stand_in_order, lemma_call_last,
};
use super::written::lemma_no_call_from;
use crate::json::json_object;
use crate::tags::growth::{lemma_occurs_in_longer, lemma_occurs_in_rest, lemma_tag_at};
use crate::tags::{first_tag, lemma_first_tag_from, lemma_tag_len_at};
use crate::text::{is_white, lemma_skip_white, lemma_trim_blank, occurs_at, skip_white, trim};
use vstd::prelude::*;

verus! {

/// Whether `e` is an envelope of dialect `d` that heals to the call `c`, and to
/// nothing else: it begins with the tag that opens an envelope and ends with the
/// one that closes it, and no text is left of it.
pub open spec fn is_envelope_of(e: Seq<char>, d: DsmlDialect, c: Call) -> bool {
    &&& occurs_at(e, 0, d.calls_open())
    &&& occurs_at(e, e.len() - d.calls_close().len(), d.calls_close())
    &&& healed(e) == Some((Seq::<char>::empty(), seq![c]))
}

/// The one part of an envelope spans all of it.
proof fn lemma_envelope_parts(e: Seq<char>, d: DsmlDialect, c: Call)
    requires
        is_envelope_of(e, d, c),
    ensures
        match next_invoke(e, 0) {
            Some((b, at)) => match invocation(e, at, b) {
                Some(inv) => {
                    &&& 0 < at
                    &&& encloses(e, 0, 0, at, b)
                    &&& envelope_end(e, inv.end, b) == e.len()
                    &&& inv.end < e.len()
                    &&& c == (Call { name: inv.name, arguments: json_object(inv.arguments) })
                },
                None => false,
            },
            None => false,
        },
{
    let parts = blocks(e, 0, 0);
    lemma_markup_lengths(d);
    law_parts_stand_in_order(e, 0, 0);
    lemma_next_invoke(e, 0);
    assert(calls_of(parts).len() == parts.len());
    assert(calls_of(parts)[0] == parts[0].call);
    let b = parts[0];
    assert(is_part(e, 0, b));
    assert(parts.drop_first() =~= Seq::empty());
    let kept = without(e, 0, parts);
    assert(without(e, b.to, parts.drop_first()) =~= e.skip(b.to));
    assert(kept =~= e.subrange(0, b.from) + e.skip(b.to));
    lemma_trim_blank(kept);
    reveal_strlit("<｜｜DSML｜｜tool_calls>");
    reveal_strlit("<｜DSML｜tool_calls>");
    reveal_strlit("</｜｜DSML｜｜tool_calls>");
    reveal_strlit("</｜DSML｜tool_calls>");
    // Neither the first nor the last character is left.
    assert(e[0] == d.calls_open()[0]);
    let close = d.calls_close();
    let n = close.len() as int;
    assert(e[e.len() - n + (n - 1)] == close[n - 1]);
    assert(e[e.len() - n + (n - 2)] == close[n - 2]);
    if b.from > 0 {
        assert(is_white(kept[0]));
    }
    if b.to < e.len() {
        assert(is_white(kept[kept.len() - 1]));
    }
    if let Some((f, at)) = next_invoke(e, 0) {
        lemma_invocation_end(e, at, f);
        lemma_malformed_end(e, at, f);
        match (invocation(e, at, f), malformed_end(e, at, f)) {
            (Some(inv), _) => {
                assert(b.from == envelope_start(e, 0, at, f));
                lemma_call_last(e, at, f);
                lemma_envelope_end(e, inv.end, f);
                if at == 0 {
                    reveal_strlit("<｜｜DSML｜｜invoke");
                    reveal_strlit("<｜DSML｜invoke");
                    lemma_markup_lengths(f);
                    let m = d.marker().len() as int;
                    assert(e[2] == f.invoke_open()[2]);
                    assert(e[2] == d.calls_open()[2]);
                    assert(e[m] == f.invoke_open()[m]);
                    assert(e[m] == d.calls_open()[m]);
                }
            },
            (None, Some(end)) => {
                law_malformed_call_stays(e, 0, 0, f, at, end);
            },
            (None, None) => {},
        }
    }
}

/// Behind text without markers, the first call is that of the envelope.
proof fn lemma_first_call_of(p: Seq<char>, e: Seq<char>, t: Seq<char>, b: DsmlDialect, at: int)
    requires
        first_tag(p, markers()) is None,
        next_invoke(e, 0) == Some((b, at)),
        e[0] == '<',
    ensures
        next_invoke(p + e + t, 0) == Some((b, p.len() + at)),
{
    let s = p + e + t;
    let m = p.len() as int;
    lemma_next_invoke(e, 0);
    lemma_first_tag_from(p, 0, markers());
    lemma_markers();
    assert forall|j: int, f: DsmlDialect| 0 <= j <= at implies invoke_starts_at(s, m + j, f)
        == invoke_starts_at(e, j, f) by {
        lemma_invoke_in_place(p, e, t, b, at, j, f);
    }
    assert forall|j: int, f: DsmlDialect| 0 <= j < m implies !#[trigger] invoke_starts_at(
        s,
        j,
        f,
    ) by {
        if invoke_starts_at(s, j, f) {
            lemma_invoke_starts_with_marker(s, j, f);
            let u = lemma_tag_at(s, j, markers());
            let tag = markers()[u];
            assert(s =~= p + (e + t));
            if j + tag.len() <= m {
                lemma_occurs_in_longer(p, e + t, j, tag);
                lemma_tag_len_at(p, j, markers());
            } else {
                assert(s[j + (m - j)] == tag[m - j]);
                assert(s[m] == e[0]);
                reveal_strlit("<｜｜DSML｜｜");
                assert(markers()[0][0] == '<');
            }
        }
    }
    lemma_next_invoke_of(e, 0, double_bar());
    lemma_next_invoke_of(e, 0, single_bar());
    lemma_next_invoke_of(s, 0, double_bar());
    lemma_next_invoke_of(s, 0, single_bar());
    let other = DsmlDialect { double_bar: !b.double_bar };
    assert(invoke_starts_at(s, m + at, b));
    assert forall|j: int, f: DsmlDialect| 0 <= j < m + at implies !#[trigger] invoke_starts_at(
        s,
        j,
        f,
    ) by {
        if j >= m {
            assert(invoke_starts_at(s, m + (j - m), f) == invoke_starts_at(e, j - m, f));
        }
    }
    assert(!invoke_starts_at(s, m + at, other)) by {
        if invoke_starts_at(s, m + at, other) {
            reveal_strlit("<｜｜DSML｜｜invoke");
            reveal_strlit("<｜DSML｜invoke");
            assert(s[m + at + 2] == other.invoke_open()[2]);
            assert(s[m + at + 2] == b.invoke_open()[2]);
        }
    }
}

/// Up to the first call, calls start in the same places.
proof fn lemma_invoke_in_place(
    p: Seq<char>,
    e: Seq<char>,
    t: Seq<char>,
    b: DsmlDialect,
    at: int,
    j: int,
    f: DsmlDialect,
)
    requires
        invoke_starts_at(e, at, b),
        0 <= j <= at,
    ensures
        invoke_starts_at(p + e + t, p.len() + j, f) == invoke_starts_at(e, j, f),
{
    let s = p + e + t;
    let m = p.len() as int;
    let q = f.invoke_open();
    let after = j + q.len();
    lemma_markup_lengths(b);
    lemma_markup_lengths(f);
    reveal_strlit("<｜｜DSML｜｜invoke");
    reveal_strlit("<｜DSML｜invoke");
    assert(e[at + 0] == b.invoke_open()[0]);
    if invoke_starts_at(s, m + j, f) {
        // The tag ends before the call at `at`, or is that call.
        if j < at && at < after {
            assert(s[m + j + (at - j)] == q[at - j]);
            assert(s[m + at] == e[at]);
        }
        if j == at && f != b {
            assert(s[m + j + 2] == q[2]);
            assert(s[m + at + 2] == e[at + 2]);
            assert(e[at + 2] == b.invoke_open()[2]);
        }
        assert forall|k: int| 0 <= k < q.len() implies e[j + k] == #[trigger] q[k] by {
            assert(s[m + j + k] == q[k]);
            assert(s[m + (j + k)] == e[j + k]);
        }
        assert(s[m + after] == e[after]);
    }
    if invoke_starts_at(e, j, f) {
        assert forall|k: int| 0 <= k < q.len() implies s[m + j + k] == #[trigger] q[k] by {
            assert(e[j + k] == q[k]);
            assert(s[m + (j + k)] == e[j + k]);
        }
        assert(s[m + after] == e[after]);
    }
}

/// The call of an envelope is read as it is alone, and its markup begins and ends
/// where it does alone.
proof fn lemma_envelope_in_place(
    p: Seq<char>,
    e: Seq<char>,
    t: Seq<char>,
    b: DsmlDialect,
    at: int,
    inv: Invocation,
)
    requires
        0 <= at,
        invocation(e, at, b) == Some(inv),
        encloses(e, 0, 0, at, b),
        inv.end < e.len(),
        envelope_end(e, inv.end, b) == e.len(),
    ensures
        ({
            let s = p + e + t;
            let m = p.len() as int;
            &&& invocation(s, m + at, b) == Some(Invocation { end: m + inv.end, ..inv })
            &&& envelope_end(s, m + inv.end, b) == m + e.len()
            &&& envelope_start(s, 0, m + at, b) == m
        }),
{
    let s = p + e + t;
    let m = p.len() as int;
    let u = e + t;
    let n = e.len() as int;
    lemma_markup_lengths(b);
    lemma_invocation_end(e, at, b);
    assert(s.skip(m) =~= u);
    assert(agree(e, u, n));
    assert(invocation(s, m + at, b) == Some(Invocation { end: m + inv.end, ..inv })) by {
        lemma_invocation_stable(e, u, n, at, b);
        lemma_invocation_shift(s, m, at, b);
    }
    assert(envelope_end(s, m + inv.end, b) == m + n) by {
        lemma_skip_white(e, inv.end);
        let close = skip_white(e, inv.end);
        lemma_skip_white_stable(e, u, n, inv.end);
        lemma_skip_white_shift(s, m, inv.end);
        lemma_occurs_in_longer(e, t, close, b.calls_close());
        lemma_occurs_in_rest(s, m, close, b.calls_close());
    }
    let inside = b.calls_open().len() as int;
    lemma_occurs_in_longer(e, t, 0, b.calls_open());
    lemma_occurs_in_rest(s, m, 0, b.calls_open());
    assert(s.subrange(m + inside, m + at) =~= e.subrange(inside, at));
    assert(encloses(s, 0, m, m + at, b));
    let i = envelope_start(s, 0, m + at, b);
    assert(encloses(s, 0, i, m + at, b));
    lemma_one_envelope(s, 0, i, m, m + at, b);
}

/// Where the first call can be read, it makes up the first part.
proof fn lemma_first_part(
    s: Seq<char>,
    b: DsmlDialect,
    at: int,
    inv: Invocation,
    from: int,
    to: int,
    rest: Seq<Block>,
)
    requires
        next_invoke(s, 0) == Some((b, at)),
        invocation(s, at, b) == Some(inv),
        envelope_start(s, 0, at, b) == from,
        envelope_end(s, inv.end, b) == to,
        blocks(s, to, to) == rest,
    ensures
        blocks(s, 0, 0) == seq![
            Block {
                from,
                at,
                to,
                call: Call { name: inv.name, arguments: json_object(inv.arguments) },
            },
        ] + rest,
{
}

/// The parts of a text that an envelope leads, behind text without markers.
proof fn lemma_parts_among(
    p: Seq<char>,
    e: Seq<char>,
    t: Seq<char>,
    b: DsmlDialect,
    at: int,
    inv: Invocation,
)
    requires
        first_tag(p, markers()) is None,
        e[0] == '<',
        0 <= at,
        next_invoke(e, 0) == Some((b, at)),
        invocation(e, at, b) == Some(inv),
        encloses(e, 0, 0, at, b),
        inv.end < e.len(),
        envelope_end(e, inv.end, b) == e.len(),
    ensures
        ({
            let c = Call { name: inv.name, arguments: json_object(inv.arguments) };
            blocks(p + e + t, 0, 0) == seq![whole_part(p, e, p.len() + at, c)] + parts_onward(
                blocks(t, 0, 0),
                (p.len() + e.len()) as int,
            )
        }),
{
    let s = p + e + t;
    let m = p.len() as int;
    let to = m + e.len();
    let placed = Invocation { end: m + inv.end, ..inv };
    assert(next_invoke(s, 0) == Some((b, m + at))) by {
        lemma_first_call_of(p, e, t, b, at);
    }
    assert(invocation(s, m + at, b) == Some(placed) && envelope_end(s, placed.end, b) == to
        && envelope_start(s, 0, m + at, b) == m) by {
        lemma_envelope_in_place(p, e, t, b, at, inv);
    }
    let rest = parts_onward(blocks(t, 0, 0), to);
    assert(blocks(s, to, to) == rest) by {
        assert(s.skip(to) =~= t);
        lemma_blocks_shift(s, to, 0, 0);
    }
    lemma_first_part(s, b, m + at, placed, m, to, rest);
}

/// An envelope behind text without markers heals as it does alone, and leaves the
/// text behind it to heal as it does alone.
proof fn lemma_envelope_among(p: Seq<char>, e: Seq<char>, t: Seq<char>, d: DsmlDialect, c: Call)
    requires
        first_tag(p, markers()) is None,
        is_envelope_of(e, d, c),
    ensures
        exists|at: int|
            #![trigger whole_part(p, e, at, c)]
            blocks(p + e + t, 0, 0) == seq![whole_part(p, e, at, c)] + parts_onward(
                blocks(t, 0, 0),
                (p.len() + e.len()) as int,
            ),
{
    lemma_envelope_parts(e, d, c);
    assert(e[0] == '<') by {
        lemma_markup_lengths(d);
        reveal_strlit("<｜｜DSML｜｜tool_calls>");
        reveal_strlit("<｜DSML｜tool_calls>");
        assert(e[0] == d.calls_open()[0]);
    }
    if let Some((b, at)) = next_invoke(e, 0) {
        if let Some(inv) = invocation(e, at, b) {
            lemma_parts_among(p, e, t, b, at, inv);
        }
    }
}

/// The part that an envelope makes up behind `p`.
spec fn whole_part(p: Seq<char>, e: Seq<char>, at: int, c: Call) -> Block {
    Block { from: p.len() as int, at, to: (p.len() + e.len()) as int, call: c }
}

/// What is left of a text is left of it further on.
proof fn lemma_without_shift(s: Seq<char>, m: int, from: int, parts: Seq<Block>)
    requires
        0 <= m <= s.len(),
        0 <= from <= s.len() - m,
        forall|i: int|
            0 <= i < parts.len() ==> from <= (#[trigger] parts[i]).from <= parts[i].to <= s.len()
                - m,
        in_order(parts),
    ensures
        without(s, m + from, parts_onward(parts, m)) == without(s.skip(m), from, parts),
    decreases parts.len(),
{
    let r = s.skip(m);
    let on = parts_onward(parts, m);
    if parts.len() == 0 {
        assert(s.skip(m + from) =~= r.skip(from));
    } else {
        let rest = parts.drop_first();
        assert(on.drop_first() =~= parts_onward(rest, m));
        assert(on[0].from == m + parts[0].from && on[0].to == m + parts[0].to);
        assert(s.subrange(m + from, m + parts[0].from) =~= r.subrange(from, parts[0].from));
        assert forall|i: int| 0 <= i < rest.len() implies parts[0].to <= (#[trigger] rest[i]).from
            <= rest[i].to <= s.len() - m by {
            assert(rest[i] == parts[i + 1]);
            assert(parts[0].to <= parts[i + 1].from);
        }
        assert(in_order(rest)) by {
            assert forall|i: int, j: int| 0 <= i < j < rest.len() implies (#[trigger] rest[i]).to
                <= (#[trigger] rest[j]).from by {
                assert(parts[i + 1].to <= parts[j + 1].from);
            }
        }
        lemma_without_shift(s, m, parts[0].to, rest);
    }
}

/// What is left of text without markers, an envelope and further text is the first
/// text and what is left of the last.
proof fn lemma_left_of(p: Seq<char>, e: Seq<char>, t: Seq<char>, d: DsmlDialect, c: Call)
    requires
        first_tag(p, markers()) is None,
        is_envelope_of(e, d, c),
    ensures
        without(p + e + t, 0, blocks(p + e + t, 0, 0)) == p + without(t, 0, blocks(t, 0, 0)),
        calls_of(blocks(p + e + t, 0, 0)) == seq![c] + calls_of(blocks(t, 0, 0)),
{
    let s = p + e + t;
    let to = (p.len() + e.len()) as int;
    lemma_envelope_among(p, e, t, d, c);
    let parts = blocks(s, 0, 0);
    let rest = blocks(t, 0, 0);
    let on = parts_onward(rest, to);
    let at = choose|at: int|
        #![trigger whole_part(p, e, at, c)]
        parts == seq![whole_part(p, e, at, c)] + on;
    let first = whole_part(p, e, at, c);
    assert(s.skip(to) =~= t);
    assert(forall|i: int|
        0 <= i < rest.len() ==> 0 <= (#[trigger] rest[i]).from <= rest[i].to <= s.len() - to) by {
        law_parts_stand_in_order(t, 0, 0);
        assert forall|i: int| 0 <= i < rest.len() implies 0 <= (#[trigger] rest[i]).from
            <= rest[i].to <= s.len() - to by {
            assert(is_part(t, 0, rest[i]));
        }
    }
    assert(in_order(rest)) by {
        law_parts_stand_in_order(t, 0, 0);
    }
    lemma_without_shift(s, to, 0, rest);
    assert(s.subrange(0, p.len() as int) =~= p);
    assert(parts.drop_first() =~= on);
    assert(parts[0] == first);
    assert(calls_of(parts) =~= seq![c] + calls_of(rest));
}

/// A complete envelope amid text without markers heals, however it is written:
/// exactly the envelope leaves the text, and its call comes out.
pub proof fn law_envelope_leaves_text(
    p: Seq<char>,
    e: Seq<char>,
    t: Seq<char>,
    d: DsmlDialect,
    c: Call,
)
    requires
        is_envelope_of(e, d, c),
        first_tag(p, markers()) is None,
        first_tag(t, markers()) is None,
    ensures
        healed(p + e + t) == Some((trim(p + t), seq![c])),
{
    lemma_left_of(p, e, t, d, c);
    assert(t.skip(0) =~= t);
    lemma_no_call_from(t, 0);
    assert(blocks(t, 0, 0) =~= Seq::empty());
    assert(without(t, 0, blocks(t, 0, 0)) =~= t);
    assert(seq![c] + calls_of(blocks(t, 0, 0)) =~= seq![c]);
    assert(calls_of(blocks(p + e + t, 0, 0)).len() == blocks(p + e + t, 0, 0).len());
}

/// A complete envelope in front of a text that heals only prepends its call: it
/// changes neither the later calls nor the visible text.
pub proof fn law_envelope_in_front_prepends(
    e: Seq<char>,
    b: Seq<char>,
    d: DsmlDialect,
    c: Call,
    cleaned: Seq<char>,
    calls: Seq<Call>,
)
    requires
        is_envelope_of(e, d, c),
        healed(b) == Some((cleaned, calls)),
    ensures
        healed(e + b) == Some((cleaned, seq![c] + calls)),
{
    let none = Seq::<char>::empty();
    lemma_first_tag_from(none, 0, markers());
    lemma_left_of(none, e, b, d, c);
    assert(none + e + b =~= e + b);
    assert(none + without(b, 0, blocks(b, 0, 0)) =~= without(b, 0, blocks(b, 0, 0)));
    assert(calls_of(blocks(e + b, 0, 0)).len() == blocks(e + b, 0, 0).len());
}

} // verus!
