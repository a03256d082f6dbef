//! Any number of calls that leaked into one text.

use super::grammar::{
    blocks, calls_of, double_bar, encloses, envelope_end, envelope_start, healed, invocation,
    invoke_starts_at, lemma_markup_lengths, lemma_next_invoke_of, next_invoke, single_bar, without,
    Block, Call, DsmlDialect, Invocation,
};
use super::laws::lemma_markers;
use super::stream::markers;
use super::written::{
    are_sound, arguments, law_written_call_is_read, lemma_body_ends, lemma_gap_skipped,
    lemma_invoke_needs_marker, lemma_no_call_from, lemma_stand_apart, written_call, written_rest,
    written_tag, Parameter,
};
use crate::json::{json_object, no_members};
use crate::tags::growth::lemma_tag_at;
use crate::tags::{first_tag, lemma_first_tag_from, lemma_tag_len_at};
use crate::text::{is_blank, is_white, lemma_scan_is, lemma_skip_white, occurs_at, skip_white, trim};
use vstd::prelude::*;

verus! {

/// A call that leaked into a text, with the text that stands before it. An envelope may
/// open before the call, and one may close behind it, so that several calls may stand in
/// one envelope, each in its own, or in none.
pub struct Leak {
    pub before: Seq<char>,
    pub dialect: DsmlDialect,
    pub name: Seq<char>,
    pub params: Seq<Parameter>,
    pub gap: Seq<char>,
    pub opened: bool,
    pub closed: bool,
}

impl Leak {
    /// Whether the call can be written so: it has a name, its parameters can be written,
    /// and nothing but white space stands between its tags. No markup stands before it.
    pub open spec fn is_sound(self) -> bool {
        &&& first_tag(self.before, markers()) is None
        &&& self.name.len() > 0
        &&& are_sound(self.dialect, self.params)
        &&& is_blank(self.gap)
    }

    /// The tag that opens an envelope before the call, if one does.
    pub open spec fn opening(self) -> Seq<char> {
        if self.opened {
            self.dialect.calls_open() + self.gap
        } else {
            Seq::empty()
        }
    }

    /// The tag that closes an envelope behind the call, if one does.
    pub open spec fn closing(self) -> Seq<char> {
        if self.closed {
            self.gap + self.dialect.calls_close()
        } else {
            Seq::empty()
        }
    }

    /// The call itself.
    pub open spec fn call(self) -> Seq<char> {
        written_call(self.dialect, self.name, self.params, self.gap)
    }

    /// The arguments of the call, as JSON text.
    pub open spec fn json(self) -> Seq<char> {
        json_object(arguments(self.params, no_members()))
    }

    /// Whether no envelope closes at the beginning of `rest`, if none is said to.
    pub open spec fn stands_before(self, rest: Seq<char>) -> bool {
        self.closed || !occurs_at(rest, skip_white(rest, 0), self.dialect.calls_close())
    }
}

/// The text that leaked calls and the text around them make up, with `tail` at its end.
pub open spec fn leaked(leaks: Seq<Leak>, tail: Seq<char>) -> Seq<char>
    decreases leaks.len(),
{
    if leaks.len() == 0 {
        tail
    } else {
        let k = leaks[0];
        k.before + (k.opening() + (k.call() + (k.closing() + leaked(leaks.drop_first(), tail))))
    }
}

/// The text around leaked calls.
pub open spec fn around_leaks(leaks: Seq<Leak>, tail: Seq<char>) -> Seq<char>
    decreases leaks.len(),
{
    if leaks.len() == 0 {
        tail
    } else {
        leaks[0].before + around_leaks(leaks.drop_first(), tail)
    }
}

/// Whether the calls can be written one after the other, with `tail` behind them, in
/// which no markup stands.
pub open spec fn can_leak(leaks: Seq<Leak>, tail: Seq<char>) -> bool
    decreases leaks.len(),
{
    if leaks.len() == 0 {
        first_tag(tail, markers()) is None
    } else {
        &&& leaks[0].is_sound()
        &&& leaks[0].stands_before(leaked(leaks.drop_first(), tail))
        &&& can_leak(leaks.drop_first(), tail)
    }
}

// ---------------------------------------------------------------------------
// Where the next call stands
// ---------------------------------------------------------------------------

/// The opening tag of a call starts one of its dialect, and none of the other.
pub proof fn lemma_call_stands(s: Seq<char>, at: int, d: DsmlDialect, name: Seq<char>)
    requires
        occurs_at(s, at, written_tag(d, "invoke"@, name)),
    ensures
        invoke_starts_at(s, at, d),
        !invoke_starts_at(s, at, DsmlDialect { double_bar: !d.double_bar }),
        s[at] == '<',
        occurs_at(s, at, d.marker()),
{
    let tag = written_tag(d, "invoke"@, name);
    let n = d.marker().len() as int;
    lemma_markup_lengths(single_bar());
    lemma_markup_lengths(double_bar());
    reveal_strlit("<｜｜DSML｜｜invoke");
    reveal_strlit("<｜DSML｜invoke");
    reveal_strlit("<｜｜DSML｜｜");
    reveal_strlit("<｜DSML｜");
    reveal_strlit("invoke");
    let invoke = d.invoke_open();
    assert forall|k: int| 0 <= k < invoke.len() implies s[at + k] == #[trigger] invoke[k] by {
        assert(s[at + k] == tag[k]);
        if k < n {
            assert(tag[k] == d.marker()[k]);
        } else {
            assert(tag[k] == "invoke"@[k - n]);
        }
    }
    assert(s[at + invoke.len()] == tag[invoke.len() as int]);
    assert(tag[invoke.len() as int] == ' ');
    let other = DsmlDialect { double_bar: !d.double_bar };
    if invoke_starts_at(s, at, other) {
        assert(s[at + 2] == other.invoke_open()[2]);
        assert(s[at + 2] == invoke[2]);
    }
    assert(s[at + 0] == invoke[0]);
    assert forall|k: int| 0 <= k < n implies s[at + k] == #[trigger] d.marker()[k] by {
        assert(s[at + k] == tag[k]);
    }
}

/// No call starts, and no marker stands, in text without markup before other markup.
pub proof fn lemma_no_call_in_lead(s: Seq<char>, c: int, from: int)
    requires
        0 <= c <= from < s.len(),
        first_tag(s.subrange(c, from), markers()) is None,
        s[from] == '<',
    ensures
        forall|j: int, e: DsmlDialect| c <= j < from ==> !#[trigger] invoke_starts_at(s, j, e),
        forall|j: int, e: DsmlDialect| c <= j < from ==> !#[trigger] occurs_at(s, j, e.marker()),
{
    let head = s.subrange(c, from);
    let rest = s.subrange(c, s.len() as int);
    lemma_first_tag_from(head, 0, markers());
    lemma_markers();
    lemma_body_ends(single_bar());
    lemma_body_ends(double_bar());
    assert forall|j: int, e: DsmlDialect| c <= j < from implies !#[trigger] occurs_at(
        s,
        j,
        e.marker(),
    ) by {
        if occurs_at(s, j, e.marker()) {
            let m = e.marker();
            let u: int = if e.double_bar {
                0
            } else {
                1
            };
            assert(markers()[u] == m);
            if j + m.len() <= from {
                assert(occurs_at(head, j - c, m)) by {
                    assert forall|k: int| 0 <= k < m.len() implies head[j - c + k]
                        == #[trigger] m[k] by {
                        assert(s[j + k] == m[k]);
                    }
                }
                lemma_markup_lengths(e);
                lemma_tag_len_at(head, j - c, markers());
            } else {
                assert(s[j + (from - j)] == m[from - j]);
                assert(markers()[u][from - j] != markers()[u][0]);
            }
        }
    }
    assert forall|j: int, e: DsmlDialect| c <= j < from implies !#[trigger] invoke_starts_at(
        s,
        j,
        e,
    ) by {
        if invoke_starts_at(s, j, e) {
            lemma_invoke_needs_marker(s, j, e);
            let u = lemma_tag_at(s, j, markers());
            if u == 0 {
                assert(!occurs_at(s, j, double_bar().marker()));
            } else {
                assert(!occurs_at(s, j, single_bar().marker()));
            }
        }
    }
}

proof fn lemma_no_call_in_opening(s: Seq<char>, from: int, d: DsmlDialect, gap: Seq<char>)
    requires
        occurs_at(s, from, d.calls_open() + gap),
        is_blank(gap),
    ensures
        forall|j: int, e: DsmlDialect|
            from <= j < from + d.calls_open().len() + gap.len() ==> !#[trigger] invoke_starts_at(
                s,
                j,
                e,
            ),
        s[from] == '<',
{
    let open = d.calls_open();
    let n = d.marker().len() as int;
    let inside = from + open.len();
    lemma_markup_lengths(single_bar());
    lemma_markup_lengths(double_bar());
    lemma_stand_apart(s, from, open, gap);
    reveal_strlit("<｜｜DSML｜｜tool_calls>");
    reveal_strlit("<｜DSML｜tool_calls>");
    reveal_strlit("<｜｜DSML｜｜invoke");
    reveal_strlit("<｜DSML｜invoke");
    assert(s[from + 0] == open[0]);
    assert forall|j: int, e: DsmlDialect| from <= j < inside + gap.len() implies !#[trigger]
        invoke_starts_at(s, j, e) by {
        if invoke_starts_at(s, j, e) {
            lemma_invoke_needs_marker(s, j, e);
            let p = e.invoke_open();
            if j < inside {
                assert(s[from + (j - from)] == open[j - from]);
                if j == from {
                    assert(s[j + 2] == p[2]);
                    assert(s[from + 2] == open[2]);
                    assert(s[j + n] == p[n]);
                    assert(s[from + n] == open[n]);
                }
            } else {
                assert(s[inside + (j - inside)] == gap[j - inside]);
                assert(is_white(gap[j - inside]));
            }
        }
    }
}

proof fn lemma_opening_found(
    s: Seq<char>,
    c: int,
    from: int,
    at: int,
    d: DsmlDialect,
    gap: Seq<char>,
)
    requires
        0 <= c <= from,
        at == from + d.calls_open().len() + gap.len(),
        occurs_at(s, from, d.calls_open() + gap),
        is_blank(gap),
    ensures
        envelope_start(s, c, at, d) == from,
{
    let open = d.calls_open();
    let inside = from + open.len();
    lemma_markup_lengths(d);
    lemma_stand_apart(s, from, open, gap);
    reveal_strlit("<｜｜DSML｜｜tool_calls>");
    reveal_strlit("<｜DSML｜tool_calls>");
    assert(encloses(s, c, from, at, d)) by {
        assert(s.subrange(inside, at) =~= gap);
    }
    let i = envelope_start(s, c, at, d);
    assert(encloses(s, c, i, at, d));
    if i < from {
        let after = i + open.len();
        assert(is_white(s.subrange(after, at)[inside - 1 - after]));
        assert(s[from + (open.len() - 1)] == open[open.len() - 1]);
    } else if i > from {
        assert(s[i + 0] == open[0]);
        if i < inside {
            assert(s[from + (i - from)] == open[i - from]);
        } else {
            assert(s[inside + (i - inside)] == gap[i - inside]);
            assert(is_white(gap[i - inside]));
        }
    }
}

proof fn lemma_nothing_opens(s: Seq<char>, c: int, at: int, d: DsmlDialect)
    requires
        0 <= c <= at < s.len(),
        first_tag(s.subrange(c, at), markers()) is None,
        s[at] == '<',
    ensures
        envelope_start(s, c, at, d) == at,
{
    lemma_no_call_in_lead(s, c, at);
    lemma_markup_lengths(d);
    reveal_strlit("<｜｜DSML｜｜tool_calls>");
    reveal_strlit("<｜DSML｜tool_calls>");
    reveal_strlit("<｜｜DSML｜｜");
    reveal_strlit("<｜DSML｜");
    assert forall|i: int| !encloses(s, c, i, at, d) by {
        if encloses(s, c, i, at, d) {
            let open = d.calls_open();
            assert forall|k: int| 0 <= k < d.marker().len() implies s[i + k] == #[trigger]
                d.marker()[k] by {
                assert(s[i + k] == open[k]);
            }
            assert(occurs_at(s, i, d.marker()));
        }
    }
}

/// The call `k` at the beginning of a text is the next one that is read, and exactly its
/// markup is taken out.
proof fn lemma_next_leak(s: Seq<char>, c: int, k: Leak, rest: Seq<char>)
    requires
        0 <= c <= s.len(),
        s.skip(c) == k.before + (k.opening() + (k.call() + (k.closing() + rest))),
        k.is_sound(),
        k.stands_before(rest),
    ensures
        ({
            let from = c + k.before.len();
            let at = from + k.opening().len();
            let end = at + k.call().len();
            let to = end + k.closing().len();
            &&& next_invoke(s, c) == Some((k.dialect, at))
            &&& invocation(s, at, k.dialect) == Some(
                Invocation { name: k.name, arguments: arguments(k.params, no_members()), end },
            )
            &&& envelope_start(s, c, at, k.dialect) == from
            &&& envelope_end(s, end, k.dialect) == to
            &&& 0 <= c <= from <= at < end <= to <= s.len()
            &&& s.skip(to) == rest
            &&& s.subrange(c, from) == k.before
        }),
{
    let d = k.dialect;
    let from = c + k.before.len();
    let at = from + k.opening().len();
    let end = at + k.call().len();
    let to = end + k.closing().len();
    let t = s.skip(c);
    let tag = written_tag(d, "invoke"@, k.name);
    lemma_markup_lengths(d);
    assert(t.len() == k.before.len() + k.opening().len() + k.call().len() + k.closing().len()
        + rest.len());
    lemma_piece_stands(s, c, k.before, k.opening() + (k.call() + (k.closing() + rest)));
    lemma_piece_stands(s, from, k.opening(), k.call() + (k.closing() + rest));
    lemma_piece_stands(s, at, k.call(), k.closing() + rest);
    lemma_piece_stands(s, end, k.closing(), rest);
    lemma_stand_apart(s, at, tag, written_rest(d, k.params, k.gap));
    lemma_call_stands(s, at, d, k.name);
    law_written_call_is_read(s, at, d, k.name, k.params, k.gap);
    assert(s.subrange(c, from) =~= k.before) by {
        assert forall|i: int| 0 <= i < k.before.len() implies s.subrange(c, from)[i]
            == #[trigger] k.before[i] by {
            assert(s[c + i] == k.before[i]);
        }
    }
    if k.opened {
        lemma_no_call_in_opening(s, from, d, k.gap);
        lemma_opening_found(s, c, from, at, d, k.gap);
    } else {
        lemma_nothing_opens(s, c, at, d);
    }
    lemma_no_call_in_lead(s, c, from);
    let other = DsmlDialect { double_bar: !d.double_bar };
    lemma_next_invoke_of(s, c, d);
    lemma_next_invoke_of(s, c, other);
    lemma_closing(s, end, to, k, rest);
}

/// What stands at the beginning of the rest of a text stands in the text.
pub proof fn lemma_piece_stands(s: Seq<char>, i: int, a: Seq<char>, b: Seq<char>)
    requires
        0 <= i <= s.len(),
        s.skip(i) == a + b,
    ensures
        occurs_at(s, i, a),
        i + a.len() <= s.len(),
        s.skip((i + a.len()) as int) == b,
{
    assert(s.skip(i).len() == a.len() + b.len());
    assert forall|k: int| 0 <= k < a.len() implies s[i + k] == #[trigger] a[k] by {
        assert(s.skip(i)[k] == a[k]);
    }
    assert(s.skip((i + a.len()) as int) =~= b) by {
        assert forall|k: int| 0 <= k < b.len() implies s.skip((i + a.len()) as int)[k]
            == #[trigger] b[k] by {
            assert(s.skip(i)[a.len() + k] == b[k]);
        }
    }
}

proof fn lemma_closing(s: Seq<char>, end: int, to: int, k: Leak, rest: Seq<char>)
    requires
        0 <= end <= to <= s.len(),
        to == end + k.closing().len(),
        occurs_at(s, end, k.closing()),
        s.skip(to) == rest,
        is_blank(k.gap),
        k.stands_before(rest),
    ensures
        envelope_end(s, end, k.dialect) == to,
{
    let d = k.dialect;
    let close = d.calls_close();
    lemma_markup_lengths(d);
    if k.closed {
        reveal_strlit("</｜｜DSML｜｜tool_calls>");
        reveal_strlit("</｜DSML｜tool_calls>");
        lemma_stand_apart(s, end, k.gap, close);
        assert(s[end + k.gap.len() + 0] == close[0]);
        lemma_gap_skipped(s, end, k.gap);
    } else {
        let n = skip_white(rest, 0);
        lemma_skip_white(rest, 0);
        let stop = |c: char| !is_white(c);
        assert forall|j: int| end <= j < end + n implies !stop(#[trigger] s[j]) by {
            assert(rest[j - end] == s[j]);
        }
        if end + n < s.len() {
            assert(rest[n] == s[end + n]);
        }
        lemma_scan_is(s, end, stop, end + n);
        assert(skip_white(s, end) == end + n);
        if occurs_at(s, end + n, close) {
            assert forall|j: int| 0 <= j < close.len() implies rest[n + j] == #[trigger]
                close[j] by {
                assert(s[end + n + j] == close[j]);
            }
            assert(occurs_at(rest, n, close));
        }
    }
}

proof fn lemma_leaks(s: Seq<char>, c: int, leaks: Seq<Leak>, tail: Seq<char>)
    requires
        0 <= c <= s.len(),
        s.skip(c) == leaked(leaks, tail),
        can_leak(leaks, tail),
    ensures
        ({
            let parts = blocks(s, c, c);
            &&& parts.len() == leaks.len()
            &&& without(s, c, parts) == around_leaks(leaks, tail)
            &&& forall|i: int|
                0 <= i < leaks.len() ==> (#[trigger] parts[i]).call.name == leaks[i].name
                    && parts[i].call.arguments == leaks[i].json()
        }),
    decreases leaks.len(),
{
    let parts = blocks(s, c, c);
    if leaks.len() == 0 {
        lemma_no_call_from(s, c);
    } else {
        let k = leaks[0];
        let rest = leaks.drop_first();
        let d = k.dialect;
        lemma_next_leak(s, c, k, leaked(rest, tail));
        let from = c + k.before.len();
        let at = from + k.opening().len();
        let end = at + k.call().len();
        let to = end + k.closing().len();
        lemma_leaks(s, to, rest, tail);
        let block = Block { from, at, to, call: Call { name: k.name, arguments: k.json() } };
        let more = blocks(s, to, to);
        assert(parts == seq![block] + more);
        assert(parts.drop_first() =~= more);
        assert forall|i: int| 0 <= i < leaks.len() implies (#[trigger] parts[i]).call.name
            == leaks[i].name && parts[i].call.arguments == leaks[i].json() by {
            if i > 0 {
                assert(parts[i] == more[i - 1]);
                assert(rest[i - 1] == leaks[i]);
            }
        }
    }
}

/// Any number of calls that leaked into one text heal, whether they stand in one
/// envelope, each in its own, or in none: as many calls come out as leaked, in the same
/// order, each with its own name and its own arguments, and exactly their markup leaves
/// the text.
pub proof fn law_all_leaked_calls_heal(leaks: Seq<Leak>, tail: Seq<char>)
    requires
        leaks.len() > 0,
        can_leak(leaks, tail),
    ensures
        match healed(leaked(leaks, tail)) {
            Some((cleaned, calls)) => {
                &&& cleaned == trim(around_leaks(leaks, tail))
                &&& calls.len() == leaks.len()
                &&& forall|i: int|
                    0 <= i < leaks.len() ==> (#[trigger] calls[i]).name == leaks[i].name
                        && calls[i].arguments == leaks[i].json()
            },
            None => false,
        },
{
    let s = leaked(leaks, tail);
    let parts = blocks(s, 0, 0);
    assert(s.skip(0) =~= s);
    lemma_leaks(s, 0, leaks, tail);
    let calls = calls_of(parts);
    assert forall|i: int| 0 <= i < leaks.len() implies (#[trigger] calls[i]).name
        == leaks[i].name && calls[i].arguments == leaks[i].json() by {
        assert(calls[i] == parts[i].call);
    }
}

} // verus!
