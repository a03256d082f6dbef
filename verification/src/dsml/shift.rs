//! Markup is read in the same way wherever it stands in a text.
//!
//! Each lemma relates what is read in the rest of a text, from `m` on, to what is
//! read in the text itself.

use super::grammar::{
    attr_name_end, attribute, balanced_end, blocks, calls_of, double_bar, encloses, ends_attr_name,
    ends_tag_name, envelope_end, envelope_start, healed, invocation, invoke_starts_at,
    lemma_attribute_end, lemma_calls_open_last, lemma_envelope_end, lemma_invocation_end,
    lemma_malformed_end, lemma_markup_lengths, lemma_next_invoke, lemma_next_invoke_of,
    lemma_open_tag_end, lemma_parameter_value_end, malformed_end, next_invoke, next_invoke_of,
    open_tag, parameter_value, parameters, quoted_value, single_bar, starts_between, tag_name_end,
    tag_rest, Block, DsmlDialect, Invocation, Tag,
};
use super::laws::{
    law_deltas_do_not_matter, law_text_without_marker_stays, lemma_invoke_starts_with_marker,
};
use super::stream::{filter_finish, filter_run, fresh_filter, markers};
use crate::json::no_members;
use crate::tags::growth::lemma_occurs_in_rest;
use crate::tags::{first_tag, lemma_first_tag_from, lemma_tag_len_at, tag_len_at};
use crate::text::{
    concat, find_from, is_white, lemma_find_from, lemma_scan, lemma_skip_white, occurs_at, scan,
    skip_white,
};
use vstd::prelude::*;

verus! {

proof fn lemma_scan_shift(s: Seq<char>, m: int, i: int, stop: spec_fn(char) -> bool)
    requires
        0 <= m <= s.len(),
        0 <= i,
    ensures
        scan(s, m + i, stop) == m + scan(s.skip(m), i, stop),
    decreases s.len() - m - i,
{
    let r = s.skip(m);
    if i < r.len() {
        assert(r[i] == s[m + i]);
        if !stop(s[m + i]) {
            lemma_scan_shift(s, m, i + 1, stop);
        }
    }
}

pub proof fn lemma_skip_white_shift(s: Seq<char>, m: int, i: int)
    requires
        0 <= m <= s.len(),
        0 <= i,
    ensures
        skip_white(s, m + i) == m + skip_white(s.skip(m), i),
{
    lemma_scan_shift(s, m, i, |c: char| !is_white(c));
}

/// A position further on, seen from `m` characters before.
spec fn onward(at: Option<int>, m: int) -> Option<int> {
    match at {
        Some(at) => Some(m + at),
        None => None,
    }
}

proof fn lemma_find_from_shift(s: Seq<char>, m: int, i: int, p: Seq<char>)
    requires
        0 <= m <= s.len(),
        0 <= i,
    ensures
        find_from(s, m + i, p) == onward(find_from(s.skip(m), i, p), m),
    decreases s.len() - m - i,
{
    lemma_occurs_in_rest(s, m, i, p);
    if m + i + p.len() <= s.len() && !occurs_at(s, m + i, p) {
        lemma_find_from_shift(s, m, i + 1, p);
    }
}

proof fn lemma_quoted_value_shift(s: Seq<char>, m: int, i: int)
    requires
        0 <= m <= s.len(),
        0 <= i,
    ensures
        quoted_value(s, m + i) == match quoted_value(s.skip(m), i) {
            Some((value, end)) => Some((value, m + end)),
            None => None,
        },
    decreases s.len() - m - i,
{
    let r = s.skip(m);
    if i < r.len() {
        assert(r[i] == s[m + i]);
        if i + 1 < r.len() {
            assert(r[i + 1] == s[m + i + 1]);
        }
        if s[m + i] != '"' {
            lemma_quoted_value_shift(s, m, i + 1);
            if i + 1 < r.len() {
                lemma_quoted_value_shift(s, m, i + 2);
            }
        }
    }
}

proof fn lemma_attribute_shift(s: Seq<char>, m: int, i: int)
    requires
        0 <= m <= s.len(),
        0 <= i <= s.len() - m,
    ensures
        attribute(s, m + i) == match attribute(s.skip(m), i) {
            Some((key, value, end)) => Some((key, value, m + end)),
            None => None,
        },
{
    let r = s.skip(m);
    lemma_scan_shift(s, m, i, |c: char| ends_attr_name(c));
    lemma_scan(r, i, |c: char| ends_attr_name(c));
    let key_end = attr_name_end(r, i);
    lemma_skip_white_shift(s, m, key_end);
    lemma_skip_white(r, key_end);
    let equals = skip_white(r, key_end);
    if equals < r.len() {
        assert(r[equals] == s[m + equals]);
        lemma_skip_white_shift(s, m, equals + 1);
        lemma_skip_white(r, equals + 1);
        let quote = skip_white(r, equals + 1);
        if quote < r.len() {
            assert(r[quote] == s[m + quote]);
            lemma_quoted_value_shift(s, m, quote + 1);
        }
    }
    assert(r.subrange(i, key_end) =~= s.subrange(m + i, m + key_end));
}

/// A tag further on, seen from `m` characters before.
spec fn tag_onward(tag: Option<Tag>, m: int) -> Option<Tag> {
    match tag {
        Some(tag) => Some(Tag { end: m + tag.end, ..tag }),
        None => None,
    }
}

proof fn lemma_tag_rest_shift(
    s: Seq<char>,
    m: int,
    i: int,
    name: Seq<char>,
    seen: Map<Seq<char>, Seq<char>>,
)
    requires
        0 <= m <= s.len(),
        0 <= i <= s.len() - m,
    ensures
        tag_rest(s, m + i, name, seen) == tag_onward(tag_rest(s.skip(m), i, name, seen), m),
    decreases s.len() - m - i,
{
    let r = s.skip(m);
    lemma_skip_white_shift(s, m, i);
    lemma_skip_white(r, i);
    let at = skip_white(r, i);
    if at < r.len() {
        assert(r[at] == s[m + at]);
        if s[m + at] == '/' {
            lemma_skip_white_shift(s, m, at + 1);
            lemma_skip_white(r, at + 1);
            let close = skip_white(r, at + 1);
            if close < r.len() {
                assert(r[close] == s[m + close]);
            }
        } else if s[m + at] != '>' {
            lemma_attribute_shift(s, m, at);
            lemma_attribute_end(r, at);
            if let Some((key, value, end)) = attribute(r, at) {
                lemma_tag_rest_shift(s, m, end, name, seen.insert(key, value));
            }
        }
    }
}

proof fn lemma_open_tag_shift(s: Seq<char>, m: int, i: int, d: DsmlDialect)
    requires
        0 <= m <= s.len(),
        0 <= i,
    ensures
        open_tag(s, m + i, d) == tag_onward(open_tag(s.skip(m), i, d), m),
{
    let r = s.skip(m);
    lemma_occurs_in_rest(s, m, i, d.marker());
    if occurs_at(r, i, d.marker()) {
        let from = i + d.marker().len();
        lemma_scan_shift(s, m, from, |c: char| ends_tag_name(c));
        lemma_scan(r, from, |c: char| ends_tag_name(c));
        let to = tag_name_end(r, from);
        assert(r.subrange(from, to) =~= s.subrange(m + from, m + to));
        lemma_tag_rest_shift(s, m, to, r.subrange(from, to), no_members());
    }
}

proof fn lemma_starts_between_shift(s: Seq<char>, m: int, from: int, to: int, p: Seq<char>)
    requires
        0 <= m <= s.len(),
        0 <= from,
    ensures
        starts_between(s, m + from, m + to, p) == starts_between(s.skip(m), from, to, p),
{
    let r = s.skip(m);
    if starts_between(s, m + from, m + to, p) {
        let i = choose|i: int| m + from <= i < m + to && #[trigger] occurs_at(s, i, p);
        lemma_occurs_in_rest(s, m, i - m, p);
        assert(occurs_at(r, i - m, p));
    }
    if starts_between(r, from, to, p) {
        let i = choose|i: int| from <= i < to && #[trigger] occurs_at(r, i, p);
        lemma_occurs_in_rest(s, m, i, p);
        assert(occurs_at(s, m + i, p));
    }
}

proof fn lemma_parameter_value_shift(s: Seq<char>, m: int, d: DsmlDialect, p: Tag, q: Tag)
    requires
        0 <= m <= s.len(),
        0 <= p.end <= s.len() - m,
        tag_onward(Some(p), m) == Some(q),
    ensures
        parameter_value(s, d, q) == match parameter_value(s.skip(m), d, p) {
            Some((value, next)) => Some((value, m + next)),
            None => None,
        },
{
    let r = s.skip(m);
    lemma_find_from_shift(s, m, p.end, d.parameter_close());
    lemma_find_from(r, p.end, d.parameter_close());
    if let Some(close) = find_from(r, p.end, d.parameter_close()) {
        lemma_starts_between_shift(s, m, p.end, close, d.marker());
        lemma_starts_between_shift(s, m, p.end, close, d.invoke_close());
        assert(r.subrange(p.end, close) =~= s.subrange(m + p.end, m + close));
    }
}

proof fn lemma_parameters_shift(
    s: Seq<char>,
    m: int,
    i: int,
    d: DsmlDialect,
    seen: Map<Seq<char>, Seq<char>>,
)
    requires
        0 <= m <= s.len(),
        0 <= i,
    ensures
        parameters(s, m + i, d, seen) == match parameters(s.skip(m), i, d, seen) {
            Some((all, end)) => Some((all, m + end)),
            None => None,
        },
    decreases s.len() - m - i,
{
    let r = s.skip(m);
    if i <= r.len() {
        lemma_skip_white_shift(s, m, i);
        lemma_skip_white(r, i);
        let at = skip_white(r, i);
        lemma_occurs_in_rest(s, m, at, d.invoke_close());
        if !occurs_at(r, at, d.invoke_close()) {
            lemma_open_tag_shift(s, m, at, d);
            lemma_open_tag_end(r, at, d);
            if let (Some(p), Some(q)) = (open_tag(r, at, d), open_tag(s, m + at, d)) {
                lemma_parameter_value_shift(s, m, d, p, q);
                lemma_parameter_value_end(r, d, p);
                if let (Some(name), Some((value, next))) = (
                    p.given_name(),
                    parameter_value(r, d, p),
                ) {
                    lemma_parameters_shift(s, m, next, d, seen.insert(name, value));
                }
            }
        }
    }
}

pub proof fn lemma_invocation_shift(s: Seq<char>, m: int, i: int, d: DsmlDialect)
    requires
        0 <= m <= s.len(),
        0 <= i,
    ensures
        invocation(s, m + i, d) == match invocation(s.skip(m), i, d) {
            Some(inv) => Some(Invocation { end: m + inv.end, ..inv }),
            None => None,
        },
{
    let r = s.skip(m);
    lemma_open_tag_shift(s, m, i, d);
    lemma_open_tag_end(r, i, d);
    if let Some(tag) = open_tag(r, i, d) {
        lemma_parameters_shift(s, m, tag.end, d, no_members());
    }
}

proof fn lemma_balanced_end_shift(s: Seq<char>, m: int, i: int, d: DsmlDialect, depth: int)
    requires
        0 <= m <= s.len(),
        0 <= i,
    ensures
        balanced_end(s, m + i, d, depth) == onward(balanced_end(s.skip(m), i, d, depth), m),
    decreases s.len() - m - i,
{
    let r = s.skip(m);
    if i < r.len() {
        lemma_find_from_shift(s, m, i, d.marker());
        lemma_find_from_shift(s, m, i, d.invoke_close());
        lemma_find_from(r, i, d.marker());
        lemma_find_from(r, i, d.invoke_close());
        lemma_markup_lengths(d);
        if let Some(close) = find_from(r, i, d.invoke_close()) {
            lemma_balanced_end_shift(s, m, close + d.invoke_close().len(), d, depth - 1);
        }
        if let Some(open) = find_from(r, i, d.marker()) {
            lemma_open_tag_shift(s, m, open, d);
            lemma_open_tag_end(r, open, d);
            if let Some(tag) = open_tag(r, open, d) {
                lemma_balanced_end_shift(s, m, tag.end, d, depth);
                lemma_balanced_end_shift(s, m, tag.end, d, depth + 1);
            }
        }
    }
}

proof fn lemma_malformed_end_shift(s: Seq<char>, m: int, i: int, d: DsmlDialect)
    requires
        0 <= m <= s.len(),
        0 <= i,
    ensures
        malformed_end(s, m + i, d) == onward(malformed_end(s.skip(m), i, d), m),
{
    let r = s.skip(m);
    lemma_open_tag_shift(s, m, i, d);
    lemma_open_tag_end(r, i, d);
    if let Some(tag) = open_tag(r, i, d) {
        lemma_balanced_end_shift(s, m, tag.end, d, 1);
    }
}

proof fn lemma_next_invoke_of_shift(s: Seq<char>, m: int, i: int, d: DsmlDialect)
    requires
        0 <= m <= s.len(),
        0 <= i,
    ensures
        next_invoke_of(s, m + i, d) == onward(next_invoke_of(s.skip(m), i, d), m),
    decreases s.len() - m - i,
{
    let r = s.skip(m);
    if i < r.len() {
        lemma_occurs_in_rest(s, m, i, d.invoke_open());
        let after = i + d.invoke_open().len();
        if after < r.len() {
            assert(r[after] == s[m + after]);
        }
        if !invoke_starts_at(r, i, d) {
            lemma_next_invoke_of_shift(s, m, i + 1, d);
        }
    }
}

proof fn lemma_next_invoke_shift(s: Seq<char>, m: int, i: int)
    requires
        0 <= m <= s.len(),
        0 <= i,
    ensures
        next_invoke(s, m + i) == match next_invoke(s.skip(m), i) {
            Some((d, at)) => Some((d, m + at)),
            None => None,
        },
{
    lemma_next_invoke_of_shift(s, m, i, double_bar());
    lemma_next_invoke_of_shift(s, m, i, single_bar());
}

proof fn lemma_envelope_end_shift(s: Seq<char>, m: int, end: int, d: DsmlDialect)
    requires
        0 <= m <= s.len(),
        0 <= end <= s.len() - m,
    ensures
        envelope_end(s, m + end, d) == m + envelope_end(s.skip(m), end, d),
{
    lemma_skip_white_shift(s, m, end);
    lemma_skip_white(s.skip(m), end);
    lemma_occurs_in_rest(s, m, skip_white(s.skip(m), end), d.calls_close());
}

/// At most one envelope encloses a call.
pub proof fn lemma_one_envelope(s: Seq<char>, from: int, i: int, j: int, at: int, d: DsmlDialect)
    requires
        0 <= from,
        encloses(s, from, i, at, d),
        encloses(s, from, j, at, d),
        at <= s.len(),
    ensures
        i == j,
{
    let p = d.calls_open();
    lemma_calls_open_last(d);
    lemma_markup_lengths(d);
    if i < j {
        assert(is_white(s.subrange(i + p.len(), at)[j - i - 1]));
        assert(s[j + (p.len() - 1)] == p[p.len() - 1]);
    } else if j < i {
        assert(is_white(s.subrange(j + p.len(), at)[i - j - 1]));
        assert(s[i + (p.len() - 1)] == p[p.len() - 1]);
    }
}

proof fn lemma_encloses_shift(s: Seq<char>, m: int, from: int, i: int, at: int, d: DsmlDialect)
    requires
        0 <= m <= s.len(),
        0 <= from,
        0 <= i,
        at <= s.len() - m,
    ensures
        encloses(s, m + from, m + i, m + at, d) == encloses(s.skip(m), from, i, at, d),
{
    let r = s.skip(m);
    let inside = i + d.calls_open().len();
    lemma_occurs_in_rest(s, m, i, d.calls_open());
    if inside <= at {
        assert(r.subrange(inside, at) =~= s.subrange(m + inside, m + at));
    }
}

proof fn lemma_envelope_start_shift(s: Seq<char>, m: int, from: int, at: int, d: DsmlDialect)
    requires
        0 <= m <= s.len(),
        0 <= from <= at <= s.len() - m,
    ensures
        envelope_start(s, m + from, m + at, d) == m + envelope_start(s.skip(m), from, at, d),
{
    let r = s.skip(m);
    if exists|i: int| encloses(r, from, i, at, d) {
        let i = envelope_start(r, from, at, d);
        assert(encloses(r, from, i, at, d));
        lemma_encloses_shift(s, m, from, i, at, d);
        let j = envelope_start(s, m + from, m + at, d);
        assert(encloses(s, m + from, j, m + at, d));
        lemma_one_envelope(s, m + from, m + i, j, m + at, d);
    } else if exists|j: int| #[trigger] encloses(s, m + from, j, m + at, d) {
        let j = envelope_start(s, m + from, m + at, d);
        assert(encloses(s, m + from, j, m + at, d));
        lemma_encloses_shift(s, m, from, j - m, at, d);
    }
}

/// The parts further on, seen from `m` characters before.
pub open spec fn parts_onward(parts: Seq<Block>, m: int) -> Seq<Block> {
    parts.map_values(|b: Block| Block { from: m + b.from, at: m + b.at, to: m + b.to, ..b })
}

pub proof fn lemma_blocks_shift(s: Seq<char>, m: int, copied: int, search: int)
    requires
        0 <= m <= s.len(),
        0 <= copied <= search <= s.len() - m,
    ensures
        blocks(s, m + copied, m + search) == parts_onward(blocks(s.skip(m), copied, search), m),
    decreases s.len() - m - search,
{
    let r = s.skip(m);
    lemma_next_invoke_shift(s, m, search);
    lemma_next_invoke(r, search);
    if let Some((d, at)) = next_invoke(r, search) {
        lemma_markup_lengths(d);
        lemma_invocation_shift(s, m, at, d);
        lemma_malformed_end_shift(s, m, at, d);
        lemma_invocation_end(r, at, d);
        lemma_malformed_end(r, at, d);
        match (invocation(r, at, d), malformed_end(r, at, d)) {
            (Some(inv), _) => {
                lemma_envelope_end_shift(s, m, inv.end, d);
                lemma_envelope_end(r, inv.end, d);
                lemma_envelope_start_shift(s, m, copied, at, d);
                let to = envelope_end(r, inv.end, d);
                lemma_blocks_shift(s, m, to, to);
                let parts = blocks(r, copied, search);
                let rest = blocks(r, to, to);
                assert(parts =~= seq![parts[0]] + rest);
                assert(blocks(s, m + copied, m + search) =~= parts_onward(parts, m));
            },
            (None, Some(end)) => {
                lemma_blocks_shift(s, m, copied, end);
            },
            (None, None) => {
                assert(parts_onward(Seq::empty(), m) =~= Seq::empty());
            },
        }
    } else {
        assert(parts_onward(Seq::empty(), m) =~= Seq::empty());
    }
}

/// Where no marker stands before `m`, what lies before it makes no difference to
/// what heals.
proof fn lemma_blocks_past_text(s: Seq<char>, m: int, search: int)
    requires
        0 <= m <= search <= s.len(),
        forall|j: int| 0 <= j < m ==> tag_len_at(s, j, markers()) == 0,
    ensures
        blocks(s, 0, search) == blocks(s, m, search),
    decreases s.len() - search,
{
    lemma_next_invoke(s, search);
    if let Some((d, at)) = next_invoke(s, search) {
        lemma_markup_lengths(d);
        lemma_invocation_end(s, at, d);
        lemma_malformed_end(s, at, d);
        assert forall|i: int| encloses(s, 0, i, at, d) == encloses(s, m, i, at, d) by {
            if encloses(s, 0, i, at, d) && i < m {
                lemma_envelope_starts_with_marker(s, i, d);
            }
        }
        if exists|i: int| encloses(s, m, i, at, d) {
            let i = envelope_start(s, m, at, d);
            let j = envelope_start(s, 0, at, d);
            assert(encloses(s, m, i, at, d) && encloses(s, 0, i, at, d));
            assert(encloses(s, 0, j, at, d));
            lemma_one_envelope(s, 0, i, j, at, d);
        } else {
            assert(!exists|i: int| encloses(s, 0, i, at, d));
        }
        match (invocation(s, at, d), malformed_end(s, at, d)) {
            (None, Some(end)) => {
                lemma_blocks_past_text(s, m, end);
            },
            _ => {},
        }
    }
}

/// The tag that opens an envelope starts with the marker of its dialect.
proof fn lemma_envelope_starts_with_marker(s: Seq<char>, i: int, d: DsmlDialect)
    requires
        occurs_at(s, i, d.calls_open()),
    ensures
        tag_len_at(s, i, markers()) > 0,
{
    reveal_strlit("<｜｜DSML｜｜");
    reveal_strlit("<｜DSML｜");
    reveal_strlit("<｜｜DSML｜｜tool_calls>");
    reveal_strlit("<｜DSML｜tool_calls>");
    let p = d.marker();
    let q = d.calls_open();
    assert forall|k: int| 0 <= k < p.len() implies s[i + k] == #[trigger] p[k] by {
        assert(q[k] == p[k]);
    }
    lemma_tag_len_at(s, i, markers());
    assert(markers()[0] == double_bar().marker() && markers()[1] == single_bar().marker());
    assert(d == double_bar() || d == single_bar());
}

/// A text without a marker before `m` heals like its rest from `m` on: the same
/// calls come out of it.
pub proof fn law_text_before_markup_makes_no_difference(s: Seq<char>, m: int)
    requires
        0 <= m <= s.len(),
        forall|j: int| 0 <= j < m ==> tag_len_at(s, j, markers()) == 0,
    ensures
        match (healed(s), healed(s.skip(m))) {
            (Some((_, calls)), Some((_, same))) => calls == same,
            (None, None) => true,
            _ => false,
        },
{
    let r = s.skip(m);
    assert(next_invoke(s, 0) == next_invoke(s, m)) by {
        lemma_next_invoke_past_text(s, m, double_bar());
        lemma_next_invoke_past_text(s, m, single_bar());
    }
    assert(blocks(s, 0, 0) == blocks(s, 0, m));
    lemma_blocks_past_text(s, m, m);
    lemma_blocks_shift(s, m, 0, 0);
    assert(calls_of(parts_onward(blocks(r, 0, 0), m)) =~= calls_of(blocks(r, 0, 0)));
}

proof fn lemma_next_invoke_past_text(s: Seq<char>, m: int, d: DsmlDialect)
    requires
        0 <= m <= s.len(),
        forall|j: int| 0 <= j < m ==> tag_len_at(s, j, markers()) == 0,
    ensures
        next_invoke_of(s, 0, d) == next_invoke_of(s, m, d),
{
    lemma_next_invoke_of(s, 0, d);
    lemma_next_invoke_of(s, m, d);
    assert forall|j: int| 0 <= j < m implies !invoke_starts_at(s, j, d) by {
        if invoke_starts_at(s, j, d) {
            lemma_invoke_starts_with_marker(s, j, d);
        }
    }
}

/// A stream heals like the whole text: however it is cut into deltas, the same
/// calls come out of the filter as out of the text at once.
pub proof fn law_stream_heals_like_text(deltas: Seq<Seq<char>>)
    ensures
        ({
            let calls = filter_finish(filter_run(fresh_filter(true), deltas).0).1;
            match healed(concat(deltas)) {
                Some((_, healed_calls)) => calls == healed_calls,
                None => calls.len() == 0,
            }
        }),
{
    let s = concat(deltas);
    law_deltas_do_not_matter(deltas);
    assert(fresh_filter(true).pending + s =~= s);
    lemma_first_tag_from(s, 0, markers());
    match first_tag(s, markers()) {
        Some((at, _)) => {
            law_text_before_markup_makes_no_difference(s, at);
        },
        None => {
            law_text_without_marker_stays(s);
        },
    }
}

} // verus!
