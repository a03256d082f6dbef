//! Which parts of a text heal.

use super::grammar::{
    attribute, balanced_end, blocks, encloses, ends_tag_name, envelope_end, envelope_start,
    invocation, invoke_starts_at, lemma_attribute_end, lemma_envelope_end, lemma_envelope_start,
    lemma_invocation_end, lemma_malformed_end, lemma_markup_lengths, lemma_next_invoke,
    lemma_open_tag_end, lemma_parameter_value_end, lemma_tag_rest_end, malformed_end, next_invoke,
    open_tag, parameter_value, parameters, tag_name_end, tag_rest, without, Block, DsmlDialect,
};
use crate::json::{json_object, no_members};
use crate::text::{
    find_from, is_white, lemma_find_from, lemma_scan, lemma_scan_is, lemma_skip_white, occurs_at,
    skip_white,
};
use vstd::prelude::*;

verus! {

/// Whether `b` is a part of `s` between `from` and the end, and its call is the one
/// that the text holds there.
pub open spec fn is_part(s: Seq<char>, from: int, b: Block) -> bool {
    &&& from <= b.from <= b.at < b.to <= s.len()
    &&& exists|d: DsmlDialect|
        #![trigger invocation(s, b.at, d)]
        invocation(s, b.at, d) matches Some(inv) && inv.name == b.call.name && json_object(
            inv.arguments,
        ) == b.call.arguments && inv.name.len() > 0
}

/// Whether the parts stand one after the other.
pub open spec fn in_order(parts: Seq<Block>) -> bool {
    forall|i: int, j: int| 0 <= i < j < parts.len() ==> (#[trigger] parts[i]).to <= (
    #[trigger] parts[j]).from
}

/// The parts that heal stand in the text, past what is settled, one after the
/// other; each holds the call that is read from it, whose name is not empty.
pub proof fn law_parts_stand_in_order(s: Seq<char>, copied: int, search: int)
    requires
        0 <= copied <= search <= s.len(),
    ensures
        in_order(blocks(s, copied, search)),
        forall|i: int|
            0 <= i < blocks(s, copied, search).len() ==> is_part(
                s,
                copied,
                #[trigger] blocks(s, copied, search)[i],
            ) && search <= blocks(s, copied, search)[i].at,
    decreases s.len() - search,
{
    let parts = blocks(s, copied, search);
    lemma_next_invoke(s, search);
    if let Some((d, at)) = next_invoke(s, search) {
        lemma_markup_lengths(d);
        lemma_invocation_end(s, at, d);
        lemma_malformed_end(s, at, d);
        match (invocation(s, at, d), malformed_end(s, at, d)) {
            (Some(inv), _) => {
                lemma_envelope_start(s, copied, at, d);
                lemma_envelope_end(s, inv.end, d);
                let to = envelope_end(s, inv.end, d);
                law_parts_stand_in_order(s, to, to);
                let rest = blocks(s, to, to);
                assert(is_part(s, copied, parts[0])) by {
                    assert(invocation(s, parts[0].at, d) is Some);
                }
                assert forall|i: int| 0 <= i < parts.len() implies is_part(
                    s,
                    copied,
                    #[trigger] parts[i],
                ) && search <= parts[i].at by {
                    if i > 0 {
                        assert(parts[i] == rest[i - 1]);
                    }
                }
                assert forall|i: int, j: int| 0 <= i < j < parts.len() implies (
                #[trigger] parts[i]).to <= (#[trigger] parts[j]).from by {
                    assert(parts[j] == rest[j - 1]);
                    if i > 0 {
                        assert(parts[i] == rest[i - 1]);
                    }
                }
            },
            (None, Some(end)) => {
                law_parts_stand_in_order(s, copied, end);
            },
            (None, None) => {},
        }
    }
}

// ---------------------------------------------------------------------------
// Malformed calls
// ---------------------------------------------------------------------------

/// A tag ends in `>`, and has a slash or white space before it if it closes itself.
proof fn lemma_tag_rest_last(
    s: Seq<char>,
    i: int,
    name: Seq<char>,
    seen: Map<Seq<char>, Seq<char>>,
)
    requires
        0 <= i <= s.len(),
    ensures
        tag_rest(s, i, name, seen) matches Some(tag) ==> {
            &&& i < tag.end <= s.len()
            &&& s[tag.end - 1] == '>'
            &&& tag.self_closing ==> i <= tag.end - 2 && (s[tag.end - 2] == '/' || is_white(
                s[tag.end - 2],
            ))
        },
    decreases s.len() - i,
{
    lemma_skip_white(s, i);
    let at = skip_white(s, i);
    if at < s.len() {
        lemma_skip_white(s, at + 1);
        lemma_attribute_end(s, at);
        if s[at] == '/' {
            let close = skip_white(s, at + 1);
            if close > at + 1 {
                assert(is_white(s[close - 1]));
            }
        } else if let Some((key, value, end)) = attribute(s, at) {
            lemma_tag_rest_last(s, end, name, seen.insert(key, value));
        }
    }
}

/// Calls that balance end in a closing tag.
proof fn lemma_balanced_end_last(s: Seq<char>, i: int, d: DsmlDialect, depth: int)
    ensures
        balanced_end(s, i, d, depth) matches Some(end) ==> 2 <= end <= s.len() && s[end - 1] == '>'
            && s[end - 2] == 'e',
    decreases s.len() - i,
{
    if 0 <= i < s.len() {
        let open = find_from(s, i, d.marker());
        let close = find_from(s, i, d.invoke_close());
        lemma_find_from(s, i, d.marker());
        lemma_find_from(s, i, d.invoke_close());
        lemma_markup_lengths(d);
        if let Some(at) = close {
            let p = d.invoke_close();
            lemma_balanced_end_last(s, at + p.len(), d, depth - 1);
            reveal_strlit("</｜｜DSML｜｜invoke>");
            reveal_strlit("</｜DSML｜invoke>");
            assert(s[at + (p.len() - 1)] == p[p.len() - 1]);
            assert(s[at + (p.len() - 2)] == p[p.len() - 2]);
        }
        if let Some(at) = open {
            lemma_open_tag_end(s, at, d);
            if let Some(tag) = open_tag(s, at, d) {
                lemma_balanced_end_last(s, tag.end, d, depth);
                lemma_balanced_end_last(s, tag.end, d, depth + 1);
            }
        }
    }
}

/// The parameters of a call end in its closing tag.
proof fn lemma_parameters_last(
    s: Seq<char>,
    i: int,
    d: DsmlDialect,
    seen: Map<Seq<char>, Seq<char>>,
)
    ensures
        parameters(s, i, d, seen) matches Some((_, end)) ==> 2 <= end <= s.len() && s[end - 2]
            == 'e',
    decreases s.len() - i,
{
    if 0 <= i <= s.len() {
        lemma_skip_white(s, i);
        lemma_markup_lengths(d);
        let at = skip_white(s, i);
        let p = d.invoke_close();
        if occurs_at(s, at, p) {
            reveal_strlit("</｜｜DSML｜｜invoke>");
            reveal_strlit("</｜DSML｜invoke>");
            assert(s[at + (p.len() - 2)] == p[p.len() - 2]);
        } else {
            lemma_open_tag_end(s, at, d);
            if let Some(tag) = open_tag(s, at, d) {
                lemma_parameter_value_end(s, d, tag);
                if let (Some(name), Some((value, next))) = (
                    tag.given_name(),
                    parameter_value(s, d, tag),
                ) {
                    lemma_parameters_last(s, next, d, seen.insert(name, value));
                }
            }
        }
    }
}

/// A call ends in its closing tag, not in that of an envelope.
pub proof fn lemma_call_last(s: Seq<char>, i: int, d: DsmlDialect)
    ensures
        invocation(s, i, d) matches Some(inv) ==> 2 <= inv.end <= s.len() && s[inv.end - 2] == 'e',
{
    if let Some(tag) = open_tag(s, i, d) {
        lemma_parameters_last(s, tag.end, d, no_members());
    }
}

/// A call that cannot be read ends in `>`, but not in the tag that opens an
/// envelope.
proof fn lemma_malformed_end_last(s: Seq<char>, i: int, d: DsmlDialect)
    requires
        invoke_starts_at(s, i, d),
    ensures
        malformed_end(s, i, d) matches Some(end) ==> 2 <= end <= s.len() && s[end - 1] == '>'
            && s[end - 2] != 's',
{
    lemma_markup_lengths(d);
    reveal_strlit("invoke");
    reveal_strlit("<｜｜DSML｜｜invoke");
    reveal_strlit("<｜DSML｜invoke");
    let from = i + d.marker().len();
    let to = tag_name_end(s, from);
    let open = d.invoke_open();
    lemma_scan(s, from, |c: char| ends_tag_name(c));
    assert forall|j: int| from <= j < from + 6 implies #[trigger] s[j] == "invoke"@[j - from]
        && !ends_tag_name(s[j]) by {
        let k = j - from;
        assert(s[i + (d.marker().len() + k)] == open[d.marker().len() + k]);
    }
    lemma_scan_is(s, from, |c: char| ends_tag_name(c), from + 6);
    assert(s.subrange(from, to) =~= "invoke"@);
    lemma_open_tag_end(s, i, d);
    if let Some(tag) = open_tag(s, i, d) {
        lemma_tag_rest_last(s, to, s.subrange(from, to), no_members());
        lemma_tag_rest_end(s, to, s.subrange(from, to), no_members());
        lemma_balanced_end_last(s, tag.end, d, 1);
    }
}

/// The markup of a call does not reach back over an earlier tag, unless that opens
/// its envelope.
proof fn lemma_envelope_start_past(s: Seq<char>, copied: int, at: int, d: DsmlDialect, end: int)
    requires
        0 <= copied,
        2 <= end <= at <= s.len(),
        s[end - 1] == '>',
        s[end - 2] != 's',
    ensures
        end <= envelope_start(s, copied, at, d),
{
    if exists|i: int| encloses(s, copied, i, at, d) {
        let i = envelope_start(s, copied, at, d);
        let p = d.calls_open();
        let inside = i + p.len();
        lemma_markup_lengths(d);
        reveal_strlit("<｜｜DSML｜｜tool_calls>");
        reveal_strlit("<｜DSML｜tool_calls>");
        assert(encloses(s, copied, i, at, d));
        if i < end {
            if inside < end {
                assert(is_white(s.subrange(inside, at)[end - 1 - inside]));
            } else {
                assert(s[i + (end - 1 - i)] == p[end - 1 - i]);
                assert(s[i + (p.len() - 2)] == p[p.len() - 2]);
            }
        }
    }
}

/// The parts that heal from `end` on do not reach back over a tag that ends there.
proof fn lemma_parts_past(s: Seq<char>, copied: int, search: int, end: int)
    requires
        0 <= copied,
        copied <= search <= s.len(),
        2 <= end <= search,
        s[end - 1] == '>',
        s[end - 2] != 's',
    ensures
        forall|i: int|
            0 <= i < blocks(s, copied, search).len() ==> end <= (#[trigger] blocks(
                s,
                copied,
                search,
            )[i]).from,
    decreases s.len() - search,
{
    let parts = blocks(s, copied, search);
    lemma_next_invoke(s, search);
    if let Some((d, at)) = next_invoke(s, search) {
        lemma_markup_lengths(d);
        lemma_invocation_end(s, at, d);
        lemma_malformed_end(s, at, d);
        match (invocation(s, at, d), malformed_end(s, at, d)) {
            (Some(inv), _) => {
                lemma_envelope_start_past(s, copied, at, d, end);
                lemma_envelope_end(s, inv.end, d);
                let to = envelope_end(s, inv.end, d);
                law_parts_stand_in_order(s, to, to);
                let rest = blocks(s, to, to);
                assert(parts[0].from == envelope_start(s, copied, at, d));
                assert forall|i: int| 0 <= i < parts.len() implies end <= (
                #[trigger] parts[i]).from by {
                    if i > 0 {
                        assert(parts[i] == rest[i - 1]);
                        assert(is_part(s, to, rest[i - 1]));
                    }
                }
            },
            (None, Some(next)) => {
                lemma_parts_past(s, copied, next, end);
                assert(parts == blocks(s, copied, next));
            },
            (None, None) => {},
        }
    }
}

/// A malformed call fails closed. Wherever the search meets a call that cannot be
/// read, nothing heals up to its balanced end, so that no call nested in it is
/// executed, and all of its text stays.
pub proof fn law_malformed_call_stays(
    s: Seq<char>,
    copied: int,
    search: int,
    d: DsmlDialect,
    at: int,
    end: int,
)
    requires
        0 <= copied <= search <= s.len(),
        next_invoke(s, search) == Some((d, at)),
        invocation(s, at, d) is None,
        malformed_end(s, at, d) == Some(end),
    ensures
        copied <= at < end <= s.len(),
        forall|i: int|
            0 <= i < blocks(s, copied, search).len() ==> end <= (#[trigger] blocks(
                s,
                copied,
                search,
            )[i]).from,
        without(s, copied, blocks(s, copied, search)).take(end - copied) == s.subrange(copied, end),
{
    lemma_next_invoke(s, search);
    lemma_malformed_end(s, at, d);
    lemma_malformed_end_last(s, at, d);
    lemma_parts_past(s, copied, end, end);
    let parts = blocks(s, copied, end);
    assert(blocks(s, copied, search) == parts);
    law_parts_stand_in_order(s, copied, end);
    if parts.len() == 0 {
        assert(without(s, copied, parts).take(end - copied) =~= s.subrange(copied, end));
    } else {
        assert(is_part(s, copied, parts[0]));
        assert(without(s, copied, parts).take(end - copied) =~= s.subrange(copied, end));
    }
}

/// A malformed call that nothing closes ends the search: nothing behind it heals.
pub proof fn law_unclosed_call_ends_search(
    s: Seq<char>,
    copied: int,
    search: int,
    d: DsmlDialect,
    at: int,
)
    requires
        0 <= copied <= search <= s.len(),
        next_invoke(s, search) == Some((d, at)),
        invocation(s, at, d) is None,
        malformed_end(s, at, d) is None,
    ensures
        blocks(s, copied, search).len() == 0,
{
}

} // verus!
