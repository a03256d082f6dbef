//! What follows markup does not change how it is read.
//!
//! Each lemma relates what is read in two texts that agree up to a position `e`
//! that lies at or behind the end of what is read.

use super::grammar::{
    attr_name_end, attribute, ends_attr_name, ends_tag_name, invocation, lemma_attribute_end,
    lemma_markup_lengths, lemma_open_tag_end, lemma_parameter_value_end, lemma_parameters_end,
    lemma_quoted_value_end, lemma_tag_rest_end, open_tag, parameter_value, parameters, quoted_value,
    starts_between, tag_name_end, tag_rest, DsmlDialect, Tag,
};
use super::written::lemma_body_ends;
use crate::json::no_members;
use crate::text::{
    find_from, is_white, lemma_find_from, lemma_find_from_is, lemma_scan, lemma_scan_is,
    lemma_skip_white, occurs_at, scan, skip_white,
};
use vstd::prelude::*;

verus! {

/// Whether the texts agree up to `e`.
pub open spec fn agree(s: Seq<char>, u: Seq<char>, e: int) -> bool {
    &&& 0 <= e <= s.len()
    &&& e <= u.len()
    &&& forall|j: int| 0 <= j < e ==> #[trigger] s[j] == u[j]
}

proof fn lemma_scan_stable(s: Seq<char>, u: Seq<char>, e: int, i: int, stop: spec_fn(char) -> bool)
    requires
        agree(s, u, e),
        0 <= i <= s.len(),
        scan(s, i, stop) < e,
    ensures
        scan(u, i, stop) == scan(s, i, stop),
{
    lemma_scan(s, i, stop);
    let at = scan(s, i, stop);
    assert forall|j: int| i <= j < at implies !stop(#[trigger] u[j]) by {
        assert(s[j] == u[j]);
    }
    assert(s[at] == u[at]);
    lemma_scan_is(u, i, stop, at);
}

/// White space is skipped in the same way.
pub proof fn lemma_skip_white_stable(s: Seq<char>, u: Seq<char>, e: int, i: int)
    requires
        agree(s, u, e),
        0 <= i <= s.len(),
        skip_white(s, i) < e,
    ensures
        skip_white(u, i) == skip_white(s, i),
{
    lemma_scan_stable(s, u, e, i, |c: char| !is_white(c));
}

/// A pattern stands in the same places.
pub proof fn lemma_occurs_stable(s: Seq<char>, u: Seq<char>, e: int, i: int, p: Seq<char>)
    requires
        agree(s, u, e),
        i + p.len() <= e,
    ensures
        occurs_at(u, i, p) == occurs_at(s, i, p),
{
    if occurs_at(s, i, p) {
        assert forall|k: int| 0 <= k < p.len() implies u[i + k] == #[trigger] p[k] by {
            assert(s[i + k] == p[k]);
        }
    }
    if occurs_at(u, i, p) {
        assert forall|k: int| 0 <= k < p.len() implies s[i + k] == #[trigger] p[k] by {
            assert(u[i + k] == p[k]);
            assert(s[i + k] == u[i + k]);
        }
    }
}

proof fn lemma_quoted_value_stable(s: Seq<char>, u: Seq<char>, e: int, i: int)
    requires
        agree(s, u, e),
        quoted_value(s, i) matches Some((_, end)) && end <= e,
    ensures
        quoted_value(u, i) == quoted_value(s, i),
    decreases s.len() - i,
{
    lemma_quoted_value_end(s, i);
    assert(s[i] == u[i]);
    if s[i] != '"' {
        lemma_quoted_value_end(s, i + 1);
        if s[i] == '\\' {
            lemma_quoted_value_end(s, i + 2);
            assert(s[i + 1] == u[i + 1]);
            if s[i + 1] == '"' || s[i + 1] == '\\' {
                lemma_quoted_value_stable(s, u, e, i + 2);
            } else {
                lemma_quoted_value_stable(s, u, e, i + 1);
            }
        } else {
            lemma_quoted_value_stable(s, u, e, i + 1);
        }
    }
}

proof fn lemma_attribute_stable(s: Seq<char>, u: Seq<char>, e: int, i: int)
    requires
        agree(s, u, e),
        0 <= i <= s.len(),
        attribute(s, i) matches Some((_, _, end)) && end <= e,
    ensures
        attribute(u, i) == attribute(s, i),
{
    lemma_scan(s, i, |c: char| ends_attr_name(c));
    let key_end = attr_name_end(s, i);
    lemma_skip_white(s, key_end);
    let equals = skip_white(s, key_end);
    lemma_skip_white(s, equals + 1);
    let quote = skip_white(s, equals + 1);
    lemma_quoted_value_end(s, quote + 1);
    lemma_quoted_value_stable(s, u, e, quote + 1);
    lemma_scan_stable(s, u, e, i, |c: char| ends_attr_name(c));
    lemma_skip_white_stable(s, u, e, key_end);
    lemma_skip_white_stable(s, u, e, equals + 1);
    assert(s[equals] == u[equals]);
    assert(s[quote] == u[quote]);
    assert(u.subrange(i, key_end) =~= s.subrange(i, key_end)) by {
        assert forall|j: int| i <= j < key_end implies #[trigger] s[j] == u[j] by {}
    }
}

proof fn lemma_tag_rest_stable(
    s: Seq<char>,
    u: Seq<char>,
    e: int,
    i: int,
    name: Seq<char>,
    seen: Map<Seq<char>, Seq<char>>,
)
    requires
        agree(s, u, e),
        0 <= i <= s.len(),
        tag_rest(s, i, name, seen) matches Some(tag) && tag.end <= e,
    ensures
        tag_rest(u, i, name, seen) == tag_rest(s, i, name, seen),
    decreases s.len() - i,
{
    lemma_tag_rest_end(s, i, name, seen);
    lemma_skip_white(s, i);
    let at = skip_white(s, i);
    if s[at] == '/' {
        lemma_skip_white(s, at + 1);
        let close = skip_white(s, at + 1);
        lemma_skip_white_stable(s, u, e, at + 1);
        assert(s[close] == u[close]);
    } else if s[at] != '>' {
        lemma_attribute_end(s, at);
        if let Some((key, value, end)) = attribute(s, at) {
            lemma_tag_rest_end(s, end, name, seen.insert(key, value));
            lemma_attribute_stable(s, u, e, at);
            lemma_tag_rest_stable(s, u, e, end, name, seen.insert(key, value));
        }
    }
    lemma_skip_white_stable(s, u, e, i);
    assert(s[at] == u[at]);
}

proof fn lemma_open_tag_stable(s: Seq<char>, u: Seq<char>, e: int, i: int, d: DsmlDialect)
    requires
        agree(s, u, e),
        open_tag(s, i, d) matches Some(tag) && tag.end <= e,
    ensures
        open_tag(u, i, d) == open_tag(s, i, d),
{
    lemma_open_tag_end(s, i, d);
    let from = i + d.marker().len();
    lemma_scan(s, from, |c: char| ends_tag_name(c));
    let to = tag_name_end(s, from);
    let name = s.subrange(from, to);
    lemma_tag_rest_end(s, to, name, no_members());
    lemma_occurs_stable(s, u, e, i, d.marker());
    lemma_scan_stable(s, u, e, from, |c: char| ends_tag_name(c));
    assert(u.subrange(from, to) =~= name) by {
        assert forall|j: int| from <= j < to implies #[trigger] s[j] == u[j] by {}
    }
    lemma_tag_rest_stable(s, u, e, to, name, no_members());
}

proof fn lemma_parameter_value_stable(s: Seq<char>, u: Seq<char>, e: int, d: DsmlDialect, p: Tag)
    requires
        agree(s, u, e),
        0 <= p.end <= s.len(),
        parameter_value(s, d, p) matches Some((_, next)) && next <= e,
    ensures
        parameter_value(u, d, p) == parameter_value(s, d, p),
{
    let close_tag = d.parameter_close();
    lemma_find_from(s, p.end, close_tag);
    lemma_markup_lengths(d);
    if !p.self_closing {
        if let Some(close) = find_from(s, p.end, close_tag) {
            lemma_occurs_stable(s, u, e, close, close_tag);
            assert forall|j: int| p.end <= j < close implies !occurs_at(u, j, close_tag) by {
                lemma_occurs_stable(s, u, e, j, close_tag);
            }
            lemma_find_from_is(u, p.end, close_tag, close);
            assert forall|j: int| p.end <= j < close implies occurs_at(u, j, d.marker())
                == occurs_at(s, j, d.marker()) && occurs_at(u, j, d.invoke_close()) == occurs_at(
                s,
                j,
                d.invoke_close(),
            ) by {
                lemma_occurs_stable(s, u, e, j, d.marker());
                lemma_occurs_stable(s, u, e, j, d.invoke_close());
            }
            assert(starts_between(u, p.end, close, d.marker()) == starts_between(
                s,
                p.end,
                close,
                d.marker(),
            ));
            assert(starts_between(u, p.end, close, d.invoke_close()) == starts_between(
                s,
                p.end,
                close,
                d.invoke_close(),
            ));
            assert(u.subrange(p.end, close) =~= s.subrange(p.end, close)) by {
                assert forall|j: int| p.end <= j < close implies #[trigger] s[j] == u[j] by {}
            }
        }
    }
}

proof fn lemma_parameters_stable(
    s: Seq<char>,
    u: Seq<char>,
    e: int,
    i: int,
    d: DsmlDialect,
    seen: Map<Seq<char>, Seq<char>>,
)
    requires
        agree(s, u, e),
        parameters(s, i, d, seen) matches Some((_, end)) && end <= e,
    ensures
        parameters(u, i, d, seen) == parameters(s, i, d, seen),
    decreases s.len() - i,
{
    lemma_parameters_end(s, i, d, seen);
    lemma_skip_white(s, i);
    lemma_markup_lengths(d);
    lemma_body_ends(d);
    let at = skip_white(s, i);
    if occurs_at(s, at, d.invoke_close()) {
        lemma_occurs_stable(s, u, e, at, d.invoke_close());
        lemma_skip_white_stable(s, u, e, i);
    } else {
        lemma_open_tag_end(s, at, d);
        if let Some(p) = open_tag(s, at, d) {
            lemma_parameter_value_end(s, d, p);
            if let (Some(name), Some((value, next))) = (p.given_name(), parameter_value(s, d, p)) {
                lemma_parameters_end(s, next, d, seen.insert(name, value));
                lemma_skip_white_stable(s, u, e, i);
                lemma_open_tag_stable(s, u, e, at, d);
                lemma_parameter_value_stable(s, u, e, d, p);
                lemma_parameters_stable(s, u, e, next, d, seen.insert(name, value));
                // A marker stands here, so no closing tag does.
                lemma_occurs_stable(s, u, e, at, d.marker());
                assert(u[at + 1] == d.marker()[1]);
                assert(!occurs_at(u, at, d.invoke_close())) by {
                    if occurs_at(u, at, d.invoke_close()) {
                        assert(u[at + 1] == d.invoke_close()[1]);
                    }
                }
            }
        }
    }
}

/// A call is read in the same way in texts that agree up to its end.
pub proof fn lemma_invocation_stable(s: Seq<char>, u: Seq<char>, e: int, i: int, d: DsmlDialect)
    requires
        agree(s, u, e),
        invocation(s, i, d) matches Some(inv) && inv.end <= e,
    ensures
        invocation(u, i, d) == invocation(s, i, d),
{
    if let Some(tag) = open_tag(s, i, d) {
        lemma_parameters_end(s, tag.end, d, no_members());
        lemma_open_tag_stable(s, u, e, i, d);
        lemma_parameters_stable(s, u, e, tag.end, d, no_members());
    }
}

/// A tag ends at its own `>`, whatever text follows.
pub proof fn law_text_behind_tag_makes_no_difference(
    s: Seq<char>,
    i: int,
    d: DsmlDialect,
    x: Seq<char>,
)
    ensures
        open_tag(s, i, d) matches Some(tag) ==> open_tag(s.take(tag.end) + x, i, d) == Some(tag),
{
    lemma_open_tag_end(s, i, d);
    if let Some(tag) = open_tag(s, i, d) {
        let u = s.take(tag.end) + x;
        assert(agree(s, u, tag.end));
        lemma_open_tag_stable(s, u, tag.end, i, d);
    }
}

/// A call ends at its own closing tag, whatever text follows.
pub proof fn law_text_behind_call_makes_no_difference(
    s: Seq<char>,
    i: int,
    d: DsmlDialect,
    x: Seq<char>,
)
    ensures
        invocation(s, i, d) matches Some(inv) ==> invocation(s.take(inv.end) + x, i, d) == Some(
            inv,
        ),
{
    super::grammar::lemma_invocation_end(s, i, d);
    if let Some(inv) = invocation(s, i, d) {
        let u = s.take(inv.end) + x;
        assert(agree(s, u, inv.end));
        lemma_invocation_stable(s, u, inv.end, i, d);
    }
}

} // verus!
