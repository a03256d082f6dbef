//! Calls that stand inside a call that cannot be read.

use super::grammar::{
    balanced_end, blocks, double_bar, healed, invocation, lemma_markup_lengths,
    lemma_next_invoke_of, malformed_end, next_invoke, open_tag, without, DsmlDialect,
};
use super::heal::heals_to;
use super::several::{lemma_call_stands, lemma_no_call_in_lead, lemma_piece_stands};
use super::stream::markers;
use super::structure::law_malformed_call_stays;
use super::written::{
    are_sound, body_ends, lemma_body_read, lemma_keys, lemma_no_call_from, lemma_stand_apart,
    lemma_string_tag_read, lemma_tag_read, written_call, written_rest, written_string_tag,
    written_tag, Parameter, Written,
};
use crate::tags::{first_tag, lemma_first_tag_from, lemma_tag_len_at};
use crate::text::{
    find_from, is_blank, is_white, lemma_find_from, lemma_find_from_is, lemma_scan_is, occurs_at,
    skip_white,
};
use crate::types::MessageView;
use vstd::prelude::*;
use vstd::string::*;

verus! {

/// A call inside another, with the text that stands before it.
pub struct Inner {
    pub before: Seq<char>,
    pub name: Seq<char>,
    pub params: Seq<Parameter>,
    pub gap: Seq<char>,
}

impl Inner {
    /// Whether the call can be written so, in dialect `d`: no markup stands before it, and
    /// it would be read if it stood by itself.
    pub open spec fn is_sound(self, d: DsmlDialect) -> bool {
        &&& first_tag(self.before, body_ends(d)) is None
        &&& are_sound(d, self.params)
        &&& is_blank(self.gap)
    }

    /// The call itself.
    pub open spec fn call(self, d: DsmlDialect) -> Seq<char> {
        written_call(d, self.name, self.params, self.gap)
    }
}

/// What stands in a call behind its opening tag: other calls, some text, and its closing
/// tag.
pub open spec fn nesting(d: DsmlDialect, inner: Seq<Inner>, last: Seq<char>) -> Seq<char>
    decreases inner.len(),
{
    if inner.len() == 0 {
        last + d.invoke_close()
    } else {
        inner[0].before + (inner[0].call(d) + nesting(d, inner.drop_first(), last))
    }
}

/// Whether no markup that counts in finding the end of a call starts from `i` up to `j`.
#[verifier::opaque]
spec fn is_bare(s: Seq<char>, i: int, j: int, d: DsmlDialect) -> bool {
    &&& forall|k: int| i <= k < j ==> !#[trigger] occurs_at(s, k, d.marker())
    &&& forall|k: int| i <= k < j ==> !#[trigger] occurs_at(s, k, d.invoke_close())
}

/// Bare texts that stand one after the other are bare, and so is an empty one.
proof fn lemma_bare_joined(s: Seq<char>, i: int, j: int, k: int, d: DsmlDialect)
    ensures
        is_bare(s, i, j, d) && is_bare(s, j, k, d) ==> is_bare(s, i, k, d),
        is_bare(s, i, i, d),
{
    reveal(is_bare);
}

/// Markup begins with a character that does not occur further on in it.
proof fn lemma_heads(d: DsmlDialect)
    ensures
        forall|k: int| 0 < k < d.marker().len() ==> #[trigger] d.marker()[k] != '<',
        forall|k: int| 0 < k < d.invoke_close().len() ==> #[trigger] d.invoke_close()[k] != '<',
        forall|k: int|
            0 < k < d.parameter_close().len() ==> #[trigger] d.parameter_close()[k] != '<',
        d.marker()[0] == '<' && d.marker()[1] == '｜',
        d.invoke_close()[0] == '<' && d.invoke_close()[1] == '/',
        d.parameter_close()[0] == '<' && d.parameter_close()[1] == '/',
        d.invoke_close()[(d.marker().len() + 1) as int] == 'i',
        d.parameter_close()[(d.marker().len() + 1) as int] == 'p',
{
    lemma_markup_lengths(d);
    reveal_strlit("<｜｜DSML｜｜");
    reveal_strlit("<｜DSML｜");
    reveal_strlit("</｜｜DSML｜｜invoke>");
    reveal_strlit("</｜DSML｜invoke>");
    reveal_strlit("</｜｜DSML｜｜parameter>");
    reveal_strlit("</｜DSML｜parameter>");
}

/// Text without markup that other markup follows is bare.
proof fn lemma_text_is_bare(s: Seq<char>, i: int, v: Seq<char>, d: DsmlDialect)
    requires
        occurs_at(s, i, v),
        first_tag(v, body_ends(d)) is None,
        i + v.len() < s.len(),
        s[(i + v.len()) as int] == '<',
    ensures
        is_bare(s, i, i + v.len(), d),
{
    let tags = body_ends(d);
    let end = i + v.len();
    lemma_heads(d);
    lemma_markup_lengths(d);
    lemma_first_tag_from(v, 0, tags);
    assert(tags[0] == d.marker() && tags[1] == d.invoke_close());
    assert forall|k: int, u: int| i <= k < end && 0 <= u < 2 implies !#[trigger] occurs_at(
        s,
        k,
        tags[u],
    ) by {
        if occurs_at(s, k, tags[u]) {
            let p = tags[u];
            if k + p.len() <= end {
                assert(occurs_at(v, k - i, p)) by {
                    assert forall|m: int| 0 <= m < p.len() implies v[k - i + m]
                        == #[trigger] p[m] by {
                        assert(s[k + m] == p[m]);
                        assert(s[i + (k - i + m)] == v[k - i + m]);
                    }
                }
                lemma_tag_len_at(v, k - i, tags);
                assert(occurs_at(v, k - i, tags[u]));
            } else {
                assert(s[k + (end - k)] == p[end - k]);
            }
        }
    }
    reveal(is_bare);
    assert forall|k: int| i <= k < end implies !#[trigger] occurs_at(s, k, d.marker()) by {
        assert(!occurs_at(s, k, tags[0]));
    }
    assert forall|k: int| i <= k < end implies !#[trigger] occurs_at(s, k, d.invoke_close()) by {
        assert(!occurs_at(s, k, tags[1]));
    }
}

/// White space is bare.
proof fn lemma_gap_is_bare(s: Seq<char>, i: int, gap: Seq<char>, d: DsmlDialect)
    requires
        occurs_at(s, i, gap),
        is_blank(gap),
    ensures
        is_bare(s, i, i + gap.len(), d),
{
    lemma_heads(d);
    lemma_markup_lengths(d);
    reveal(is_bare);
    assert forall|k: int| i <= k < i + gap.len() implies !#[trigger] occurs_at(
        s,
        k,
        d.marker(),
    ) by {
        assert(s[i + (k - i)] == gap[k - i]);
        assert(is_white(gap[k - i]));
        if occurs_at(s, k, d.marker()) {
            assert(s[k + 0] == d.marker()[0]);
        }
    }
    assert forall|k: int| i <= k < i + gap.len() implies !#[trigger] occurs_at(
        s,
        k,
        d.invoke_close(),
    ) by {
        assert(s[i + (k - i)] == gap[k - i]);
        assert(is_white(gap[k - i]));
        if occurs_at(s, k, d.invoke_close()) {
            assert(s[k + 0] == d.invoke_close()[0]);
        }
    }
}

/// The body of a parameter and its closing tag are bare.
proof fn lemma_body_is_bare(s: Seq<char>, i: int, v: Seq<char>, d: DsmlDialect)
    requires
        occurs_at(s, i, v + d.parameter_close()),
        first_tag(v, body_ends(d)) is None,
    ensures
        is_bare(s, i, i + v.len() + d.parameter_close().len(), d),
{
    let p = d.parameter_close();
    let n = d.marker().len() as int;
    let at = i + v.len();
    lemma_heads(d);
    lemma_markup_lengths(d);
    lemma_body_read(s, i, d, v);
    lemma_stand_apart(s, i, v, p);
    reveal(is_bare);
    assert forall|k: int| i <= k < at + p.len() implies !#[trigger] occurs_at(
        s,
        k,
        d.marker(),
    ) by {
        if k >= at && occurs_at(s, k, d.marker()) {
            assert(s[at + (k - at)] == p[k - at]);
            assert(s[k + 0] == d.marker()[0]);
            assert(s[k + 1] == d.marker()[1]);
            assert(s[at + 1] == p[1]);
        }
    }
    assert forall|k: int| i <= k < at + p.len() implies !#[trigger] occurs_at(
        s,
        k,
        d.invoke_close(),
    ) by {
        if k >= at && occurs_at(s, k, d.invoke_close()) {
            assert(s[at + (k - at)] == p[k - at]);
            assert(s[k + 0] == d.invoke_close()[0]);
            assert(s[k + (n + 1)] == d.invoke_close()[n + 1]);
            assert(s[at + (n + 1)] == p[n + 1]);
        }
    }
}

/// A tag behind bare text counts if it opens a call.
proof fn lemma_tag_passed(s: Seq<char>, i: int, j: int, d: DsmlDialect, depth: int)
    requires
        0 <= i <= j,
        is_bare(s, i, j, d),
        open_tag(s, j, d) is Some,
    ensures
        ({
            let tag = open_tag(s, j, d)->0;
            let deeper = if tag.opens_invoke() {
                depth + 1
            } else {
                depth
            };
            balanced_end(s, i, d, depth) == balanced_end(s, tag.end, d, deeper)
        }),
{
    let p = d.invoke_close();
    lemma_heads(d);
    lemma_markup_lengths(d);
    reveal(is_bare);
    lemma_find_from_is(s, i, d.marker(), j);
    lemma_find_from(s, i, p);
    if let Some(close) = find_from(s, i, p) {
        assert(close > j) by {
            if close == j {
                assert(s[j + 1] == p[1]);
                assert(s[j + 1] == d.marker()[1]);
            }
        }
    }
}

/// A closing tag behind bare text closes a call.
proof fn lemma_close_passed(s: Seq<char>, i: int, j: int, d: DsmlDialect, depth: int)
    requires
        0 <= i <= j,
        is_bare(s, i, j, d),
        occurs_at(s, j, d.invoke_close()),
    ensures
        ({
            let next = j + d.invoke_close().len();
            balanced_end(s, i, d, depth) == if depth <= 1 {
                Some(next as int)
            } else {
                balanced_end(s, next as int, d, depth - 1)
            }
        }),
{
    let p = d.marker();
    lemma_heads(d);
    lemma_markup_lengths(d);
    reveal(is_bare);
    lemma_find_from_is(s, i, d.invoke_close(), j);
    lemma_find_from(s, i, p);
    if let Some(open) = find_from(s, i, p) {
        assert(open > j) by {
            if open == j {
                assert(s[j + 1] == p[1]);
                assert(s[j + 1] == d.invoke_close()[1]);
            }
        }
    }
}

/// The parameters of a call, behind bare text, do not count, and its closing tag does.
proof fn lemma_rest_passed(
    s: Seq<char>,
    i: int,
    j: int,
    d: DsmlDialect,
    params: Seq<Parameter>,
    gap: Seq<char>,
    depth: int,
)
    requires
        0 <= i <= j,
        is_bare(s, i, j, d),
        occurs_at(s, j, written_rest(d, params, gap)),
        are_sound(d, params),
        is_blank(gap),
        depth > 1,
    ensures
        balanced_end(s, i, d, depth) == balanced_end(
            s,
            j + written_rest(d, params, gap).len(),
            d,
            depth - 1,
        ),
    decreases params.len(),
{
    let at = j + gap.len();
    if params.len() == 0 {
        lemma_stand_apart(s, j, gap, d.invoke_close());
        lemma_gap_is_bare(s, j, gap, d);
        lemma_bare_joined(s, i, j, at, d);
        lemma_close_passed(s, i, at, d, depth);
    } else {
        let p = params[0];
        let front = p.written(d);
        let others = params.drop_first();
        let tail = written_rest(d, others, gap);
        assert(p.is_sound(d));
        lemma_stand_apart(s, j, gap, front + tail);
        lemma_stand_apart(s, at, front, tail);
        lemma_gap_is_bare(s, j, gap, d);
        lemma_bare_joined(s, i, j, at, d);
        lemma_keys();
        let after = lemma_parameter_passed(s, i, at, d, p, depth);
        assert forall|k: int| 0 <= k < others.len() implies (#[trigger] others[k]).is_sound(
            d,
        ) by {
            assert(others[k] == params[k + 1]);
        }
        assert forall|a: int, b: int| 0 <= a < b < others.len() implies (
        #[trigger] others[a]).name != (#[trigger] others[b]).name by {
            assert(params[a + 1].name != params[b + 1].name);
        }
        lemma_rest_passed(s, after, at + front.len(), d, others, gap, depth);
    }
}

/// A parameter behind bare text does not count: the search goes on behind its opening tag,
/// and the rest of it is bare.
proof fn lemma_parameter_passed(
    s: Seq<char>,
    i: int,
    at: int,
    d: DsmlDialect,
    p: Parameter,
    depth: int,
) -> (after: int)
    requires
        0 <= i <= at,
        is_bare(s, i, at, d),
        p.is_sound(d),
        occurs_at(s, at, p.written(d)),
    ensures
        0 <= after <= at + p.written(d).len(),
        is_bare(s, after, at + p.written(d).len(), d),
        balanced_end(s, i, d, depth) == balanced_end(s, after, d, depth),
{
    lemma_keys();
    match p.value {
        Written::Inline(v) => {
            lemma_string_tag_read(s, at, d, "invoke"@, p.name, v, true);
            lemma_tag_passed(s, i, at, d, depth);
            let after = at + p.written(d).len();
            lemma_bare_joined(s, after, after, after, d);
            after
        },
        Written::Text(v) => {
            let tag = written_string_tag(d, "parameter"@, p.name, "true"@, false);
            lemma_stand_apart(s, at, tag, v + d.parameter_close());
            lemma_string_tag_read(s, at, d, "parameter"@, p.name, "true"@, false);
            lemma_body_is_bare(s, at + tag.len(), v, d);
            lemma_tag_passed(s, i, at, d, depth);
            at + tag.len()
        },
        Written::Json(v) => {
            let tag = written_string_tag(d, "parameter"@, p.name, "false"@, false);
            lemma_stand_apart(s, at, tag, v + d.parameter_close());
            lemma_string_tag_read(s, at, d, "parameter"@, p.name, "false"@, false);
            lemma_body_is_bare(s, at + tag.len(), v, d);
            lemma_tag_passed(s, i, at, d, depth);
            at + tag.len()
        },
    }
}

/// A call closes what it opens.
proof fn lemma_call_passed(s: Seq<char>, i: int, j: int, d: DsmlDialect, k: Inner, depth: int)
    requires
        0 <= i <= j,
        is_bare(s, i, j, d),
        occurs_at(s, j, k.call(d)),
        k.is_sound(d),
        depth > 0,
    ensures
        balanced_end(s, i, d, depth) == balanced_end(s, j + k.call(d).len(), d, depth),
{
    let tag = written_tag(d, "invoke"@, k.name);
    lemma_keys();
    lemma_stand_apart(s, j, tag, written_rest(d, k.params, k.gap));
    lemma_tag_read(s, j, d, "invoke"@, k.name);
    lemma_tag_passed(s, i, j, d, depth);
    let inside = j + tag.len();
    lemma_bare_joined(s, inside, inside, inside, d);
    lemma_rest_passed(s, inside, inside, d, k.params, k.gap, depth + 1);
}

/// A call begins as markup does.
proof fn lemma_call_begins(d: DsmlDialect, k: Inner)
    ensures
        k.call(d).len() > 0,
        k.call(d)[0] == '<',
{
    lemma_heads(d);
    lemma_markup_lengths(d);
    assert(k.call(d)[0] == d.marker()[0]);
}

/// A call ends with its own closing tag, behind all calls that stand in it.
proof fn lemma_nesting_passed(
    s: Seq<char>,
    i: int,
    d: DsmlDialect,
    inner: Seq<Inner>,
    last: Seq<char>,
)
    requires
        0 <= i,
        occurs_at(s, i, nesting(d, inner, last)),
        forall|k: int| 0 <= k < inner.len() ==> (#[trigger] inner[k]).is_sound(d),
        first_tag(last, body_ends(d)) is None,
    ensures
        balanced_end(s, i, d, 1) == Some((i + nesting(d, inner, last).len()) as int),
    decreases inner.len(),
{
    if inner.len() == 0 {
        let at = i + last.len();
        lemma_heads(d);
        lemma_markup_lengths(d);
        lemma_stand_apart(s, i, last, d.invoke_close());
        assert(s[at + 0] == d.invoke_close()[0]);
        lemma_text_is_bare(s, i, last, d);
        lemma_close_passed(s, i, at, d, 1);
    } else {
        let k = inner[0];
        let rest = inner.drop_first();
        let at = i + k.before.len();
        let call = k.call(d);
        assert(k.is_sound(d));
        lemma_stand_apart(s, i, k.before, call + nesting(d, rest, last));
        lemma_stand_apart(s, at, call, nesting(d, rest, last));
        lemma_call_begins(d, k);
        assert(s[at + 0] == call[0]);
        lemma_text_is_bare(s, i, k.before, d);
        lemma_call_passed(s, i, at, d, k, 1);
        assert forall|m: int| 0 <= m < rest.len() implies (#[trigger] rest[m]).is_sound(d) by {
            assert(rest[m] == inner[m + 1]);
        }
        lemma_nesting_passed(s, at + call.len(), d, rest, last);
    }
}

/// A call that cannot be read ends behind its own closing tag, whatever calls stand in it,
/// and up to there nothing heals: none of those calls is executed, and all of the text
/// stays.
pub proof fn law_calls_in_a_malformed_one_stay(
    s: Seq<char>,
    copied: int,
    search: int,
    d: DsmlDialect,
    at: int,
    name: Seq<char>,
    inner: Seq<Inner>,
    last: Seq<char>,
)
    requires
        0 <= copied <= search <= s.len(),
        next_invoke(s, search) == Some((d, at)),
        invocation(s, at, d) is None,
        occurs_at(s, at, written_tag(d, "invoke"@, name) + nesting(d, inner, last)),
        forall|k: int| 0 <= k < inner.len() ==> (#[trigger] inner[k]).is_sound(d),
        first_tag(last, body_ends(d)) is None,
    ensures
        ({
            let end = at + written_tag(d, "invoke"@, name).len() + nesting(d, inner, last).len();
            &&& malformed_end(s, at, d) == Some(end as int)
            &&& forall|i: int|
                0 <= i < blocks(s, copied, search).len() ==> end <= (#[trigger] blocks(
                    s,
                    copied,
                    search,
                )[i]).from
            &&& without(s, copied, blocks(s, copied, search)).take(end - copied) == s.subrange(
                copied,
                end as int,
            )
        }),
{
    let tag = written_tag(d, "invoke"@, name);
    let end = at + tag.len() + nesting(d, inner, last).len();
    lemma_keys();
    lemma_stand_apart(s, at, tag, nesting(d, inner, last));
    lemma_tag_read(s, at, d, "invoke"@, name);
    lemma_nesting_passed(s, at + tag.len(), d, inner, last);
    law_malformed_call_stays(s, copied, search, d, at, end as int);
}

/// A message in whose text one call leaked that has text between its tags where only
/// parameters may stand is left as it is, whatever sound calls stand in that one.
#[verifier::rlimit(50)]
pub proof fn law_message_with_a_malformed_call_stays(
    before: MessageView,
    after: MessageView,
    lead: Seq<char>,
    d: DsmlDialect,
    name: Seq<char>,
    inner: Seq<Inner>,
    last: Seq<char>,
    tail: Seq<char>,
)
    requires
        heals_to(before, after),
        before.text() == lead + (written_tag(d, "invoke"@, name) + (nesting(d, inner, last)
            + tail)),
        first_tag(lead, markers()) is None,
        first_tag(tail, markers()) is None,
        forall|k: int| 0 <= k < inner.len() ==> (#[trigger] inner[k]).is_sound(d),
        first_tag(last, body_ends(d)) is None,
        nesting(d, inner, last)[0] != '<',
        !is_white(nesting(d, inner, last)[0]),
    ensures
        after == before,
{
    let s = before.text();
    let tag = written_tag(d, "invoke"@, name);
    let n = nesting(d, inner, last);
    let at = lead.len() as int;
    let end = at + tag.len() + n.len();
    lemma_nesting_is_not_empty(d, inner, last);
    assert(s.skip(0) =~= s);
    lemma_piece_stands(s, 0, lead, tag + (n + tail));
    lemma_piece_stands(s, at, tag, n + tail);
    lemma_piece_stands(s, at + tag.len(), n, tail);
    lemma_stand_apart(s, at, tag, n);
    assert(s.subrange(0, at) =~= lead);
    lemma_first_call_found(s, at, d, name);
    lemma_stray_text_refused(s, at, d, name, n);
    law_calls_in_a_malformed_one_stay(s, 0, 0, d, at, name, inner, last);
    lemma_no_call_from(s, end as int);
    assert(blocks(s, 0, 0) == blocks(s, 0, end as int));
    assert(healed(s) is None);
}

/// The first call behind text without markup is the one that follows it.
proof fn lemma_first_call_found(s: Seq<char>, at: int, d: DsmlDialect, name: Seq<char>)
    requires
        0 <= at < s.len(),
        first_tag(s.subrange(0, at), markers()) is None,
        occurs_at(s, at, written_tag(d, "invoke"@, name)),
    ensures
        next_invoke(s, 0) == Some((d, at)),
{
    let other = DsmlDialect { double_bar: !d.double_bar };
    lemma_call_stands(s, at, d, name);
    lemma_no_call_in_lead(s, 0, at);
    lemma_next_invoke_of(s, 0, d);
    lemma_next_invoke_of(s, 0, other);
}

/// A call with text behind its opening tag cannot be read.
proof fn lemma_stray_text_refused(
    s: Seq<char>,
    at: int,
    d: DsmlDialect,
    name: Seq<char>,
    n: Seq<char>,
)
    requires
        occurs_at(s, at, written_tag(d, "invoke"@, name)),
        occurs_at(s, at + written_tag(d, "invoke"@, name).len(), n),
        n.len() > 0,
        n[0] != '<' && !is_white(n[0]),
    ensures
        invocation(s, at, d) is None,
{
    let inside = at + written_tag(d, "invoke"@, name).len();
    lemma_keys();
    lemma_heads(d);
    lemma_markup_lengths(d);
    lemma_tag_read(s, at, d, "invoke"@, name);
    assert(s[inside + 0] == n[0]);
    lemma_scan_is(s, inside, |c: char| !is_white(c), inside);
    assert(skip_white(s, inside) == inside);
    if occurs_at(s, inside, d.marker()) {
        assert(s[inside + 0] == d.marker()[0]);
    }
    if occurs_at(s, inside, d.invoke_close()) {
        assert(s[inside + 0] == d.invoke_close()[0]);
    }
}

/// What stands in a call ends with its closing tag.
proof fn lemma_nesting_is_not_empty(d: DsmlDialect, inner: Seq<Inner>, last: Seq<char>)
    ensures
        nesting(d, inner, last).len() > 0,
    decreases inner.len(),
{
    lemma_markup_lengths(d);
    if inner.len() > 0 {
        lemma_nesting_is_not_empty(d, inner.drop_first(), last);
    }
}

} // verus!
