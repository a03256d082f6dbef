//! Markup as models write it, and that it is read back.

use super::grammar::{
    attribute, blocks, calls_of, double_bar, encloses, ends_attr_name, ends_tag_name, envelope_end,
    envelope_start, healed, invocation, invoke_starts_at, lemma_markup_lengths, lemma_next_invoke,
    lemma_next_invoke_of, next_invoke, open_tag, parameter_value, parameters, quoted_value,
    single_bar, starts_between, tag_rest, without, Block, Call, DsmlDialect, Invocation, Tag,
};
use super::laws::{lemma_invoke_starts_with_marker, lemma_markers};
use super::stream::markers;
use crate::json::{json_object, json_string, no_members, parsed_text};
use crate::tags::growth::{
    distinct_heads, lemma_first_tag_at_seam, lemma_occurs_in_longer, lemma_tag_at,
    lemma_tag_len_in_rest,
};
use crate::tags::{first_tag, lemma_first_tag_from, lemma_tag_len_at, tag_len_at};
use crate::text::{
    find_from, is_blank, is_white, lemma_find_from_is, lemma_scan_is, occurs_at, skip_white, trim,
};
use vstd::prelude::*;

verus! {

// ---------------------------------------------------------------------------
// Texts that stand one after the other
// ---------------------------------------------------------------------------

/// Two texts stand one after the other where each stands in its place.
pub proof fn lemma_stand_apart(s: Seq<char>, i: int, a: Seq<char>, b: Seq<char>)
    ensures
        occurs_at(s, i, a + b) == (occurs_at(s, i, a) && occurs_at(s, i + a.len(), b)),
{
    if occurs_at(s, i, a + b) {
        assert forall|k: int| 0 <= k < a.len() implies s[i + k] == #[trigger] a[k] by {
            assert((a + b)[k] == a[k]);
        }
        assert forall|k: int| 0 <= k < b.len() implies s[i + a.len() + k] == #[trigger] b[k] by {
            assert((a + b)[a.len() + k] == b[k]);
        }
    }
    if occurs_at(s, i, a) && occurs_at(s, i + a.len(), b) {
        assert forall|k: int| 0 <= k < (a + b).len() implies s[i + k] == #[trigger] (a + b)[k] by {
            if k < a.len() {
                assert(s[i + k] == a[k]);
            } else {
                assert(s[i + a.len() + (k - a.len())] == b[k - a.len()]);
            }
        }
    }
}

/// White space is skipped up to what follows it.
pub proof fn lemma_gap_skipped(s: Seq<char>, i: int, gap: Seq<char>)
    requires
        is_blank(gap),
        occurs_at(s, i, gap),
        i + gap.len() < s.len() ==> !is_white(s[i + gap.len()]),
    ensures
        skip_white(s, i) == i + gap.len(),
{
    assert forall|j: int| i <= j < i + gap.len() implies is_white(#[trigger] s[j]) by {
        assert(s[i + (j - i)] == gap[j - i]);
    }
    lemma_scan_is(s, i, |c: char| !is_white(c), i + gap.len());
}

// ---------------------------------------------------------------------------
// Tags
// ---------------------------------------------------------------------------

/// The characters of an attribute value, with a backslash before each quote and
/// backslash.
pub open spec fn escaped(v: Seq<char>) -> Seq<char>
    decreases v.len(),
{
    if v.len() == 0 {
        Seq::empty()
    } else if v[0] == '"' || v[0] == '\\' {
        seq!['\\', v[0]] + escaped(v.drop_first())
    } else {
        seq![v[0]] + escaped(v.drop_first())
    }
}

/// An attribute, with the space before it.
pub open spec fn written_attribute(key: Seq<char>, value: Seq<char>) -> Seq<char> {
    seq![' '] + key + seq!['=', '"'] + escaped(value) + seq!['"']
}

/// The end of a tag.
pub open spec fn written_end(self_closing: bool) -> Seq<char> {
    if self_closing {
        seq![' ', '/', '>']
    } else {
        seq!['>']
    }
}

/// A tag that has a name.
pub open spec fn written_tag(d: DsmlDialect, kind: Seq<char>, name: Seq<char>) -> Seq<char> {
    d.marker() + kind + (written_attribute("name"@, name) + written_end(false))
}

/// A tag that has a name and a string.
pub open spec fn written_string_tag(
    d: DsmlDialect,
    kind: Seq<char>,
    name: Seq<char>,
    string: Seq<char>,
    self_closing: bool,
) -> Seq<char> {
    d.marker() + kind + (written_attribute("name"@, name) + (written_attribute("string"@, string)
        + written_end(self_closing)))
}

/// An escaped value is read back, up to just past the quote that ends it: reading
/// undoes the escaping.
pub proof fn law_escaped_value_is_read(s: Seq<char>, i: int, v: Seq<char>)
    requires
        occurs_at(s, i, escaped(v) + seq!['"']),
    ensures
        quoted_value(s, i) == Some((v, i + escaped(v).len() + 1)),
    decreases v.len(),
{
    let text = escaped(v) + seq!['"'];
    assert(s[i + 0] == text[0]);
    if v.len() > 0 {
        let rest = v.drop_first();
        let after = escaped(rest) + seq!['"'];
        if v[0] == '"' || v[0] == '\\' {
            assert(s[i + 1] == text[1]);
            assert(text =~= seq!['\\', v[0]] + after);
            lemma_stand_apart(s, i, seq!['\\', v[0]], after);
            law_escaped_value_is_read(s, i + 2, rest);
        } else {
            assert(text =~= seq![v[0]] + after);
            lemma_stand_apart(s, i, seq![v[0]], after);
            law_escaped_value_is_read(s, i + 1, rest);
        }
        assert(seq![v[0]] + rest =~= v);
    } else {
        assert(v =~= Seq::empty());
    }
}

/// Whether `key` can be the name of an attribute.
pub open spec fn is_key(key: Seq<char>) -> bool {
    key.len() > 0 && forall|k: int| 0 <= k < key.len() ==> !ends_attr_name(#[trigger] key[k])
}

/// An attribute is read back.
proof fn lemma_attribute_read(s: Seq<char>, i: int, key: Seq<char>, value: Seq<char>)
    requires
        is_key(key),
        occurs_at(s, i, written_attribute(key, value)),
    ensures
        skip_white(s, i) == i + 1,
        attribute(s, i + 1) == Some((key, value, i + written_attribute(key, value).len())),
        i + 1 < s.len(),
        s[i + 1] != '>',
        s[i + 1] != '/',
{
    let quoted = escaped(value) + seq!['"'];
    let tail = seq!['=', '"'] + quoted;
    assert(written_attribute(key, value) =~= seq![' '] + (key + tail));
    lemma_stand_apart(s, i, seq![' '], key + tail);
    lemma_stand_apart(s, i + 1, key, tail);
    let end = i + 1 + key.len();
    lemma_stand_apart(s, end, seq!['=', '"'], quoted);
    assert(s[i + 0] == seq![' '][0]);
    assert(s[i + 1 + 0] == key[0]);
    assert(s[end + 0] == seq!['=', '"'][0]);
    assert(s[end + 1] == seq!['=', '"'][1]);
    lemma_scan_is(s, i, |c: char| !is_white(c), i + 1);
    assert forall|j: int| i + 1 <= j < end implies !ends_attr_name(#[trigger] s[j]) by {
        assert(s[i + 1 + (j - i - 1)] == key[j - i - 1]);
    }
    lemma_scan_is(s, i + 1, |c: char| ends_attr_name(c), end);
    lemma_scan_is(s, end, |c: char| !is_white(c), end);
    lemma_scan_is(s, end + 1, |c: char| !is_white(c), end + 1);
    law_escaped_value_is_read(s, end + 2, value);
    assert(s.subrange(i + 1, end) =~= key);
}

/// The end of a tag is read back.
proof fn lemma_end_read(
    s: Seq<char>,
    i: int,
    name: Seq<char>,
    seen: Map<Seq<char>, Seq<char>>,
    self_closing: bool,
)
    requires
        0 <= i,
        occurs_at(s, i, written_end(self_closing)),
    ensures
        tag_rest(s, i, name, seen) == Some(
            Tag { name, attrs: seen, self_closing, end: i + written_end(self_closing).len() },
        ),
{
    let end = written_end(self_closing);
    assert(s[i + 0] == end[0]);
    if self_closing {
        assert(s[i + 1] == end[1]);
        assert(s[i + 2] == end[2]);
        lemma_scan_is(s, i, |c: char| !is_white(c), i + 1);
        lemma_scan_is(s, i + 2, |c: char| !is_white(c), i + 2);
    } else {
        lemma_scan_is(s, i, |c: char| !is_white(c), i);
    }
}

/// Whether `kind` can be the name of a tag.
pub open spec fn is_kind(kind: Seq<char>) -> bool {
    kind.len() > 0 && forall|k: int| 0 <= k < kind.len() ==> !ends_tag_name(#[trigger] kind[k])
}

/// The beginning of a tag is read back.
proof fn lemma_kind_read(s: Seq<char>, i: int, d: DsmlDialect, kind: Seq<char>, rest: Seq<char>)
    requires
        is_kind(kind),
        rest.len() > 0,
        ends_tag_name(rest[0]),
        occurs_at(s, i, d.marker() + kind + rest),
    ensures
        ({
            let at = i + d.marker().len() + kind.len();
            &&& occurs_at(s, at, rest)
            &&& open_tag(s, i, d) == tag_rest(s, at, kind, no_members())
        }),
{
    let from = i + d.marker().len();
    let at = from + kind.len();
    lemma_stand_apart(s, i, d.marker() + kind, rest);
    lemma_stand_apart(s, i, d.marker(), kind);
    assert(s[at + 0] == rest[0]);
    assert forall|j: int| from <= j < at implies !ends_tag_name(#[trigger] s[j]) by {
        assert(s[from + (j - from)] == kind[j - from]);
    }
    lemma_scan_is(s, from, |c: char| ends_tag_name(c), at);
    assert(s.subrange(from, at) =~= kind);
}

/// The keys that occur in markup are keys.
pub proof fn lemma_keys()
    ensures
        is_key("name"@),
        is_key("string"@),
        is_kind("invoke"@),
        is_kind("parameter"@),
        "name"@ != "string"@,
        "invoke"@ != "parameter"@,
        "true"@ != "false"@,
{
    reveal_strlit("name");
    reveal_strlit("string");
    reveal_strlit("invoke");
    reveal_strlit("parameter");
    reveal_strlit("true");
    reveal_strlit("false");
    assert("name"@.len() != "string"@.len());
    assert("invoke"@.len() != "parameter"@.len());
    assert("true"@.len() != "false"@.len());
}

/// A tag that has a name is read back.
pub proof fn lemma_tag_read(s: Seq<char>, i: int, d: DsmlDialect, kind: Seq<char>, name: Seq<char>)
    requires
        is_kind(kind),
        occurs_at(s, i, written_tag(d, kind, name)),
    ensures
        open_tag(s, i, d) == Some(
            Tag {
                name: kind,
                attrs: no_members().insert("name"@, name),
                self_closing: false,
                end: i + written_tag(d, kind, name).len(),
            },
        ),
{
    let first = written_attribute("name"@, name);
    let at = i + d.marker().len() + kind.len();
    lemma_keys();
    lemma_kind_read(s, i, d, kind, first + written_end(false));
    lemma_stand_apart(s, at, first, written_end(false));
    lemma_attribute_read(s, at, "name"@, name);
    lemma_end_read(s, at + first.len(), kind, no_members().insert("name"@, name), false);
}

/// A tag that has a name and a string is read back.
pub proof fn lemma_string_tag_read(
    s: Seq<char>,
    i: int,
    d: DsmlDialect,
    kind: Seq<char>,
    name: Seq<char>,
    string: Seq<char>,
    self_closing: bool,
)
    requires
        is_kind(kind),
        occurs_at(s, i, written_string_tag(d, kind, name, string, self_closing)),
    ensures
        open_tag(s, i, d) == Some(
            Tag {
                name: kind,
                attrs: no_members().insert("name"@, name).insert("string"@, string),
                self_closing,
                end: i + written_string_tag(d, kind, name, string, self_closing).len(),
            },
        ),
{
    let first = written_attribute("name"@, name);
    let second = written_attribute("string"@, string);
    let end = written_end(self_closing);
    let at = i + d.marker().len() + kind.len();
    let seen = no_members().insert("name"@, name);
    lemma_keys();
    lemma_kind_read(s, i, d, kind, first + (second + end));
    lemma_stand_apart(s, at, first, second + end);
    lemma_attribute_read(s, at, "name"@, name);
    let next = at + first.len();
    lemma_stand_apart(s, next, second, end);
    lemma_attribute_read(s, next, "string"@, string);
    lemma_end_read(s, next + second.len(), kind, seen.insert("string"@, string), self_closing);
    assert(tag_rest(s, next, kind, seen) == tag_rest(
        s,
        next + second.len(),
        kind,
        seen.insert("string"@, string),
    ));
}

// ---------------------------------------------------------------------------
// Parameters
// ---------------------------------------------------------------------------

/// How the value of a parameter is written.
pub enum Written {
    /// As the attribute `string` of a tag that closes itself.
    Inline(Seq<char>),
    /// As text between two tags.
    Text(Seq<char>),
    /// As JSON between two tags.
    Json(Seq<char>),
}

/// A parameter of a call.
pub struct Parameter {
    pub name: Seq<char>,
    pub value: Written,
}

/// The markup that may not stand in the body of a parameter.
pub open spec fn body_ends(d: DsmlDialect) -> Seq<Seq<char>> {
    seq![d.marker(), d.invoke_close(), d.parameter_close()]
}

impl Parameter {
    /// The parameter in markup.
    pub open spec fn written(self, d: DsmlDialect) -> Seq<char> {
        match self.value {
            Written::Inline(v) => written_string_tag(d, "invoke"@, self.name, v, true),
            Written::Text(v) => written_string_tag(d, "parameter"@, self.name, "true"@, false) + (v
                + d.parameter_close()),
            Written::Json(v) => written_string_tag(d, "parameter"@, self.name, "false"@, false) + (v
                + d.parameter_close()),
        }
    }

    /// The value of the parameter, as JSON text.
    pub open spec fn json(self) -> Option<Seq<char>> {
        match self.value {
            Written::Inline(v) | Written::Text(v) => Some(json_string(v)),
            Written::Json(v) => parsed_text(trim(v)),
        }
    }

    /// Whether the parameter can be written so: it has a name, its body holds no
    /// markup that would end it, and what is written as JSON is JSON. Only the
    /// dialect with doubled bars writes values inline.
    pub open spec fn is_sound(self, d: DsmlDialect) -> bool {
        &&& self.name.len() > 0
        &&& self.json() is Some
        &&& match self.value {
            Written::Inline(_) => d.double_bar,
            Written::Text(v) | Written::Json(v) => first_tag(v, body_ends(d)) is None,
        }
    }
}

/// The markup that may not stand in a body has heads of its own.
pub proof fn lemma_body_ends(d: DsmlDialect)
    ensures
        distinct_heads(body_ends(d)),
        d.marker()[0] == '<',
        d.marker()[1] == '｜',
        d.invoke_close()[0] == '<',
        d.invoke_close()[1] == '/',
{
    reveal_strlit("<｜｜DSML｜｜");
    reveal_strlit("<｜DSML｜");
    reveal_strlit("</｜｜DSML｜｜invoke>");
    reveal_strlit("</｜DSML｜invoke>");
    reveal_strlit("</｜｜DSML｜｜parameter>");
    reveal_strlit("</｜DSML｜parameter>");
    let tags = body_ends(d);
    let n = d.marker().len() as int;
    lemma_markup_lengths(d);
    assert forall|t: int, u: int|
        0 <= t < tags.len() && 0 <= u < tags.len() && #[trigger] tags[t].len()
            <= #[trigger] tags[u].len() && tags[u].take(tags[t].len() as int)
            == tags[t] implies tags[t] == tags[u] by {
        let part = tags[u].take(tags[t].len() as int);
        assert(part[1] == tags[t][1]);
        if t == 1 && u == 2 {
            assert(part[n + 1] == tags[t][n + 1]);
        }
    }
}

/// The body of a parameter is read back.
pub proof fn lemma_body_read(s: Seq<char>, i: int, d: DsmlDialect, v: Seq<char>)
    requires
        first_tag(v, body_ends(d)) is None,
        occurs_at(s, i, v + d.parameter_close()),
    ensures
        find_from(s, i, d.parameter_close()) == Some(i + v.len()),
        !starts_between(s, i, i + v.len(), d.marker()),
        !starts_between(s, i, i + v.len(), d.invoke_close()),
        s.subrange(i, i + v.len()) == v,
{
    let tags = body_ends(d);
    let t = v + d.parameter_close();
    lemma_body_ends(d);
    lemma_markup_lengths(d);
    assert(tags[2] == d.parameter_close());
    assert(v + tags[2] + Seq::empty() =~= t);
    lemma_first_tag_at_seam(v, Seq::empty(), tags, 2);
    lemma_first_tag_from(t, 0, tags);
    assert forall|j: int, u: int|
        i <= j < i + v.len() && 0 <= u < 3 implies !#[trigger] occurs_at(s, j, tags[u]) by {
        if occurs_at(s, j, tags[u]) {
            let p = tags[u];
            assert forall|k: int| 0 <= k < p.len() implies t[j - i + k] == #[trigger] p[k] by {
                assert(s[j + k] == p[k]);
                assert(s[i + (j - i + k)] == t[j - i + k]);
            }
            lemma_tag_len_at(t, j - i, tags);
            assert(occurs_at(t, j - i, tags[u]));
        }
    }
    assert(tags[0] == d.marker() && tags[1] == d.invoke_close());
    lemma_stand_apart(s, i, v, d.parameter_close());
    assert forall|j: int| i <= j < i + v.len() implies !occurs_at(s, j, d.parameter_close()) by {
        assert(!occurs_at(s, j, tags[2]));
    }
    lemma_find_from_is(s, i, d.parameter_close(), i + v.len());
    assert forall|j: int| i <= j < i + v.len() implies !#[trigger] occurs_at(s, j, d.marker()) by {
        assert(!occurs_at(s, j, tags[0]));
    }
    assert forall|j: int| i <= j < i + v.len() implies !#[trigger] occurs_at(
        s,
        j,
        d.invoke_close(),
    ) by {
        assert(!occurs_at(s, j, tags[1]));
    }
    assert(s.subrange(i, i + v.len()) =~= v) by {
        assert forall|k: int| 0 <= k < v.len() implies s[i + k] == #[trigger] v[k] by {}
    }
}

/// A parameter is read back.
proof fn lemma_parameter_read(s: Seq<char>, i: int, d: DsmlDialect, p: Parameter)
    requires
        p.is_sound(d),
        occurs_at(s, i, p.written(d)),
    ensures
        match open_tag(s, i, d) {
            Some(tag) => tag.given_name() == Some(p.name) && match (p.json(), parameter_value(
                s,
                d,
                tag,
            )) {
                (Some(json), Some((value, next))) => value == json && next == i + p.written(
                    d,
                ).len(),
                _ => false,
            },
            None => false,
        },
{
    lemma_keys();
    match p.value {
        Written::Inline(v) => {
            lemma_string_tag_read(s, i, d, "invoke"@, p.name, v, true);
        },
        Written::Text(v) => {
            let tag = written_string_tag(d, "parameter"@, p.name, "true"@, false);
            lemma_stand_apart(s, i, tag, v + d.parameter_close());
            lemma_string_tag_read(s, i, d, "parameter"@, p.name, "true"@, false);
            lemma_body_read(s, i + tag.len(), d, v);
        },
        Written::Json(v) => {
            let tag = written_string_tag(d, "parameter"@, p.name, "false"@, false);
            lemma_stand_apart(s, i, tag, v + d.parameter_close());
            lemma_string_tag_read(s, i, d, "parameter"@, p.name, "false"@, false);
            lemma_body_read(s, i + tag.len(), d, v);
        },
    }
}

/// The parameters of a call and its closing tag, with `gap` before each.
pub open spec fn written_rest(d: DsmlDialect, params: Seq<Parameter>, gap: Seq<char>) -> Seq<char>
    decreases params.len(),
{
    if params.len() == 0 {
        gap + d.invoke_close()
    } else {
        gap + (params[0].written(d) + written_rest(d, params.drop_first(), gap))
    }
}

/// The arguments that the parameters add to those in `seen`.
pub open spec fn arguments(params: Seq<Parameter>, seen: Map<Seq<char>, Seq<char>>) -> Map<
    Seq<char>,
    Seq<char>,
>
    decreases params.len(),
{
    if params.len() == 0 {
        seen
    } else {
        let value = match params[0].json() {
            Some(json) => json,
            None => Seq::empty(),
        };
        arguments(params.drop_first(), seen.insert(params[0].name, value))
    }
}

/// Whether the parameters can be written, and no two have the same name.
pub open spec fn are_sound(d: DsmlDialect, params: Seq<Parameter>) -> bool {
    &&& forall|i: int| 0 <= i < params.len() ==> (#[trigger] params[i]).is_sound(d)
    &&& forall|i: int, j: int|
        0 <= i < j < params.len() ==> (#[trigger] params[i]).name != (#[trigger] params[j]).name
}

/// The parameters of a call are read back.
proof fn lemma_parameters_read(
    s: Seq<char>,
    i: int,
    d: DsmlDialect,
    params: Seq<Parameter>,
    gap: Seq<char>,
    seen: Map<Seq<char>, Seq<char>>,
)
    requires
        is_blank(gap),
        are_sound(d, params),
        forall|k: int| 0 <= k < params.len() ==> !seen.contains_key((#[trigger] params[k]).name),
        occurs_at(s, i, written_rest(d, params, gap)),
    ensures
        parameters(s, i, d, seen) == Some(
            (arguments(params, seen), i + written_rest(d, params, gap).len()),
        ),
    decreases params.len(),
{
    let at = i + gap.len();
    lemma_body_ends(d);
    lemma_markup_lengths(d);
    if params.len() == 0 {
        lemma_stand_apart(s, i, gap, d.invoke_close());
        assert(s[at + 0] == d.invoke_close()[0]);
        lemma_gap_skipped(s, i, gap);
    } else {
        let p = params[0];
        let front = p.written(d);
        let others = params.drop_first();
        let tail = written_rest(d, others, gap);
        lemma_stand_apart(s, i, gap, front + tail);
        lemma_stand_apart(s, at, front, tail);
        assert(front[0] == d.marker()[0] && front[1] == d.marker()[1]);
        assert(s[at + 0] == front[0]);
        assert(s[at + 1] == front[1]);
        lemma_gap_skipped(s, i, gap);
        assert(!occurs_at(s, at, d.invoke_close())) by {
            if occurs_at(s, at, d.invoke_close()) {
                assert(s[at + 1] == d.invoke_close()[1]);
            }
        }
        lemma_parameter_read(s, at, d, p);
        let value = match p.json() {
            Some(json) => json,
            None => Seq::empty(),
        };
        let more = seen.insert(p.name, value);
        assert forall|k: int| 0 <= k < others.len() implies !more.contains_key(
            (#[trigger] others[k]).name,
        ) by {
            assert(others[k] == params[k + 1]);
            assert(params[0].name != params[k + 1].name);
        }
        assert forall|k: int| 0 <= k < others.len() implies (#[trigger] others[k]).is_sound(
            d,
        ) by {
            assert(others[k] == params[k + 1]);
        }
        assert forall|j: int, k: int| 0 <= j < k < others.len() implies (
        #[trigger] others[j]).name != (#[trigger] others[k]).name by {
            assert(params[j + 1].name != params[k + 1].name);
        }
        lemma_parameters_read(s, at + front.len(), d, others, gap, more);
        assert(parameters(s, i, d, seen) == parameters(s, at + front.len(), d, more));
    }
}

// ---------------------------------------------------------------------------
// Calls
// ---------------------------------------------------------------------------

/// A call in markup.
pub open spec fn written_call(
    d: DsmlDialect,
    name: Seq<char>,
    params: Seq<Parameter>,
    gap: Seq<char>,
) -> Seq<char> {
    written_tag(d, "invoke"@, name) + written_rest(d, params, gap)
}

/// A call that is written in markup is read back, wherever it stands: its name, and
/// its parameters with their values. `gap` is the white space between tags.
pub proof fn law_written_call_is_read(
    s: Seq<char>,
    i: int,
    d: DsmlDialect,
    name: Seq<char>,
    params: Seq<Parameter>,
    gap: Seq<char>,
)
    requires
        name.len() > 0,
        are_sound(d, params),
        is_blank(gap),
        occurs_at(s, i, written_call(d, name, params, gap)),
    ensures
        invocation(s, i, d) == Some(
            Invocation {
                name,
                arguments: arguments(params, no_members()),
                end: i + written_call(d, name, params, gap).len(),
            },
        ),
{
    let tag = written_tag(d, "invoke"@, name);
    lemma_keys();
    lemma_stand_apart(s, i, tag, written_rest(d, params, gap));
    lemma_tag_read(s, i, d, "invoke"@, name);
    lemma_parameters_read(s, i + tag.len(), d, params, gap, no_members());
}

// ---------------------------------------------------------------------------
// Envelopes
// ---------------------------------------------------------------------------

/// A call in its envelope.
pub open spec fn written_envelope(
    d: DsmlDialect,
    name: Seq<char>,
    params: Seq<Parameter>,
    gap: Seq<char>,
) -> Seq<char> {
    d.calls_open() + (gap + (written_call(d, name, params, gap) + (gap + d.calls_close())))
}

/// A call starts only where a marker stands.
pub proof fn lemma_invoke_needs_marker(s: Seq<char>, i: int, d: DsmlDialect)
    requires
        invoke_starts_at(s, i, d),
    ensures
        tag_len_at(s, i, markers()) > 0,
        s[i] == '<',
{
    lemma_body_ends(d);
    lemma_markup_lengths(d);
    lemma_invoke_starts_with_marker(s, i, d);
    assert(s[i + 0] == d.marker()[0]);
}

/// Nothing heals in text that holds no marker from `from` on.
pub proof fn lemma_no_call_from(s: Seq<char>, from: int)
    requires
        0 <= from <= s.len(),
        first_tag(s.skip(from), markers()) is None,
    ensures
        next_invoke(s, from) is None,
{
    let rest = s.skip(from);
    lemma_first_tag_from(rest, 0, markers());
    lemma_next_invoke(s, from);
    if let Some((d, at)) = next_invoke(s, from) {
        lemma_invoke_needs_marker(s, at, d);
        lemma_tag_len_in_rest(s, from, at - from, markers());
    }
}

/// The first call behind text without markers is the one in the envelope that
/// follows it.
proof fn lemma_first_call(s: Seq<char>, from: int, d: DsmlDialect, gap: Seq<char>, name: Seq<char>)
    requires
        0 <= from,
        first_tag(s.take(from), markers()) is None,
        is_blank(gap),
        occurs_at(s, from, d.calls_open() + (gap + written_tag(d, "invoke"@, name))),
    ensures
        ({
            let at = from + d.calls_open().len() + gap.len();
            &&& next_invoke(s, 0) == Some((d, at))
            &&& envelope_start(s, 0, at, d) == from
        }),
{
    let open = d.calls_open();
    let tag = written_tag(d, "invoke"@, name);
    let inside = from + open.len();
    let at = inside + gap.len();
    let n = d.marker().len() as int;
    lemma_markup_lengths(single_bar());
    lemma_markup_lengths(double_bar());
    lemma_body_ends(d);
    lemma_stand_apart(s, from, open, gap + tag);
    lemma_stand_apart(s, inside, gap, tag);
    reveal_strlit("<｜｜DSML｜｜tool_calls>");
    reveal_strlit("<｜DSML｜tool_calls>");
    reveal_strlit("<｜｜DSML｜｜invoke");
    reveal_strlit("<｜DSML｜invoke");
    reveal_strlit("<｜｜DSML｜｜");
    reveal_strlit("<｜DSML｜");
    reveal_strlit("invoke");
    // The call stands at `at`.
    let invoke = d.invoke_open();
    assert forall|k: int| 0 <= k < invoke.len() implies s[at + k] == #[trigger] invoke[k] by {
        assert(s[at + k] == tag[k]);
        if k < n {
            assert(tag[k] == d.marker()[k]);
        } else {
            assert(tag[k] == "invoke"@[k - n]);
        }
    }
    assert(s[at + invoke.len()] == tag[invoke.len() as int]);
    assert(tag[invoke.len() as int] == ' ');
    assert(invoke_starts_at(s, at, d));
    // No call stands before it.
    let head = s.take(from);
    lemma_first_tag_from(head, 0, markers());
    assert forall|j: int, e: DsmlDialect| 0 <= j < at implies !#[trigger] invoke_starts_at(
        s,
        j,
        e,
    ) by {
        if invoke_starts_at(s, j, e) {
            lemma_invoke_needs_marker(s, j, e);
            let p = e.invoke_open();
            if j < from {
                lemma_markers();
                let u = lemma_tag_at(s, j, markers());
                let m = markers()[u];
                if j + m.len() <= from {
                    assert(head + s.skip(from) =~= s);
                    lemma_occurs_in_longer(head, s.skip(from), j, m);
                    lemma_tag_len_at(head, j, markers());
                } else {
                    assert(s[j + (from - j)] == m[from - j]);
                    assert(s[from + 0] == open[0]);
                    assert(markers()[0][0] == '<');
                }
            } else if j < inside {
                assert(s[from + (j - from)] == open[j - from]);
                if j == from {
                    assert(s[j + 2] == p[2]);
                    assert(s[from + 2] == open[2]);
                    assert(s[j + n] == p[n]);
                    assert(s[from + n] == open[n]);
                }
            } else {
                assert(s[inside + (j - inside)] == gap[j - inside]);
                assert(is_white(gap[j - inside]));
            }
        }
    }
    // No call of the other dialect stands at `at` either.
    let other = DsmlDialect { double_bar: !d.double_bar };
    assert(!invoke_starts_at(s, at, other)) by {
        if invoke_starts_at(s, at, other) {
            assert(s[at + 2] == other.invoke_open()[2]);
            assert(s[at + 2] == invoke[2]);
        }
    }
    lemma_next_invoke_of(s, 0, d);
    lemma_next_invoke_of(s, 0, other);
    // The envelope opens at `from`, and nowhere else.
    assert(encloses(s, 0, from, at, d)) by {
        assert(s.subrange(inside, at) =~= gap);
    }
    let i = envelope_start(s, 0, at, d);
    assert(encloses(s, 0, i, at, d));
    if i < from {
        let after = i + open.len();
        assert(is_white(s.subrange(after, at)[inside - 1 - after]));
        assert(s[from + (open.len() - 1)] == open[open.len() - 1]);
    } else if i > from {
        assert(s[i + 0] == open[0]);
        if i < inside {
            assert(s[from + (i - from)] == open[i - from]);
        } else {
            assert(s[inside + (i - inside)] == gap[i - inside]);
            assert(is_white(gap[i - inside]));
        }
    }
}

/// A call that leaked in its envelope heals: it leaves the text, and only it, and
/// comes out with its name and its arguments.
pub proof fn law_envelope_heals(
    before: Seq<char>,
    d: DsmlDialect,
    name: Seq<char>,
    params: Seq<Parameter>,
    gap: Seq<char>,
    after: Seq<char>,
)
    requires
        first_tag(before, markers()) is None,
        first_tag(after, markers()) is None,
        name.len() > 0,
        are_sound(d, params),
        is_blank(gap),
    ensures
        healed(before + written_envelope(d, name, params, gap) + after) == Some(
            (
                trim(before + after),
                seq![Call { name, arguments: json_object(arguments(params, no_members())) }],
            ),
        ),
{
    let open = d.calls_open();
    let close = d.calls_close();
    let call = written_call(d, name, params, gap);
    let tag = written_tag(d, "invoke"@, name);
    let rest = written_rest(d, params, gap);
    let envelope = written_envelope(d, name, params, gap);
    let s = before + envelope + after;
    let from = before.len() as int;
    let inside = from + open.len();
    let at = inside + gap.len();
    let end = at + call.len();
    lemma_markup_lengths(d);
    assert(occurs_at(s, from, envelope));
    lemma_stand_apart(s, from, open, gap + (call + (gap + close)));
    lemma_stand_apart(s, inside, gap, call + (gap + close));
    lemma_stand_apart(s, at, call, gap + close);
    lemma_stand_apart(s, end, gap, close);
    lemma_stand_apart(s, at, tag, rest);
    lemma_stand_apart(s, inside, gap, tag);
    lemma_stand_apart(s, from, open, gap + tag);
    assert(s.take(from) =~= before);
    lemma_first_call(s, from, d, gap, name);
    law_written_call_is_read(s, at, d, name, params, gap);
    // The envelope closes behind the call.
    reveal_strlit("</｜｜DSML｜｜tool_calls>");
    reveal_strlit("</｜DSML｜tool_calls>");
    assert(s[end + gap.len() + 0] == close[0]);
    lemma_gap_skipped(s, end, gap);
    let to = end + gap.len() + close.len();
    assert(envelope_end(s, end, d) == to);
    // Nothing heals behind it.
    assert(s.skip(to) =~= after);
    lemma_no_call_from(s, to);
    assert(blocks(s, to, to) =~= Seq::empty());
    let block = Block {
        from,
        at,
        to,
        call: Call { name, arguments: json_object(arguments(params, no_members())) },
    };
    let parts = blocks(s, 0, 0);
    assert(parts =~= seq![block]);
    assert(parts.drop_first() =~= Seq::empty());
    assert(without(s, to, parts.drop_first()) =~= after);
    assert(without(s, 0, parts) =~= before + after);
    assert(calls_of(parts) =~= seq![block.call]);
}

} // verus!
