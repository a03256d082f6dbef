//! Reading leaked DSML markup back into tool calls.

use super::grammar;
use super::grammar::{
    attr_name_end, attribute, balanced_end, blocks, calls_of, ends_attr_name, ends_tag_name, healed,
    invocation, malformed_end, next_invoke, next_invoke_of, open_tag, parameter_value, parameters,
    quoted_value, starts_between, tag_name_end, tag_rest, without, Call, DsmlDialect, Tag,
};
use crate::json::{
    empty_object, has_member, json_object, json_text, members_of, no_members, object_value,
    parse_value, set_member, string_value, value_text,
};
use crate::text::{
    chars_of, find, is_blank, is_white_space, lemma_find_from, lemma_scan_is, skip_whitespace,
    stands_at, string_of, trimmed, trimmed_end,
};
use serde_json::Value;
use vstd::hash_map::StringHashMap;
use vstd::prelude::*;
use vstd::string::*;

verus! {

impl DsmlDialect {
    /// The marker, as text.
    pub(crate) fn marker_text(&self) -> (r: &'static str)
        ensures
            r@ == self.marker(),
    {
        if self.double_bar {
            "<｜｜DSML｜｜"
        } else {
            "<｜DSML｜"
        }
    }

    fn invoke_open_text(&self) -> (r: &'static str)
        ensures
            r@ == self.invoke_open(),
    {
        if self.double_bar {
            "<｜｜DSML｜｜invoke"
        } else {
            "<｜DSML｜invoke"
        }
    }

    fn invoke_close_text(&self) -> (r: &'static str)
        ensures
            r@ == self.invoke_close(),
    {
        if self.double_bar {
            "</｜｜DSML｜｜invoke>"
        } else {
            "</｜DSML｜invoke>"
        }
    }

    fn parameter_close_text(&self) -> (r: &'static str)
        ensures
            r@ == self.parameter_close(),
    {
        if self.double_bar {
            "</｜｜DSML｜｜parameter>"
        } else {
            "</｜DSML｜parameter>"
        }
    }

    fn calls_open_text(&self) -> (r: &'static str)
        ensures
            r@ == self.calls_open(),
    {
        if self.double_bar {
            "<｜｜DSML｜｜tool_calls>"
        } else {
            "<｜DSML｜tool_calls>"
        }
    }

    fn calls_close_text(&self) -> (r: &'static str)
        ensures
            r@ == self.calls_close(),
    {
        if self.double_bar {
            "</｜｜DSML｜｜tool_calls>"
        } else {
            "</｜DSML｜tool_calls>"
        }
    }

    /// The number of characters of the marker.
    fn marker_len(&self) -> (n: usize)
        ensures
            n == self.marker().len(),
            n == 7 || n == 9,
    {
        proof {
            grammar::lemma_markup_lengths(*self);
        }
        if self.double_bar {
            9
        } else {
            7
        }
    }
}

/// An opening tag, as read from markup.
pub struct ParsedTag {
    pub name: String,
    pub attrs: StringHashMap<String>,
    pub self_closing: bool,
    /// The position past the tag.
    pub end: usize,
}

/// The views of the values of a map.
pub open spec fn texts_of(m: Map<Seq<char>, String>) -> Map<Seq<char>, Seq<char>> {
    m.map_values(|v: String| v@)
}

impl ParsedTag {
    /// What the tag is.
    pub open spec fn tag(self) -> Tag {
        Tag {
            name: self.name@,
            attrs: texts_of(self.attrs@),
            self_closing: self.self_closing,
            end: self.end as int,
        }
    }

    /// The value of an attribute.
    fn attr(&self, key: &str) -> (r: Option<&String>)
        ensures
            match r {
                Some(v) => self.tag().attr(key@) == Some(v@),
                None => self.tag().attr(key@) is None,
            },
    {
        self.attrs.get(key)
    }

    /// The attribute `name`, where it is present and not empty.
    fn given_name(&self) -> (r: Option<&String>)
        ensures
            match r {
                Some(v) => self.tag().given_name() == Some(v@),
                None => self.tag().given_name() is None,
            },
    {
        match self.attr("name") {
            Some(v) => if v.as_str().is_empty() {
                None
            } else {
                Some(v)
            },
            None => None,
        }
    }

    /// Whether the tag is called `name`.
    fn is_called(&self, name: &str) -> (r: bool)
        ensures
            r == (self.tag().name == name@),
    {
        self.name == name.to_owned()
    }
}

/// The attribute value whose characters start at `cursor`, just past its opening
/// quote, and the position past its closing quote.
pub fn parse_quoted_value(text: &[char], cursor: usize) -> (r: Result<(String, usize), ()>)
    requires
        cursor <= text@.len(),
    ensures
        match r {
            Ok((value, end)) => quoted_value(text@, cursor as int) == Some((value@, end as int))
                && cursor < end <= text@.len(),
            Err(_) => quoted_value(text@, cursor as int) is None,
        },
{
    let mut value: String = String::new();
    let mut i: usize = cursor;
    while i < text.len()
        invariant
            cursor <= i <= text@.len(),
            quoted_value(text@, cursor as int) == (match quoted_value(text@, i as int) {
                Some((rest, end)) => Some((value@ + rest, end)),
                None => None,
            }),
        decreases text@.len() - i,
    {
        let c: char = text[i];
        let ghost before = value@;
        let ghost at = i as int;
        if c == '"' {
            assert(value@ + Seq::<char>::empty() =~= value@);
            return Ok((value, i + 1));
        }
        if c == '\\' {
            if i + 1 >= text.len() {
                return Err(());
            }
            let escaped: char = text[i + 1];
            if escaped == '"' || escaped == '\\' {
                value.push(escaped);
                i = i + 2;
            } else {
                value.push('\\');
                i = i + 1;
            }
        } else {
            value.push(c);
            i = i + 1;
        }
        proof {
            if let Some((rest, end)) = quoted_value(text@, i as int) {
                assert(before + (seq![value@.last()] + rest) =~= value@ + rest);
            }
        }
    }
    Err(())
}

/// The attribute at `at`: its key, its value and the position past it.
fn parse_attribute(text: &[char], at: usize) -> (r: Result<(String, String, usize), ()>)
    requires
        at <= text@.len(),
    ensures
        match r {
            Ok((key, value, end)) => attribute(text@, at as int) == Some((key@, value@, end as int))
                && at < end <= text@.len(),
            Err(_) => attribute(text@, at as int) is None,
        },
{
    let mut cursor: usize = at;
    while cursor < text.len() && !(is_white_space(text[cursor]) || text[cursor] == '='
        || text[cursor] == '/' || text[cursor] == '>')
        invariant
            at <= cursor <= text@.len(),
            forall|j: int| at <= j < cursor ==> !ends_attr_name(#[trigger] text@[j]),
        decreases text@.len() - cursor,
    {
        cursor = cursor + 1;
    }
    let key_end: usize = cursor;
    proof {
        lemma_scan_is(text@, at as int, |c: char| ends_attr_name(c), key_end as int);
        assert(attr_name_end(text@, at as int) == key_end);
    }
    if key_end == at {
        return Err(());
    }
    let equals: usize = skip_whitespace(text, key_end);
    if equals >= text.len() || text[equals] != '=' {
        return Err(());
    }
    let quote: usize = skip_whitespace(text, equals + 1);
    if quote >= text.len() || text[quote] != '"' {
        return Err(());
    }
    let (value, end) = match parse_quoted_value(text, quote + 1) {
        Ok(found) => found,
        Err(_) => {
            return Err(());
        },
    };
    Ok((string_of(text, at, key_end), value, end))
}

/// The opening tag of `dialect` at position `start`.
pub fn parse_open_tag(text: &[char], start: usize, dialect: DsmlDialect) -> (r: Result<
    ParsedTag,
    (),
>)
    requires
        start <= text@.len(),
    ensures
        match r {
            Ok(tag) => open_tag(text@, start as int, dialect) == Some(tag.tag()) && start
                + dialect.marker().len() < tag.end <= text@.len(),
            Err(_) => open_tag(text@, start as int, dialect) is None,
        },
{
    if !stands_at(text, start, dialect.marker_text()) {
        return Err(());
    }
    let name_start: usize = start + dialect.marker_len();
    let mut cursor: usize = name_start;
    while cursor < text.len() && !(is_white_space(text[cursor]) || text[cursor] == '/'
        || text[cursor] == '>')
        invariant
            name_start <= cursor <= text@.len(),
            forall|j: int| name_start <= j < cursor ==> !ends_tag_name(#[trigger] text@[j]),
        decreases text@.len() - cursor,
    {
        cursor = cursor + 1;
    }
    proof {
        lemma_scan_is(text@, name_start as int, |c: char| ends_tag_name(c), cursor as int);
        assert(tag_name_end(text@, name_start as int) == cursor);
    }
    if cursor == name_start {
        return Err(());
    }
    let name: String = string_of(text, name_start, cursor);
    let mut attrs: StringHashMap<String> = StringHashMap::new();
    assert(texts_of(attrs@) =~= no_members());

    let ghost tag = open_tag(text@, start as int, dialect);
    loop
        invariant
            name_start < cursor <= text@.len(),
            name_start == start + dialect.marker().len(),
            tag == open_tag(text@, start as int, dialect),
            tag == tag_rest(text@, cursor as int, name@, texts_of(attrs@)),
        decreases text@.len() - cursor,
    {
        let at: usize = skip_whitespace(text, cursor);
        if at >= text.len() {
            return Err(());
        }
        if text[at] == '>' {
            return Ok(ParsedTag { name, attrs, self_closing: false, end: at + 1 });
        }
        if text[at] == '/' {
            let close: usize = skip_whitespace(text, at + 1);
            if close >= text.len() || text[close] != '>' {
                return Err(());
            }
            return Ok(ParsedTag { name, attrs, self_closing: true, end: close + 1 });
        }
        let (key, value, end) = match parse_attribute(text, at) {
            Ok(found) => found,
            Err(_) => {
                return Err(());
            },
        };
        if attrs.contains_key(key.as_str()) {
            return Err(());
        }
        let ghost seen = texts_of(attrs@);
        let ghost key_text = key@;
        let ghost value_text = value@;
        attrs.insert(key, value);
        cursor = end;
        assert(texts_of(attrs@) =~= seen.insert(key_text, value_text));
    }
}

/// Whether `p` starts in `text` at or after `from` and before `to`.
fn starts_within(text: &[char], from: usize, to: usize, p: &str) -> (r: bool)
    requires
        from <= to <= text@.len(),
        p@.len() > 0,
    ensures
        r == starts_between(text@, from as int, to as int, p@),
{
    proof {
        lemma_find_from(text@, from as int, p@);
    }
    match find(text, from, p) {
        Some(at) => at < to,
        None => false,
    }
}

/// The value that the parameter with opening tag `parameter` carries, and the
/// position past the parameter.
fn parse_parameter_value(text: &[char], dialect: DsmlDialect, parameter: &ParsedTag) -> (r: Result<
    (Value, usize),
    (),
>)
    requires
        parameter.end <= text@.len(),
    ensures
        match r {
            Ok((value, next)) => parameter_value(text@, dialect, parameter.tag()) == Some(
                (json_text(value), next as int),
            ) && parameter.end <= next <= text@.len(),
            Err(_) => parameter_value(text@, dialect, parameter.tag()) is None,
        },
{
    let ghost tag = parameter.tag();
    proof {
        grammar::lemma_markup_lengths(dialect);
        lemma_find_from(text@, tag.end, dialect.parameter_close());
        reveal_strlit("invoke");
        reveal_strlit("parameter");
        assert("invoke"@.len() != "parameter"@.len());
    }
    if dialect.double_bar && (parameter.is_called("invoke") || parameter.is_called("parameter"))
        && parameter.self_closing {
        match parameter.attr("string") {
            Some(value) => Ok((string_value(value.clone()), parameter.end)),
            None => Err(()),
        }
    } else if parameter.is_called("parameter") && !parameter.self_closing {
        let kind: &String = match parameter.attr("string") {
            Some(kind) => kind,
            None => {
                return Err(());
            },
        };
        let is_text: bool = *kind == "true".to_owned();
        if !is_text && *kind != "false".to_owned() {
            return Err(());
        }
        let close: usize = match find(text, parameter.end, dialect.parameter_close_text()) {
            Some(close) => close,
            None => {
                return Err(());
            },
        };
        if starts_within(text, parameter.end, close, dialect.marker_text()) || starts_within(
            text,
            parameter.end,
            close,
            dialect.invoke_close_text(),
        ) {
            return Err(());
        }
        let next: usize = close + (dialect.marker_len() + 11);
        if is_text {
            Ok((string_value(string_of(text, parameter.end, close)), next))
        } else {
            proof {
                reveal_strlit("true");
                reveal_strlit("false");
                assert("true"@.len() != "false"@.len());
            }
            let raw: String = trimmed(text, parameter.end, close);
            match parse_value(raw.as_str()) {
                Ok(value) => Ok((value, next)),
                Err(_) => Err(()),
            }
        }
    } else {
        Err(())
    }
}

/// A tool call healed from markup.
#[derive(Debug, PartialEq, Eq)]
pub struct DsmlToolCall {
    pub name: String,
    /// JSON-encoded arguments object, ready for Chat Completions
    /// `function.arguments`.
    pub arguments: String,
}

impl View for DsmlToolCall {
    type V = Call;

    open spec fn view(&self) -> Call {
        Call { name: self.name@, arguments: self.arguments@ }
    }
}

impl Clone for DsmlToolCall {
    fn clone(&self) -> (r: Self)
        ensures
            r@ == self@,
    {
        DsmlToolCall { name: self.name.clone(), arguments: self.arguments.clone() }
    }
}

/// What a list of healed calls holds.
pub open spec fn calls_seen(calls: Seq<DsmlToolCall>) -> Seq<Call> {
    calls.map_values(|c: DsmlToolCall| c@)
}

/// The call of `dialect` whose opening tag stands at `start`, and the position
/// past its closing tag.
pub fn parse_invoke(text: &[char], start: usize, dialect: DsmlDialect) -> (r: Result<
    (usize, DsmlToolCall),
    (),
>)
    requires
        start <= text@.len(),
    ensures
        match r {
            Ok((end, call)) => invocation(text@, start as int, dialect) matches Some(inv)
                && inv.name == call.name@ && json_object(inv.arguments) == call.arguments@
                && inv.end == end && start < end <= text@.len(),
            Err(_) => invocation(text@, start as int, dialect) is None,
        },
{
    proof {
        grammar::lemma_markup_lengths(dialect);
    }
    let invoke: ParsedTag = match parse_open_tag(text, start, dialect) {
        Ok(tag) => tag,
        Err(_) => {
            return Err(());
        },
    };
    if !invoke.is_called("invoke") || invoke.self_closing {
        return Err(());
    }
    let name: &String = match invoke.given_name() {
        Some(name) => name,
        None => {
            return Err(());
        },
    };
    let mut arguments: serde_json::Map<String, Value> = empty_object();
    let mut cursor: usize = invoke.end;
    let ghost all = parameters(text@, invoke.end as int, dialect, no_members());

    loop
        invariant
            start < invoke.end <= cursor <= text@.len(),
            all == parameters(text@, invoke.end as int, dialect, no_members()),
            all == parameters(text@, cursor as int, dialect, members_of(arguments)),
            open_tag(text@, start as int, dialect) == Some(invoke.tag()),
            invoke.tag().opens_invoke(),
            invoke.tag().given_name() == Some(name@),
        decreases text@.len() - cursor,
    {
        let at: usize = skip_whitespace(text, cursor);
        proof {
            grammar::lemma_markup_lengths(dialect);
        }
        if stands_at(text, at, dialect.invoke_close_text()) {
            let end: usize = at + (dialect.marker_len() + 8);
            let value: Value = object_value(arguments);
            return Ok((end, DsmlToolCall { name: name.clone(), arguments: value_text(&value) }));
        }
        let parameter: ParsedTag = match parse_open_tag(text, at, dialect) {
            Ok(tag) => tag,
            Err(_) => {
                return Err(());
            },
        };
        let parameter_name: String = match parameter.given_name() {
            Some(name) => name.clone(),
            None => {
                return Err(());
            },
        };
        if has_member(&arguments, parameter_name.as_str()) {
            return Err(());
        }
        match parse_parameter_value(text, dialect, &parameter) {
            Ok((value, next)) => {
                set_member(&mut arguments, parameter_name, value);
                cursor = next;
            },
            Err(_) => {
                return Err(());
            },
        }
    }
}

/// Where a call that cannot be read ends, so that recovery never descends into a
/// nested, valid-looking call and executes it out of context.
pub fn malformed_invoke_end(text: &[char], start: usize, dialect: DsmlDialect) -> (r: Option<usize>)
    requires
        start <= text@.len(),
    ensures
        match r {
            Some(end) => malformed_end(text@, start as int, dialect) == Some(end as int) && start
                < end <= text@.len(),
            None => malformed_end(text@, start as int, dialect) is None,
        },
{
    proof {
        grammar::lemma_markup_lengths(dialect);
    }
    let outer: ParsedTag = match parse_open_tag(text, start, dialect) {
        Ok(tag) => tag,
        Err(_) => {
            return None;
        },
    };
    if !outer.is_called("invoke") || outer.self_closing {
        return Some(outer.end);
    }
    let mut depth: usize = 1;
    let mut cursor: usize = outer.end;
    let ghost balanced = balanced_end(text@, outer.end as int, dialect, 1);
    while cursor < text.len()
        invariant
            start < outer.end <= cursor <= text@.len(),
            open_tag(text@, start as int, dialect) == Some(outer.tag()),
            outer.tag().opens_invoke(),
            balanced == balanced_end(text@, outer.end as int, dialect, 1),
            balanced == balanced_end(text@, cursor as int, dialect, depth as int),
            1 <= depth <= cursor,
        decreases text@.len() - cursor,
    {
        proof {
            grammar::lemma_markup_lengths(dialect);
            lemma_find_from(text@, cursor as int, dialect.marker());
            lemma_find_from(text@, cursor as int, dialect.invoke_close());
        }
        let open: Option<usize> = find(text, cursor, dialect.marker_text());
        let close: Option<usize> = find(text, cursor, dialect.invoke_close_text());
        let closes: bool = match (open, close) {
            (Some(at), Some(end)) => end < at,
            (None, Some(_)) => true,
            (_, None) => false,
        };
        match (open, close) {
            (_, Some(close)) if closes => {
                cursor = close + (dialect.marker_len() + 8);
                if depth == 1 {
                    return Some(cursor);
                }
                depth = depth - 1;
            },
            (Some(at), _) => {
                let tag: ParsedTag = match parse_open_tag(text, at, dialect) {
                    Ok(tag) => tag,
                    Err(_) => {
                        return None;
                    },
                };
                if tag.is_called("invoke") && !tag.self_closing {
                    depth = depth + 1;
                }
                cursor = tag.end;
            },
            _ => {
                return None;
            },
        }
    }
    None
}

/// The first call of `dialect` that starts at or after `from`.
fn find_invoke_of(text: &[char], from: usize, dialect: DsmlDialect) -> (r: Option<usize>)
    requires
        from <= text@.len(),
    ensures
        match r {
            Some(at) => next_invoke_of(text@, from as int, dialect) == Some(at as int) && from <= at
                < text@.len(),
            None => next_invoke_of(text@, from as int, dialect) is None,
        },
{
    let open: &str = dialect.invoke_open_text();
    let width: usize = dialect.marker_len() + 6;
    proof {
        grammar::lemma_markup_lengths(dialect);
    }
    let mut at: usize = from;
    while at < text.len()
        invariant
            from <= at <= text@.len(),
            open@ == dialect.invoke_open(),
            width == open@.len(),
            next_invoke_of(text@, from as int, dialect) == next_invoke_of(
                text@,
                at as int,
                dialect,
            ),
        decreases text@.len() - at,
    {
        if stands_at(text, at, open) {
            let after: usize = at + width;
            if after < text.len() && (is_white_space(text[after]) || text[after] == '>') {
                return Some(at);
            }
        }
        at = at + 1;
    }
    None
}

/// The first call of either dialect that starts at or after `from`.
fn find_next_invoke(text: &[char], from: usize) -> (r: Option<(DsmlDialect, usize)>)
    requires
        from <= text@.len(),
    ensures
        match r {
            Some((dialect, at)) => next_invoke(text@, from as int) == Some((dialect, at as int))
                && from <= at < text@.len(),
            None => next_invoke(text@, from as int) is None,
        },
{
    let double: Option<usize> = find_invoke_of(text, from, DsmlDialect { double_bar: true });
    let single: Option<usize> = find_invoke_of(text, from, DsmlDialect { double_bar: false });
    match (double, single) {
        (Some(a), Some(b)) => if a <= b {
            Some((DsmlDialect { double_bar: true }, a))
        } else {
            Some((DsmlDialect { double_bar: false }, b))
        },
        (Some(a), None) => Some((DsmlDialect { double_bar: true }, a)),
        (None, Some(b)) => Some((DsmlDialect { double_bar: false }, b)),
        (None, None) => None,
    }
}

/// Where the markup of a call that starts at `invoke_start` begins, its envelope
/// included.
fn envelope_start(
    text: &[char],
    copied_through: usize,
    invoke_start: usize,
    dialect: DsmlDialect,
) -> (r: usize)
    requires
        copied_through <= invoke_start <= text@.len(),
    ensures
        r == grammar::envelope_start(text@, copied_through as int, invoke_start as int, dialect),
        copied_through <= r <= invoke_start,
{
    let end: usize = trimmed_end(text, copied_through, invoke_start);
    let width: usize = dialect.marker_len() + 11;
    proof {
        grammar::lemma_markup_lengths(dialect);
    }
    let found: bool = end - copied_through >= width && stands_at(
        text,
        end - width,
        dialect.calls_open_text(),
    );
    proof {
        let s = text@;
        let from = copied_through as int;
        let at = invoke_start as int;
        assert forall|i: int| grammar::encloses(s, from, i, at, dialect) implies i == end - width
            && found by {
            grammar::lemma_calls_open_last(dialect);
            let inside = i + width;
            assert(s[inside - 1] == dialect.calls_open()[width - 1]);
            let gap = s.subrange(inside, at);
            if end > inside {
                assert(gap[end - 1 - inside] == s[end - 1]);
            }
        }
        if found {
            assert(is_blank(s.subrange(end as int, at)));
            assert(grammar::encloses(s, from, end - width, at, dialect));
        }
    }
    if found {
        end - width
    } else {
        invoke_start
    }
}

/// Where the markup of a call that ends at `invoke_end` is over, its envelope
/// included.
fn envelope_end(text: &[char], invoke_end: usize, dialect: DsmlDialect) -> (r: usize)
    requires
        invoke_end <= text@.len(),
    ensures
        r == grammar::envelope_end(text@, invoke_end as int, dialect),
        invoke_end <= r <= text@.len(),
{
    proof {
        grammar::lemma_markup_lengths(dialect);
    }
    let close: usize = skip_whitespace(text, invoke_end);
    if stands_at(text, close, dialect.calls_close_text()) {
        close + (dialect.marker_len() + 12)
    } else {
        invoke_end
    }
}

/// Parses leaked DSML tool-call markup out of a text.
///
/// Gives the cleaned visible text and the parsed calls, or `None` where no
/// complete call can be read (the text is then left untouched, so that nothing
/// is lost).
pub fn parse_leaked_tool_calls(text: &str) -> (r: Option<(String, Vec<DsmlToolCall>)>)
    ensures
        match r {
            Some((cleaned, calls)) => healed(text@) == Some((cleaned@, calls_seen(calls@))),
            None => healed(text@) is None,
        },
{
    let chars: Vec<char> = chars_of(text);
    parse_leaked_chars(chars.as_slice())
}

/// `parse_leaked_tool_calls` on the characters of a text.
pub(crate) fn parse_leaked_chars(text: &[char]) -> (r: Option<(String, Vec<DsmlToolCall>)>)
    ensures
        match r {
            Some((cleaned, calls)) => healed(text@) == Some((cleaned@, calls_seen(calls@))),
            None => healed(text@) is None,
        },
{
    let mut calls: Vec<DsmlToolCall> = Vec::new();
    let mut cleaned: Vec<char> = Vec::new();
    let mut copied_through: usize = 0;
    let mut search_from: usize = 0;
    let mut searching: bool = true;

    let ghost all = blocks(text@, 0, 0);
    assert(calls_seen(calls@) + calls_of(all) =~= calls_of(all));
    assert(cleaned@ + without(text@, 0, all) =~= without(text@, 0, all));
    while searching
        invariant
            copied_through <= search_from <= text@.len(),
            all == blocks(text@, 0, 0),
            ({
                let rest = if searching {
                    blocks(text@, copied_through as int, search_from as int)
                } else {
                    Seq::empty()
                };
                &&& calls_of(all) == calls_seen(calls@) + calls_of(rest)
                &&& without(text@, 0, all) == cleaned@ + without(text@, copied_through as int, rest)
            }),
        decreases
            text@.len() - search_from + if searching {
                1int
            } else {
                0int
            },
    {
        let ghost rest = blocks(text@, copied_through as int, search_from as int);
        let ghost calls_before = calls_seen(calls@);
        let ghost cleaned_before = cleaned@;
        match find_next_invoke(text, search_from) {
            Some((dialect, start)) => match parse_invoke(text, start, dialect) {
                Ok((end, call)) => {
                    let removal_start: usize = envelope_start(
                        text,
                        copied_through,
                        start,
                        dialect,
                    );
                    let removal_end: usize = envelope_end(text, end, dialect);
                    push_range(&mut cleaned, text, copied_through, removal_start);
                    let ghost call_view = call@;
                    calls.push(call);
                    proof {
                        let next = blocks(text@, removal_end as int, removal_end as int);
                        assert(rest.drop_first() =~= next);
                        assert(rest[0].call == call_view);
                        assert(calls_of(rest) =~= seq![call_view] + calls_of(next));
                        assert(calls_seen(calls@) =~= calls_before.push(call_view));
                        assert(calls_before + (seq![call_view] + calls_of(next))
                            =~= calls_before.push(call_view) + calls_of(next));
                        let kept = text@.subrange(copied_through as int, removal_start as int);
                        let tail = without(text@, removal_end as int, next);
                        assert(cleaned_before + (kept + tail) =~= (cleaned_before + kept) + tail);
                    }
                    copied_through = removal_end;
                    search_from = removal_end;
                },
                Err(_) => {
                    // Preserve malformed candidates as they stand, but continue
                    // so an unrelated valid call further on can still heal.
                    match malformed_invoke_end(text, start, dialect) {
                        Some(end) => {
                            search_from = end;
                        },
                        None => {
                            searching = false;
                        },
                    }
                },
            },
            None => {
                searching = false;
            },
        }
    }
    proof {
        assert(calls_of(Seq::empty()) =~= Seq::empty());
        assert(calls_of(all) =~= calls_seen(calls@));
        assert(calls_of(all).len() == all.len());
    }
    if calls.is_empty() {
        return None;
    }
    push_range(&mut cleaned, text, copied_through, text.len());
    proof {
        assert(text@.subrange(copied_through as int, text@.len() as int) =~= text@.skip(
            copied_through as int,
        ));
        assert(cleaned@.subrange(0, cleaned@.len() as int) =~= cleaned@);
    }
    let visible: String = trimmed(cleaned.as_slice(), 0, cleaned.len());
    Some((visible, calls))
}

/// Appends the characters of `text` from `from` up to `to`.
fn push_range(out: &mut Vec<char>, text: &[char], from: usize, to: usize)
    requires
        from <= to <= text@.len(),
    ensures
        final(out)@ == old(out)@ + text@.subrange(from as int, to as int),
{
    let ghost before = out@;
    let mut i: usize = from;
    while i < to
        invariant
            from <= i <= to <= text@.len(),
            out@ == before + text@.subrange(from as int, i as int),
        decreases to - i,
    {
        out.push(text[i]);
        i = i + 1;
    }
}

} // verus!
