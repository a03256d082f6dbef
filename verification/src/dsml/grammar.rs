//! The grammar of DSML markup, and what healing a text means.
//!
//! Positions count characters. A function that reads markup at a position gives
//! what it read together with the position just past it, or `None` where no
//! such markup stands there.

use crate::json::{json_object, json_string, no_members, parsed_text};
use crate::text::{
    find_from, is_blank, is_white, lemma_find_from, lemma_scan, lemma_skip_white, occurs_at, scan,
    skip_white, trim,
};
use vstd::prelude::*;

verus! {

/// One delimiter flavour of the DSML markup: `<｜DSML｜…>`, or with doubled bars
/// `<｜｜DSML｜｜…>`.
#[derive(Debug, Clone, Copy, PartialEq, Eq, Structural)]
pub struct DsmlDialect {
    pub double_bar: bool,
}

/// The dialect with single bars.
pub open spec fn single_bar() -> DsmlDialect {
    DsmlDialect { double_bar: false }
}

/// The dialect with doubled bars.
pub open spec fn double_bar() -> DsmlDialect {
    DsmlDialect { double_bar: true }
}

impl DsmlDialect {
    /// What every opening tag of the dialect starts with.
    pub open spec fn marker(self) -> Seq<char> {
        if self.double_bar {
            "<｜｜DSML｜｜"@
        } else {
            "<｜DSML｜"@
        }
    }

    /// What the opening tag of a call starts with.
    pub open spec fn invoke_open(self) -> Seq<char> {
        if self.double_bar {
            "<｜｜DSML｜｜invoke"@
        } else {
            "<｜DSML｜invoke"@
        }
    }

    /// The closing tag of a call.
    pub open spec fn invoke_close(self) -> Seq<char> {
        if self.double_bar {
            "</｜｜DSML｜｜invoke>"@
        } else {
            "</｜DSML｜invoke>"@
        }
    }

    /// The closing tag of a parameter.
    pub open spec fn parameter_close(self) -> Seq<char> {
        if self.double_bar {
            "</｜｜DSML｜｜parameter>"@
        } else {
            "</｜DSML｜parameter>"@
        }
    }

    /// The tag that opens an envelope of calls.
    pub open spec fn calls_open(self) -> Seq<char> {
        if self.double_bar {
            "<｜｜DSML｜｜tool_calls>"@
        } else {
            "<｜DSML｜tool_calls>"@
        }
    }

    /// The tag that closes an envelope of calls.
    pub open spec fn calls_close(self) -> Seq<char> {
        if self.double_bar {
            "</｜｜DSML｜｜tool_calls>"@
        } else {
            "</｜DSML｜tool_calls>"@
        }
    }
}

// ---------------------------------------------------------------------------
// Tags
// ---------------------------------------------------------------------------

/// An opening tag: its name, its attributes, whether it closes itself, and the
/// position just past it.
pub struct Tag {
    pub name: Seq<char>,
    pub attrs: Map<Seq<char>, Seq<char>>,
    pub self_closing: bool,
    pub end: int,
}

impl Tag {
    /// The value of an attribute.
    pub open spec fn attr(self, key: Seq<char>) -> Option<Seq<char>> {
        if self.attrs.contains_key(key) {
            Some(self.attrs[key])
        } else {
            None
        }
    }

    /// The attribute `name`, where it is present and not empty.
    pub open spec fn given_name(self) -> Option<Seq<char>> {
        match self.attr("name"@) {
            Some(name) => if name.len() > 0 {
                Some(name)
            } else {
                None
            },
            None => None,
        }
    }

    /// Whether the tag opens a call that a closing tag has to end.
    pub open spec fn opens_invoke(self) -> bool {
        self.name == "invoke"@ && !self.self_closing
    }
}

/// A value read further on, with `c` put in front of it.
pub open spec fn led_by(c: char, rest: Option<(Seq<char>, int)>) -> Option<(Seq<char>, int)> {
    match rest {
        Some((value, end)) => Some((seq![c] + value, end)),
        None => None,
    }
}

/// The attribute value whose characters start at `i`, just past its opening
/// quote. A backslash before a quote or a backslash stands for that character;
/// any other backslash stands for itself.
pub open spec fn quoted_value(s: Seq<char>, i: int) -> Option<(Seq<char>, int)>
    decreases s.len() - i,
{
    if i < 0 || i >= s.len() {
        None
    } else if s[i] == '"' {
        Some((Seq::empty(), i + 1))
    } else if s[i] == '\\' {
        if i + 1 >= s.len() {
            None
        } else if s[i + 1] == '"' || s[i + 1] == '\\' {
            led_by(s[i + 1], quoted_value(s, i + 2))
        } else {
            led_by('\\', quoted_value(s, i + 1))
        }
    } else {
        led_by(s[i], quoted_value(s, i + 1))
    }
}

/// Whether `c` ends the name of a tag.
pub open spec fn ends_tag_name(c: char) -> bool {
    is_white(c) || c == '/' || c == '>'
}

/// Whether `c` ends the name of an attribute.
pub open spec fn ends_attr_name(c: char) -> bool {
    is_white(c) || c == '=' || c == '/' || c == '>'
}

/// Where the tag name that starts at `i` ends.
pub open spec fn tag_name_end(s: Seq<char>, i: int) -> int {
    scan(s, i, |c: char| ends_tag_name(c))
}

/// Where the attribute name that starts at `i` ends.
pub open spec fn attr_name_end(s: Seq<char>, i: int) -> int {
    scan(s, i, |c: char| ends_attr_name(c))
}

/// Whether `c` stands in `s` at position `i`.
pub open spec fn char_at(s: Seq<char>, i: int, c: char) -> bool {
    0 <= i < s.len() && s[i] == c
}

/// The attribute at `i`, written `key="value"` with white space allowed around
/// the equals sign: its key, its value and the position past it.
pub open spec fn attribute(s: Seq<char>, i: int) -> Option<(Seq<char>, Seq<char>, int)> {
    let key_end = attr_name_end(s, i);
    let equals = skip_white(s, key_end);
    let quote = skip_white(s, equals + 1);
    if key_end > i && char_at(s, equals, '=') && char_at(s, quote, '"') {
        match quoted_value(s, quote + 1) {
            Some((value, end)) => Some((s.subrange(i, key_end), value, end)),
            None => None,
        }
    } else {
        None
    }
}

/// The rest of a tag called `name`, from `i` on, where `seen` are the attributes
/// read so far. No attribute may be given twice.
pub open spec fn tag_rest(
    s: Seq<char>,
    i: int,
    name: Seq<char>,
    seen: Map<Seq<char>, Seq<char>>,
) -> Option<Tag>
    decreases s.len() - i,
{
    let at = skip_white(s, i);
    if i < 0 || at >= s.len() {
        None
    } else if s[at] == '>' {
        Some(Tag { name, attrs: seen, self_closing: false, end: at + 1 })
    } else if s[at] == '/' {
        let close = skip_white(s, at + 1);
        if char_at(s, close, '>') {
            Some(Tag { name, attrs: seen, self_closing: true, end: close + 1 })
        } else {
            None
        }
    } else {
        proof {
            if i <= s.len() {
                lemma_skip_white(s, i);
                lemma_attribute_end(s, at);
            }
        }
        match attribute(s, at) {
            Some((key, value, end)) => if seen.contains_key(key) {
                None
            } else {
                tag_rest(s, end, name, seen.insert(key, value))
            },
            None => None,
        }
    }
}

/// The opening tag of dialect `d` at position `i`.
pub open spec fn open_tag(s: Seq<char>, i: int, d: DsmlDialect) -> Option<Tag> {
    let from = i + d.marker().len();
    let to = tag_name_end(s, from);
    if occurs_at(s, i, d.marker()) && to > from {
        tag_rest(s, to, s.subrange(from, to), no_members())
    } else {
        None
    }
}

/// A quoted value that starts inside the text ends inside it, further on.
pub proof fn lemma_quoted_value_end(s: Seq<char>, i: int)
    ensures
        quoted_value(s, i) matches Some((_, end)) ==> 0 <= i < end <= s.len(),
    decreases s.len() - i,
{
    if 0 <= i < s.len() && s[i] != '"' {
        lemma_quoted_value_end(s, i + 1);
        if i + 2 <= s.len() {
            lemma_quoted_value_end(s, i + 2);
        }
    }
}

/// An attribute ends past its start, inside the text.
pub proof fn lemma_attribute_end(s: Seq<char>, i: int)
    requires
        0 <= i <= s.len(),
    ensures
        attribute(s, i) matches Some((_, _, end)) ==> i < end <= s.len(),
{
    lemma_scan(s, i, |c: char| ends_attr_name(c));
    let key_end = attr_name_end(s, i);
    lemma_skip_white(s, key_end);
    let equals = skip_white(s, key_end);
    if equals < s.len() {
        lemma_skip_white(s, equals + 1);
        lemma_quoted_value_end(s, skip_white(s, equals + 1) + 1);
    }
}

/// The rest of a tag ends past its start, inside the text.
pub proof fn lemma_tag_rest_end(
    s: Seq<char>,
    i: int,
    name: Seq<char>,
    seen: Map<Seq<char>, Seq<char>>,
)
    requires
        0 <= i <= s.len(),
    ensures
        tag_rest(s, i, name, seen) matches Some(tag) ==> i < tag.end <= s.len() && tag.name == name,
    decreases s.len() - i,
{
    lemma_skip_white(s, i);
    let at = skip_white(s, i);
    if at < s.len() {
        lemma_skip_white(s, at + 1);
        lemma_attribute_end(s, at);
        if let Some((key, value, end)) = attribute(s, at) {
            lemma_tag_rest_end(s, end, name, seen.insert(key, value));
        }
    }
}

/// A tag ends past its marker, inside the text.
pub proof fn lemma_open_tag_end(s: Seq<char>, i: int, d: DsmlDialect)
    ensures
        open_tag(s, i, d) matches Some(tag) ==> 0 <= i && i + d.marker().len() < tag.end <= s.len(),
{
    if occurs_at(s, i, d.marker()) {
        let from = i + d.marker().len();
        lemma_scan(s, from, |c: char| ends_tag_name(c));
        let to = tag_name_end(s, from);
        lemma_tag_rest_end(s, to, s.subrange(from, to), no_members());
    }
}

// ---------------------------------------------------------------------------
// Calls
// ---------------------------------------------------------------------------

/// Whether `p` starts in `s` at or after `from` and before `to`.
pub open spec fn starts_between(s: Seq<char>, from: int, to: int, p: Seq<char>) -> bool {
    exists|i: int| from <= i < to && #[trigger] occurs_at(s, i, p)
}

/// The JSON text of the value that the parameter with opening tag `p` carries,
/// and the position past the parameter.
///
/// A parameter is read by its shape. With doubled bars, a tag that closes itself has
/// no body, so that it carries its value in the attribute `string`, whether it is
/// called `invoke` or `parameter`. A `parameter` that does not close itself carries
/// it in its body, which no other tag may interrupt: as it stands where `string` is
/// `true`, as JSON where it is `false`.
pub open spec fn parameter_value(s: Seq<char>, d: DsmlDialect, p: Tag) -> Option<(Seq<char>, int)> {
    if d.double_bar && (p.name == "invoke"@ || p.name == "parameter"@) && p.self_closing {
        match p.attr("string"@) {
            Some(value) => Some((json_string(value), p.end)),
            None => None,
        }
    } else if p.name == "parameter"@ && !p.self_closing {
        match (p.attr("string"@), find_from(s, p.end, d.parameter_close())) {
            (Some(kind), Some(close)) => {
                let raw = s.subrange(p.end, close);
                let next = close + d.parameter_close().len();
                if starts_between(s, p.end, close, d.marker()) || starts_between(
                    s,
                    p.end,
                    close,
                    d.invoke_close(),
                ) {
                    None
                } else if kind == "true"@ {
                    Some((json_string(raw), next))
                } else if kind == "false"@ {
                    match parsed_text(trim(raw)) {
                        Some(text) => Some((text, next)),
                        None => None,
                    }
                } else {
                    None
                }
            },
            _ => None,
        }
    } else {
        None
    }
}

/// The parameters of a call from `i` up to its closing tag, added to those in
/// `seen`, and the position past the closing tag. Every parameter has a name
/// and no name is given twice.
pub open spec fn parameters(
    s: Seq<char>,
    i: int,
    d: DsmlDialect,
    seen: Map<Seq<char>, Seq<char>>,
) -> Option<(Map<Seq<char>, Seq<char>>, int)>
    decreases s.len() - i,
{
    let at = skip_white(s, i);
    if i < 0 || i > s.len() {
        None
    } else if occurs_at(s, at, d.invoke_close()) {
        Some((seen, at + d.invoke_close().len()))
    } else {
        proof {
            lemma_skip_white(s, i);
            lemma_open_tag_end(s, at, d);
        }
        match open_tag(s, at, d) {
            Some(p) => match (p.given_name(), parameter_value(s, d, p)) {
                (Some(name), Some((value, next))) => {
                    proof {
                        lemma_parameter_value_end(s, d, p);
                    }
                    if seen.contains_key(name) {
                        None
                    } else {
                        parameters(s, next, d, seen.insert(name, value))
                    }
                },
                _ => None,
            },
            None => None,
        }
    }
}

/// A call read from markup: its name, its arguments by name, each as JSON text,
/// and the position past its closing tag.
pub struct Invocation {
    pub name: Seq<char>,
    pub arguments: Map<Seq<char>, Seq<char>>,
    pub end: int,
}

/// The call of dialect `d` whose opening tag stands at `i`.
pub open spec fn invocation(s: Seq<char>, i: int, d: DsmlDialect) -> Option<Invocation> {
    match open_tag(s, i, d) {
        Some(tag) => match (tag.given_name(), parameters(s, tag.end, d, no_members())) {
            (Some(name), Some((arguments, end))) => if tag.opens_invoke() {
                Some(Invocation { name, arguments, end })
            } else {
                None
            },
            _ => None,
        },
        None => None,
    }
}

/// The closing markup of both dialects is not empty.
pub proof fn lemma_markup_lengths(d: DsmlDialect)
    ensures
        d.marker().len() == if d.double_bar {
            9int
        } else {
            7int
        },
        d.invoke_open().len() == d.marker().len() + 6,
        d.invoke_close().len() == d.marker().len() + 8,
        d.parameter_close().len() == d.marker().len() + 11,
        d.calls_open().len() == d.marker().len() + 11,
        d.calls_close().len() == d.marker().len() + 12,
{
    reveal_strlit("<｜｜DSML｜｜");
    reveal_strlit("<｜DSML｜");
    reveal_strlit("<｜｜DSML｜｜invoke");
    reveal_strlit("<｜DSML｜invoke");
    reveal_strlit("</｜｜DSML｜｜invoke>");
    reveal_strlit("</｜DSML｜invoke>");
    reveal_strlit("</｜｜DSML｜｜parameter>");
    reveal_strlit("</｜DSML｜parameter>");
    reveal_strlit("<｜｜DSML｜｜tool_calls>");
    reveal_strlit("<｜DSML｜tool_calls>");
    reveal_strlit("</｜｜DSML｜｜tool_calls>");
    reveal_strlit("</｜DSML｜tool_calls>");
}

/// The tag that opens an envelope does not end in white space.
pub proof fn lemma_calls_open_last(d: DsmlDialect)
    ensures
        !is_white(d.calls_open().last()),
{
    reveal_strlit("<｜｜DSML｜｜tool_calls>");
    reveal_strlit("<｜DSML｜tool_calls>");
}

/// A parameter ends at or past the end of its opening tag, inside the text.
pub proof fn lemma_parameter_value_end(s: Seq<char>, d: DsmlDialect, p: Tag)
    requires
        0 <= p.end <= s.len(),
    ensures
        parameter_value(s, d, p) matches Some((_, next)) ==> p.end <= next <= s.len(),
{
    lemma_find_from(s, p.end, d.parameter_close());
}

/// The parameters of a call end past their start, inside the text.
pub proof fn lemma_parameters_end(
    s: Seq<char>,
    i: int,
    d: DsmlDialect,
    seen: Map<Seq<char>, Seq<char>>,
)
    ensures
        parameters(s, i, d, seen) matches Some((_, end)) ==> 0 <= i < end <= s.len(),
    decreases s.len() - i,
{
    if 0 <= i <= s.len() {
        lemma_skip_white(s, i);
        lemma_markup_lengths(d);
        let at = skip_white(s, i);
        lemma_open_tag_end(s, at, d);
        if let Some(p) = open_tag(s, at, d) {
            lemma_parameter_value_end(s, d, p);
            if let (Some(name), Some((value, next))) = (p.given_name(), parameter_value(s, d, p)) {
                lemma_parameters_end(s, next, d, seen.insert(name, value));
            }
        }
    }
}

/// A call ends past its opening marker, inside the text.
pub proof fn lemma_invocation_end(s: Seq<char>, i: int, d: DsmlDialect)
    ensures
        invocation(s, i, d) matches Some(inv) ==> 0 <= i && i + d.marker().len() < inv.end
            <= s.len(),
{
    lemma_open_tag_end(s, i, d);
    if let Some(tag) = open_tag(s, i, d) {
        lemma_parameters_end(s, tag.end, d, no_members());
    }
}

// ---------------------------------------------------------------------------
// Malformed calls
// ---------------------------------------------------------------------------

/// Where the markup from `i` on closes the `depth` calls that are open there.
pub open spec fn balanced_end(s: Seq<char>, i: int, d: DsmlDialect, depth: int) -> Option<int>
    decreases s.len() - i,
{
    let open = find_from(s, i, d.marker());
    let close = find_from(s, i, d.invoke_close());
    if i < 0 || i >= s.len() {
        None
    } else if close is Some && (open is None || close->0 < open->0) {
        let next = close->0 + d.invoke_close().len();
        proof {
            lemma_find_from(s, i, d.invoke_close());
            lemma_markup_lengths(d);
        }
        if depth <= 1 {
            Some(next)
        } else {
            balanced_end(s, next, d, depth - 1)
        }
    } else if open is Some {
        proof {
            lemma_find_from(s, i, d.marker());
            lemma_open_tag_end(s, open->0, d);
        }
        match open_tag(s, open->0, d) {
            Some(tag) => balanced_end(
                s,
                tag.end,
                d,
                if tag.opens_invoke() {
                    depth + 1
                } else {
                    depth
                },
            ),
            None => None,
        }
    } else {
        None
    }
}

/// Where a call that cannot be read ends: past the closing tag that balances its
/// opening tag at `i`, or past that opening tag if it opens nothing.
pub open spec fn malformed_end(s: Seq<char>, i: int, d: DsmlDialect) -> Option<int> {
    match open_tag(s, i, d) {
        Some(tag) => if tag.opens_invoke() {
            balanced_end(s, tag.end, d, 1)
        } else {
            Some(tag.end)
        },
        None => None,
    }
}

/// A balanced end lies past the start, inside the text.
pub proof fn lemma_balanced_end(s: Seq<char>, i: int, d: DsmlDialect, depth: int)
    ensures
        balanced_end(s, i, d, depth) matches Some(end) ==> 0 <= i < end <= s.len(),
    decreases s.len() - i,
{
    if 0 <= i < s.len() {
        let open = find_from(s, i, d.marker());
        let close = find_from(s, i, d.invoke_close());
        lemma_find_from(s, i, d.marker());
        lemma_find_from(s, i, d.invoke_close());
        lemma_markup_lengths(d);
        if close is Some {
            lemma_balanced_end(s, close->0 + d.invoke_close().len(), d, depth - 1);
        }
        if open is Some {
            lemma_open_tag_end(s, open->0, d);
            if let Some(tag) = open_tag(s, open->0, d) {
                lemma_balanced_end(s, tag.end, d, depth);
                lemma_balanced_end(s, tag.end, d, depth + 1);
            }
        }
    }
}

/// A malformed call ends past its opening marker, inside the text.
pub proof fn lemma_malformed_end(s: Seq<char>, i: int, d: DsmlDialect)
    ensures
        malformed_end(s, i, d) matches Some(end) ==> 0 <= i && i + d.marker().len() < end
            <= s.len(),
{
    lemma_open_tag_end(s, i, d);
    if let Some(tag) = open_tag(s, i, d) {
        lemma_balanced_end(s, tag.end, d, 1);
    }
}

// ---------------------------------------------------------------------------
// Healing a text
// ---------------------------------------------------------------------------

/// Whether the opening tag of a call of dialect `d` starts at `i`.
pub open spec fn invoke_starts_at(s: Seq<char>, i: int, d: DsmlDialect) -> bool {
    let after = i + d.invoke_open().len();
    &&& occurs_at(s, i, d.invoke_open())
    &&& after < s.len()
    &&& (is_white(s[after]) || s[after] == '>')
}

/// The first call of dialect `d` that starts at or after `from`.
pub open spec fn next_invoke_of(s: Seq<char>, from: int, d: DsmlDialect) -> Option<int>
    decreases s.len() - from,
{
    if from >= s.len() {
        None
    } else if invoke_starts_at(s, from, d) {
        Some(from)
    } else {
        next_invoke_of(s, from + 1, d)
    }
}

/// The earlier of two positions, one found in each dialect.
pub open spec fn earlier(double: Option<int>, single: Option<int>) -> Option<(DsmlDialect, int)> {
    match (double, single) {
        (Some(a), Some(b)) => if a <= b {
            Some((double_bar(), a))
        } else {
            Some((single_bar(), b))
        },
        (Some(a), None) => Some((double_bar(), a)),
        (None, Some(b)) => Some((single_bar(), b)),
        (None, None) => None,
    }
}

/// The first call of either dialect that starts at or after `from`.
pub open spec fn next_invoke(s: Seq<char>, from: int) -> Option<(DsmlDialect, int)> {
    earlier(next_invoke_of(s, from, double_bar()), next_invoke_of(s, from, single_bar()))
}

/// Where the markup of a call that starts at `at` begins, looking no further back
/// than `from`: at the tag that opens its envelope, if only white space stands
/// between, else at the call itself.
pub open spec fn envelope_start(s: Seq<char>, from: int, at: int, d: DsmlDialect) -> int {
    if exists|i: int| encloses(s, from, i, at, d) {
        choose|i: int| encloses(s, from, i, at, d)
    } else {
        at
    }
}

/// Whether an envelope of calls opens at `i`, no earlier than `from`, and only
/// white space stands between it and position `at`.
pub open spec fn encloses(s: Seq<char>, from: int, i: int, at: int, d: DsmlDialect) -> bool {
    let inside = i + d.calls_open().len();
    &&& from <= i
    &&& inside <= at
    &&& occurs_at(s, i, d.calls_open())
    &&& is_blank(s.subrange(inside, at))
}

/// Where the markup of a call that ends at `end` is over: past the tag that
/// closes its envelope, if only white space stands between, else at `end`.
pub open spec fn envelope_end(s: Seq<char>, end: int, d: DsmlDialect) -> int {
    let close = skip_white(s, end);
    if occurs_at(s, close, d.calls_close()) {
        close + d.calls_close().len()
    } else {
        end
    }
}

/// A tool call, ready for the `function` object of Chat Completions: its name,
/// and the JSON text of its arguments.
pub struct Call {
    pub name: Seq<char>,
    pub arguments: Seq<char>,
}

/// A healed part of a text: the call that stands at `at`, and the span of its
/// markup, envelope included.
pub struct Block {
    pub from: int,
    pub at: int,
    pub to: int,
    pub call: Call,
}

/// The parts of `s` that heal, where everything before `copied` is settled and
/// the search goes on at `search`. A call that cannot be read is passed over up
/// to its balanced end; where it has none, the search is over.
pub open spec fn blocks(s: Seq<char>, copied: int, search: int) -> Seq<Block>
    decreases s.len() - search,
{
    if search < 0 || search > s.len() {
        Seq::empty()
    } else {
        match next_invoke(s, search) {
            Some((d, at)) => {
                proof {
                    lemma_next_invoke(s, search);
                    lemma_markup_lengths(d);
                    lemma_invocation_end(s, at, d);
                    lemma_malformed_end(s, at, d);
                }
                match (invocation(s, at, d), malformed_end(s, at, d)) {
                    (Some(inv), _) => {
                        let to = envelope_end(s, inv.end, d);
                        proof {
                            lemma_envelope_end(s, inv.end, d);
                        }
                        let block = Block {
                            from: envelope_start(s, copied, at, d),
                            at,
                            to,
                            call: Call { name: inv.name, arguments: json_object(inv.arguments) },
                        };
                        seq![block] + blocks(s, to, to)
                    },
                    (None, Some(end)) => blocks(s, copied, end),
                    (None, None) => Seq::empty(),
                }
            },
            None => Seq::empty(),
        }
    }
}

/// `s` from position `from` on, without the given parts.
pub open spec fn without(s: Seq<char>, from: int, parts: Seq<Block>) -> Seq<char>
    decreases parts.len(),
{
    if parts.len() == 0 {
        s.skip(from)
    } else {
        s.subrange(from, parts[0].from) + without(s, parts[0].to, parts.drop_first())
    }
}

/// The calls of the given parts, in order.
pub open spec fn calls_of(parts: Seq<Block>) -> Seq<Call> {
    parts.map_values(|b: Block| b.call)
}

/// What healing makes of a text: the text without the markup of its calls,
/// trimmed, and those calls; or nothing, where no call can be read.
pub open spec fn healed(s: Seq<char>) -> Option<(Seq<char>, Seq<Call>)> {
    let parts = blocks(s, 0, 0);
    if parts.len() == 0 {
        None
    } else {
        Some((trim(without(s, 0, parts)), calls_of(parts)))
    }
}

/// `next_invoke_of` gives the least position at which a call starts.
pub proof fn lemma_next_invoke_of(s: Seq<char>, from: int, d: DsmlDialect)
    requires
        0 <= from,
    ensures
        match next_invoke_of(s, from, d) {
            Some(at) => {
                &&& from <= at < s.len()
                &&& invoke_starts_at(s, at, d)
                &&& forall|j: int| from <= j < at ==> !invoke_starts_at(s, j, d)
            },
            None => forall|j: int| from <= j ==> !invoke_starts_at(s, j, d),
        },
    decreases s.len() - from,
{
    if from < s.len() && !invoke_starts_at(s, from, d) {
        lemma_next_invoke_of(s, from + 1, d);
    } else if from >= s.len() {
        lemma_markup_lengths(d);
    }
}

/// The next call starts inside the text, no earlier than the search.
pub proof fn lemma_next_invoke(s: Seq<char>, from: int)
    requires
        0 <= from,
    ensures
        next_invoke(s, from) matches Some((d, at)) ==> from <= at < s.len() && invoke_starts_at(
            s,
            at,
            d,
        ),
{
    lemma_next_invoke_of(s, from, double_bar());
    lemma_next_invoke_of(s, from, single_bar());
}

/// The markup of a call is over at or past the call's end, inside the text.
pub proof fn lemma_envelope_end(s: Seq<char>, end: int, d: DsmlDialect)
    requires
        0 <= end <= s.len(),
    ensures
        end <= envelope_end(s, end, d) <= s.len(),
{
    lemma_skip_white(s, end);
}

/// The markup of a call begins no later than the call and no earlier than the
/// search allows.
pub proof fn lemma_envelope_start(s: Seq<char>, from: int, at: int, d: DsmlDialect)
    requires
        0 <= from <= at <= s.len(),
    ensures
        from <= envelope_start(s, from, at, d) <= at,
{
    lemma_markup_lengths(d);
}

} // verus!
