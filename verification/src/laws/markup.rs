//! Which markup is known, what is reasoning, and which calls are refused.

use crate::dsml::grammar::{
    attribute, balanced_end, ends_attr_name, invocation, invoke_starts_at, lemma_open_tag_end,
    malformed_end, open_tag, parameter_value, parameters, quoted_value, tag_rest, DsmlDialect, Tag,
};
use crate::dsml::written::{
    escaped, is_key, law_escaped_value_is_read, lemma_gap_skipped, lemma_stand_apart,
};
use crate::json::{json_string, no_members, parsed_text};
use crate::tags::growth::lemma_first_tag_at_seam;
use crate::tags::{first_tag, held, lemma_held};
use crate::text::{
    concat, find_from, is_blank, is_white, lemma_find_from, lemma_scan_is, lemma_trim_start_blank,
    lemma_trim_start_joined, occurs_at, skip_white, trim, trim_end, trim_start,
};
use crate::think::filter::{
    all_tags, close_tags, open_tags, think_finish, think_push, think_run, think_split, Channels,
    ThinkState,
};
use crate::think::heal::{fires, heals, split_whole, think_healed};
use crate::think::laws::{
    law_deltas_do_not_matter, law_message_splits_like_stream, law_opening_tag_sets_off_filter,
    lemma_first_of_all, lemma_tags, shown, split_of,
};
use crate::types::{ContentView, MessageView};
use vstd::prelude::*;
use vstd::string::*;

verus! {

// ---------------------------------------------------------------------------
// Think markup
// ---------------------------------------------------------------------------

/// Three tags open a block, and the three that belong to them close one.
pub proof fn law_think_tags_are_known()
    ensures
        open_tags().len() == 3 && close_tags().len() == 3 && all_tags().len() == 6,
        open_tags().contains("<think>"@) && close_tags().contains("</think>"@),
        open_tags().contains("<thinking>"@) && close_tags().contains("</thinking>"@),
        open_tags().contains("◁think▷"@) && close_tags().contains("◁/think▷"@),
        forall|i: int| 0 <= i < 3 ==> #[trigger] all_tags()[i] == open_tags()[i],
        forall|i: int| 0 <= i < 3 ==> all_tags()[3 + i] == #[trigger] close_tags()[i],
{
    assert(open_tags()[0] == "<thinking>"@ && close_tags()[0] == "</thinking>"@);
    assert(open_tags()[1] == "<think>"@ && close_tags()[1] == "</think>"@);
    assert(open_tags()[2] == "◁think▷"@ && close_tags()[2] == "◁/think▷"@);
}

/// A block of reasoning, with the text that stands before it.
pub struct Musing {
    pub before: Seq<char>,
    pub open: int,
    pub body: Seq<char>,
    pub close: int,
}

impl Musing {
    /// Whether the block can be written so: no tag stands before it, and none closes it
    /// early.
    pub open spec fn is_sound(self) -> bool {
        &&& 0 <= self.open < open_tags().len()
        &&& 0 <= self.close < close_tags().len()
        &&& first_tag(self.before, all_tags()) is None
        &&& first_tag(self.body, close_tags()) is None
    }
}

/// The text that blocks and the text around them make up, with `tail` at its end.
pub open spec fn mused(blocks: Seq<Musing>, tail: Seq<char>) -> Seq<char>
    decreases blocks.len(),
{
    if blocks.len() == 0 {
        tail
    } else {
        let b = blocks[0];
        b.before + open_tags()[b.open] + (b.body + close_tags()[b.close] + mused(
            blocks.drop_first(),
            tail,
        ))
    }
}

/// The text around blocks.
pub open spec fn around_blocks(blocks: Seq<Musing>, tail: Seq<char>) -> Seq<char>
    decreases blocks.len(),
{
    if blocks.len() == 0 {
        tail
    } else {
        blocks[0].before + around_blocks(blocks.drop_first(), tail)
    }
}

/// The text in blocks, one after the other.
pub open spec fn inside_blocks(blocks: Seq<Musing>) -> Seq<char>
    decreases blocks.len(),
{
    if blocks.len() == 0 {
        Seq::empty()
    } else {
        blocks[0].body + inside_blocks(blocks.drop_first())
    }
}

/// How a text is split that blocks and the text around them make up.
pub proof fn lemma_blocks(blocks: Seq<Musing>, tail: Seq<char>, emitted: bool)
    requires
        forall|i: int| 0 <= i < blocks.len() ==> (#[trigger] blocks[i]).is_sound(),
        first_tag(tail, all_tags()) is None,
    ensures
        split_of(mused(blocks, tail), false, emitted) == Some(
            Channels {
                reasoning: inside_blocks(blocks),
                text: shown(around_blocks(blocks, tail), emitted),
            },
        ),
    decreases blocks.len(),
{
    let s = mused(blocks, tail);
    if blocks.len() == 0 {
        lemma_first_of_all(tail);
        assert(Channels::none().say(shown(tail, emitted)) =~= (Channels {
            reasoning: Seq::empty(),
            text: shown(tail, emitted),
        }));
    } else {
        let b = blocks[0];
        let rest = blocks.drop_first();
        assert forall|i: int| 0 <= i < rest.len() implies (#[trigger] rest[i]).is_sound() by {
            assert(rest[i] == blocks[i + 1]);
        }
        lemma_blocks(rest, tail, emitted || shown(b.before, emitted).len() > 0);
        lemma_one_block(
            b,
            mused(rest, tail),
            emitted,
            inside_blocks(rest),
            around_blocks(rest, tail),
        );
    }
}

/// A block in front of a text that is split in a known way.
proof fn lemma_one_block(
    b: Musing,
    after: Seq<char>,
    emitted: bool,
    reasoning: Seq<char>,
    text: Seq<char>,
)
    requires
        b.is_sound(),
        split_of(after, false, emitted || shown(b.before, emitted).len() > 0) == Some(
            Channels {
                reasoning,
                text: shown(text, emitted || shown(b.before, emitted).len() > 0),
            },
        ),
    ensures
        split_of(
            b.before + open_tags()[b.open] + (b.body + close_tags()[b.close] + after),
            false,
            emitted,
        ) == Some(
            Channels { reasoning: b.body + reasoning, text: shown(b.before + text, emitted) },
        ),
{
    let o = open_tags()[b.open];
    let c = close_tags()[b.close];
    let inside = b.body + c + after;
    let s = b.before + o + inside;
    let now = shown(b.before, emitted);
    let later = emitted || now.len() > 0;
    lemma_tags();
    assert(all_tags()[b.open] == o);
    lemma_first_tag_at_seam(b.before, inside, all_tags(), b.open);
    lemma_first_of_all(b.before);
    lemma_first_tag_at_seam(b.before, inside, open_tags(), b.open);
    lemma_first_of_all(s);
    assert(s.take(b.before.len() as int) =~= b.before);
    assert(s.skip((b.before.len() + o.len()) as int) =~= inside);
    lemma_first_tag_at_seam(b.body, after, close_tags(), b.close);
    assert(inside.take(b.body.len() as int) =~= b.body);
    assert(inside.skip((b.body.len() + c.len()) as int) =~= after);
    lemma_trim_start_joined(b.before, text);
    lemma_trim_start_blank(b.before);
    assert(split_of(inside, true, later) == Some(
        Channels { reasoning: b.body + reasoning, text: shown(text, later) },
    ));
    assert(now + shown(text, later) =~= shown(b.before + text, emitted));
}

/// Any number of blocks in one stream are reasoning, one after the other, and the text
/// around all of them is visible, but for leading white space. How the stream is cut into
/// deltas does not matter.
pub proof fn law_all_blocks_are_reasoning(
    deltas: Seq<Seq<char>>,
    blocks: Seq<Musing>,
    tail: Seq<char>,
)
    requires
        concat(deltas) == mused(blocks, tail),
        forall|i: int| 0 <= i < blocks.len() ==> (#[trigger] blocks[i]).is_sound(),
        first_tag(tail, all_tags()) is None,
    ensures
        think_split(deltas).reasoning == inside_blocks(blocks),
        think_split(deltas).text == trim_start(around_blocks(blocks, tail)),
{
    lemma_blocks(blocks, tail, false);
    law_deltas_do_not_matter(deltas);
}

/// A message with any number of blocks in its text heals: all that the blocks hold is
/// added to its reasoning, in order, the text around them is its content, and nothing
/// else changes. A message that holds nothing but their tags stays as it is.
pub proof fn law_all_blocks_leave_the_message(
    m: MessageView,
    blocks: Seq<Musing>,
    tail: Seq<char>,
)
    requires
        m.text() == mused(blocks, tail),
        blocks.len() > 0,
        forall|i: int| 0 <= i < blocks.len() ==> (#[trigger] blocks[i]).is_sound(),
        first_tag(tail, all_tags()) is None,
    ensures
        ({
            let after = think_healed(m);
            let text = trim_start(around_blocks(blocks, tail));
            let body = inside_blocks(blocks);
            &&& heals(m.text()) == (text.len() > 0 || body.len() > 0)
            &&& text.len() > 0 ==> after.content == Some(ContentView::Text(text))
            &&& text.len() == 0 && body.len() > 0 ==> after.content is None
            &&& text.len() == 0 && body.len() == 0 ==> after.content == m.content
            &&& body.len() > 0 ==> match m.reasoning_content {
                Some(had) => after.reasoning_content == Some(had + body),
                None => after.reasoning_content == Some(body),
            }
            &&& body.len() == 0 ==> after.reasoning_content == m.reasoning_content
            &&& after.role == m.role && after.tool_calls == m.tool_calls
            &&& after.tool_call_id == m.tool_call_id && after.name == m.name
        }),
{
    let text = m.text();
    let deltas = seq![text];
    assert(deltas.drop_last() =~= Seq::empty());
    reveal_with_fuel(concat, 2);
    assert(concat(deltas) =~= text);
    law_all_blocks_are_reasoning(deltas, blocks, tail);
    law_message_splits_like_stream(text);
    // The first block sets off the filter.
    let b = blocks[0];
    assert(b.is_sound());
    lemma_tags();
    lemma_first_of_all(b.before);
    let inside = b.body + close_tags()[b.close] + mused(blocks.drop_first(), tail);
    lemma_first_tag_at_seam(b.before, inside, open_tags(), b.open);
    law_opening_tag_sets_off_filter(true, deltas);
    reveal_with_fuel(think_run, 2);
    assert(fires(text));
    let none = Channels::none();
    if split_whole(text).text.len() == 0 && split_whole(text).reasoning.len() == 0 {
        assert(split_whole(text) =~= none);
    }
}

/// Whether a tag of length `n` at `at` stands in a sentence, in a text of one line: words
/// stand on both sides of it, each with a plain space between, and those before it do not
/// end in a full stop, an exclamation mark, a question mark or an ellipsis.
pub open spec fn is_amid_words(s: Seq<char>, at: int, n: int) -> bool {
    let before = s.take(at);
    let after = s.skip(at + n);
    let last = trim_end(before).last();
    &&& forall|i: int| 0 <= i < s.len() ==> #[trigger] s[i] != '\n' && s[i] != '\r'
    &&& exists|i: int| 0 <= i < before.len() && !is_white(#[trigger] before[i])
    &&& exists|i: int| 0 <= i < after.len() && !is_white(#[trigger] after[i])
    &&& before.last() == ' ' && after[0] == ' '
    &&& last != '.' && last != '!' && last != '?' && last != '…' && last != '。' && last != '！'
        && last != '？'
}

/// Only a tag amid the words of one line is taken for a part of a sentence.
pub proof fn law_only_tags_amid_words_are_text(st: ThinkState, at: int, n: int)
    requires
        0 <= at,
        0 <= n,
        at + n <= st.pending.len(),
    ensures
        st.in_sentence(at, n) == is_amid_words(st.pending, at, n),
{
    let before = st.pending.take(at);
    let after = st.pending.skip(at + n);
    if !is_blank(before) {
        let i = choose|i: int| 0 <= i < before.len() && !is_white(#[trigger] before[i]);
        lemma_trim_end_holds(before, i);
    }
    if is_amid_words(st.pending, at, n) {
        let i = choose|i: int| 0 <= i < before.len() && !is_white(#[trigger] before[i]);
        assert(!is_blank(before));
        lemma_trim_end_holds(before, i);
        let j = choose|j: int| 0 <= j < after.len() && !is_white(#[trigger] after[j]);
        assert(!is_blank(after));
    }
}

proof fn lemma_trim_end_holds(s: Seq<char>, i: int)
    requires
        0 <= i < s.len(),
        !is_white(s[i]),
    ensures
        trim_end(s).len() > i,
    decreases s.len(),
{
    if is_white(s.last()) {
        assert(s.drop_last()[i] == s[i]);
        lemma_trim_end_holds(s.drop_last(), i);
    }
}

/// Once visible text has been emitted, a tag that closes a block is text where none is
/// open: all of the text comes out as it is.
pub proof fn law_close_tag_behind_text_is_text(st: ThinkState, delta: Seq<char>)
    requires
        st.enabled,
        st.emitted_text,
        !st.in_think,
        first_tag(st.pending + delta, open_tags()) is None,
    ensures
        ({
            let (after, now) = think_push(st, delta);
            let all = now.followed_by(think_finish(after));
            all.reasoning.len() == 0 && all.text == st.pending + delta && after.fired == st.fired
        }),
{
    let p = st.pending + delta;
    lemma_held(p, all_tags());
    let keep = p.len() - held(p, all_tags());
    assert(p.take(keep) + p.skip(keep) =~= p);
    let rest = p.skip(keep);
    assert(rest.take(rest.len() as int) =~= rest);
    let (after, now) = think_push(st, delta);
    assert(now.followed_by(think_finish(after)).text =~= p);
}

// ---------------------------------------------------------------------------
// DSML markup
// ---------------------------------------------------------------------------

/// All markup of a dialect is made with its bars.
pub proof fn law_markup_is_made_with_bars(d: DsmlDialect, bars: Seq<char>)
    requires
        bars == if d.double_bar {
            "｜｜"@
        } else {
            "｜"@
        },
    ensures
        d.marker() == "<"@ + bars + "DSML"@ + bars,
        d.invoke_open() == "<"@ + bars + "DSML"@ + bars + "invoke"@,
        d.calls_open() == "<"@ + bars + "DSML"@ + bars + "tool_calls>"@,
        d.invoke_close() == "</"@ + bars + "DSML"@ + bars + "invoke>"@,
        d.parameter_close() == "</"@ + bars + "DSML"@ + bars + "parameter>"@,
        d.calls_close() == "</"@ + bars + "DSML"@ + bars + "tool_calls>"@,
{
    reveal_strlit("｜｜");
    reveal_strlit("｜");
    reveal_strlit("<");
    reveal_strlit("</");
    reveal_strlit("DSML");
    reveal_strlit("invoke");
    reveal_strlit("invoke>");
    reveal_strlit("tool_calls>");
    reveal_strlit("parameter>");
    reveal_strlit("<｜｜DSML｜｜");
    reveal_strlit("<｜DSML｜");
    reveal_strlit("<｜｜DSML｜｜invoke");
    reveal_strlit("<｜DSML｜invoke");
    reveal_strlit("<｜｜DSML｜｜tool_calls>");
    reveal_strlit("<｜DSML｜tool_calls>");
    reveal_strlit("</｜｜DSML｜｜invoke>");
    reveal_strlit("</｜DSML｜invoke>");
    reveal_strlit("</｜｜DSML｜｜parameter>");
    reveal_strlit("</｜DSML｜parameter>");
    reveal_strlit("</｜｜DSML｜｜tool_calls>");
    reveal_strlit("</｜DSML｜tool_calls>");
    assert(d.marker() =~= "<"@ + bars + "DSML"@ + bars);
    assert(d.invoke_open() =~= "<"@ + bars + "DSML"@ + bars + "invoke"@);
    assert(d.calls_open() =~= "<"@ + bars + "DSML"@ + bars + "tool_calls>"@);
    assert(d.invoke_close() =~= "</"@ + bars + "DSML"@ + bars + "invoke>"@);
    assert(d.parameter_close() =~= "</"@ + bars + "DSML"@ + bars + "parameter>"@);
    assert(d.calls_close() =~= "</"@ + bars + "DSML"@ + bars + "tool_calls>"@);
}

/// A tag that gives an attribute twice is refused.
pub proof fn law_attribute_given_twice_is_refused(
    s: Seq<char>,
    i: int,
    name: Seq<char>,
    seen: Map<Seq<char>, Seq<char>>,
    key: Seq<char>,
    value: Seq<char>,
    end: int,
)
    requires
        0 <= i,
        skip_white(s, i) < s.len(),
        s[skip_white(s, i)] != '>' && s[skip_white(s, i)] != '/',
        attribute(s, skip_white(s, i)) == Some((key, value, end)),
        seen.contains_key(key),
    ensures
        tag_rest(s, i, name, seen) is None,
{
}

/// A call is read only where a tag stands that opens one: it is called `invoke`, does not
/// close itself, and has a name that is not empty, which is the name of the call.
pub proof fn law_call_has_a_name(s: Seq<char>, i: int, d: DsmlDialect)
    requires
        invocation(s, i, d) is Some,
    ensures
        occurs_at(s, i, d.marker()),
        open_tag(s, i, d) is Some,
        ({
            let tag = open_tag(s, i, d)->0;
            let inv = invocation(s, i, d)->0;
            &&& tag.name == "invoke"@
            &&& !tag.self_closing
            &&& tag.attrs.contains_key("name"@) && tag.attrs["name"@] == inv.name
            &&& inv.name.len() > 0
            &&& parameters(s, tag.end, d, no_members()) == Some((inv.arguments, inv.end))
        }),
{
}

/// A parameter without a name is refused, and so is one whose name was given before, or
/// one that has no value: with it, the whole call.
pub proof fn law_unsound_parameter_is_refused(
    s: Seq<char>,
    i: int,
    d: DsmlDialect,
    seen: Map<Seq<char>, Seq<char>>,
    p: Tag,
)
    requires
        0 <= i <= s.len(),
        !occurs_at(s, skip_white(s, i), d.invoke_close()),
        open_tag(s, skip_white(s, i), d) == Some(p),
    ensures
        !p.attrs.contains_key("name"@) ==> parameters(s, i, d, seen) is None,
        p.attrs.contains_key("name"@) && p.attrs["name"@].len() == 0 ==> parameters(
            s,
            i,
            d,
            seen,
        ) is None,
        p.attrs.contains_key("name"@) && seen.contains_key(p.attrs["name"@]) ==> parameters(
            s,
            i,
            d,
            seen,
        ) is None,
        parameter_value(s, d, p) is None ==> parameters(s, i, d, seen) is None,
{
}

/// What is no parameter ends the reading of a call: with anything but parameters between
/// its tags, the call is refused.
pub proof fn law_stray_text_in_a_call_is_refused(
    s: Seq<char>,
    i: int,
    d: DsmlDialect,
    seen: Map<Seq<char>, Seq<char>>,
)
    requires
        0 <= i <= s.len(),
        !occurs_at(s, skip_white(s, i), d.invoke_close()),
        open_tag(s, skip_white(s, i), d) is None,
    ensures
        parameters(s, i, d, seen) is None,
{
}

/// A parameter has a value only in one of three shapes. Inside its tag, with doubled
/// bars: the attribute `string`, as a string. Between its tags: as a string where the
/// attribute says so, and as the JSON that stands there where it says that it is none.
/// No other tag may stand between them.
pub proof fn law_parameter_has_its_shape(
    s: Seq<char>,
    d: DsmlDialect,
    p: Tag,
    value: Seq<char>,
    next: int,
)
    requires
        0 <= p.end <= s.len(),
        parameter_value(s, d, p) == Some((value, next)),
    ensures
        p.attrs.contains_key("string"@),
        p.self_closing ==> {
            &&& d.double_bar
            &&& p.name == "invoke"@ || p.name == "parameter"@
            &&& value == json_string(p.attrs["string"@])
            &&& next == p.end
        },
        !p.self_closing ==> {
            let close = next - d.parameter_close().len();
            let body = s.subrange(p.end, close);
            &&& p.name == "parameter"@
            &&& p.end <= close
            &&& occurs_at(s, close, d.parameter_close())
            &&& p.attrs["string"@] == "true"@ || p.attrs["string"@] == "false"@
            &&& p.attrs["string"@] == "true"@ ==> value == json_string(body)
            &&& p.attrs["string"@] == "false"@ ==> parsed_text(trim(body)) == Some(value)
            &&& forall|i: int|
                p.end <= i < close ==> !#[trigger] occurs_at(s, i, d.marker()) && !occurs_at(
                    s,
                    i,
                    d.invoke_close(),
                ) && !occurs_at(s, i, d.parameter_close())
        },
{
    lemma_find_from(s, p.end, d.parameter_close());
    reveal_strlit("true");
    reveal_strlit("false");
    assert("true"@.len() == 4 && "false"@.len() == 5);
}

/// A call starts only where its opening tag stands, with white space or the end of the
/// tag behind its name.
pub proof fn law_call_starts_with_its_tag(s: Seq<char>, i: int, d: DsmlDialect)
    ensures
        invoke_starts_at(s, i, d) <==> {
            let n = d.invoke_open().len();
            &&& occurs_at(s, i, d.invoke_open())
            &&& i + n < s.len()
            &&& is_white(s[i + n]) || s[i + n] == '>'
        },
{
}

/// With doubled bars, a tag that closes itself carries the value of a parameter in its
/// attribute `string`, whether it is called `invoke` or `parameter`.
pub proof fn law_inline_parameter_has_its_string(
    s: Seq<char>,
    d: DsmlDialect,
    p: Tag,
    value: Seq<char>,
)
    requires
        d.double_bar,
        p.self_closing,
        p.name == "invoke"@ || p.name == "parameter"@,
        p.attrs.contains_key("string"@),
        p.attrs["string"@] == value,
    ensures
        parameter_value(s, d, p) == Some((json_string(value), p.end)),
{
}

/// In a value, a backslash before a quote or a backslash stands for that character, and any
/// other backslash for itself. Every other character stands for itself, and a quote ends the
/// value.
pub proof fn law_each_character_of_a_value_is_read(
    s: Seq<char>,
    i: int,
    rest: Seq<char>,
    end: int,
)
    requires
        0 <= i < s.len(),
    ensures
        s[i] == '"' ==> (quoted_value(s, i) matches Some((value, to)) && value.len() == 0 && to == i
            + 1),
        s[i] != '"' && s[i] != '\\' && quoted_value(s, i + 1) == Some((rest, end))
            ==> quoted_value(s, i) == Some((seq![s[i]] + rest, end)),
        s[i] == '\\' && i + 1 < s.len() && (s[i + 1] == '"' || s[i + 1] == '\\') && quoted_value(
            s,
            i + 2,
        ) == Some((rest, end)) ==> quoted_value(s, i) == Some((seq![s[i + 1]] + rest, end)),
        s[i] == '\\' && i + 1 < s.len() && s[i + 1] != '"' && s[i + 1] != '\\' && quoted_value(
            s,
            i + 1,
        ) == Some((rest, end)) ==> quoted_value(s, i) == Some((seq!['\\'] + rest, end)),
{
}

/// White space may stand around the equals sign of an attribute.
pub proof fn law_white_space_around_equals_sign_is_passed_over(
    s: Seq<char>,
    i: int,
    key: Seq<char>,
    before: Seq<char>,
    after: Seq<char>,
    value: Seq<char>,
)
    requires
        is_key(key),
        is_blank(before) && is_blank(after),
        occurs_at(
            s,
            i,
            key + (before + (seq!['='] + (after + (seq!['"'] + (escaped(value) + seq!['"']))))),
        ),
    ensures
        attribute(s, i) == Some(
            (
                key,
                value,
                (i + key.len() + before.len() + after.len() + escaped(value).len() + 3) as int,
            ),
        ),
{
    let quoted = escaped(value) + seq!['"'];
    let tail = seq!['"'] + quoted;
    let end = i + key.len();
    let equals = end + before.len();
    let quote = equals + 1 + after.len();
    lemma_stand_apart(s, i, key, before + (seq!['='] + (after + tail)));
    lemma_stand_apart(s, end, before, seq!['='] + (after + tail));
    lemma_stand_apart(s, equals, seq!['='], after + tail);
    lemma_stand_apart(s, equals + 1, after, tail);
    lemma_stand_apart(s, quote, seq!['"'], quoted);
    assert(s[equals + 0] == seq!['='][0]);
    assert(s[quote + 0] == seq!['"'][0]);
    assert forall|j: int| i <= j < end implies !ends_attr_name(#[trigger] s[j]) by {
        assert(s[i + (j - i)] == key[j - i]);
    }
    if before.len() > 0 {
        assert(s[end + 0] == before[0]);
        assert(is_white(before[0]));
    }
    lemma_scan_is(s, i, |c: char| ends_attr_name(c), end);
    lemma_gap_skipped(s, end, before);
    lemma_gap_skipped(s, equals + 1, after);
    law_escaped_value_is_read(s, quote + 1, value);
    assert(s.subrange(i, end) =~= key);
}

/// A tag ends with a bracket, before which white space may stand; with a slash before that,
/// it closes itself.
pub proof fn law_tag_is_closed(
    s: Seq<char>,
    i: int,
    name: Seq<char>,
    seen: Map<Seq<char>, Seq<char>>,
    before: Seq<char>,
    after: Seq<char>,
)
    requires
        is_blank(before) && is_blank(after),
    ensures
        occurs_at(s, i, before + seq!['>']) ==> tag_rest(s, i, name, seen) == Some(
            Tag {
                name,
                attrs: seen,
                self_closing: false,
                end: (i + before.len() + 1) as int,
            },
        ),
        occurs_at(s, i, before + (seq!['/'] + (after + seq!['>']))) ==> tag_rest(s, i, name, seen)
            == Some(
            Tag {
                name,
                attrs: seen,
                self_closing: true,
                end: (i + before.len() + after.len() + 2) as int,
            },
        ),
{
    let at = i + before.len();
    let close = at + 1 + after.len();
    if occurs_at(s, i, before + seq!['>']) {
        lemma_stand_apart(s, i, before, seq!['>']);
        assert(s[at + 0] == seq!['>'][0]);
        lemma_gap_skipped(s, i, before);
    }
    if occurs_at(s, i, before + (seq!['/'] + (after + seq!['>']))) {
        lemma_stand_apart(s, i, before, seq!['/'] + (after + seq!['>']));
        lemma_stand_apart(s, at, seq!['/'], after + seq!['>']);
        lemma_stand_apart(s, at + 1, after, seq!['>']);
        assert(s[at + 0] == seq!['/'][0]);
        assert(s[close + 0] == seq!['>'][0]);
        lemma_gap_skipped(s, i, before);
        lemma_gap_skipped(s, at + 1, after);
    }
}

/// A call that cannot be read and that no tag closes has no end.
pub proof fn law_call_that_nothing_closes_has_no_end(s: Seq<char>, i: int, d: DsmlDialect)
    requires
        open_tag(s, i, d) matches Some(tag) && tag.name == "invoke"@ && !tag.self_closing,
        forall|k: int| i <= k ==> !#[trigger] occurs_at(s, k, d.invoke_close()),
    ensures
        malformed_end(s, i, d) is None,
{
    lemma_open_tag_end(s, i, d);
    lemma_never_balanced(s, (open_tag(s, i, d)->0).end, d, 1);
}

proof fn lemma_never_balanced(s: Seq<char>, i: int, d: DsmlDialect, depth: int)
    requires
        forall|k: int| i <= k ==> !#[trigger] occurs_at(s, k, d.invoke_close()),
    ensures
        balanced_end(s, i, d, depth) is None,
    decreases s.len() - i,
{
    if 0 <= i < s.len() {
        lemma_find_from(s, i, d.invoke_close());
        lemma_find_from(s, i, d.marker());
        if let Some(open) = find_from(s, i, d.marker()) {
            lemma_open_tag_end(s, open, d);
            if let Some(tag) = open_tag(s, open, d) {
                let deeper = if tag.opens_invoke() {
                    depth + 1
                } else {
                    depth
                };
                lemma_never_balanced(s, tag.end, d, deeper);
            }
        }
    }
}

/// A tag that opens no call, because it closes itself, is passed over where it stands for
/// one.
pub proof fn law_tag_that_opens_nothing_is_passed_over(s: Seq<char>, i: int, d: DsmlDialect)
    requires
        open_tag(s, i, d) matches Some(tag) && tag.self_closing,
    ensures
        invocation(s, i, d) is None,
        malformed_end(s, i, d) == Some((open_tag(s, i, d)->0).end),
{
}

} // verus!
