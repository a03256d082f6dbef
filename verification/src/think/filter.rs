//! Splitting streamed text into reasoning and visible text.

use crate::tags::{
    find_first_tag, first_tag, held, lemma_first_tag_from, lemma_held, longest_held, words,
};
use crate::text::{
    chars_of, extend_with, is_blank, is_white, lemma_trim_start, lemma_trim_start_blank,
    skip_whitespace, string_of, trim_end, trim_start, trimmed_end, white_between,
};
use vstd::prelude::*;
use vstd::string::*;

verus! {

/// The tags that open a reasoning block.
pub open spec fn open_tags() -> Seq<Seq<char>> {
    seq!["<thinking>"@, "<think>"@, "◁think▷"@]
}

/// The tags that close a reasoning block.
pub open spec fn close_tags() -> Seq<Seq<char>> {
    seq!["</thinking>"@, "</think>"@, "◁/think▷"@]
}

/// The tags that open a block and those that close one.
pub open spec fn all_tags() -> Seq<Seq<char>> {
    open_tags() + close_tags()
}

/// Text on the two channels: reasoning, and the visible message.
#[verifier::ext_equal]
pub struct Channels {
    pub reasoning: Seq<char>,
    pub text: Seq<char>,
}

impl Channels {
    /// No text on either channel.
    pub open spec fn none() -> Channels {
        Channels { reasoning: Seq::empty(), text: Seq::empty() }
    }

    /// The channels with `s` added to the reasoning.
    pub open spec fn think(self, s: Seq<char>) -> Channels {
        Channels { reasoning: self.reasoning + s, ..self }
    }

    /// The channels with `s` added to the visible text.
    pub open spec fn say(self, s: Seq<char>) -> Channels {
        Channels { text: self.text + s, ..self }
    }

    /// The channels with those of `next` added.
    pub open spec fn followed_by(self, next: Channels) -> Channels {
        Channels { reasoning: self.reasoning + next.reasoning, text: self.text + next.text }
    }
}

/// The state of a filter.
#[verifier::ext_equal]
pub struct ThinkState {
    /// The text that is withheld.
    pub pending: Seq<char>,
    /// How much of it is text of earlier deltas that awaits the next one.
    pub lead: int,
    /// Whether a reasoning block is open.
    pub in_think: bool,
    /// Whether visible text has been emitted.
    pub emitted_text: bool,
    /// Whether think markup has been seen.
    pub fired: bool,
    /// Whether the filter splits at all.
    pub enabled: bool,
}

impl ThinkState {
    /// The state once the first `n` withheld characters have been dealt with.
    pub open spec fn past(self, n: int) -> ThinkState {
        ThinkState { pending: self.pending.skip(n), lead: 0, ..self }
    }

    /// The first `n` withheld characters as visible text. White space that leads
    /// the visible text is left out.
    pub open spec fn visible(self, n: int) -> Seq<char> {
        if self.emitted_text {
            self.pending.take(n)
        } else {
            trim_start(self.pending.take(n))
        }
    }

    /// The state once the first `n` withheld characters have been emitted as
    /// visible text.
    pub open spec fn said(self, n: int) -> ThinkState {
        ThinkState {
            emitted_text: self.emitted_text || self.visible(n).len() > 0,
            ..self.past(n)
        }
    }

    /// Whether the filter may still find that all text so far was thought: no tag has
    /// been seen, and no visible text has been emitted.
    pub open spec fn undecided(self) -> bool {
        self.enabled && !self.emitted_text && !self.fired
    }

    /// The first tag that opens a block.
    pub open spec fn open_at(self) -> Option<(int, int)> {
        first_tag(self.pending, open_tags())
    }

    /// The first tag that closes a block. Once visible text has been emitted it
    /// has no meaning outside a block.
    pub open spec fn close_at(self) -> Option<(int, int)> {
        if self.in_think || !self.emitted_text {
            first_tag(self.pending, close_tags())
        } else {
            None
        }
    }

    /// Whether the first tag that has a meaning opens a block.
    pub open spec fn opens_first(self) -> bool {
        match (self.open_at(), self.close_at()) {
            (Some((open, _)), Some((close, _))) => open < close,
            (Some(_), None) => true,
            (None, _) => false,
        }
    }

    /// Whether the tag of length `n` at `at` stands in a sentence: the withheld text
    /// is a single line, and has words before the tag and behind it, each with a
    /// plain space between. The words before it do not end a sentence.
    pub open spec fn in_sentence(self, at: int, n: int) -> bool {
        let before = self.pending.take(at);
        let after = self.pending.skip(at + n);
        &&& is_one_line(self.pending)
        &&& !is_blank(before) && before.last() == ' ' && !ends_sentence(before)
        &&& !is_blank(after) && after[0] == ' '
    }

    /// Whether only white space stands between the text of earlier deltas and
    /// position `at`.
    pub open spec fn nothing_new_before(self, at: int) -> bool {
        forall|i: int| self.lead <= i < at ==> is_white(#[trigger] self.pending[i])
    }
}

/// Whether `raw` holds no tag, or has visible text before its first one, which opens a
/// block.
pub open spec fn speaks_first(raw: Seq<char>) -> bool {
    match (first_tag(raw, open_tags()), first_tag(raw, close_tags())) {
        (Some((at, _)), Some((close, _))) => at < close && !is_blank(raw.take(at)),
        (Some((at, _)), None) => !is_blank(raw.take(at)),
        (None, Some(_)) => false,
        (None, None) => true,
    }
}

/// Whether `c` ends a sentence.
pub open spec fn is_full_stop(c: char) -> bool {
    c == '.' || c == '!' || c == '?' || c == '…' || c == '。' || c == '！' || c == '？'
}

/// Whether a sentence ends with `s`, but for white space behind it.
pub open spec fn ends_sentence(s: Seq<char>) -> bool {
    trim_end(s).len() > 0 && is_full_stop(trim_end(s).last())
}

/// Whether `s` holds no line break.
pub open spec fn is_one_line(s: Seq<char>) -> bool {
    forall|i: int| 0 <= i < s.len() ==> #[trigger] s[i] != '\n' && s[i] != '\r'
}

/// The state of a filter that has seen nothing.
pub open spec fn fresh_think(enabled: bool) -> ThinkState {
    ThinkState {
        pending: Seq::empty(),
        lead: 0,
        in_think: false,
        emitted_text: false,
        fired: false,
        enabled,
    }
}

/// What a filter in state `st` makes of the text that it withholds, when `out` is
/// on the channels already.
///
/// Inside a block, text is reasoning up to the tag that closes it. Outside, text
/// up to a tag that opens a block is visible.
///
/// A tag that closes a block where none is open ends an implicit one, whose
/// opening tag the prompt held, if no visible text has been emitted: the text
/// before it is reasoning. Only a tag that stands in a sentence is part of the
/// visible text.
///
/// Where no tag is left, everything is emitted but the longest end that could
/// still grow into a tag. As long as no tag has been seen, the first text to
/// become visible is withheld until more text follows it.
pub open spec fn think_drain(st: ThinkState, out: Channels) -> (ThinkState, Channels)
    decreases st.pending.len(),
{
    if st.in_think {
        match first_tag(st.pending, close_tags()) {
            Some((at, n)) => {
                proof {
                    lemma_first_tag_from(st.pending, 0, close_tags());
                }
                think_drain(
                    ThinkState { in_think: false, ..st.past(at + n) },
                    out.think(st.pending.take(at)),
                )
            },
            None => {
                let keep = st.pending.len() - held(st.pending, close_tags());
                (st.past(keep), out.think(st.pending.take(keep)))
            },
        }
    } else {
        proof {
            lemma_first_tag_from(st.pending, 0, open_tags());
            lemma_first_tag_from(st.pending, 0, close_tags());
        }
        match (st.open_at(), st.close_at()) {
            (Some((at, n)), _) if st.opens_first() => think_drain(
                ThinkState {
                    pending: st.pending.skip(at + n),
                    in_think: true,
                    fired: true,
                    ..st.said(at)
                },
                out.say(st.visible(at)),
            ),
            (_, Some((at, n))) => if st.in_sentence(at, n) {
                think_drain(st.said(at + n), out.say(st.visible(at + n)))
            } else {
                think_drain(
                    ThinkState { fired: true, ..st.past(at + n) },
                    out.think(st.pending.take(at)),
                )
            },
            _ => {
                let keep = st.pending.len() - held(st.pending, all_tags());
                if st.emitted_text || is_blank(st.pending.take(keep)) {
                    (st.past(keep), out.say(st.visible(keep)))
                } else if !st.fired && (st.lead == 0 || st.nothing_new_before(keep)) {
                    (ThinkState { lead: keep, ..st }, out)
                } else {
                    (st.said(keep), out.say(st.visible(keep)))
                }
            },
        }
    }
}

/// What a filter in state `st` does with a further piece of text: its next state,
/// and the text that is safe to emit on each channel.
pub open spec fn think_push(st: ThinkState, delta: Seq<char>) -> (ThinkState, Channels) {
    if st.enabled {
        think_drain(ThinkState { pending: st.pending + delta, ..st }, Channels::none())
    } else {
        (st, Channels::none().say(delta))
    }
}

/// What a filter in state `st` gives at the end of the stream. What an open block
/// holds is reasoning.
pub open spec fn think_finish(st: ThinkState) -> Channels {
    if st.in_think {
        Channels::none().think(st.pending)
    } else {
        Channels::none().say(st.visible(st.pending.len() as int))
    }
}

/// What a filter in state `st` does with several pieces of text: its state after
/// them, and the text that it has emitted on each channel.
pub open spec fn think_run(st: ThinkState, deltas: Seq<Seq<char>>) -> (ThinkState, Channels)
    decreases deltas.len(),
{
    if deltas.len() == 0 {
        (st, Channels::none())
    } else {
        let (before, emitted) = think_run(st, deltas.drop_last());
        let (after, more) = think_push(before, deltas.last());
        (after, emitted.followed_by(more))
    }
}

/// All that a fresh filter gives of a stream that comes in the given pieces.
pub open spec fn think_split(deltas: Seq<Seq<char>>) -> Channels {
    let (st, emitted) = think_run(fresh_think(true), deltas);
    emitted.followed_by(think_finish(st))
}

/// The two channels a content delta can be split across.
#[derive(Debug, PartialEq, Eq)]
pub struct ThinkSplit {
    /// Text that belongs on the reasoning channel.
    pub reasoning: String,
    /// Text that belongs in the visible assistant message.
    pub text: String,
}

impl View for ThinkSplit {
    type V = Channels;

    open spec fn view(&self) -> Channels {
        Channels { reasoning: self.reasoning@, text: self.text@ }
    }
}

impl Default for ThinkSplit {
    /// No text on either channel.
    fn default() -> (r: Self)
        ensures
            r@ == Channels::none(),
    {
        ThinkSplit { reasoning: String::new(), text: String::new() }
    }
}

impl ThinkSplit {
    /// Whether there is no text on either channel.
    pub fn is_empty(&self) -> (r: bool)
        ensures
            r == (self@ == Channels::none()),
    {
        let r: bool = self.reasoning.as_str().is_empty() && self.text.as_str().is_empty();
        proof {
            if r {
                assert(self@ =~= Channels::none());
            }
        }
        r
    }
}

/// The tags that open a reasoning block. `◁think▷` is Kimi's variant.
fn open_tag_list() -> (r: [&'static str; 3])
    ensures
        words(r@) == open_tags(),
{
    let r: [&'static str; 3] = ["<thinking>", "<think>", "◁think▷"];
    assert(words(r@) =~= open_tags());
    r
}

/// The tags that close a reasoning block.
fn close_tag_list() -> (r: [&'static str; 3])
    ensures
        words(r@) == close_tags(),
{
    let r: [&'static str; 3] = ["</thinking>", "</think>", "◁/think▷"];
    assert(words(r@) =~= close_tags());
    r
}

/// The tags that open a block and those that close one.
fn all_tag_list() -> (r: [&'static str; 6])
    ensures
        words(r@) == all_tags(),
{
    let r: [&'static str; 6] = [
        "<thinking>",
        "<think>",
        "◁think▷",
        "</thinking>",
        "</think>",
        "◁/think▷",
    ];
    assert(words(r@) =~= all_tags());
    r
}

/// Whether `raw` holds no tag, or has visible text before its first one, which opens a
/// block.
pub(crate) fn text_comes_first(raw: &[char]) -> (r: bool)
    ensures
        r == speaks_first(raw@),
{
    proof {
        lemma_first_tag_from(raw@, 0, open_tags());
        lemma_first_tag_from(raw@, 0, close_tags());
    }
    let open: Option<(usize, usize)> = find_first_tag(raw, &open_tag_list());
    let close: Option<(usize, usize)> = find_first_tag(raw, &close_tag_list());
    match (open, close) {
        (Some((at, _)), _) => {
            let blank: bool = white_between(raw, 0, at);
            proof {
                let front = raw@.take(at as int);
                if is_blank(front) {
                    assert forall|i: int| 0 <= i < at implies is_white(#[trigger] raw@[i]) by {
                        assert(front[i] == raw@[i]);
                    }
                }
                assert(blank == is_blank(front));
            }
            let first: bool = match close {
                Some((c, _)) => at < c,
                None => true,
            };
            first && !blank
        },
        (None, Some(_)) => false,
        (None, None) => true,
    }
}

/// Whether `c` ends a sentence.
fn ends_here(c: char) -> (r: bool)
    ensures
        r == is_full_stop(c),
{
    c == '.' || c == '!' || c == '?' || c == '…' || c == '。' || c == '！' || c == '？'
}

/// Whether `text` contains any think marker at all.
pub fn contains_think_markup(text: &str) -> (r: bool)
    ensures
        r == (first_tag(text@, all_tags()) is Some),
{
    let chars: Vec<char> = chars_of(text);
    find_first_tag(chars.as_slice(), &all_tag_list()).is_some()
}

/// Incremental `<think>` splitter for streamed text content.
///
/// Feed content deltas through [`ThinkStreamFilter::push`]; it gives the
/// reasoning and visible text that are safe to emit now. Text that could be
/// (part of) a tag is withheld until the next delta disambiguates it, so a tag
/// split across chunks (`"<thi"` then `"nk>"`) is still recognized. So is the
/// first visible text, while no tag has been seen: a tag that closes a block right
/// after it makes it reasoning.
#[derive(Debug)]
pub struct ThinkStreamFilter {
    pending: Vec<char>,
    lead: usize,
    in_think: bool,
    emitted_text: bool,
    fired: bool,
    enabled: bool,
}

impl View for ThinkStreamFilter {
    type V = ThinkState;

    closed spec fn view(&self) -> ThinkState {
        ThinkState {
            pending: self.pending@,
            lead: self.lead as int,
            in_think: self.in_think,
            emitted_text: self.emitted_text,
            fired: self.fired,
            enabled: self.enabled,
        }
    }
}

impl Default for ThinkStreamFilter {
    /// A filter that splits.
    fn default() -> (r: Self)
        ensures
            r@ == fresh_think(true),
    {
        Self::new(true)
    }
}

impl ThinkStreamFilter {
    /// A filter that splits when `enabled`, or passes all text through untouched
    /// as visible text when the `think_tags` quirk is disabled.
    pub fn new(enabled: bool) -> (r: Self)
        ensures
            r@ == fresh_think(enabled),
    {
        let pending: Vec<char> = Vec::new();
        assert(pending@ =~= Seq::empty());
        ThinkStreamFilter {
            pending,
            lead: 0,
            in_think: false,
            emitted_text: false,
            fired: false,
            enabled,
            }
    }

    /// Whether any think markup was actually seen.
    pub fn fired(&self) -> (r: bool)
        ensures
            r == self@.fired,
    {
        self.fired
    }

    /// Whether the filter may still find that all text so far was thought.
    pub fn is_undecided(&self) -> (r: bool)
        ensures
            r == self@.undecided(),
    {
        self.enabled && !self.emitted_text && !self.fired
    }

    /// Appends a content delta; gives the portions safe to emit now.
    pub fn push(&mut self, delta: &str) -> (r: ThinkSplit)
        ensures
            (final(self)@, r@) == think_push(old(self)@, delta@),
    {
        let mut out: ThinkSplit = ThinkSplit::default();
        if !self.enabled {
            out.text.append(delta);
            assert(out@ =~= Channels::none().say(delta@));
            return out;
        }
        extend_with(&mut self.pending, delta);
        let ghost start = self@;
        let ghost result = think_drain(start, Channels::none());
        loop
            invariant_except_break
                result == think_drain(self@, out@),
            ensures
                result == (self@, out@),
            decreases self@.pending.len(),
        {
            proof {
                lemma_first_tag_from(self@.pending, 0, open_tags());
                lemma_first_tag_from(self@.pending, 0, close_tags());
                lemma_held(self@.pending, close_tags());
                lemma_held(self@.pending, all_tags());
            }
            if self.in_think {
                match find_first_tag(self.pending.as_slice(), &close_tag_list()) {
                    Some((at, width)) => {
                        self.emit_reasoning(&mut out, at);
                        self.discard(at + width);
                        self.in_think = false;
                        continue;
                    },
                    None => {
                        let hold: usize = longest_held(
                            self.pending.as_slice(),
                            &close_tag_list(),
                        );
                        let keep: usize = self.pending.len() - hold;
                        self.emit_reasoning(&mut out, keep);
                        self.discard(keep);
                        break;
                    },
                }
            }
            let open: Option<(usize, usize)> = find_first_tag(
                self.pending.as_slice(),
                &open_tag_list(),
            );
            let close: Option<(usize, usize)> = if self.emitted_text {
                None
            } else {
                find_first_tag(self.pending.as_slice(), &close_tag_list())
            };
            let open_first: bool = match (open, close) {
                (Some((at, _)), Some((c, _))) => at < c,
                (Some(_), None) => true,
                (None, _) => false,
            };
            match (open, close) {
                (Some((at, width)), _) if open_first => {
                    self.emit_text(&mut out, at);
                    self.discard(at + width);
                    self.in_think = true;
                    self.fired = true;
                },
                (_, Some((at, width))) => {
                    if self.tag_in_sentence(at, width) {
                        self.emit_text(&mut out, at + width);
                        self.discard(at + width);
                    } else {
                        // The prompt held the opening tag: everything up to the
                        // stray closing tag is reasoning.
                        self.emit_reasoning(&mut out, at);
                        self.discard(at + width);
                        self.fired = true;
                    }
                },
                _ => {
                    let hold: usize = longest_held(self.pending.as_slice(), &all_tag_list());
                    let keep: usize = self.pending.len() - hold;
                    let nothing: bool = white_between(self.pending.as_slice(), 0, keep);
                    proof {
                        let front = self@.pending.take(keep as int);
                        if is_blank(front) {
                            assert forall|i: int| 0 <= i < keep implies is_white(
                                #[trigger] self@.pending[i],
                            ) by {
                                assert(front[i] == self@.pending[i]);
                            }
                        }
                        assert(nothing == is_blank(front));
                        lemma_trim_start_blank(front);
                    }
                    if !self.emitted_text && !nothing && !self.fired && (self.lead == 0
                        || white_between(self.pending.as_slice(), self.lead, keep)) {
                        self.lead = keep;
                    } else {
                        self.emit_text(&mut out, keep);
                        self.discard(keep);
                    }
                    break;
                },
            }
        }
        out
    }

    /// Consumes the filter at the end of the stream, giving anything still
    /// withheld. An unterminated block is reasoning, not text.
    pub fn finish(self) -> (r: ThinkSplit)
        ensures
            r@ == think_finish(self@),
    {
        let mut this: ThinkStreamFilter = self;
        let mut out: ThinkSplit = ThinkSplit::default();
        let len: usize = this.pending.len();
        if this.in_think {
            this.emit_reasoning(&mut out, len);
            assert(this@.pending.take(len as int) =~= this@.pending);
        } else {
            this.emit_text(&mut out, len);
        }
        out
    }

    /// Whether the tag of length `width` at `at` stands in a sentence.
    fn tag_in_sentence(&self, at: usize, width: usize) -> (r: bool)
        requires
            0 < width,
            at + width <= self@.pending.len(),
        ensures
            r == self@.in_sentence(at as int, width as int),
    {
        let text: &[char] = self.pending.as_slice();
        let len: usize = text.len();
        let end: usize = at + width;
        let mut i: usize = 0;
        while i < len
            invariant
                i <= len == text@.len(),
                text@ == self@.pending,
                forall|j: int| 0 <= j < i ==> #[trigger] text@[j] != '\n' && text@[j] != '\r',
            decreases len - i,
        {
            if text[i] == '\n' || text[i] == '\r' {
                return false;
            }
            i = i + 1;
        }
        let words_before: bool = !white_between(text, 0, at);
        let words_after: bool = !white_between(text, end, len);
        proof {
            let before = self@.pending.take(at as int);
            let after = self@.pending.skip(end as int);
            assert(is_blank(before) == !words_before) by {
                if is_blank(before) {
                    assert forall|j: int| 0 <= j < at implies is_white(#[trigger] text@[j]) by {
                        assert(before[j] == text@[j]);
                    }
                }
            }
            assert(is_blank(after) == !words_after) by {
                if is_blank(after) {
                    assert forall|j: int| end <= j < len implies is_white(#[trigger] text@[j]) by {
                        assert(after[j - end] == text@[j]);
                    }
                }
            }
        }
        let stop: usize = trimmed_end(text, 0, at);
        let ended: bool = stop > 0 && ends_here(text[stop - 1]);
        proof {
            let before = self@.pending.take(at as int);
            assert(text@.subrange(0, at as int) =~= before);
            assert(trim_end(before) =~= before.take(stop as int));
            assert(ended == ends_sentence(before));
        }
        words_before && words_after && !ended && text[at - 1] == ' ' && text[end] == ' '
    }

    /// Emits the first `upto` withheld characters as reasoning.
    fn emit_reasoning(&self, out: &mut ThinkSplit, upto: usize)
        requires
            upto <= self@.pending.len(),
        ensures
            final(out)@ == old(out)@.think(self@.pending.take(upto as int)),
    {
        let chunk: String = string_of(self.pending.as_slice(), 0, upto);
        assert(chunk@ =~= self@.pending.take(upto as int));
        out.reasoning.append(chunk.as_str());
    }

    /// Emits the first `upto` withheld characters as visible text, without the
    /// leading white space that chat templates leave after a closing tag.
    fn emit_text(&mut self, out: &mut ThinkSplit, upto: usize)
        requires
            upto <= old(self)@.pending.len(),
        ensures
            final(out)@ == old(out)@.say(old(self)@.visible(upto as int)),
            final(self)@ == (ThinkState {
                emitted_text: old(self)@.said(upto as int).emitted_text,
                ..old(self)@
            }),
    {
        let from: usize = if self.emitted_text {
            0
        } else {
            self.leading_white(upto)
        };
        let chunk: String = string_of(self.pending.as_slice(), from, upto);
        proof {
            if self.emitted_text {
                assert(chunk@ =~= self@.pending.take(upto as int));
            }
        }
        if from < upto {
            self.emitted_text = true;
            out.text.append(chunk.as_str());
        } else {
            assert(out@.text + chunk@ =~= out@.text);
        }
    }

    /// How much of the first `upto` withheld characters is leading white space.
    fn leading_white(&self, upto: usize) -> (r: usize)
        requires
            upto <= self@.pending.len(),
        ensures
            r <= upto,
            self@.pending.subrange(r as int, upto as int) == trim_start(
                self@.pending.take(upto as int),
            ),
    {
        let front: &[char] = vstd::slice::slice_subrange(self.pending.as_slice(), 0, upto);
        let r: usize = skip_whitespace(front, 0);
        proof {
            assert(front@ =~= self@.pending.take(upto as int));
            lemma_trim_start(front@);
            assert(front@.skip(r as int) =~= self@.pending.subrange(r as int, upto as int));
        }
        r
    }

    /// Drops the first `upto` withheld characters.
    fn discard(&mut self, upto: usize)
        requires
            upto <= old(self)@.pending.len(),
        ensures
            final(self)@ == old(self)@.past(upto as int),
    {
        let ghost before = self.pending@;
        let rest: Vec<char> = self.pending.split_off(upto);
        self.pending = rest;
        self.lead = 0;
        assert(self.pending@ =~= before.skip(upto as int));
    }
}

} // verus!
