//! Healing of streamed text content.

use super::grammar::{double_bar, healed, lemma_markup_lengths, single_bar, Call, DsmlDialect};
use super::parser::{calls_seen, parse_leaked_chars, DsmlToolCall};
use crate::tags::{
    find_first_tag, first_tag, held, lemma_first_tag_from, lemma_tag_len_at, longest_held, words,
};
use crate::text::{extend_with, string_of};
use vstd::prelude::*;
use vstd::string::*;

verus! {

/// The markers of both dialects.
pub open spec fn markers() -> Seq<Seq<char>> {
    seq![double_bar().marker(), single_bar().marker()]
}

/// The state of a filter: the text that it withholds, whether a marker has been
/// seen, and whether it filters at all.
#[verifier::ext_equal]
pub struct FilterState {
    pub pending: Seq<char>,
    pub in_dsml: bool,
    pub enabled: bool,
}

/// The state of a filter that has seen nothing.
pub open spec fn fresh_filter(enabled: bool) -> FilterState {
    FilterState { pending: Seq::empty(), in_dsml: false, enabled }
}

/// What a filter in state `st` does with a further piece of text: its next state,
/// and the text that is safe to emit.
///
/// Before a marker has been seen, everything is emitted but the longest end that
/// could still grow into one. From a marker on, everything is withheld.
pub open spec fn filter_push(st: FilterState, delta: Seq<char>) -> (FilterState, Seq<char>) {
    let pending = st.pending + delta;
    if !st.enabled {
        (st, delta)
    } else if st.in_dsml {
        (FilterState { pending, ..st }, Seq::empty())
    } else {
        match first_tag(pending, markers()) {
            Some((at, _)) => (
                FilterState { pending: pending.skip(at), in_dsml: true, ..st },
                pending.take(at),
            ),
            None => {
                let emit = pending.len() - held(pending, markers());
                (FilterState { pending: pending.skip(emit), ..st }, pending.take(emit))
            },
        }
    }
}

/// What a filter in state `st` gives at the end of the stream: the remaining
/// visible text and the healed calls. Markup that does not heal is given back as
/// text.
pub open spec fn filter_finish(st: FilterState) -> (Seq<char>, Seq<Call>) {
    match healed(st.pending) {
        Some((cleaned, calls)) if st.in_dsml => (cleaned, calls),
        _ => (st.pending, Seq::empty()),
    }
}

/// What a filter in state `st` does with several pieces of text: its state after
/// them, and the text that it has emitted.
pub open spec fn filter_run(st: FilterState, deltas: Seq<Seq<char>>) -> (FilterState, Seq<char>)
    decreases deltas.len(),
{
    if deltas.len() == 0 {
        (st, Seq::empty())
    } else {
        let (before, emitted) = filter_run(st, deltas.drop_last());
        let (after, more) = filter_push(before, deltas.last());
        (after, emitted + more)
    }
}

/// The dialect whose marker appears earliest in `text`, and where, if any does.
pub(crate) fn detect_dialect(text: &[char]) -> (r: Option<(DsmlDialect, usize)>)
    ensures
        match r {
            Some((dialect, at)) => first_tag(text@, markers()) == Some(
                (at as int, dialect.marker().len() as int),
            ) && at <= text@.len(),
            None => first_tag(text@, markers()) is None,
        },
{
    let double: DsmlDialect = DsmlDialect { double_bar: true };
    let single: DsmlDialect = DsmlDialect { double_bar: false };
    let tags: [&str; 2] = [double.marker_text(), single.marker_text()];
    proof {
        assert(words(tags@) =~= markers());
    }
    match find_first_tag(text, &tags) {
        Some((at, width)) => {
            proof {
                lemma_markup_lengths(double);
                lemma_markup_lengths(single);
                lemma_first_tag_from(text@, 0, markers());
                lemma_tag_len_at(text@, at as int, markers());
            }
            if width == 9 {
                Some((double, at))
            } else {
                Some((single, at))
            }
        },
        None => None,
    }
}

/// The length of the longest end of `text` that is the beginning of a marker of
/// either dialect, short of the whole marker.
///
/// Both dialects count: `<｜` begins either marker, and to withhold less than the
/// longer one would emit the first bar of a double-bar marker before the rest of
/// it arrives.
fn longest_marker_prefix_suffix(text: &[char]) -> (r: usize)
    ensures
        r == held(text@, markers()),
        r <= text@.len(),
{
    let double: DsmlDialect = DsmlDialect { double_bar: true };
    let single: DsmlDialect = DsmlDialect { double_bar: false };
    let tags: [&str; 2] = [double.marker_text(), single.marker_text()];
    proof {
        assert(words(tags@) =~= markers());
    }
    longest_held(text, &tags)
}

/// Incremental DSML filter for streamed text content.
///
/// Feed content deltas through [`DsmlStreamFilter::push`]; it gives the text that
/// is safe to emit downstream. Text that could be (part of) a marker is
/// withheld. Once a marker is confirmed the rest of the stream is buffered, and
/// [`DsmlStreamFilter::finish`] gives the cleaned leftover text and the healed
/// tool calls.
#[derive(Debug)]
pub struct DsmlStreamFilter {
    pending: Vec<char>,
    in_dsml: bool,
    enabled: bool,
}

impl View for DsmlStreamFilter {
    type V = FilterState;

    closed spec fn view(&self) -> FilterState {
        FilterState { pending: self.pending@, in_dsml: self.in_dsml, enabled: self.enabled }
    }
}

impl Default for DsmlStreamFilter {
    /// A filter that heals.
    fn default() -> (r: Self)
        ensures
            r@ == fresh_filter(true),
    {
        Self::new(true)
    }
}

impl DsmlStreamFilter {
    /// A filter that heals when `enabled`, or passes all text through untouched
    /// when the `dsml_heal` quirk is disabled.
    pub fn new(enabled: bool) -> (r: Self)
        ensures
            r@ == fresh_filter(enabled),
    {
        let pending: Vec<char> = Vec::new();
        assert(pending@ =~= Seq::empty());
        DsmlStreamFilter { pending, in_dsml: false, enabled }
    }

    /// Appends a content delta; gives the portion that is safe to emit now.
    pub fn push(&mut self, delta: &str) -> (r: String)
        ensures
            (final(self)@, r@) == filter_push(old(self)@, delta@),
    {
        if !self.enabled {
            return delta.to_owned();
        }
        extend_with(&mut self.pending, delta);
        if self.in_dsml {
            return String::new();
        }
        match detect_dialect(self.pending.as_slice()) {
            Some((_, start)) => {
                self.in_dsml = true;
                self.release(start)
            },
            None => {
                let hold: usize = longest_marker_prefix_suffix(self.pending.as_slice());
                let emit: usize = self.pending.len() - hold;
                self.release(emit)
            },
        }
    }

    /// Takes the first `upto` characters out of what is withheld.
    fn release(&mut self, upto: usize) -> (r: String)
        requires
            upto <= old(self)@.pending.len(),
        ensures
            r@ == old(self)@.pending.take(upto as int),
            final(self)@ == (FilterState {
                pending: old(self)@.pending.skip(upto as int),
                ..old(self)@
            }),
    {
        let ghost before = self.pending@;
        let emit: String = string_of(self.pending.as_slice(), 0, upto);
        let rest: Vec<char> = self.pending.split_off(upto);
        self.pending = rest;
        proof {
            assert(before.subrange(0, upto as int) =~= before.take(upto as int));
            assert(before.subrange(upto as int, before.len() as int) =~= before.skip(upto as int));
        }
        emit
    }

    /// Consumes the filter at the end of the stream. Gives any remaining visible
    /// text and the tool calls healed from buffered markup. Incomplete or
    /// unparseable markup is passed through as text, so that nothing is silently
    /// dropped.
    pub fn finish(self) -> (r: (String, Vec<DsmlToolCall>))
        ensures
            (r.0@, calls_seen(r.1@)) == filter_finish(self@),
    {
        if self.in_dsml {
            match parse_leaked_chars(self.pending.as_slice()) {
                Some(found) => {
                    return found;
                },
                None => {},
            }
        }
        let rest: String = string_of(self.pending.as_slice(), 0, self.pending.len());
        let calls: Vec<DsmlToolCall> = Vec::new();
        proof {
            assert(self.pending@.subrange(0, self.pending@.len() as int) =~= self.pending@);
            assert(calls_seen(calls@) =~= Seq::<Call>::empty());
        }
        (rest, calls)
    }
}

} // verus!
