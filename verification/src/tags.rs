//! Finding tags in text that arrives in pieces.
//!
//! A text is searched for the first of several tags. While more text may still
//! come, the end of a text can be the beginning of a tag, and has to be held
//! back until it is known.

pub mod growth;

use crate::text::{chars_of, occurs_at, stands_at};
use vstd::prelude::*;

verus! {

/// The views of a list of tags.
pub open spec fn words(tags: Seq<&str>) -> Seq<Seq<char>> {
    Seq::new(tags.len(), |i: int| tags[i]@)
}

/// The length of the longest of `tags` that stands in `s` at `i`, or zero where
/// none does.
pub open spec fn tag_len_at(s: Seq<char>, i: int, tags: Seq<Seq<char>>) -> int
    decreases tags.len(),
{
    if tags.len() == 0 {
        0
    } else {
        let rest = tag_len_at(s, i, tags.drop_last());
        if occurs_at(s, i, tags.last()) && tags.last().len() > rest {
            tags.last().len() as int
        } else {
            rest
        }
    }
}

/// The first of `tags` that starts in `s` at or after `from`: its position and
/// its length. Where several start at the same position it is the longest.
pub open spec fn first_tag_from(s: Seq<char>, from: int, tags: Seq<Seq<char>>) -> Option<(int, int)>
    decreases s.len() - from,
{
    if from >= s.len() {
        None
    } else if tag_len_at(s, from, tags) > 0 {
        Some((from, tag_len_at(s, from, tags)))
    } else {
        first_tag_from(s, from + 1, tags)
    }
}

/// The first of `tags` in `s`: its position and its length.
pub open spec fn first_tag(s: Seq<char>, tags: Seq<Seq<char>>) -> Option<(int, int)> {
    first_tag_from(s, 0, tags)
}

/// Whether the last `k` characters of `s` are the beginning of one of `tags`,
/// short of the whole tag.
pub open spec fn ends_in_part(s: Seq<char>, k: int, tags: Seq<Seq<char>>) -> bool {
    exists|t: int|
        #![trigger tags[t]]
        {
            &&& 0 <= t < tags.len()
            &&& 0 < k < tags[t].len()
            &&& occurs_at(s, s.len() - k, tags[t].take(k))
        }
}

/// The greatest length, up to `k`, of an end of `s` that is the beginning of one
/// of `tags`.
pub open spec fn held_up_to(s: Seq<char>, k: int, tags: Seq<Seq<char>>) -> int
    decreases k,
{
    if k <= 0 {
        0
    } else if ends_in_part(s, k, tags) {
        k
    } else {
        held_up_to(s, k - 1, tags)
    }
}

/// The length of the longest end of `s` that is the beginning of one of `tags`,
/// short of the whole tag.
pub open spec fn held(s: Seq<char>, tags: Seq<Seq<char>>) -> int {
    held_up_to(s, s.len() as int, tags)
}

// ---------------------------------------------------------------------------
// Facts about the functions above
// ---------------------------------------------------------------------------

/// `tag_len_at` is the greatest length of a tag that stands there.
pub proof fn lemma_tag_len_at(s: Seq<char>, i: int, tags: Seq<Seq<char>>)
    ensures
        tag_len_at(s, i, tags) >= 0,
        forall|t: int|
            0 <= t < tags.len() && occurs_at(s, i, #[trigger] tags[t]) ==> tags[t].len()
                <= tag_len_at(s, i, tags),
        tag_len_at(s, i, tags) > 0 ==> exists|t: int|
            #![trigger tags[t]]
            0 <= t < tags.len() && occurs_at(s, i, tags[t]) && tags[t].len() == tag_len_at(
                s,
                i,
                tags,
            ),
    decreases tags.len(),
{
    if tags.len() > 0 {
        let front = tags.drop_last();
        lemma_tag_len_at(s, i, front);
        let rest = tag_len_at(s, i, front);
        assert forall|t: int|
            0 <= t < tags.len() && occurs_at(s, i, #[trigger] tags[t]) implies tags[t].len()
            <= tag_len_at(s, i, tags) by {
            if t < front.len() {
                assert(front[t] == tags[t]);
            }
        }
        if occurs_at(s, i, tags.last()) && tags.last().len() > rest {
            assert(tags[tags.len() - 1] == tags.last());
        } else if rest > 0 {
            let t = choose|t: int|
                #![trigger front[t]]
                0 <= t < front.len() && occurs_at(s, i, front[t]) && front[t].len() == rest;
            assert(tags[t] == front[t]);
        }
    }
}

/// `first_tag_from` gives the least position at which a tag stands.
pub proof fn lemma_first_tag_from(s: Seq<char>, from: int, tags: Seq<Seq<char>>)
    requires
        0 <= from,
    ensures
        match first_tag_from(s, from, tags) {
            Some((at, n)) => {
                &&& from <= at
                &&& n > 0
                &&& at + n <= s.len()
                &&& n == tag_len_at(s, at, tags)
                &&& forall|j: int| from <= j < at ==> tag_len_at(s, j, tags) == 0
            },
            None => forall|j: int| from <= j < s.len() ==> tag_len_at(s, j, tags) == 0,
        },
    decreases s.len() - from,
{
    if from < s.len() {
        lemma_tag_len_at(s, from, tags);
        if tag_len_at(s, from, tags) == 0 {
            lemma_first_tag_from(s, from + 1, tags);
        }
    }
}

/// A position at which a tag stands, with none before it, is the one that
/// `first_tag_from` gives.
pub proof fn lemma_first_tag_from_is(s: Seq<char>, from: int, tags: Seq<Seq<char>>, at: int)
    requires
        0 <= from <= at < s.len(),
        tag_len_at(s, at, tags) > 0,
        forall|j: int| from <= j < at ==> tag_len_at(s, j, tags) == 0,
    ensures
        first_tag_from(s, from, tags) == Some((at, tag_len_at(s, at, tags))),
{
    lemma_first_tag_from(s, from, tags);
}

/// Where no tag stands, there is no first one.
pub proof fn lemma_first_tag_from_none(s: Seq<char>, from: int, tags: Seq<Seq<char>>)
    requires
        0 <= from,
        forall|j: int| from <= j < s.len() ==> tag_len_at(s, j, tags) == 0,
    ensures
        first_tag_from(s, from, tags) is None,
{
    lemma_first_tag_from(s, from, tags);
}

/// `held_up_to` is the greatest such length.
pub proof fn lemma_held_up_to(s: Seq<char>, k: int, tags: Seq<Seq<char>>)
    requires
        0 <= k,
    ensures
        0 <= held_up_to(s, k, tags) <= k,
        held_up_to(s, k, tags) > 0 ==> ends_in_part(s, held_up_to(s, k, tags), tags),
        forall|j: int| held_up_to(s, k, tags) < j <= k ==> !ends_in_part(s, j, tags),
    decreases k,
{
    if k > 0 && !ends_in_part(s, k, tags) {
        lemma_held_up_to(s, k - 1, tags);
    }
}

/// What is held is no longer than the text, and no longer end of it is the
/// beginning of a tag.
pub proof fn lemma_held(s: Seq<char>, tags: Seq<Seq<char>>)
    ensures
        0 <= held(s, tags) <= s.len(),
        held(s, tags) > 0 ==> ends_in_part(s, held(s, tags), tags),
        forall|j: int| held(s, tags) < j ==> !ends_in_part(s, j, tags),
{
    lemma_held_up_to(s, s.len() as int, tags);
}

/// An end of the text that is the beginning of a tag, with no longer such end, is
/// what is held.
pub proof fn lemma_held_is(s: Seq<char>, tags: Seq<Seq<char>>, k: int)
    requires
        k == 0 || ends_in_part(s, k, tags),
        k >= 0,
        forall|j: int| k < j ==> !ends_in_part(s, j, tags),
    ensures
        held(s, tags) == k,
{
    lemma_held(s, tags);
}

// ---------------------------------------------------------------------------
// Executable functions
// ---------------------------------------------------------------------------

/// The length of the longest of `tags` that stands in `text` at `at`, or zero.
pub(crate) fn longest_tag_at(text: &[char], at: usize, tags: &[&str]) -> (r: usize)
    requires
        at <= text@.len(),
    ensures
        r == tag_len_at(text@, at as int, words(tags@)),
{
    let mut best: usize = 0;
    let mut t: usize = 0;
    assert(words(tags@).take(0) =~= Seq::<Seq<char>>::empty());
    while t < tags.len()
        invariant
            at <= text@.len(),
            t <= tags@.len(),
            best == tag_len_at(text@, at as int, words(tags@).take(t as int)),
        decreases tags@.len() - t,
    {
        let ghost next = words(tags@).take(t + 1);
        assert(next.drop_last() =~= words(tags@).take(t as int));
        assert(next.last() == tags@[t as int]@);
        if stands_at(text, at, tags[t]) {
            let width: usize = crate::text::char_count(tags[t]);
            if width > best {
                best = width;
            }
        }
        t = t + 1;
    }
    assert(words(tags@).take(t as int) =~= words(tags@));
    best
}

/// The first of `tags` in `text`: its position and its length.
pub(crate) fn find_first_tag(text: &[char], tags: &[&str]) -> (r: Option<(usize, usize)>)
    ensures
        match r {
            Some((at, n)) => first_tag(text@, words(tags@)) == Some((at as int, n as int)) && n > 0
                && at + n <= text@.len() && at + n <= usize::MAX,
            None => first_tag(text@, words(tags@)) is None,
        },
{
    let mut at: usize = 0;
    while at < text.len()
        invariant
            at <= text@.len(),
            first_tag(text@, words(tags@)) == first_tag_from(text@, at as int, words(tags@)),
        decreases text@.len() - at,
    {
        let n: usize = longest_tag_at(text, at, tags);
        proof {
            lemma_first_tag_from(text@, at as int, words(tags@));
        }
        if n > 0 {
            return Some((at, n));
        }
        at = at + 1;
    }
    None
}

/// Whether the last `k` characters of `text` are the first `k` of `tag`.
fn ends_with_start(text: &[char], k: usize, tag: &[char]) -> (r: bool)
    requires
        k <= text@.len(),
        k <= tag@.len(),
    ensures
        r == occurs_at(text@, text@.len() - k, tag@.take(k as int)),
{
    let len: usize = text.len();
    let from: usize = len - k;
    let mut i: usize = 0;
    while i < k
        invariant
            i <= k <= tag@.len(),
            k <= len == text@.len(),
            from == len - k,
            forall|j: int| 0 <= j < i ==> text@[from + j] == #[trigger] tag@.take(k as int)[j],
        decreases k - i,
    {
        if text[from + i] != tag[i] {
            assert(tag@.take(k as int)[i as int] == tag@[i as int]);
            return false;
        }
        i = i + 1;
    }
    true
}

/// The length of the longest end of `text` that is the beginning of one of
/// `tags`, short of the whole tag.
pub(crate) fn longest_held(text: &[char], tags: &[&str]) -> (r: usize)
    ensures
        r == held(text@, words(tags@)),
        r <= text@.len(),
{
    let ghost s = text@;
    let ghost all = words(tags@);
    let mut best: usize = 0;
    let mut t: usize = 0;
    while t < tags.len()
        invariant
            s == text@,
            all == words(tags@),
            t <= tags@.len(),
            best <= s.len(),
            best > 0 ==> ends_in_part(s, best as int, all),
            forall|u: int, j: int|
                #![trigger occurs_at(s, s.len() - j, all[u].take(j))]
                0 <= u < t && best < j < all[u].len() ==> !occurs_at(
                    s,
                    s.len() - j,
                    all[u].take(j),
                ),
        decreases tags@.len() - t,
    {
        let tag: Vec<char> = chars_of(tags[t]);
        assert(all[t as int] == tag@);
        let ghost before = best;
        let mut k: usize = 1;
        while k < tag.len() && k <= text.len()
            invariant
                s == text@,
                all == words(tags@),
                t < tags@.len(),
                tag@ == all[t as int],
                1 <= k,
                k <= tag@.len() || tag@.len() == 0,
                before <= best <= s.len(),
                best > 0 ==> ends_in_part(s, best as int, all),
                forall|u: int, j: int|
                    #![trigger occurs_at(s, s.len() - j, all[u].take(j))]
                    0 <= u < t && best < j < all[u].len() ==> !occurs_at(
                        s,
                        s.len() - j,
                        all[u].take(j),
                    ),
                forall|j: int|
                    #![trigger occurs_at(s, s.len() - j, tag@.take(j))]
                    best < j < k ==> !occurs_at(s, s.len() - j, tag@.take(j)),
            decreases tag@.len() - k,
        {
            if k > best && ends_with_start(text, k, tag.as_slice()) {
                assert(all[t as int].len() == tag@.len());
                best = k;
            }
            k = k + 1;
        }
        t = t + 1;
    }
    proof {
        assert forall|j: int| best < j implies !ends_in_part(s, j, all) by {
            if ends_in_part(s, j, all) {
                let u = choose|u: int|
                    #![trigger all[u]]
                    {
                        &&& 0 <= u < all.len()
                        &&& 0 < j < all[u].len()
                        &&& occurs_at(s, s.len() - j, all[u].take(j))
                    };
                assert(occurs_at(s, s.len() - j, all[u].take(j)));
            }
        }
        lemma_held_is(s, all, best as int);
    }
    best
}

} // verus!
