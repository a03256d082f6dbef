//! Tags in text that grows at its end.
//!
//! Where the first character of a tag stands nowhere else in a tag, and no tag is
//! the beginning of another, more text changes nothing about a tag that has been
//! found, and no tag can start before the end that is held back.

use super::{
    ends_in_part, first_tag, held, lemma_first_tag_from, lemma_first_tag_from_is,
    lemma_first_tag_from_none, lemma_held, lemma_held_is, lemma_tag_len_at, tag_len_at,
};
use crate::text::occurs_at;
use vstd::prelude::*;

verus! {

/// Whether the first character of each of `tags` stands nowhere else in a tag, and
/// no tag is the beginning of another.
pub open spec fn distinct_heads(tags: Seq<Seq<char>>) -> bool {
    &&& forall|t: int| 0 <= t < tags.len() ==> (#[trigger] tags[t]).len() > 0
    &&& forall|t: int, u: int, k: int|
        0 <= t < tags.len() && 0 <= u < tags.len() && 0 < k < tags[u].len()
            ==> #[trigger] tags[u][k] != #[trigger] tags[t][0]
    &&& forall|t: int, u: int|
        0 <= t < tags.len() && 0 <= u < tags.len() && #[trigger] tags[t].len()
            <= #[trigger] tags[u].len() && tags[u].take(tags[t].len() as int) == tags[t]
            ==> tags[t] == tags[u]
}

/// Which of `tags` it is that `tag_len_at` measures.
pub proof fn lemma_tag_at(s: Seq<char>, i: int, tags: Seq<Seq<char>>) -> (t: int)
    requires
        tag_len_at(s, i, tags) > 0,
    ensures
        0 <= t < tags.len(),
        occurs_at(s, i, tags[t]),
        tags[t].len() == tag_len_at(s, i, tags),
{
    lemma_tag_len_at(s, i, tags);
    choose|t: int|
        #![trigger tags[t]]
        0 <= t < tags.len() && occurs_at(s, i, tags[t]) && tags[t].len() == tag_len_at(s, i, tags)
}

/// Where one of the tags stands, it is the one that `tag_len_at` measures.
pub proof fn lemma_tag_is(s: Seq<char>, i: int, tags: Seq<Seq<char>>, t: int)
    requires
        distinct_heads(tags),
        0 <= t < tags.len(),
        occurs_at(s, i, tags[t]),
    ensures
        tag_len_at(s, i, tags) == tags[t].len(),
{
    lemma_tag_len_at(s, i, tags);
    let u = lemma_tag_at(s, i, tags);
    assert forall|k: int| 0 <= k < tags[t].len() implies tags[u][k] == tags[t][k] by {
        assert(s[i + k] == tags[t][k]);
        assert(s[i + k] == tags[u][k]);
    }
    assert(tags[u].take(tags[t].len() as int) =~= tags[t]);
}

/// A tag stands in a text whether or not more text follows, if the text reaches as
/// far as the tag.
pub proof fn lemma_occurs_in_longer(s: Seq<char>, more: Seq<char>, i: int, p: Seq<char>)
    requires
        i + p.len() <= s.len(),
    ensures
        occurs_at(s + more, i, p) == occurs_at(s, i, p),
{
    if 0 <= i {
        if occurs_at(s + more, i, p) {
            assert forall|k: int| 0 <= k < p.len() implies s[i + k] == #[trigger] p[k] by {
                assert((s + more)[i + k] == p[k]);
            }
        }
        if occurs_at(s, i, p) {
            assert forall|k: int| 0 <= k < p.len() implies (s + more)[i + k] == #[trigger] p[k] by {
                assert(s[i + k] == p[k]);
            }
        }
    }
}

/// Where a text ends in the middle of a tag, its end is the beginning of the tag.
pub proof fn lemma_straddle(s: Seq<char>, more: Seq<char>, i: int, p: Seq<char>)
    requires
        0 <= i < s.len() < i + p.len(),
        occurs_at(s + more, i, p),
    ensures
        occurs_at(s, i, p.take(s.len() - i)),
{
    let part = p.take(s.len() - i);
    assert forall|k: int| 0 <= k < part.len() implies s[i + k] == #[trigger] part[k] by {
        assert((s + more)[i + k] == p[k]);
    }
}

/// The tag at a position is the same in the rest of a text as in the text.
pub proof fn lemma_tag_len_in_rest(s: Seq<char>, m: int, i: int, tags: Seq<Seq<char>>)
    requires
        0 <= m <= s.len(),
        0 <= i,
    ensures
        tag_len_at(s.skip(m), i, tags) == tag_len_at(s, m + i, tags),
    decreases tags.len(),
{
    if tags.len() > 0 {
        lemma_tag_len_in_rest(s, m, i, tags.drop_last());
        lemma_occurs_in_rest(s, m, i, tags.last());
    }
}

/// A pattern stands in the rest of a text where it stands in the text.
pub proof fn lemma_occurs_in_rest(s: Seq<char>, m: int, i: int, p: Seq<char>)
    requires
        0 <= m <= s.len(),
        0 <= i,
    ensures
        occurs_at(s.skip(m), i, p) == occurs_at(s, m + i, p),
{
    let rest = s.skip(m);
    if occurs_at(rest, i, p) {
        assert forall|k: int| 0 <= k < p.len() implies s[m + i + k] == #[trigger] p[k] by {
            assert(rest[i + k] == p[k]);
        }
    }
    if occurs_at(s, m + i, p) {
        assert forall|k: int| 0 <= k < p.len() implies rest[i + k] == #[trigger] p[k] by {
            assert(s[m + i + k] == p[k]);
        }
    }
}

/// The position of a tag further on, seen from `m` characters before.
pub open spec fn moved(tag: Option<(int, int)>, m: int) -> Option<(int, int)> {
    match tag {
        Some((at, n)) => Some((m + at, n)),
        None => None,
    }
}

/// Where no tag starts before `m`, the first tag is the first one from `m` on.
pub proof fn lemma_first_tag_in_rest(s: Seq<char>, m: int, tags: Seq<Seq<char>>)
    requires
        0 <= m <= s.len(),
        forall|j: int| 0 <= j < m ==> tag_len_at(s, j, tags) == 0,
    ensures
        first_tag(s, tags) == moved(first_tag(s.skip(m), tags), m),
{
    let rest = s.skip(m);
    lemma_first_tag_from(rest, 0, tags);
    match first_tag(rest, tags) {
        Some((at, n)) => {
            lemma_tag_len_in_rest(s, m, at, tags);
            assert forall|j: int| 0 <= j < m + at implies tag_len_at(s, j, tags) == 0 by {
                if j >= m {
                    lemma_tag_len_in_rest(s, m, j - m, tags);
                }
            }
            lemma_first_tag_from_is(s, 0, tags, m + at);
        },
        None => {
            assert forall|j: int| 0 <= j < s.len() implies tag_len_at(s, j, tags) == 0 by {
                if j >= m {
                    lemma_tag_len_in_rest(s, m, j - m, tags);
                }
            }
            lemma_first_tag_from_none(s, 0, tags);
        },
    }
}

/// More text does not change the first tag.
pub proof fn lemma_first_tag_stays(s: Seq<char>, more: Seq<char>, tags: Seq<Seq<char>>)
    requires
        distinct_heads(tags),
        first_tag(s, tags) is Some,
    ensures
        first_tag(s + more, tags) == first_tag(s, tags),
{
    let (at, n) = first_tag(s, tags)->0;
    let all = s + more;
    lemma_first_tag_from(s, 0, tags);
    let t = lemma_tag_at(s, at, tags);
    lemma_occurs_in_longer(s, more, at, tags[t]);
    lemma_tag_is(all, at, tags, t);
    assert forall|j: int| 0 <= j < at implies tag_len_at(all, j, tags) == 0 by {
        lemma_tag_len_at(all, j, tags);
        if tag_len_at(all, j, tags) > 0 {
            let u = lemma_tag_at(all, j, tags);
            if j + tags[u].len() <= s.len() {
                lemma_occurs_in_longer(s, more, j, tags[u]);
                lemma_tag_len_at(s, j, tags);
                assert(tag_len_at(s, j, tags) == 0);
            } else {
                // The tag at j would reach over the head of the tag at `at`.
                assert(all[j + (at - j)] == tags[u][at - j]);
                assert(all[at + 0] == tags[t][0]);
            }
        }
    }
    lemma_first_tag_from_is(all, 0, tags, at);
}

/// Where a text holds no tag, none starts before the end that is held back,
/// whatever text follows.
pub proof fn lemma_no_tag_before_held(s: Seq<char>, more: Seq<char>, tags: Seq<Seq<char>>)
    requires
        first_tag(s, tags) is None,
    ensures
        forall|j: int|
            0 <= j < s.len() - held(s, tags) ==> tag_len_at(s + more, j, tags) == 0,
{
    let all = s + more;
    lemma_first_tag_from(s, 0, tags);
    lemma_held(s, tags);
    assert forall|j: int| 0 <= j < s.len() - held(s, tags) implies tag_len_at(all, j, tags)
        == 0 by {
        lemma_tag_len_at(all, j, tags);
        if tag_len_at(all, j, tags) > 0 {
            let u = lemma_tag_at(all, j, tags);
            if j + tags[u].len() <= s.len() {
                lemma_occurs_in_longer(s, more, j, tags[u]);
                lemma_tag_len_at(s, j, tags);
                assert(tag_len_at(s, j, tags) == 0);
            } else {
                lemma_straddle(s, more, j, tags[u]);
                assert(tags[u].len() > s.len() - j);
                assert(ends_in_part(s, s.len() - j, tags));
            }
        }
    }
}

/// What is held back of a text that has grown is held back of what was held back,
/// grown in the same way.
pub proof fn lemma_held_in_rest(s: Seq<char>, more: Seq<char>, tags: Seq<Seq<char>>)
    ensures
        held(s + more, tags) == held((s + more).skip(s.len() - held(s, tags)), tags),
{
    let m = s.len() - held(s, tags);
    let all = s + more;
    let rest = all.skip(m);
    lemma_held(s, tags);
    lemma_held(rest, tags);
    let k = held(rest, tags);
    if k > 0 {
        let t = choose|t: int|
            #![trigger tags[t]]
            {
                &&& 0 <= t < tags.len()
                &&& 0 < k < tags[t].len()
                &&& occurs_at(rest, rest.len() - k, tags[t].take(k))
            };
        lemma_occurs_in_rest(all, m, rest.len() - k, tags[t].take(k));
        assert(ends_in_part(all, k, tags));
    }
    assert forall|j: int| k < j implies !ends_in_part(all, j, tags) by {
        if ends_in_part(all, j, tags) {
            let t = choose|t: int|
                #![trigger tags[t]]
                {
                    &&& 0 <= t < tags.len()
                    &&& 0 < j < tags[t].len()
                    &&& occurs_at(all, all.len() - j, tags[t].take(j))
                };
            let part = tags[t].take(j);
            if j <= rest.len() {
                lemma_occurs_in_rest(all, m, rest.len() - j, part);
                assert(ends_in_part(rest, j, tags));
            } else {
                // The part starts before what is held back of `s`.
                let i = all.len() - j;
                let shorter = tags[t].take(s.len() - i);
                if s.len() < all.len() {
                    lemma_straddle(s, more, i, part);
                    assert(part.take(s.len() - i) =~= shorter);
                } else {
                    assert(all =~= s);
                    assert(part =~= shorter);
                }
                assert(ends_in_part(s, s.len() - i, tags));
            }
        }
    }
    lemma_held_is(all, tags, k);
}

/// The first tag of a text that holds none up to a tag is that tag.
pub proof fn lemma_first_tag_at_seam(a: Seq<char>, b: Seq<char>, tags: Seq<Seq<char>>, t: int)
    requires
        distinct_heads(tags),
        first_tag(a, tags) is None,
        0 <= t < tags.len(),
    ensures
        first_tag(a + tags[t] + b, tags) == Some((a.len() as int, tags[t].len() as int)),
{
    let more = tags[t] + b;
    let all = a + tags[t] + b;
    let at = a.len() as int;
    assert(all =~= a + more);
    lemma_first_tag_from(a, 0, tags);
    assert(occurs_at(all, at, tags[t]));
    lemma_tag_is(all, at, tags, t);
    assert forall|j: int| 0 <= j < at implies tag_len_at(all, j, tags) == 0 by {
        lemma_tag_len_at(all, j, tags);
        if tag_len_at(all, j, tags) > 0 {
            let u = lemma_tag_at(all, j, tags);
            if j + tags[u].len() <= a.len() {
                lemma_occurs_in_longer(a, more, j, tags[u]);
                lemma_tag_len_at(a, j, tags);
                assert(tag_len_at(a, j, tags) == 0);
            } else {
                assert(all[j + (at - j)] == tags[u][at - j]);
                assert(all[at + 0] == tags[t][0]);
            }
        }
    }
    lemma_first_tag_from_is(all, 0, tags, at);
}

} // verus!
