//! Text as a sequence of characters: searching, scanning and trimming.
//!
//! The view of a `str` or `String` is a `Seq<char>`, so every offset in this
//! crate counts characters. The executable functions work on a slice of
//! characters taken once from the text.

use vstd::prelude::*;

verus! {

/// `String::push` appends one character to the end of the string.
pub assume_specification[ String::push ](s: &mut String, c: char)
    ensures
        final(s)@ == old(s)@.push(c),
;

/// Whether `c` has the Unicode property `White_Space`.
pub open spec fn is_white(c: char) -> bool {
    ||| '\u{9}' <= c && c <= '\u{D}'
    ||| c == ' '
    ||| c == '\u{85}'
    ||| c == '\u{A0}'
    ||| c == '\u{1680}'
    ||| '\u{2000}' <= c && c <= '\u{200A}'
    ||| c == '\u{2028}'
    ||| c == '\u{2029}'
    ||| c == '\u{202F}'
    ||| c == '\u{205F}'
    ||| c == '\u{3000}'
}

/// Whether `s` holds nothing but white space.
pub open spec fn is_blank(s: Seq<char>) -> bool {
    forall|i: int| 0 <= i < s.len() ==> is_white(#[trigger] s[i])
}

/// Whether `p` stands in `s` at position `i`.
pub open spec fn occurs_at(s: Seq<char>, i: int, p: Seq<char>) -> bool {
    &&& 0 <= i
    &&& i + p.len() <= s.len()
    &&& forall|k: int| 0 <= k < p.len() ==> s[i + k] == #[trigger] p[k]
}

/// Whether `p` stands anywhere in `s`.
pub open spec fn occurs(s: Seq<char>, p: Seq<char>) -> bool {
    exists|i: int| #[trigger] occurs_at(s, i, p)
}

/// The pieces, one after the other.
pub open spec fn concat(pieces: Seq<Seq<char>>) -> Seq<char>
    decreases pieces.len(),
{
    if pieces.len() == 0 {
        Seq::empty()
    } else {
        concat(pieces.drop_last()) + pieces.last()
    }
}

/// The texts of a list of strings.
pub open spec fn texts(strings: Seq<String>) -> Seq<Seq<char>> {
    strings.map_values(|s: String| s@)
}

/// The first position at or after `from` at which `p` stands in `s`.
pub open spec fn find_from(s: Seq<char>, from: int, p: Seq<char>) -> Option<int>
    decreases s.len() - from,
{
    if from + p.len() > s.len() {
        None
    } else if occurs_at(s, from, p) {
        Some(from)
    } else {
        find_from(s, from + 1, p)
    }
}

/// The first position at or after `i` whose character satisfies `stop`, or the
/// end of `s`.
pub open spec fn scan(s: Seq<char>, i: int, stop: spec_fn(char) -> bool) -> int
    decreases s.len() - i,
{
    if 0 <= i < s.len() && !stop(s[i]) {
        scan(s, i + 1, stop)
    } else {
        i
    }
}

/// The first position at or after `i` that holds no white space, or the end of
/// `s`.
pub open spec fn skip_white(s: Seq<char>, i: int) -> int {
    scan(s, i, |c: char| !is_white(c))
}

/// `s` without its leading white space.
pub open spec fn trim_start(s: Seq<char>) -> Seq<char>
    decreases s.len(),
{
    if s.len() > 0 && is_white(s[0]) {
        trim_start(s.drop_first())
    } else {
        s
    }
}

/// The white space that leads `s`.
pub open spec fn leading_white(s: Seq<char>) -> Seq<char> {
    s.take(s.len() - trim_start(s).len())
}

/// `s` without its trailing white space.
pub open spec fn trim_end(s: Seq<char>) -> Seq<char>
    decreases s.len(),
{
    if s.len() > 0 && is_white(s.last()) {
        trim_end(s.drop_last())
    } else {
        s
    }
}

/// `s` without its leading and trailing white space.
pub open spec fn trim(s: Seq<char>) -> Seq<char> {
    trim_end(trim_start(s))
}

/// `c` in lower case if it is an ASCII letter, else `c` itself.
pub open spec fn lower(c: char) -> char {
    if 'A' <= c && c <= 'Z' {
        ((c as u8) + 32) as u8 as char
    } else {
        c
    }
}

/// `s` with its ASCII letters in lower case.
pub open spec fn ascii_lower(s: Seq<char>) -> Seq<char> {
    s.map_values(|c: char| lower(c))
}

// ---------------------------------------------------------------------------
// Facts about the functions above
// ---------------------------------------------------------------------------

/// `find_from` gives the least position at which the pattern stands.
pub proof fn lemma_find_from(s: Seq<char>, from: int, p: Seq<char>)
    requires
        0 <= from,
    ensures
        match find_from(s, from, p) {
            Some(at) => {
                &&& from <= at
                &&& occurs_at(s, at, p)
                &&& forall|j: int| from <= j < at ==> !occurs_at(s, j, p)
            },
            None => forall|j: int| from <= j ==> !occurs_at(s, j, p),
        },
    decreases s.len() - from,
{
    if from + p.len() <= s.len() && !occurs_at(s, from, p) {
        lemma_find_from(s, from + 1, p);
    }
}

/// A position at which the pattern stands, with none before it, is the one that
/// `find_from` gives.
pub proof fn lemma_find_from_is(s: Seq<char>, from: int, p: Seq<char>, at: int)
    requires
        0 <= from <= at,
        occurs_at(s, at, p),
        forall|j: int| from <= j < at ==> !occurs_at(s, j, p),
    ensures
        find_from(s, from, p) == Some(at),
{
    lemma_find_from(s, from, p);
}

/// `scan` stops at the first character that satisfies `stop`.
pub proof fn lemma_scan(s: Seq<char>, i: int, stop: spec_fn(char) -> bool)
    requires
        0 <= i <= s.len(),
    ensures
        i <= scan(s, i, stop) <= s.len(),
        forall|j: int| i <= j < scan(s, i, stop) ==> !stop(#[trigger] s[j]),
        scan(s, i, stop) < s.len() ==> stop(s[scan(s, i, stop)]),
    decreases s.len() - i,
{
    if i < s.len() && !stop(s[i]) {
        lemma_scan(s, i + 1, stop);
    }
}

/// A position before which nothing satisfies `stop`, and which satisfies it or
/// is the end, is the one that `scan` gives.
pub proof fn lemma_scan_is(s: Seq<char>, i: int, stop: spec_fn(char) -> bool, at: int)
    requires
        0 <= i <= at <= s.len(),
        forall|j: int| i <= j < at ==> !stop(#[trigger] s[j]),
        at < s.len() ==> stop(s[at]),
    ensures
        scan(s, i, stop) == at,
    decreases at - i,
{
    if i < at {
        lemma_scan_is(s, i + 1, stop, at);
    }
}

/// `skip_white` passes over white space only.
pub proof fn lemma_skip_white(s: Seq<char>, i: int)
    requires
        0 <= i <= s.len(),
    ensures
        i <= skip_white(s, i) <= s.len(),
        forall|j: int| i <= j < skip_white(s, i) ==> is_white(#[trigger] s[j]),
        skip_white(s, i) < s.len() ==> !is_white(s[skip_white(s, i)]),
{
    lemma_scan(s, i, |c: char| !is_white(c));
}

/// Leading white space ends where `skip_white` stops.
pub proof fn lemma_trim_start(s: Seq<char>)
    ensures
        trim_start(s) == s.skip(skip_white(s, 0)),
        0 <= skip_white(s, 0) <= s.len(),
    decreases s.len(),
{
    lemma_skip_white(s, 0);
    if s.len() > 0 && is_white(s[0]) {
        let t = s.drop_first();
        lemma_trim_start(t);
        lemma_skip_white(t, 0);
        let n = skip_white(t, 0);
        assert forall|j: int| 0 <= j < n + 1 implies is_white(#[trigger] s[j]) by {
            if j > 0 {
                assert(s[j] == t[j - 1]);
            }
        }
        assert(n < t.len() ==> s[n + 1] == t[n]);
        lemma_scan_is(s, 0, |c: char| !is_white(c), n + 1);
        assert(t.skip(n) =~= s.skip(n + 1));
    } else {
        assert(s.skip(0) =~= s);
    }
}

/// A text is the white space that leads it and the rest.
pub proof fn lemma_leading_white(s: Seq<char>)
    ensures
        leading_white(s) + trim_start(s) == s,
        leading_white(s).len() + trim_start(s).len() == s.len(),
        is_blank(leading_white(s)),
{
    lemma_trim_start(s);
    lemma_skip_white(s, 0);
    let n = skip_white(s, 0);
    assert(leading_white(s) =~= s.take(n));
    assert(s.take(n) + s.skip(n) =~= s);
}

/// The white space that leads a text is the same whatever follows, once the text is
/// not blank.
pub proof fn lemma_leading_white_stays(s: Seq<char>, more: Seq<char>)
    requires
        !is_blank(s),
    ensures
        leading_white(s + more) == leading_white(s),
{
    lemma_trim_start_joined(s, more);
    lemma_leading_white(s);
    assert(leading_white(s + more) =~= leading_white(s));
}

/// Trailing white space ends at the last character that is not white.
pub proof fn lemma_trim_end_is(s: Seq<char>, n: int)
    requires
        0 <= n <= s.len(),
        forall|j: int| n <= j < s.len() ==> is_white(#[trigger] s[j]),
        n > 0 ==> !is_white(s[n - 1]),
    ensures
        trim_end(s) == s.take(n),
    decreases s.len(),
{
    if n == s.len() {
        assert(s.take(n) =~= s);
    } else {
        let t = s.drop_last();
        lemma_trim_end_is(t, n);
        assert(t.take(n) =~= s.take(n));
    }
}

/// Text that is blank leaves nothing once trimmed, and no other text does.
pub proof fn lemma_trim_start_blank(s: Seq<char>)
    ensures
        is_blank(s) <==> trim_start(s).len() == 0,
{
    lemma_trim_start(s);
    lemma_skip_white(s, 0);
    if is_blank(s) {
        if skip_white(s, 0) < s.len() {
            assert(is_white(s[skip_white(s, 0)]));
        }
    }
}

/// Text that leaves nothing once trimmed is blank.
pub proof fn lemma_trim_blank(s: Seq<char>)
    requires
        trim(s).len() == 0,
    ensures
        is_blank(s),
{
    lemma_trim_start_blank(s);
    lemma_trim_start(s);
    lemma_skip_white(s, 0);
    lemma_trim_end_blank(trim_start(s));
    let t = trim_start(s);
    if t.len() > 0 {
        assert(is_white(t[0]));
        assert(t[0] == s[skip_white(s, 0)]);
    }
}

proof fn lemma_trim_end_blank(s: Seq<char>)
    requires
        trim_end(s).len() == 0,
    ensures
        is_blank(s),
    decreases s.len(),
{
    if s.len() > 0 {
        lemma_trim_end_blank(s.drop_last());
        assert forall|i: int| 0 <= i < s.len() implies is_white(#[trigger] s[i]) by {
            if i < s.len() - 1 {
                assert(s.drop_last()[i] == s[i]);
            }
        }
    }
}

/// Leading white space ends inside the first of two texts, unless that is blank.
pub proof fn lemma_trim_start_joined(a: Seq<char>, b: Seq<char>)
    ensures
        trim_start(a + b) == if is_blank(a) {
            trim_start(b)
        } else {
            trim_start(a) + b
        },
    decreases a.len(),
{
    if a.len() == 0 {
        assert(a + b =~= b);
    } else if is_white(a[0]) {
        assert((a + b).drop_first() =~= a.drop_first() + b);
        lemma_trim_start_joined(a.drop_first(), b);
        assert(is_blank(a) == is_blank(a.drop_first())) by {
            if is_blank(a.drop_first()) {
                assert forall|i: int| 0 <= i < a.len() implies is_white(#[trigger] a[i]) by {
                    if i > 0 {
                        assert(a.drop_first()[i - 1] == a[i]);
                    }
                }
            }
        }
    }
}

// ---------------------------------------------------------------------------
// Executable functions
// ---------------------------------------------------------------------------

/// Whether `c` is white space.
pub fn is_white_space(c: char) -> (r: bool)
    ensures
        r == is_white(c),
{
    ('\u{9}' <= c && c <= '\u{D}') || c == ' ' || c == '\u{85}' || c == '\u{A0}' || c == '\u{1680}'
        || ('\u{2000}' <= c && c <= '\u{200A}') || c == '\u{2028}' || c == '\u{2029}'
        || c == '\u{202F}' || c == '\u{205F}' || c == '\u{3000}'
}

/// The characters of `s`.
pub(crate) fn chars_of(s: &str) -> (v: Vec<char>)
    ensures
        v@ == s@,
{
    let mut v: Vec<char> = Vec::new();
    for c in it: s.chars()
        invariant
            it.seq() == s@,
            v@ == s@.take(it.index()),
    {
        v.push(c);
    }
    assert(s@.take(s@.len() as int) =~= s@);
    v
}

/// The string made of the characters of `text` from `from` up to `to`.
pub(crate) fn string_of(text: &[char], from: usize, to: usize) -> (r: String)
    requires
        from <= to <= text@.len(),
    ensures
        r@ == text@.subrange(from as int, to as int),
{
    let mut r: String = String::new();
    let mut i: usize = from;
    while i < to
        invariant
            from <= i <= to <= text@.len(),
            r@ == text@.subrange(from as int, i as int),
        decreases to - i,
    {
        r.push(text[i]);
        i = i + 1;
    }
    r
}

/// Appends the characters of `s` to `text`.
pub(crate) fn extend_with(text: &mut Vec<char>, s: &str)
    ensures
        final(text)@ == old(text)@ + s@,
{
    let ghost before = text@;
    for c in it: s.chars()
        invariant
            it.seq() == s@,
            text@ == before + s@.take(it.index()),
    {
        text.push(c);
    }
    assert(s@.take(s@.len() as int) =~= s@);
}

/// Whether `p` stands in `text` at position `at`.
pub(crate) fn stands_at(text: &[char], at: usize, p: &str) -> (r: bool)
    requires
        at <= text@.len(),
    ensures
        r == occurs_at(text@, at as int, p@),
        r ==> at + p@.len() <= usize::MAX,
{
    let room: usize = text.len() - at;
    let mut k: usize = 0;
    for c in it: p.chars()
        invariant
            it.seq() == p@,
            k == it.index(),
            k <= room == text@.len() - at,
            at <= text@.len() <= usize::MAX,
            forall|j: int| 0 <= j < k ==> text@[at + j] == #[trigger] p@[j],
    {
        if k >= room || text[at + k] != c {
            assert(p@[k as int] == c);
            return false;
        }
        k = k + 1;
    }
    true
}

/// The number of characters of `p`.
pub(crate) fn char_count(p: &str) -> (n: usize)
    requires
        p@.len() <= usize::MAX,
    ensures
        n == p@.len(),
{
    let mut n: usize = 0;
    for _c in it: p.chars()
        invariant
            it.seq() == p@,
            n == it.index(),
            p@.len() <= usize::MAX,
    {
        n = n + 1;
    }
    n
}

/// The first position at or after `from` at which `p` stands in `text`.
pub(crate) fn find(text: &[char], from: usize, p: &str) -> (r: Option<usize>)
    requires
        from <= text@.len(),
        p@.len() > 0,
    ensures
        match r {
            Some(at) => find_from(text@, from as int, p@) == Some(at as int) && at + p@.len()
                <= text@.len() && at + p@.len() <= usize::MAX,
            None => find_from(text@, from as int, p@) is None,
        },
{
    let mut at: usize = from;
    while at < text.len()
        invariant
            from <= at <= text@.len(),
            p@.len() > 0,
            find_from(text@, from as int, p@) == find_from(text@, at as int, p@),
        decreases text@.len() - at,
    {
        if stands_at(text, at, p) {
            return Some(at);
        }
        proof {
            if at + p@.len() > text@.len() {
                assert(find_from(text@, at + 1, p@) is None);
            }
        }
        at = at + 1;
    }
    None
}

/// The first position at or after `cursor` that holds no white space.
pub(crate) fn skip_whitespace(text: &[char], cursor: usize) -> (r: usize)
    requires
        cursor <= text@.len(),
    ensures
        r == skip_white(text@, cursor as int),
        cursor <= r <= text@.len(),
{
    let mut i: usize = cursor;
    while i < text.len() && is_white_space(text[i])
        invariant
            cursor <= i <= text@.len(),
            forall|j: int| cursor <= j < i ==> is_white(#[trigger] text@[j]),
        decreases text@.len() - i,
    {
        i = i + 1;
    }
    proof {
        lemma_scan_is(text@, cursor as int, |c: char| !is_white(c), i as int);
    }
    i
}

/// The end of `text` once its trailing white space is left out, looking no
/// further back than `from`.
pub(crate) fn trimmed_end(text: &[char], from: usize, to: usize) -> (r: usize)
    requires
        from <= to <= text@.len(),
    ensures
        from <= r <= to,
        forall|j: int| r <= j < to ==> is_white(#[trigger] text@[j]),
        r > from ==> !is_white(text@[r - 1]),
        text@.subrange(from as int, r as int) == trim_end(text@.subrange(from as int, to as int)),
{
    let mut i: usize = to;
    while i > from && is_white_space(text[i - 1])
        invariant
            from <= i <= to <= text@.len(),
            forall|j: int| i <= j < to ==> is_white(#[trigger] text@[j]),
        decreases i,
    {
        i = i - 1;
    }
    proof {
        let part = text@.subrange(from as int, to as int);
        assert forall|j: int| i - from <= j < part.len() implies is_white(#[trigger] part[j]) by {
            assert(part[j] == text@[from + j]);
        }
        lemma_trim_end_is(part, i - from);
        assert(part.take(i - from) =~= text@.subrange(from as int, i as int));
    }
    i
}

/// The string made of the characters of `text` from `from` up to `to`, without
/// leading and trailing white space.
pub(crate) fn trimmed(text: &[char], from: usize, to: usize) -> (r: String)
    requires
        from <= to <= text@.len(),
    ensures
        r@ == trim(text@.subrange(from as int, to as int)),
{
    let mut start: usize = from;
    while start < to && is_white_space(text[start])
        invariant
            from <= start <= to <= text@.len(),
            forall|j: int| from <= j < start ==> is_white(#[trigger] text@[j]),
        decreases to - start,
    {
        start = start + 1;
    }
    let end: usize = trimmed_end(text, start, to);
    proof {
        let part = text@.subrange(from as int, to as int);
        lemma_trim_start(part);
        lemma_scan_is(part, 0, |c: char| !is_white(c), start - from);
        assert(part.skip(start - from) =~= text@.subrange(start as int, to as int));
    }
    string_of(text, start, end)
}

/// Whether `text` holds nothing but white space from `from` up to `to`.
pub(crate) fn white_between(text: &[char], from: usize, to: usize) -> (r: bool)
    requires
        to <= text@.len(),
    ensures
        r == forall|i: int| from <= i < to ==> is_white(#[trigger] text@[i]),
{
    let mut i: usize = from;
    while i < to
        invariant
            from <= i,
            i <= to || from > to,
            to <= text@.len(),
            forall|j: int| from <= j < i && j < to ==> is_white(#[trigger] text@[j]),
        decreases to - i,
    {
        if !is_white_space(text[i]) {
            return false;
        }
        i = i + 1;
    }
    true
}

/// The string made of the characters of `text` from `from` up to `to`, its ASCII
/// letters in lower case.
pub(crate) fn to_ascii_lower(text: &[char], from: usize, to: usize) -> (r: String)
    requires
        from <= to <= text@.len(),
    ensures
        r@ == ascii_lower(text@.subrange(from as int, to as int)),
{
    let mut r: String = String::new();
    let mut i: usize = from;
    while i < to
        invariant
            from <= i <= to <= text@.len(),
            r@ == ascii_lower(text@.subrange(from as int, i as int)),
        decreases to - i,
    {
        let c: char = text[i];
        let l: char = if 'A' <= c && c <= 'Z' {
            ((c as u8) + 32u8) as char
        } else {
            c
        };
        r.push(l);
        i = i + 1;
        proof {
            assert(text@.subrange(from as int, i as int).drop_last() =~= text@.subrange(
                from as int,
                i - 1,
            ));
            assert(r@ =~= ascii_lower(text@.subrange(from as int, i as int)));
        }
    }
    r
}

} // verus!
