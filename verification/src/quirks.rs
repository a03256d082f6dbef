//! Registry of platform-specific quirks: workarounds for provider bugs or
//! provider-specific behavior that is not part of the Responses ⇄ Chat
//! Completions contract itself.
//!
//! # Quirk classes
//!
//! **Request-shaping (class A)** quirks change what the relay sends upstream. They
//! affect every request, so they are gated by the identity of the model.
//!
//! **Response-healing (class B)** quirks repair malformed upstream responses. They
//! are gated by detecting the anomaly itself and do nothing to healthy responses.
//!
//! Users can disable any quirk through a comma-separated list of names:
//!
//! ```text
//! CODEX_RELAY_DISABLE_QUIRKS=dsml_heal,glm_thinking
//! ```
//!
//! # Registered quirks
//!
//! | name           | class | trigger                                    |
//! |----------------|-------|--------------------------------------------|
//! | `glm_thinking` | A     | model name looks like GLM/Zhipu            |
//! | `dsml_heal`    | B     | leaked `<｜DSML｜` markup in text content   |
//! | `missing_done` | B     | SSE stream closes cleanly without `[DONE]` |
//! | `think_tags`   | B     | `<think>` markup leaked into text content  |

use crate::text::{
    ascii_lower, chars_of, find, is_white, lemma_find_from, lemma_scan, lemma_scan_is, lower,
    occurs, scan, texts, to_ascii_lower, trim, trim_end, trim_start, trimmed,
};
use vstd::hash_set::StringHashSet;
use vstd::prelude::*;

verus! {

/// Names of all registered quirks.
pub const QUIRK_NAMES: [&'static str; 4] = [
    "glm_thinking",
    "dsml_heal",
    "missing_done",
    "think_tags",
];

/// Whether `raw` holds a piece of a comma-separated list from `i` up to `j`: no
/// comma stands in it, and on either side there is a comma or the end of `raw`.
pub open spec fn is_piece(raw: Seq<char>, i: int, j: int) -> bool {
    &&& 0 <= i <= j <= raw.len()
    &&& forall|k: int| i <= k < j ==> #[trigger] raw[k] != ','
    &&& i == 0 || raw[i - 1] == ','
    &&& j == raw.len() || raw[j] == ','
}

/// The name that stands in `raw` from `i` up to `j`, in lower case and without the
/// white space around it.
pub open spec fn name_in(raw: Seq<char>, i: int, j: int) -> Seq<char> {
    ascii_lower(trim(raw.subrange(i, j)))
}

/// Whether `name` is one of those in the comma-separated list `raw`.
pub open spec fn is_listed(raw: Seq<char>, name: Seq<char>) -> bool {
    name.len() > 0 && exists|i: int, j: int| #[trigger]
        is_piece(raw, i, j) && name == name_in(raw, i, j)
}

/// Whether a quirk of this name is registered.
pub fn is_registered_quirk(name: &str) -> (r: bool)
    ensures
        r == is_registered(name@),
{
    let wanted: String = name.to_owned();
    let names: [&'static str; 4] = QUIRK_NAMES;
    let mut i: usize = 0;
    while i < 4
        invariant
            i <= 4,
            names@ == QUIRK_NAMES@,
            wanted@ == name@,
            forall|k: int| 0 <= k < i ==> (#[trigger] QUIRK_NAMES@[k])@ != name@,
        decreases 4 - i,
    {
        if wanted == names[i].to_owned() {
            assert(QUIRK_NAMES@[i as int]@ == name@);
            return true;
        }
        i = i + 1;
    }
    false
}

/// The names in the list `raw` from `start` on, in order.
pub open spec fn names_from(raw: Seq<char>, start: int) -> Seq<Seq<char>>
    decreases raw.len() - start,
{
    let end = scan(raw, start, |c: char| c == ',');
    let name = name_in(raw, start, end);
    let first = if name.len() > 0 {
        seq![name]
    } else {
        Seq::empty()
    };
    if 0 <= start <= end < raw.len() {
        first + names_from(raw, end + 1)
    } else {
        first
    }
}

/// Whether a quirk of this name is registered.
pub open spec fn is_registered(name: Seq<char>) -> bool {
    exists|i: int| 0 <= i < 4 && (#[trigger] QUIRK_NAMES@[i])@ == name
}

/// Those of the names that are not registered, in order.
pub open spec fn unregistered(names: Seq<Seq<char>>) -> Seq<Seq<char>>
    decreases names.len(),
{
    if names.len() == 0 {
        Seq::empty()
    } else if is_registered(names.last()) {
        unregistered(names.drop_last())
    } else {
        unregistered(names.drop_last()).push(names.last())
    }
}

/// The names in a list that no quirk has, in order. A caller can warn about them.
pub fn unknown_quirks(raw: &str) -> (r: Vec<String>)
    ensures
        texts(r@) == unregistered(names_from(raw@, 0)),
{
    let text: Vec<char> = chars_of(raw);
    let len: usize = text.len();
    let mut unknown: Vec<String> = Vec::new();
    let mut start: usize = 0;
    let ghost mut seen: Seq<Seq<char>> = Seq::empty();
    assert(texts(unknown@) =~= unregistered(seen));
    assert(seen + names_from(text@, 0) =~= names_from(text@, 0));
    loop
        invariant_except_break
            len == text@.len(),
            start <= len,
            texts(unknown@) == unregistered(seen),
            names_from(text@, 0) == seen + names_from(text@, start as int),
        ensures
            texts(unknown@) == unregistered(names_from(text@, 0)),
        decreases len - start,
    {
        let mut end: usize = start;
        while end < len && text[end] != ','
            invariant
                len == text@.len(),
                start <= end <= len,
                forall|k: int| start <= k < end ==> #[trigger] text@[k] != ',',
            decreases len - end,
        {
            end = end + 1;
        }
        proof {
            lemma_scan_is(text@, start as int, |c: char| c == ',', end as int);
        }
        let name: String = trimmed(text.as_slice(), start, end);
        let name: String = lowered(name.as_str());
        let ghost found = name@;
        let ghost before = seen;
        let ghost rest = if end < len {
            names_from(text@, end + 1)
        } else {
            Seq::empty()
        };
        if !name.as_str().is_empty() {
            proof {
                seen = seen.push(found);
                assert(seen.drop_last() =~= before);
                assert(before + (seq![found] + rest) =~= seen + rest);
            }
            if !is_registered_quirk(name.as_str()) {
                let ghost listed = texts(unknown@);
                unknown.push(name);
                assert(texts(unknown@) =~= listed.push(found));
            }
        } else {
            assert(Seq::<Seq<char>>::empty() + rest =~= rest);
        }
        if end == len {
            proof {
                assert(names_from(text@, start as int) =~= if found.len() > 0 {
                    seq![found]
                } else {
                    Seq::empty()
                });
                assert(names_from(text@, 0) =~= seen);
            }
            break;
        }
        assert(names_from(text@, 0) == seen + rest);
        start = end + 1;
    }
    unknown
}

/// Which quirks are enabled.
#[derive(Debug, Clone, Copy, PartialEq, Eq)]
pub struct Quirks {
    pub glm_thinking: bool,
    pub dsml_heal: bool,
    pub missing_done: bool,
    pub think_tags: bool,
}

impl Quirks {
    /// No quirk is enabled.
    pub open spec fn off() -> Quirks {
        Quirks { glm_thinking: false, dsml_heal: false, missing_done: false, think_tags: false }
    }

    /// The quirks that a list of names leaves enabled.
    pub open spec fn but_for(disabled: Seq<char>) -> Quirks {
        Quirks {
            glm_thinking: !is_listed(disabled, "glm_thinking"@),
            dsml_heal: !is_listed(disabled, "dsml_heal"@),
            missing_done: !is_listed(disabled, "missing_done"@),
            think_tags: !is_listed(disabled, "think_tags"@),
        }
    }

    /// The quirks that the kill switch `disabled` leaves enabled.
    pub fn without(disabled: &str) -> (r: Quirks)
        ensures
            r == Quirks::but_for(disabled@),
    {
        Quirks {
            glm_thinking: quirk_enabled("glm_thinking", disabled),
            dsml_heal: quirk_enabled("dsml_heal", disabled),
            missing_done: quirk_enabled("missing_done", disabled),
            think_tags: quirk_enabled("think_tags", disabled),
        }
    }
}

/// Whether a quirk is enabled, honoring the kill switch `disabled` (comma-separated
/// quirk names, case-insensitive).
pub fn quirk_enabled(name: &str, disabled: &str) -> (r: bool)
    ensures
        r == !is_listed(disabled@, name@),
{
    !parse_disabled_quirks(disabled).contains(name)
}

/// The names in a comma-separated list, in lower case.
pub fn parse_disabled_quirks(raw: &str) -> (r: StringHashSet)
    ensures
        forall|name: Seq<char>| #[trigger] r@.contains(name) <==> is_listed(raw@, name),
{
    let text: Vec<char> = chars_of(raw);
    let mut names: StringHashSet = StringHashSet::new();
    let mut start: usize = 0;
    let mut at: usize = 0;
    let len: usize = text.len();
    loop
        invariant_except_break
            len == text@.len(),
            0 <= start <= at <= len,
            start == 0 || text@[start - 1] == ',',
            forall|k: int| start <= k < at ==> #[trigger] text@[k] != ',',
            forall|name: Seq<char>| #[trigger]
                names@.contains(name) <==> name.len() > 0 && exists|i: int, j: int| #[trigger]
                    is_piece(text@, i, j) && j < start && name == name_in(text@, i, j),
        ensures
            forall|name: Seq<char>| #[trigger] names@.contains(name) <==> is_listed(text@, name),
        decreases len - at,
    {
        if at == len || text[at] == ',' {
            let name: String = trimmed(text.as_slice(), start, at);
            let name: String = lowered(name.as_str());
            let ghost before = names@;
            let ghost found = name@;
            if !name.as_str().is_empty() {
                names.insert(name);
            }
            proof {
                let (from, to) = (start as int, at as int);
                assert(is_piece(text@, from, to) && found == name_in(text@, from, to));
                assert forall|n: Seq<char>| #[trigger] names@.contains(n) implies n.len() > 0
                    && exists|i: int, j: int| #[trigger]
                    is_piece(text@, i, j) && j < at + 1 && n == name_in(text@, i, j) by {
                    if before.contains(n) {
                        let (i, j) = choose|i: int, j: int| #[trigger]
                            is_piece(text@, i, j) && j < start && n == name_in(text@, i, j);
                        assert(is_piece(text@, i, j) && j < at + 1);
                    } else {
                        assert(n == found);
                    }
                }
                assert forall|n: Seq<char>, i: int, j: int| #[trigger]
                    is_piece(text@, i, j) && j < at + 1 && n == name_in(text@, i, j) && n.len()
                    > 0 implies #[trigger] names@.contains(n) by {
                    if j >= start {
                        // A piece that ends in start..=at starts at start.
                        assert(j == at) by {
                            if j < at {
                                assert(text@[j] != ',');
                            }
                        }
                        if i < start {
                            assert(text@[start - 1] != ',');
                        } else if i > start {
                            assert(text@[i - 1] != ',');
                        }
                    } else {
                        assert(before.contains(n));
                    }
                }
            }
            if at == len {
                break;
            }
            start = at + 1;
        }
        at = at + 1;
    }
    names
}

/// `s` with its ASCII letters in lower case.
fn lowered(s: &str) -> (r: String)
    ensures
        r@ == ascii_lower(s@),
{
    let text: Vec<char> = chars_of(s);
    assert(text@.subrange(0, text@.len() as int) =~= s@);
    to_ascii_lower(text.as_slice(), 0, text.len())
}

/// Whether a model name looks like that of a GLM/Zhipu model.
pub open spec fn is_glm_name(model: Seq<char>) -> bool {
    let m = ascii_lower(model);
    occurs(m, "glm"@) || occurs(m, "zhipu"@) || occurs(m, "bigmodel"@)
}

/// Whether a model name looks like a GLM/Zhipu reasoning model that needs the
/// explicit `thinking` switch to emit reasoning_content (quirk `glm_thinking`).
pub fn is_glm_like_model(model: &str) -> (r: bool)
    ensures
        r == is_glm_name(model@),
{
    proof {
        reveal_strlit("glm");
        reveal_strlit("zhipu");
        reveal_strlit("bigmodel");
    }
    let m: Vec<char> = chars_of(lowered(model).as_str());
    contains(m.as_slice(), "glm") || contains(m.as_slice(), "zhipu") || contains(
        m.as_slice(),
        "bigmodel",
    )
}

/// Whether `p` stands anywhere in `text`.
fn contains(text: &[char], p: &str) -> (r: bool)
    requires
        p@.len() > 0,
    ensures
        r == occurs(text@, p@),
{
    let found: Option<usize> = find(text, 0, p);
    proof {
        lemma_find_from(text@, 0, p@);
    }
    found.is_some()
}

// ---------------------------------------------------------------------------
// Laws
// ---------------------------------------------------------------------------

/// An empty list disables nothing.
pub proof fn law_empty_list_disables_nothing(name: Seq<char>)
    ensures
        !is_listed(Seq::empty(), name),
{
    let none = Seq::<char>::empty();
    if is_listed(none, name) {
        let (i, j) = choose|i: int, j: int| #[trigger]
            is_piece(none, i, j) && name == name_in(none, i, j);
        assert(none.subrange(i, j) =~= none);
    }
}

/// To lower a character changes nothing about commas and white space, and to do it
/// twice nothing at all.
proof fn lemma_lower(c: char)
    ensures
        lower(lower(c)) == lower(c),
        (lower(c) == ',') == (c == ','),
        is_white(lower(c)) == is_white(c),
{
}

/// Trimming a text and lowering it can change places.
proof fn lemma_lower_trims(s: Seq<char>)
    ensures
        trim(ascii_lower(s)) == ascii_lower(trim(s)),
{
    lemma_lower_trim_start(s);
    lemma_lower_trim_end(trim_start(s));
}

proof fn lemma_lower_trim_start(s: Seq<char>)
    ensures
        trim_start(ascii_lower(s)) == ascii_lower(trim_start(s)),
    decreases s.len(),
{
    if s.len() > 0 {
        lemma_lower(s[0]);
        if is_white(s[0]) {
            lemma_lower_trim_start(s.drop_first());
            assert(ascii_lower(s).drop_first() =~= ascii_lower(s.drop_first()));
        }
    }
}

proof fn lemma_lower_trim_end(s: Seq<char>)
    ensures
        trim_end(ascii_lower(s)) == ascii_lower(trim_end(s)),
    decreases s.len(),
{
    if s.len() > 0 {
        lemma_lower(s.last());
        if is_white(s.last()) {
            lemma_lower_trim_end(s.drop_last());
            assert(ascii_lower(s).drop_last() =~= ascii_lower(s.drop_last()));
        }
    }
}

/// The names in a list, in order, are those that are listed.
pub proof fn law_names_are_listed(raw: Seq<char>, name: Seq<char>)
    ensures
        names_from(raw, 0).contains(name) <==> is_listed(raw, name),
{
    lemma_names_from(raw, 0, name);
    if names_from(raw, 0).contains(name) {
        let (i, j) = choose|i: int, j: int| #[trigger]
            is_piece(raw, i, j) && 0 <= i && name == name_in(raw, i, j);
        assert(is_piece(raw, i, j));
    }
    if is_listed(raw, name) {
        let (i, j) = choose|i: int, j: int| #[trigger]
            is_piece(raw, i, j) && name == name_in(raw, i, j);
        assert(is_piece(raw, i, j) && 0 <= i);
    }
}

proof fn lemma_names_from(raw: Seq<char>, start: int, name: Seq<char>)
    requires
        0 <= start <= raw.len(),
        start == 0 || raw[start - 1] == ',',
    ensures
        names_from(raw, start).contains(name) <==> name.len() > 0 && exists|i: int, j: int|
            #[trigger] is_piece(raw, i, j) && start <= i && name == name_in(raw, i, j),
    decreases raw.len() - start,
{
    let stop = |c: char| c == ',';
    let end = scan(raw, start, stop);
    lemma_scan(raw, start, stop);
    let own = name_in(raw, start, end);
    let names = names_from(raw, start);
    assert(is_piece(raw, start, end)) by {
        assert forall|k: int| start <= k < end implies #[trigger] raw[k] != ',' by {
            assert(!stop(raw[k]));
        }
    }
    // A piece that starts at `start` ends at `end`; any other starts past it.
    assert forall|i: int, j: int| #[trigger] is_piece(raw, i, j) && start <= i implies (i == start
        && j == end) || (end < raw.len() && end + 1 <= i) by {
        if i == start {
            if j < end {
                assert(!stop(raw[j]));
            } else if end < j {
                assert(raw[end] != ',');
            }
        } else if i <= end {
            assert(!stop(raw[i - 1]));
        }
    }
    let first = if own.len() > 0 {
        seq![own]
    } else {
        Seq::empty()
    };
    if end < raw.len() {
        let rest = names_from(raw, end + 1);
        lemma_names_from(raw, end + 1, name);
        assert(names == first + rest);
        if names.contains(name) {
            let k = choose|k: int| 0 <= k < names.len() && names[k] == name;
            if k < first.len() {
                assert(name == own);
            } else {
                assert(rest[k - first.len()] == name);
                assert(rest.contains(name));
                let (i, j) = choose|i: int, j: int| #[trigger]
                    is_piece(raw, i, j) && end + 1 <= i && name == name_in(raw, i, j);
                assert(is_piece(raw, i, j) && start <= i);
            }
        }
        if name.len() > 0 && exists|i: int, j: int|
            #[trigger] is_piece(raw, i, j) && start <= i && name == name_in(raw, i, j) {
            let (i, j) = choose|i: int, j: int| #[trigger]
                is_piece(raw, i, j) && start <= i && name == name_in(raw, i, j);
            if i == start {
                assert(names[0] == name);
            } else {
                assert(is_piece(raw, i, j) && end + 1 <= i);
                let k = choose|k: int| 0 <= k < rest.len() && rest[k] == name;
                assert(names[first.len() + k] == name);
            }
        }
    } else {
        assert(names == first);
        if names.contains(name) {
            assert(name == own);
        }
        if name.len() > 0 && exists|i: int, j: int|
            #[trigger] is_piece(raw, i, j) && start <= i && name == name_in(raw, i, j) {
            assert(names[0] == name);
        }
    }
}

/// The case of the letters in a list does not matter.
pub proof fn law_case_does_not_matter(raw: Seq<char>, name: Seq<char>)
    ensures
        is_listed(ascii_lower(raw), name) == is_listed(raw, name),
{
    let low = ascii_lower(raw);
    assert forall|i: int, j: int| is_piece(low, i, j) == is_piece(raw, i, j) by {
        if 0 <= i <= j <= raw.len() {
            assert forall|k: int| 0 <= k < raw.len() implies (#[trigger] low[k] == ',') == (raw[k]
                == ',') by {
                lemma_lower(raw[k]);
            }
            if is_piece(low, i, j) {
                assert forall|k: int| i <= k < j implies #[trigger] raw[k] != ',' by {
                    assert(low[k] != ',');
                }
            }
            if is_piece(raw, i, j) {
                assert forall|k: int| i <= k < j implies #[trigger] low[k] != ',' by {
                    assert(raw[k] != ',');
                }
            }
        }
    }
    assert forall|i: int, j: int| #[trigger]
        is_piece(raw, i, j) implies name_in(low, i, j) == name_in(raw, i, j) by {
        let part = raw.subrange(i, j);
        assert(low.subrange(i, j) =~= ascii_lower(part));
        lemma_lower_trims(part);
        let t = trim(part);
        assert(ascii_lower(ascii_lower(t)) =~= ascii_lower(t)) by {
            assert forall|k: int| 0 <= k < t.len() implies lower(lower(#[trigger] t[k])) == lower(
                t[k],
            ) by {
                lemma_lower(t[k]);
            }
        }
    }
    if is_listed(low, name) {
        let (i, j) = choose|i: int, j: int| #[trigger]
            is_piece(low, i, j) && name == name_in(low, i, j);
        assert(is_piece(raw, i, j));
    }
    if is_listed(raw, name) {
        let (i, j) = choose|i: int, j: int| #[trigger]
            is_piece(raw, i, j) && name == name_in(raw, i, j);
        assert(is_piece(low, i, j));
    }
}

} // verus!
