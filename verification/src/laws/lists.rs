//! Lists of quirks: which names they hold, and what they disable.

use crate::quirks::{
    is_listed, is_piece, is_registered, name_in, names_from, unregistered, QUIRK_NAMES, Quirks,
};
use crate::text::{
    ascii_lower, is_white, lemma_scan, lemma_scan_is, scan, trim, trim_end, trim_start,
};
use vstd::prelude::*;
use vstd::string::*;

verus! {

proof fn lemma_piece_before(a: Seq<char>, b: Seq<char>, i: int, j: int)
    requires
        is_piece(a, i, j),
    ensures
        is_piece(a + ","@ + b, i, j),
        name_in(a + ","@ + b, i, j) == name_in(a, i, j),
{
    reveal_strlit(",");
    let s = a + ","@ + b;
    assert forall|k: int| i <= k < j implies #[trigger] s[k] != ',' by {
        assert(s[k] == a[k]);
    }
    if i > 0 {
        assert(s[i - 1] == a[i - 1]);
    }
    if j < a.len() {
        assert(s[j] == a[j]);
    } else {
        assert(s[j] == ","@[0]);
    }
    assert(s.subrange(i, j) =~= a.subrange(i, j));
}

proof fn lemma_piece_behind(a: Seq<char>, b: Seq<char>, i: int, j: int)
    requires
        is_piece(b, i, j),
    ensures
        is_piece(a + ","@ + b, a.len() + 1 + i, a.len() + 1 + j),
        name_in(a + ","@ + b, a.len() + 1 + i, a.len() + 1 + j) == name_in(b, i, j),
{
    reveal_strlit(",");
    let s = a + ","@ + b;
    let m = a.len() + 1;
    assert forall|k: int| m + i <= k < m + j implies #[trigger] s[k] != ',' by {
        assert(s[k] == b[k - m]);
    }
    if i > 0 {
        assert(s[m + i - 1] == b[i - 1]);
    } else {
        assert(s[m - 1] == ","@[0]);
    }
    if j < b.len() {
        assert(s[m + j] == b[j]);
    }
    assert(s.subrange(m + i, m + j) =~= b.subrange(i, j));
}

proof fn lemma_piece_of_two(a: Seq<char>, b: Seq<char>, i: int, j: int)
    requires
        is_piece(a + ","@ + b, i, j),
    ensures
        ({
            let m = a.len() + 1;
            let name = name_in(a + ","@ + b, i, j);
            ||| is_piece(a, i, j) && name == name_in(a, i, j)
            ||| is_piece(b, i - m, j - m) && name == name_in(b, i - m, j - m)
        }),
{
    reveal_strlit(",");
    let s = a + ","@ + b;
    let m = a.len() + 1;
    assert(s[a.len() as int] == ',');
    if j <= a.len() {
        assert forall|k: int| i <= k < j implies #[trigger] a[k] != ',' by {
            assert(s[k] == a[k]);
        }
        if i > 0 {
            assert(s[i - 1] == a[i - 1]);
        }
        if j < a.len() {
            assert(s[j] == a[j]);
        }
        assert(s.subrange(i, j) =~= a.subrange(i, j));
    } else {
        if i <= a.len() {
            assert(s[a.len() as int] != ',');
        }
        assert forall|k: int| i - m <= k < j - m implies #[trigger] b[k] != ',' by {
            assert(s[m + k] == b[k]);
        }
        if i - m > 0 {
            assert(s[i - 1] == b[i - m - 1]);
        }
        if j - m < b.len() {
            assert(s[j] == b[j - m]);
        }
        assert(s.subrange(i, j) =~= b.subrange(i - m, j - m));
    }
}

/// Two lists with a comma between hold the names of both, and no others.
pub proof fn law_lists_are_joined_by_commas(a: Seq<char>, b: Seq<char>, name: Seq<char>)
    ensures
        is_listed(a + ","@ + b, name) == (is_listed(a, name) || is_listed(b, name)),
{
    let s = a + ","@ + b;
    let m = a.len() + 1;
    if is_listed(s, name) {
        let (i, j) = choose|i: int, j: int| #[trigger]
            is_piece(s, i, j) && name == name_in(s, i, j);
        lemma_piece_of_two(a, b, i, j);
        assert(is_piece(a, i, j) || is_piece(b, i - m, j - m));
    }
    if is_listed(a, name) {
        let (i, j) = choose|i: int, j: int| #[trigger]
            is_piece(a, i, j) && name == name_in(a, i, j);
        lemma_piece_before(a, b, i, j);
    }
    if is_listed(b, name) {
        let (i, j) = choose|i: int, j: int| #[trigger]
            is_piece(b, i, j) && name == name_in(b, i, j);
        lemma_piece_behind(a, b, i, j);
        assert(is_piece(s, m + i, m + j));
    }
}

/// A list without commas holds one name: all of it, without the white space around it and
/// in lower case; and none where nothing is left of it.
pub proof fn law_one_entry_is_one_name(raw: Seq<char>, name: Seq<char>)
    requires
        forall|i: int| 0 <= i < raw.len() ==> #[trigger] raw[i] != ',',
    ensures
        is_listed(raw, name) == (name.len() > 0 && name == ascii_lower(trim(raw))),
{
    let n = raw.len() as int;
    assert(is_piece(raw, 0, n));
    assert(raw.subrange(0, n) =~= raw);
    if is_listed(raw, name) {
        let (i, j) = choose|i: int, j: int| #[trigger]
            is_piece(raw, i, j) && name == name_in(raw, i, j);
        assert(i == 0) by {
            if i > 0 {
                assert(raw[i - 1] != ',');
            }
        }
        assert(j == n) by {
            if j < n {
                assert(raw[j] != ',');
            }
        }
    }
}

/// What is left of a text once it is trimmed neither begins nor ends with white space,
/// and stands in the text with nothing but white space before and behind it.
pub proof fn law_only_white_space_is_trimmed(s: Seq<char>) -> (cut: (int, int))
    ensures
        0 <= cut.0 <= cut.1 <= s.len(),
        trim(s) == s.subrange(cut.0, cut.1),
        forall|i: int| 0 <= i < cut.0 ==> is_white(#[trigger] s[i]),
        forall|i: int| cut.1 <= i < s.len() ==> is_white(#[trigger] s[i]),
        cut.0 < cut.1 ==> !is_white(s[cut.0]) && !is_white(s[cut.1 - 1]),
{
    let from = lemma_trim_start_cut(s);
    let t = trim_start(s);
    let n = lemma_trim_end_cut(t);
    assert(trim(s) =~= s.subrange(from, from + n));
    assert forall|i: int| from + n <= i < s.len() implies is_white(#[trigger] s[i]) by {
        assert(t[i - from] == s[i]);
    }
    if n > 0 {
        assert(t[0] == s[from]);
        assert(t[n - 1] == s[from + n - 1]);
    }
    (from, from + n)
}

proof fn lemma_trim_start_cut(s: Seq<char>) -> (n: int)
    ensures
        0 <= n <= s.len(),
        trim_start(s) == s.skip(n),
        forall|i: int| 0 <= i < n ==> is_white(#[trigger] s[i]),
        n < s.len() ==> !is_white(s[n]),
    decreases s.len(),
{
    if s.len() > 0 && is_white(s[0]) {
        let k = lemma_trim_start_cut(s.drop_first());
        assert(s.skip(k + 1) =~= s.drop_first().skip(k));
        assert forall|i: int| 0 <= i < k + 1 implies is_white(#[trigger] s[i]) by {
            if i > 0 {
                assert(s.drop_first()[i - 1] == s[i]);
            }
        }
        k + 1
    } else {
        assert(s.skip(0) =~= s);
        0
    }
}

proof fn lemma_trim_end_cut(s: Seq<char>) -> (n: int)
    ensures
        0 <= n <= s.len(),
        trim_end(s) == s.take(n),
        forall|i: int| n <= i < s.len() ==> is_white(#[trigger] s[i]),
        n > 0 ==> !is_white(s[n - 1]),
    decreases s.len(),
{
    if s.len() > 0 && is_white(s.last()) {
        let k = lemma_trim_end_cut(s.drop_last());
        assert(s.take(k) =~= s.drop_last().take(k));
        assert forall|i: int| k <= i < s.len() implies is_white(#[trigger] s[i]) by {
            if i < s.len() - 1 {
                assert(s.drop_last()[i] == s[i]);
            }
        }
        if k > 0 {
            assert(s.drop_last()[k - 1] == s[k - 1]);
        }
        k
    } else {
        assert(s.take(s.len() as int) =~= s);
        s.len() as int
    }
}

/// A quirk is enabled unless its own name is listed.
pub proof fn law_quirk_is_disabled_by_its_name(disabled: Seq<char>)
    ensures
        Quirks::but_for(disabled).glm_thinking == !is_listed(disabled, "glm_thinking"@),
        Quirks::but_for(disabled).dsml_heal == !is_listed(disabled, "dsml_heal"@),
        Quirks::but_for(disabled).missing_done == !is_listed(disabled, "missing_done"@),
        Quirks::but_for(disabled).think_tags == !is_listed(disabled, "think_tags"@),
{
}

/// Four names are registered, and no others.
pub proof fn law_four_quirks_are_registered(name: Seq<char>)
    ensures
        is_registered(name) <==> name == "glm_thinking"@ || name == "dsml_heal"@ || name
            == "missing_done"@ || name == "think_tags"@,
{
    assert(QUIRK_NAMES@[0] == "glm_thinking");
    assert(QUIRK_NAMES@[1] == "dsml_heal");
    assert(QUIRK_NAMES@[2] == "missing_done");
    assert(QUIRK_NAMES@[3] == "think_tags");
    if is_registered(name) {
        let i = choose|i: int| 0 <= i < 4 && (#[trigger] QUIRK_NAMES@[i])@ == name;
        assert(i == 0 || i == 1 || i == 2 || i == 3);
    }
}

/// The names that no quirk has are all of them: they come out in order, and a name that
/// is registered does not.
pub proof fn law_unknown_names_come_out_in_order(a: Seq<Seq<char>>, b: Seq<Seq<char>>)
    ensures
        unregistered(a + b) == unregistered(a) + unregistered(b),
    decreases b.len(),
{
    if b.len() == 0 {
        assert(a + b =~= a);
        assert(unregistered(a) + unregistered(b) =~= unregistered(a));
    } else {
        law_unknown_names_come_out_in_order(a, b.drop_last());
        assert((a + b).drop_last() =~= a + b.drop_last());
        assert(unregistered(a + b) =~= unregistered(a) + unregistered(b));
    }
}

/// A single name comes out if no quirk has it.
pub proof fn law_unknown_name_comes_out(name: Seq<char>)
    ensures
        is_registered(name) ==> unregistered(seq![name]).len() == 0,
        !is_registered(name) ==> unregistered(seq![name]) == seq![name],
{
    let none = Seq::<Seq<char>>::empty();
    assert(seq![name].drop_last() =~= none);
    assert(unregistered(none) =~= none);
    assert(none.push(name) =~= seq![name]);
}

/// The names in a list come out in the order of the list: those before a comma first.
pub proof fn law_names_come_in_the_order_of_the_list(a: Seq<char>, b: Seq<char>)
    requires
        forall|i: int| 0 <= i < a.len() ==> #[trigger] a[i] != ',',
    ensures
        names_from(a + ","@ + b, 0) == (if ascii_lower(trim(a)).len() > 0 {
            seq![ascii_lower(trim(a))]
        } else {
            Seq::empty()
        }) + names_from(b, 0),
{
    reveal_strlit(",");
    let s = a + ","@ + b;
    let n = a.len() as int;
    assert(s[n] == ',');
    assert forall|k: int| 0 <= k < n implies !(|c: char| c == ',')(#[trigger] s[k]) by {
        assert(s[k] == a[k]);
    }
    lemma_scan_is(s, 0, |c: char| c == ',', n);
    assert(s.subrange(0, n) =~= a);
    lemma_names_shift(s, b, n + 1, 0);
}

proof fn lemma_names_shift(s: Seq<char>, b: Seq<char>, m: int, start: int)
    requires
        0 <= m,
        s.len() == m + b.len(),
        forall|k: int| 0 <= k < b.len() ==> s[m + k] == #[trigger] b[k],
        0 <= start <= b.len(),
    ensures
        names_from(s, m + start) == names_from(b, start),
    decreases b.len() - start,
{
    let stop = |c: char| c == ',';
    let end = scan(b, start, stop);
    lemma_scan(b, start, stop);
    assert forall|k: int| m + start <= k < m + end implies !stop(#[trigger] s[k]) by {
        assert(s[m + (k - m)] == b[k - m]);
    }
    if end < b.len() {
        assert(s[m + end] == b[end]);
    }
    lemma_scan_is(s, m + start, stop, m + end);
    assert(s.subrange(m + start, m + end) =~= b.subrange(start, end)) by {
        assert forall|k: int| 0 <= k < end - start implies s.subrange(m + start, m + end)[k]
            == #[trigger] b.subrange(start, end)[k] by {
            assert(s[m + (start + k)] == b[start + k]);
        }
    }
    if end < b.len() {
        lemma_names_shift(s, b, m, end + 1);
    }
}

} // verus!
