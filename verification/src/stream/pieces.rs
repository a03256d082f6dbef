//! What some chunks hold: what they say, what they think, and the pieces of their calls.

use super::chunks::{choice_contents, chunk_contents};
use super::state::text_in;
use super::turns::{choice_deltas, choice_thoughts, chunk_deltas, chunk_thoughts};
use crate::types::{ChatStreamChoice, ChatStreamChunk};
use vstd::prelude::*;

verus! {

proof fn lemma_choices_same(a: Seq<ChatStreamChoice>, b: Seq<ChatStreamChoice>, n: int)
    requires
        n <= a.len() <= b.len(),
        forall|i: int| 0 <= i < n ==> (#[trigger] a[i]) == b[i],
    ensures
        choice_contents(a, n) == choice_contents(b, n),
        choice_thoughts(a, n) == choice_thoughts(b, n),
        choice_deltas(a, n) == choice_deltas(b, n),
    decreases n,
{
    if n > 0 {
        assert(a[n - 1] == b[n - 1]);
        lemma_choices_same(a, b, n - 1);
    }
}

proof fn lemma_choices_joined(a: Seq<ChatStreamChoice>, b: Seq<ChatStreamChoice>, n: int)
    requires
        0 <= n <= b.len(),
    ensures
        ({
            let first = a.len() as int;
            let all = a + b;
            &&& choice_contents(all, first + n) == choice_contents(a, first) + choice_contents(b, n)
            &&& choice_thoughts(all, first + n) == choice_thoughts(a, first) + choice_thoughts(b, n)
            &&& choice_deltas(all, first + n) == choice_deltas(a, first) + choice_deltas(b, n)
        }),
    decreases n,
{
    let first = a.len() as int;
    let all = a + b;
    if n == 0 {
        lemma_choices_same(a, all, first);
        assert(choice_contents(a, first) + choice_contents(b, 0) =~= choice_contents(a, first));
        assert(choice_thoughts(a, first) + choice_thoughts(b, 0) =~= choice_thoughts(a, first));
        assert(choice_deltas(a, first) + choice_deltas(b, 0) =~= choice_deltas(a, first));
    } else {
        lemma_choices_joined(a, b, n - 1);
        assert(all[first + n - 1] == b[n - 1]);
        assert(choice_contents(all, first + n) =~= choice_contents(a, first) + choice_contents(
            b,
            n,
        ));
        assert(choice_thoughts(all, first + n) =~= choice_thoughts(a, first) + choice_thoughts(
            b,
            n,
        ));
        assert(choice_deltas(all, first + n) =~= choice_deltas(a, first) + choice_deltas(b, n));
    }
}

/// Choices add up: what those of two lists say, think and call is what those of the one do,
/// and then what those of the other do.
pub proof fn law_choices_add_up(a: Seq<ChatStreamChoice>, b: Seq<ChatStreamChoice>)
    ensures
        ({
            let n = a.len() as int;
            let m = b.len() as int;
            let all = a + b;
            &&& choice_contents(all, n + m) == choice_contents(a, n) + choice_contents(b, m)
            &&& choice_thoughts(all, n + m) == choice_thoughts(a, n) + choice_thoughts(b, m)
            &&& choice_deltas(all, n + m) == choice_deltas(a, n) + choice_deltas(b, m)
        }),
{
    lemma_choices_joined(a, b, b.len() as int);
}

/// Chunks add up: what those of two lists say, think and call is what those of the one do,
/// and then what those of the other do.
pub proof fn law_chunks_add_up(a: Seq<ChatStreamChunk>, b: Seq<ChatStreamChunk>)
    ensures
        chunk_contents(a + b) == chunk_contents(a) + chunk_contents(b),
        chunk_thoughts(a + b) == chunk_thoughts(a) + chunk_thoughts(b),
        chunk_deltas(a + b) == chunk_deltas(a) + chunk_deltas(b),
    decreases b.len(),
{
    if b.len() == 0 {
        assert(a + b =~= a);
        assert(chunk_contents(a) + chunk_contents(b) =~= chunk_contents(a));
        assert(chunk_thoughts(a) + chunk_thoughts(b) =~= chunk_thoughts(a));
        assert(chunk_deltas(a) + chunk_deltas(b) =~= chunk_deltas(a));
    } else {
        law_chunks_add_up(a, b.drop_last());
        assert((a + b).drop_last() =~= a + b.drop_last());
        assert((a + b).last() == b.last());
        assert(chunk_contents(a + b) =~= chunk_contents(a) + chunk_contents(b));
        assert(chunk_thoughts(a + b) =~= chunk_thoughts(a) + chunk_thoughts(b));
        assert(chunk_deltas(a + b) =~= chunk_deltas(a) + chunk_deltas(b));
    }
}

/// A chunk says, thinks and calls what its choices do, all of them.
pub proof fn law_chunk_holds_all_its_choices(chunk: ChatStreamChunk)
    ensures
        ({
            let choices = chunk.choices@;
            let n = choices.len() as int;
            &&& chunk_contents(seq![chunk]) == choice_contents(choices, n)
            &&& chunk_thoughts(seq![chunk]) == choice_thoughts(choices, n)
            &&& chunk_deltas(seq![chunk]) == choice_deltas(choices, n)
        }),
{
    let none = Seq::<ChatStreamChunk>::empty();
    let choices = chunk.choices@;
    let n = choices.len() as int;
    assert(seq![chunk].drop_last() =~= none);
    assert(chunk_contents(none) =~= Seq::empty());
    assert(chunk_thoughts(none) =~= Seq::empty());
    assert(chunk_deltas(none) =~= Seq::empty());
    assert(chunk_contents(seq![chunk]) =~= choice_contents(choices, n));
    assert(chunk_thoughts(seq![chunk]) =~= choice_thoughts(choices, n));
    assert(chunk_deltas(seq![chunk]) =~= choice_deltas(choices, n));
}

/// A choice says its content, if that holds something; it thinks its reasoning content or,
/// where that holds nothing, its reasoning; and all of its pieces of calls count.
pub proof fn law_choice_is_taken_in_full(choice: ChatStreamChoice)
    ensures
        ({
            let said = choice_contents(seq![choice], 1);
            let thought = choice_thoughts(seq![choice], 1);
            &&& match choice.content {
                Some(s) => if s@.len() > 0 {
                    said.len() == 1 && said[0] == s@
                } else {
                    said.len() == 0
                },
                None => said.len() == 0,
            }
            &&& match (choice.reasoning_content, choice.reasoning) {
                (Some(s), _) if s@.len() > 0 => thought == s@,
                (_, Some(s)) => thought == s@,
                (_, None) => thought.len() == 0,
            }
            &&& choice_deltas(seq![choice], 1) == choice.tool_calls@
        }),
{
    let none = Seq::<char>::empty();
    let one = seq![choice];
    reveal_with_fuel(choice_contents, 2);
    reveal_with_fuel(choice_thoughts, 2);
    reveal_with_fuel(choice_deltas, 2);
    assert(choice_deltas(one, 0) =~= Seq::empty());
    assert(choice_deltas(one, 1) =~= choice.tool_calls@);
    assert(none + text_in(choice.reasoning_content) =~= text_in(choice.reasoning_content));
    assert(none + text_in(choice.reasoning) =~= text_in(choice.reasoning));
}

} // verus!
