//! Edit scripts: why the distance of `utils` is the least number of edits between two texts.
//!
//! An edit inserts, deletes or replaces one character. A script is a chain of texts in which
//! each text follows from the one before it by one edit. No script between two texts is
//! shorter than their distance, and one of them is exactly that long.

use crate::utils::{
    edit_distance, lemma_edit_distance_self, lemma_edit_distance_symmetric,
    lemma_edit_distance_triangle,
};
use vstd::prelude::*;

verus! {

/// Whether `b` is `a` with one character inserted.
pub open spec fn is_insertion(a: Seq<char>, b: Seq<char>) -> bool {
    exists|i: int, x: char| 0 <= i <= a.len() && b == #[trigger] a.insert(i, x)
}

/// Whether `b` is `a` with one character deleted.
pub open spec fn is_deletion(a: Seq<char>, b: Seq<char>) -> bool {
    exists|i: int| 0 <= i < a.len() && b == #[trigger] a.remove(i)
}

/// Whether `b` is `a` with one character replaced.
pub open spec fn is_substitution(a: Seq<char>, b: Seq<char>) -> bool {
    exists|i: int, x: char| 0 <= i < a.len() && b == #[trigger] a.update(i, x)
}

/// Whether `b` follows from `a` by one edit.
pub open spec fn is_single_edit(a: Seq<char>, b: Seq<char>) -> bool {
    is_insertion(a, b) || is_deletion(a, b) || is_substitution(a, b)
}

/// Whether `steps` is an edit script from `a` to `b`: it starts with `a`, ends with `b`, and
/// each of its texts follows from the one before it by one edit.
pub open spec fn is_edit_script(steps: Seq<Seq<char>>, a: Seq<char>, b: Seq<char>) -> bool {
    &&& steps.len() >= 1
    &&& steps.first() == a
    &&& steps.last() == b
    &&& forall|k: int| 0 <= k < steps.len() - 1 ==> is_single_edit(#[trigger] steps[k], steps[k + 1])
}

/// Whether `n` is the least number of edits that turn `a` into `b`: some script has `n` edits,
/// and none has fewer.
pub open spec fn is_least_number_of_edits(a: Seq<char>, b: Seq<char>, n: nat) -> bool {
    &&& exists|steps: Seq<Seq<char>>| #[trigger] is_edit_script(steps, a, b) && steps.len() - 1 == n
    &&& forall|steps: Seq<Seq<char>>| #[trigger] is_edit_script(steps, a, b) ==> n <= steps.len() - 1
}

/// A text and the same text with one more character are at most one edit apart.
pub proof fn lemma_insertion_costs_one(a: Seq<char>, i: int, x: char)
    requires
        0 <= i <= a.len(),
    ensures
        edit_distance(a, a.insert(i, x)) <= 1,
    decreases a.len() - i,
{
    let b = a.insert(i, x);
    if i == a.len() {
        assert(b.drop_last() =~= a);
        lemma_edit_distance_self(a);
    } else {
        assert(b.drop_last() =~= a.drop_last().insert(i, x));
        assert(b.last() == a.last());
        lemma_insertion_costs_one(a.drop_last(), i, x);
    }
}

/// A text and the same text with one character replaced are at most one edit apart.
pub proof fn lemma_substitution_costs_one(a: Seq<char>, i: int, x: char)
    requires
        0 <= i < a.len(),
    ensures
        edit_distance(a, a.update(i, x)) <= 1,
    decreases a.len() - i,
{
    let b = a.update(i, x);
    if i == a.len() - 1 {
        assert(b.drop_last() =~= a.drop_last());
        lemma_edit_distance_self(a.drop_last());
    } else {
        assert(b.drop_last() =~= a.drop_last().update(i, x));
        assert(b.last() == a.last());
        lemma_substitution_costs_one(a.drop_last(), i, x);
    }
}

/// One edit moves a text by a distance of at most one.
pub proof fn lemma_single_edit_costs_one(a: Seq<char>, b: Seq<char>)
    requires
        is_single_edit(a, b),
    ensures
        edit_distance(a, b) <= 1,
{
    if is_insertion(a, b) {
        let (i, x) = choose|i: int, x: char| 0 <= i <= a.len() && b == #[trigger] a.insert(i, x);
        lemma_insertion_costs_one(a, i, x);
    } else if is_deletion(a, b) {
        let i = choose|i: int| 0 <= i < a.len() && b == #[trigger] a.remove(i);
        assert(b.insert(i, a[i]) =~= a);
        lemma_insertion_costs_one(b, i, a[i]);
        lemma_edit_distance_symmetric(a, b);
    } else {
        let (i, x) = choose|i: int, x: char| 0 <= i < a.len() && b == #[trigger] a.update(i, x);
        lemma_substitution_costs_one(a, i, x);
    }
}

/// No edit script is shorter than the distance between its ends.
pub proof fn lemma_no_script_is_shorter(steps: Seq<Seq<char>>, a: Seq<char>, b: Seq<char>)
    requires
        is_edit_script(steps, a, b),
    ensures
        edit_distance(a, b) <= steps.len() - 1,
    decreases steps.len(),
{
    if steps.len() == 1 {
        lemma_edit_distance_self(a);
    } else {
        let shorter = steps.drop_last();
        let before = shorter.last();
        assert forall|k: int| 0 <= k < shorter.len() - 1 implies is_single_edit(
            #[trigger] shorter[k],
            shorter[k + 1],
        ) by {
            assert(shorter[k] == steps[k]);
            assert(shorter[k + 1] == steps[k + 1]);
        }
        lemma_no_script_is_shorter(shorter, a, before);
        assert(before == steps[steps.len() - 2]);
        assert(is_single_edit(steps[steps.len() - 2], steps[steps.len() - 2 + 1]));
        lemma_single_edit_costs_one(before, b);
        lemma_edit_distance_triangle(a, before, b);
    }
}

/// An edit stays an edit when the same character is put at the end of both texts.
pub proof fn lemma_edit_with_suffix(a: Seq<char>, b: Seq<char>, x: char)
    requires
        is_single_edit(a, b),
    ensures
        is_single_edit(a.push(x), b.push(x)),
{
    if is_insertion(a, b) {
        let (i, c) = choose|i: int, c: char| 0 <= i <= a.len() && b == #[trigger] a.insert(i, c);
        assert(a.push(x).insert(i, c) =~= b.push(x));
        assert(is_insertion(a.push(x), b.push(x)));
    } else if is_deletion(a, b) {
        let i = choose|i: int| 0 <= i < a.len() && b == #[trigger] a.remove(i);
        assert(a.push(x).remove(i) =~= b.push(x));
        assert(is_deletion(a.push(x), b.push(x)));
    } else {
        let (i, c) = choose|i: int, c: char| 0 <= i < a.len() && b == #[trigger] a.update(i, c);
        assert(a.push(x).update(i, c) =~= b.push(x));
        assert(is_substitution(a.push(x), b.push(x)));
    }
}

/// A script stays a script when the same character is put at the end of each of its texts.
pub proof fn lemma_script_with_suffix(steps: Seq<Seq<char>>, a: Seq<char>, b: Seq<char>, x: char) -> (lifted:
    Seq<Seq<char>>)
    requires
        is_edit_script(steps, a, b),
    ensures
        is_edit_script(lifted, a.push(x), b.push(x)),
        lifted.len() == steps.len(),
{
    let lifted = Seq::new(steps.len(), |k: int| steps[k].push(x));
    assert forall|k: int| 0 <= k < lifted.len() - 1 implies is_single_edit(
        #[trigger] lifted[k],
        lifted[k + 1],
    ) by {
        assert(is_single_edit(steps[k], steps[k + 1]));
        lemma_edit_with_suffix(steps[k], steps[k + 1], x);
    }
    lifted
}

/// Between any two texts there is an edit script with exactly as many edits as their distance.
pub proof fn lemma_shortest_script(a: Seq<char>, b: Seq<char>) -> (steps: Seq<Seq<char>>)
    ensures
        is_edit_script(steps, a, b),
        steps.len() - 1 == edit_distance(a, b),
    decreases a.len() + b.len(),
{
    if a.len() == 0 && b.len() == 0 {
        assert(a =~= b);
        seq![a]
    } else if a.len() == 0 {
        // write `b` one character after another
        let shorter = lemma_shortest_script(a, b.drop_last());
        let steps = shorter.push(b);
        assert(b.drop_last().insert(b.len() - 1, b.last()) =~= b);
        assert(is_insertion(b.drop_last(), b));
        assert forall|k: int| 0 <= k < steps.len() - 1 implies is_single_edit(
            #[trigger] steps[k],
            steps[k + 1],
        ) by {
            if k < shorter.len() - 1 {
                assert(is_single_edit(shorter[k], shorter[k + 1]));
            }
        }
        steps
    } else if b.len() == 0 {
        // delete `a` from its end
        let shorter = lemma_shortest_script(a.drop_last(), b);
        let steps = seq![a] + shorter;
        assert(a.remove(a.len() - 1) =~= a.drop_last());
        assert(is_deletion(a, a.drop_last()));
        assert forall|k: int| 0 <= k < steps.len() - 1 implies is_single_edit(
            #[trigger] steps[k],
            steps[k + 1],
        ) by {
            if k > 0 {
                assert(is_single_edit(shorter[k - 1], shorter[k - 1 + 1]));
            }
        }
        steps
    } else {
        let d = edit_distance(a, b);
        if d == edit_distance(a.drop_last(), b) + 1 {
            // delete the last character of `a`, then go on from there
            let shorter = lemma_shortest_script(a.drop_last(), b);
            let steps = seq![a] + shorter;
            assert(a.remove(a.len() - 1) =~= a.drop_last());
            assert(is_deletion(a, a.drop_last()));
            assert forall|k: int| 0 <= k < steps.len() - 1 implies is_single_edit(
                #[trigger] steps[k],
                steps[k + 1],
            ) by {
                if k > 0 {
                    assert(is_single_edit(shorter[k - 1], shorter[k - 1 + 1]));
                }
            }
            steps
        } else if d == edit_distance(a, b.drop_last()) + 1 {
            // reach `b` without its last character, then insert that
            let shorter = lemma_shortest_script(a, b.drop_last());
            let steps = shorter.push(b);
            assert(b.drop_last().insert(b.len() - 1, b.last()) =~= b);
            assert(is_insertion(b.drop_last(), b));
            assert forall|k: int| 0 <= k < steps.len() - 1 implies is_single_edit(
                #[trigger] steps[k],
                steps[k + 1],
            ) by {
                if k < shorter.len() - 1 {
                    assert(is_single_edit(shorter[k], shorter[k + 1]));
                }
            }
            steps
        } else {
            // turn the front of `a` into the front of `b`, keeping the last character of `a`,
            // then replace that if it differs
            let inner = lemma_shortest_script(a.drop_last(), b.drop_last());
            let lifted = lemma_script_with_suffix(inner, a.drop_last(), b.drop_last(), a.last());
            assert(a.drop_last().push(a.last()) =~= a);
            let reached = b.drop_last().push(a.last());
            if a.last() == b.last() {
                assert(reached =~= b);
                lifted
            } else {
                let steps = lifted.push(b);
                assert(reached.update(b.len() - 1, b.last()) =~= b);
                assert(is_substitution(reached, b));
                assert forall|k: int| 0 <= k < steps.len() - 1 implies is_single_edit(
                    #[trigger] steps[k],
                    steps[k + 1],
                ) by {
                    if k < lifted.len() - 1 {
                        assert(is_single_edit(lifted[k], lifted[k + 1]));
                    }
                }
                steps
            }
        }
    }
}

/// The distance between two texts is the least number of edits that turn one into the other.
pub proof fn lemma_distance_is_least_number_of_edits(a: Seq<char>, b: Seq<char>)
    ensures
        is_least_number_of_edits(a, b, edit_distance(a, b)),
{
    let shortest = lemma_shortest_script(a, b);
    assert(is_edit_script(shortest, a, b) && shortest.len() - 1 == edit_distance(a, b));
    assert forall|steps: Seq<Seq<char>>| #[trigger] is_edit_script(steps, a, b) implies edit_distance(
        a,
        b,
    ) <= steps.len() - 1 by {
        lemma_no_script_is_shorter(steps, a, b);
    }
}

} // verus!
