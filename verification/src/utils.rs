//! Recognition accuracy: edit distance between two texts and the score derived from it.
//!
//! Texts are compared as sequences of Unicode scalar values, never as bytes.

use crate::edits::{is_least_number_of_edits, lemma_distance_is_least_number_of_edits};
use vstd::prelude::*;

verus! {

/// The smallest of three integers.
pub open spec fn min3(a: int, b: int, c: int) -> int {
    if a <= b && a <= c {
        a
    } else if b <= c {
        b
    } else {
        c
    }
}

/// The larger of two lengths.
pub open spec fn longer(a: nat, b: nat) -> nat {
    if a >= b {
        a
    } else {
        b
    }
}

/// What replacing `x` by `y` costs: nothing when they agree, one edit otherwise.
pub open spec fn substitution_cost(x: char, y: char) -> int {
    if x == y {
        0
    } else {
        1
    }
}

/// Levenshtein distance between `a` and `b`, by its recurrence on the last characters. That it
/// is the least number of insertions, deletions and substitutions of a single character that
/// turn one text into the other is shown in `edits`.
pub open spec fn edit_distance(a: Seq<char>, b: Seq<char>) -> nat
    decreases a.len() + b.len(),
{
    if a.len() == 0 {
        b.len()
    } else if b.len() == 0 {
        a.len()
    } else {
        min3(
            edit_distance(a.drop_last(), b) as int + 1,
            edit_distance(a, b.drop_last()) as int + 1,
            edit_distance(a.drop_last(), b.drop_last()) as int + substitution_cost(
                a.last(),
                b.last(),
            ),
        ) as nat
    }
}

/// The score of `predicted` against `ground_truth`, in hundredths of a percent.
///
/// An empty ground truth scores 0, and so does an empty prediction. Otherwise the score is
/// `(1 - d / m) * 100` percent, where `d` is the edit distance and `m` the longer of the two
/// lengths, rounded to two decimals with halves rounded up.
pub open spec fn accuracy_hundredths(predicted: Seq<char>, ground_truth: Seq<char>) -> int {
    if ground_truth.len() == 0 || predicted.len() == 0 {
        0
    } else {
        let m = longer(predicted.len(), ground_truth.len()) as int;
        let d = edit_distance(predicted, ground_truth) as int;
        ((m - d) * 20000 + m) / (2 * m)
    }
}

/// The distance never exceeds the longer length and is at least the difference of the lengths.
pub proof fn lemma_edit_distance_bounds(a: Seq<char>, b: Seq<char>)
    ensures
        edit_distance(a, b) <= longer(a.len(), b.len()),
        edit_distance(a, b) >= a.len() - b.len(),
        edit_distance(a, b) >= b.len() - a.len(),
    decreases a.len() + b.len(),
{
    if a.len() != 0 && b.len() != 0 {
        lemma_edit_distance_bounds(a.drop_last(), b);
        lemma_edit_distance_bounds(a, b.drop_last());
        lemma_edit_distance_bounds(a.drop_last(), b.drop_last());
    }
}

/// The distance does not depend on the order of its arguments.
pub proof fn lemma_edit_distance_symmetric(a: Seq<char>, b: Seq<char>)
    ensures
        edit_distance(a, b) == edit_distance(b, a),
    decreases a.len() + b.len(),
{
    if a.len() != 0 && b.len() != 0 {
        lemma_edit_distance_symmetric(a.drop_last(), b);
        lemma_edit_distance_symmetric(a, b.drop_last());
        lemma_edit_distance_symmetric(a.drop_last(), b.drop_last());
    }
}

/// A text is at distance zero from itself.
pub proof fn lemma_edit_distance_self(a: Seq<char>)
    ensures
        edit_distance(a, a) == 0,
    decreases a.len(),
{
    if a.len() != 0 {
        lemma_edit_distance_self(a.drop_last());
    }
}

/// Two texts at distance zero are the same text.
pub proof fn lemma_edit_distance_zero(a: Seq<char>, b: Seq<char>)
    requires
        edit_distance(a, b) == 0,
    ensures
        a == b,
    decreases a.len() + b.len(),
{
    if a.len() == 0 || b.len() == 0 {
        assert(a.len() == 0 && b.len() == 0);
        assert(a =~= b);
    } else {
        lemma_edit_distance_bounds(a.drop_last(), b);
        lemma_edit_distance_bounds(a, b.drop_last());
        lemma_edit_distance_zero(a.drop_last(), b.drop_last());
        assert(a =~= a.drop_last().push(a.last()));
        assert(b =~= b.drop_last().push(b.last()));
    }
}

/// Going by way of a third text never shortens the way: the distance obeys the triangle
/// inequality, and so is a metric on texts.
pub proof fn lemma_edit_distance_triangle(a: Seq<char>, b: Seq<char>, c: Seq<char>)
    ensures
        edit_distance(a, c) <= edit_distance(a, b) + edit_distance(b, c),
    decreases a.len() + b.len() + c.len(),
{
    lemma_edit_distance_bounds(a, b);
    lemma_edit_distance_bounds(b, c);
    lemma_edit_distance_bounds(a, c);
    if a.len() != 0 && b.len() != 0 && c.len() != 0 {
        lemma_edit_distance_triangle(a.drop_last(), b, c);
        lemma_edit_distance_triangle(a, b, c.drop_last());
        lemma_edit_distance_triangle(a, b.drop_last(), c);
        lemma_edit_distance_triangle(a, b.drop_last(), c.drop_last());
        lemma_edit_distance_triangle(a.drop_last(), b.drop_last(), c);
        lemma_edit_distance_triangle(a.drop_last(), b.drop_last(), c.drop_last());
    }
}

/// One more character at the end of either text changes the distance by at most one.
pub proof fn lemma_edit_distance_step(a: Seq<char>, b: Seq<char>, x: char)
    ensures
        edit_distance(a.push(x), b) <= edit_distance(a, b) + 1,
        edit_distance(a, b) <= edit_distance(a.push(x), b) + 1,
        edit_distance(a, b.push(x)) <= edit_distance(a, b) + 1,
        edit_distance(a, b) <= edit_distance(a, b.push(x)) + 1,
{
    let longer = a.push(x);
    assert(longer.drop_last() =~= a);
    lemma_edit_distance_self(a);
    // a and a.push(x) are one edit apart
    assert(edit_distance(longer, a) <= 1) by {
        lemma_edit_distance_bounds(longer, a);
        if a.len() > 0 {
            lemma_edit_distance_bounds(a, a.drop_last());
        }
    }
    lemma_edit_distance_symmetric(longer, a);
    lemma_edit_distance_triangle(longer, a, b);
    lemma_edit_distance_triangle(a, longer, b);
    let wider = b.push(x);
    assert(wider.drop_last() =~= b);
    lemma_edit_distance_self(b);
    assert(edit_distance(wider, b) <= 1) by {
        lemma_edit_distance_bounds(wider, b);
    }
    lemma_edit_distance_symmetric(wider, b);
    lemma_edit_distance_triangle(a, b, wider);
    lemma_edit_distance_triangle(a, wider, b);
}

/// Whatever the two texts, the score lies between 0 and 100 percent.
pub proof fn lemma_accuracy_in_range(predicted: Seq<char>, ground_truth: Seq<char>)
    ensures
        0 <= accuracy_hundredths(predicted, ground_truth) <= 10000,
{
    if ground_truth.len() != 0 && predicted.len() != 0 {
        lemma_edit_distance_bounds(predicted, ground_truth);
        let m = longer(predicted.len(), ground_truth.len()) as int;
        let d = edit_distance(predicted, ground_truth) as int;
        let n = (m - d) * 20000 + m;
        assert(0 <= n <= 10000 * (2 * m) + m) by (nonlinear_arith)
            requires
                n == (m - d) * 20000 + m,
                0 <= d <= m,
                m > 0,
        ;
        assert(0 <= n / (2 * m) <= 10000) by (nonlinear_arith)
            requires
                0 <= n <= 10000 * (2 * m) + m,
                m > 0,
        ;
    }
}

/// A text scores 100 percent against itself, unless it is empty.
pub proof fn lemma_accuracy_of_equal(text: Seq<char>)
    requires
        text.len() > 0,
    ensures
        accuracy_hundredths(text, text) == 10000,
{
    lemma_edit_distance_self(text);
    let m = text.len() as int;
    assert((m * 20000 + m) / (2 * m) == 10000) by (nonlinear_arith)
        requires
            m > 0,
    ;
}

/// The characters of `s`, in order.
pub fn chars_of(s: &str) -> (v: Vec<char>)
    ensures
        v@ == s@,
{
    broadcast use vstd::string::group_string_axioms;

    let mut v: Vec<char> = Vec::new();
    for c in it: s.chars()
        invariant
            it.seq() == s@,
            v@ == it.seq().take(it.index()),
    {
        v.push(c);
        assert(it.seq().take(it.index() + 1) =~= it.seq().take(it.index()).push(c));
    }
    assert(s@.take(s@.len() as int) =~= s@);
    v
}

/// Edit distance of two character vectors, by the classical dynamic-programming table:
/// entry `(j, i)` holds the distance between the first `i` characters of `a` and the first `j`
/// of `b`.
pub fn edit_distance_of(a: &Vec<char>, b: &Vec<char>) -> (d: usize)
    ensures
        d == edit_distance(a@, b@),
{
    let len1 = a.len();
    let len2 = b.len();
    let mut matrix: Vec<Vec<usize>> = Vec::new();
    let mut first: Vec<usize> = Vec::new();
    first.push(0);
    let mut i: usize = 0;
    while i < len1
        invariant
            len1 == a.len(),
            i <= len1,
            first.len() == i + 1,
            forall|k: int| 0 <= k <= i ==> first[k] == k,
        decreases len1 - i,
    {
        first.push(i + 1);
        i = i + 1;
    }
    proof {
        assert forall|k: int| 0 <= k <= len1 implies first[k] == edit_distance(
            #[trigger] a@.take(k),
            b@.take(0),
        ) by {
            lemma_edit_distance_bounds(a@.take(k), b@.take(0));
        }
    }
    matrix.push(first);
    let mut j: usize = 0;
    while j < len2
        invariant
            len1 == a.len(),
            len2 == b.len(),
            j <= len2,
            matrix.len() == j + 1,
            forall|r: int| 0 <= r <= j ==> (#[trigger] matrix[r]).len() == len1 + 1,
            forall|r: int, k: int|
                0 <= r <= j && 0 <= k <= len1 ==> (#[trigger] matrix[r][k]) == edit_distance(
                    a@.take(k),
                    b@.take(r),
                ),
        decreases len2 - j,
    {
        let mut row: Vec<usize> = Vec::new();
        row.push(j + 1);
        proof {
            lemma_edit_distance_bounds(a@.take(0), b@.take(j + 1));
        }
        let mut i: usize = 0;
        while i < len1
            invariant
                len1 == a.len(),
                len2 == b.len(),
                j < len2,
                i <= len1,
                matrix.len() == j + 1,
                matrix[j as int].len() == len1 + 1,
                forall|k: int|
                    0 <= k <= len1 ==> (#[trigger] matrix[j as int][k]) == edit_distance(
                        a@.take(k),
                        b@.take(j as int),
                    ),
                row.len() == i + 1,
                forall|k: int|
                    0 <= k <= i ==> (#[trigger] row[k]) == edit_distance(
                        a@.take(k),
                        b@.take(j + 1),
                    ),
            decreases len1 - i,
        {
            let ghost pa = a@.take(i + 1);
            let ghost pb = b@.take(j + 1);
            proof {
                assert(pa.drop_last() =~= a@.take(i as int));
                assert(pb.drop_last() =~= b@.take(j as int));
                assert(pa.last() == a@[i as int]);
                assert(pb.last() == b@[j as int]);
                lemma_edit_distance_bounds(a@.take(i as int), b@.take(j as int));
            }
            let prev = &matrix[j];
            let diagonal: usize = if a[i] == b[j] {
                prev[i]
            } else {
                prev[i] + 1
            };
            let mut best: usize = diagonal;
            if row[i] < best {
                best = row[i] + 1;
            }
            if prev[i + 1] < best {
                best = prev[i + 1] + 1;
            }
            assert(best == edit_distance(pa, pb));
            row.push(best);
            i = i + 1;
        }
        matrix.push(row);
        j = j + 1;
    }
    assert(a@.take(len1 as int) =~= a@);
    assert(b@.take(len2 as int) =~= b@);
    matrix[len2][len1]
}

/// Levenshtein distance between two strings, counted in characters.
pub fn levenshtein(s1: &str, s2: &str) -> (d: usize)
    ensures
        d == edit_distance(s1@, s2@),
        d == edit_distance(s2@, s1@),
        d <= longer(s1@.len(), s2@.len()),
        is_least_number_of_edits(s1@, s2@, d as nat),
{
    let a = chars_of(s1);
    let b = chars_of(s2);
    proof {
        lemma_edit_distance_symmetric(s1@, s2@);
        lemma_edit_distance_bounds(s1@, s2@);
        lemma_distance_is_least_number_of_edits(s1@, s2@);
    }
    edit_distance_of(&a, &b)
}

/// The score, in hundredths of a percent, that goes with `distance` edits on texts of which the
/// longer has `longest` characters.
pub fn score_from_distance(distance: usize, longest: usize) -> (score: u32)
    requires
        distance <= longest,
        longest > 0,
    ensures
        score == ((longest - distance) * 20000 + longest) / (2 * longest),
        score <= 10000,
{
    let m: u128 = longest as u128;
    let kept: u128 = (longest - distance) as u128;
    assert(kept * 20000 + m <= 10000 * (2 * m) + m) by (nonlinear_arith)
        requires
            kept <= m,
    ;
    let n: u128 = kept * 20000 + m;
    let q: u128 = n / (2 * m);
    assert(q <= 10000) by (nonlinear_arith)
        requires
            q as int == (n as int) / (2 * (m as int)),
            n <= 10000 * (2 * m) + m,
            m > 0,
    ;
    q as u32
}

/// Accuracy of `predicted` against `ground_truth`, in hundredths of a percent: 10000 stands for
/// 100.00 %. An empty ground truth gives 0 whatever was predicted, and so does an empty
/// prediction.
pub fn calculate_accuracy(predicted: &str, ground_truth: &str) -> (score: u32)
    ensures
        score == accuracy_hundredths(predicted@, ground_truth@),
        score <= 10000,
{
    if ground_truth.is_empty() {
        return 0;
    }
    if predicted.is_empty() {
        return 0;
    }
    let a = chars_of(predicted);
    let b = chars_of(ground_truth);
    let distance = edit_distance_of(&a, &b);
    let longest = if a.len() >= b.len() {
        a.len()
    } else {
        b.len()
    };
    proof {
        lemma_edit_distance_bounds(predicted@, ground_truth@);
    }
    score_from_distance(distance, longest)
}

} // verus!
