//! Greedy decoding of the model's scores into text.
//!
//! The model gives one score per class for each time step; class 0 is the blank. Each time
//! step goes to the class with the highest score, the first of them where several share it.
//! A class that repeats the one just before it is dropped, and so is the blank; what is left
//! is written with the character set.

use crate::monocr::{MonOcr, OcrError};
use crate::raster::lemma_index_in_grid;
use crate::text::string_of;
use vstd::prelude::*;

verus! {

/// The output of the model for one line: for each time step, one score per class. Scores are
/// integers that order as the model's numbers do, such as `score_rank` gives them; class 0 is
/// the blank.
#[derive(Debug, Clone)]
pub struct Logits {
    /// Number of time steps.
    pub steps: usize,
    /// Number of classes.
    pub classes: usize,
    /// The scores, time step after time step.
    pub scores: Vec<i32>,
}

/// The bits that every 32-bit IEEE 754 number has set in its exponent when it is infinite or
/// not a number.
pub const EXPONENT_BITS: u32 = 0x7F80_0000;

/// The bits of the fraction of a 32-bit IEEE 754 number.
pub const FRACTION_BITS: u32 = 0x007F_FFFF;

/// The sign bit of a 32-bit IEEE 754 number.
pub const SIGN_BIT: u32 = 0x8000_0000;

/// Whether the bits are those of a 32-bit IEEE 754 value that is not a number.
pub open spec fn is_not_a_number(bits: u32) -> bool {
    bits & EXPONENT_BITS == EXPONENT_BITS && bits & FRACTION_BITS != 0
}

/// The score that stands for the 32-bit IEEE 754 number with these bits: its magnitude bits
/// taken as a whole number, negated where the sign bit is set. Both zeros get the score 0;
/// what is not a number gets the score of negative infinity, the lowest there is.
pub open spec fn rank_of(bits: u32) -> int {
    if is_not_a_number(bits) {
        -(EXPONENT_BITS as int)
    } else if bits & SIGN_BIT != 0 {
        -((bits & !SIGN_BIT) as int)
    } else {
        (bits & !SIGN_BIT) as int
    }
}

/// No score is lower than that of negative infinity, and none higher than that of infinity.
pub proof fn lemma_rank_bounds(bits: u32)
    ensures
        -(EXPONENT_BITS as int) <= rank_of(bits) <= EXPONENT_BITS as int,
{
    assert((bits & 0x7F80_0000u32 == 0x7F80_0000u32 && bits & 0x007F_FFFFu32 != 0) || (bits
        & !0x8000_0000u32) <= 0x7F80_0000u32) by (bit_vector);
}

/// Among numbers of the same sign, the one with the greater magnitude bits is further from
/// zero; a number without the sign bit is never below one with it.
pub proof fn lemma_rank_orders(a: u32, b: u32)
    requires
        !is_not_a_number(a),
        !is_not_a_number(b),
    ensures
        a & SIGN_BIT == 0 && b & SIGN_BIT == 0 ==> (rank_of(a) < rank_of(b) <==> a < b),
        a & SIGN_BIT != 0 && b & SIGN_BIT != 0 ==> (rank_of(a) < rank_of(b) <==> a > b),
        a & SIGN_BIT != 0 && b & SIGN_BIT == 0 ==> rank_of(a) <= rank_of(b),
{
    assert(a & 0x8000_0000u32 == 0 ==> a & !0x8000_0000u32 == a) by (bit_vector);
    assert(b & 0x8000_0000u32 == 0 ==> b & !0x8000_0000u32 == b) by (bit_vector);
    assert(a & 0x8000_0000u32 != 0 ==> a == (a & !0x8000_0000u32) + 0x8000_0000u32) by (bit_vector);
    assert(b & 0x8000_0000u32 != 0 ==> b == (b & !0x8000_0000u32) + 0x8000_0000u32) by (bit_vector);
    assert((a & !0x8000_0000u32) <= 0x7FFF_FFFFu32) by (bit_vector);
    assert((b & !0x8000_0000u32) <= 0x7FFF_FFFFu32) by (bit_vector);
}

/// The score that stands for the 32-bit IEEE 754 number with these bits. Scores order as the
/// numbers do; what is not a number ranks with negative infinity, which never wins a time step
/// against anything else.
pub fn score_rank(bits: u32) -> (rank: i32)
    ensures
        rank == rank_of(bits),
{
    let magnitude: u32 = bits & !SIGN_BIT;
    proof {
        assert((bits & !0x8000_0000u32) <= 0x7FFF_FFFFu32) by (bit_vector);
    }
    if bits & EXPONENT_BITS == EXPONENT_BITS && bits & FRACTION_BITS != 0 {
        -(EXPONENT_BITS as i32)
    } else if bits & SIGN_BIT != 0 {
        -(magnitude as i32)
    } else {
        magnitude as i32
    }
}

/// The class that wins among the first `n` scores of a time step: the one with the highest
/// score, and of several with that score the first. The blank wins where there is no score.
pub open spec fn best_among(row: Seq<i32>, n: int) -> int
    decreases n,
{
    if n <= 1 {
        0
    } else {
        let best = best_among(row, n - 1);
        if row[n - 1] > row[best] {
            n - 1
        } else {
            best
        }
    }
}

/// The class that wins a time step.
pub open spec fn best_class(row: Seq<i32>) -> int {
    best_among(row, row.len() as int)
}

/// The scores of time step `t`, class after class, where each time step has `classes` scores.
pub open spec fn score_row(scores: Seq<i32>, classes: int, t: int) -> Seq<i32> {
    scores.subrange(t * classes, t * classes + classes)
}

/// The winning class of each of the first `steps` time steps.
pub open spec fn labels_of(scores: Seq<i32>, steps: int, classes: int) -> Seq<int> {
    Seq::new(steps as nat, |t: int| best_class(score_row(scores, classes, t)))
}

/// Whether time step `t` of a sequence of labels emits a symbol: its label is not the blank and
/// differs from the label just before it.
pub open spec fn emits(labels: Seq<int>, t: int) -> bool {
    labels[t] != 0 && (t == 0 || labels[t] != labels[t - 1])
}

/// The text that the first `upto` labels stand for: each emitting time step contributes the
/// symbol of its label, class `k` standing for the symbol at place `k - 1` of the character
/// set.
pub open spec fn collapse(labels: Seq<int>, charset: Seq<char>, upto: int) -> Seq<char>
    decreases upto,
{
    if upto <= 0 {
        Seq::empty()
    } else {
        let before = collapse(labels, charset, upto - 1);
        if emits(labels, upto - 1) {
            before.push(charset[labels[upto - 1] - 1])
        } else {
            before
        }
    }
}

/// The text that a sequence of labels stands for.
pub open spec fn collapsed(labels: Seq<int>, charset: Seq<char>) -> Seq<char> {
    collapse(labels, charset, labels.len() as int)
}

/// The winning class has the highest score of its time step, and no class before it has the
/// same score.
pub proof fn lemma_best_among(row: Seq<i32>, n: int)
    requires
        1 <= n <= row.len(),
    ensures
        0 <= best_among(row, n) < n,
        forall|c: int| 0 <= c < n ==> #[trigger] row[c] <= row[best_among(row, n)],
        forall|c: int| 0 <= c < best_among(row, n) ==> #[trigger] row[c] < row[best_among(row, n)],
    decreases n,
{
    if n > 1 {
        lemma_best_among(row, n - 1);
    }
}

/// What the first `upto` labels stand for does not depend on the labels after them.
pub proof fn lemma_collapse_prefix(a: Seq<int>, b: Seq<int>, charset: Seq<char>, upto: int)
    requires
        0 <= upto <= a.len(),
        upto <= b.len(),
        forall|t: int| 0 <= t < upto ==> a[t] == b[t],
    ensures
        collapse(a, charset, upto) == collapse(b, charset, upto),
    decreases upto,
{
    if upto > 0 {
        lemma_collapse_prefix(a, b, charset, upto - 1);
    }
}

/// Labels that are all blank stand for the empty text.
pub proof fn lemma_collapse_blank(labels: Seq<int>, charset: Seq<char>, upto: int)
    requires
        0 <= upto <= labels.len(),
        forall|t: int| 0 <= t < upto ==> labels[t] == 0,
    ensures
        collapse(labels, charset, upto) == Seq::<char>::empty(),
    decreases upto,
{
    if upto > 0 {
        lemma_collapse_blank(labels, charset, upto - 1);
    }
}

/// A label that repeats the one before it adds nothing to the text.
pub proof fn lemma_collapse_repeat(labels: Seq<int>, charset: Seq<char>)
    requires
        labels.len() > 0,
    ensures
        collapsed(labels.push(labels.last()), charset) == collapsed(labels, charset),
{
    let longer = labels.push(labels.last());
    lemma_collapse_prefix(longer, labels, charset, labels.len() as int);
}

/// The same label once more after a blank adds its symbol once more.
pub proof fn lemma_collapse_after_blank(labels: Seq<int>, charset: Seq<char>, k: int)
    requires
        1 <= k <= charset.len(),
    ensures
        collapsed(labels.push(0).push(k), charset) == collapsed(labels, charset).push(
            charset[k - 1],
        ),
{
    let with_blank = labels.push(0);
    let longer = with_blank.push(k);
    lemma_collapse_prefix(longer, labels, charset, labels.len() as int);
    assert(collapse(longer, charset, labels.len() as int + 1) == collapse(
        longer,
        charset,
        labels.len() as int,
    ));
}

/// A class that wins two time steps in a row is written once; with a blank between the two it
/// is written twice.
pub proof fn lemma_collapse_pair(charset: Seq<char>, k: int)
    requires
        1 <= k <= charset.len(),
    ensures
        collapsed(seq![k, k], charset) == seq![charset[k - 1]],
        collapsed(seq![k, 0, k], charset) == seq![charset[k - 1], charset[k - 1]],
{
    let once = seq![k];
    assert(collapse(once, charset, 0) == Seq::<char>::empty());
    assert(collapsed(once, charset) =~= seq![charset[k - 1]]);
    lemma_collapse_repeat(once, charset);
    assert(once.push(once.last()) =~= seq![k, k]);
    lemma_collapse_after_blank(once, charset, k);
    assert(once.push(0).push(k) =~= seq![k, 0, k]);
    assert(collapsed(once, charset).push(charset[k - 1]) =~= seq![charset[k - 1], charset[k - 1]]);
}

impl Logits {
    /// There is one score for each class of each time step.
    pub open spec fn wf(&self) -> bool {
        self.scores@.len() == self.steps * self.classes
    }

    /// The scores of time step `t`, class after class.
    pub open spec fn row(&self, t: int) -> Seq<i32> {
        score_row(self.scores@, self.classes as int, t)
    }

    /// The winning class of each time step.
    pub open spec fn labels(&self) -> Seq<int> {
        labels_of(self.scores@, self.steps as int, self.classes as int)
    }

    /// Scores for `steps` time steps of `classes` classes, or `None` when `scores` does not hold
    /// exactly one score for each.
    pub fn new(steps: usize, classes: usize, scores: Vec<i32>) -> (logits: Option<Logits>)
        ensures
            logits is Some <==> scores@.len() == steps * classes,
            logits is Some ==> {
                let l = logits->0;
                &&& l.wf()
                &&& l.steps == steps
                &&& l.classes == classes
                &&& l.scores@ == scores@
            },
    {
        proof {
            assert(steps * classes >= 0) by (nonlinear_arith);
        }
        let given: usize = scores.len();
        match steps.checked_mul(classes) {
            Some(cells) => {
                if given == cells {
                    Some(Logits { steps, classes, scores })
                } else {
                    None
                }
            },
            None => None,
        }
    }

    /// The class that wins time step `t`: the one with the highest score, the first of them
    /// where several share it, and the blank where there are no classes at all.
    pub fn best_class_at(&self, t: usize) -> (k: usize)
        requires
            self.wf(),
            t < self.steps,
        ensures
            k == best_class(self.row(t as int)),
            k == self.labels()[t as int],
            self.classes > 0 ==> k < self.classes,
            self.classes == 0 ==> k == 0,
            forall|c: int| 0 <= c < self.classes ==> #[trigger] self.row(t as int)[c] <= self.row(t as int)[k as int],
            forall|c: int| 0 <= c < k ==> #[trigger] self.row(t as int)[c] < self.row(t as int)[k as int],
    {
        let classes: usize = self.classes;
        if classes == 0 {
            proof {
                assert(t * classes == 0) by (nonlinear_arith)
                    requires
                        classes == 0,
                ;
                assert(self.row(t as int).len() == 0);
            }
            return 0;
        }
        let cells: usize = self.scores.len();
        proof {
            lemma_index_in_grid(0, t as int, classes as int, self.steps as int);
            assert(self.steps * classes == classes * self.steps) by (nonlinear_arith);
        }
        let base: usize = t * classes;
        let ghost row = self.row(t as int);
        proof {
            lemma_best_among(row, classes as int);
        }
        let mut best: usize = 0;
        let mut c: usize = 1;
        while c < classes
            invariant
                self.wf(),
                classes == self.classes,
                classes > 0,
                base == t * classes,
                base + classes <= self.scores@.len(),
                self.scores@.len() <= usize::MAX,
                row == self.row(t as int),
                1 <= c <= classes,
                best == best_among(row, c as int),
                best < c,
            decreases classes - c,
        {
            assert(row[c as int] == self.scores@[base + c]);
            assert(row[best as int] == self.scores@[base + best]);
            if self.scores[base + c] > self.scores[base + best] {
                best = c;
            }
            c = c + 1;
        }
        best
    }
}

impl MonOcr {
    /// The text that the scores stand for, by greedy decoding: each time step goes to its
    /// winning class, a class that repeats the one before it is dropped, and so is the blank.
    pub fn decode(&self, logits: &Logits) -> (text: String)
        requires
            logits.wf(),
            logits.classes == self.charset@.len() + 1,
        ensures
            text@ == collapsed(logits.labels(), self.charset@),
            (forall|t: int| 0 <= t < logits.steps ==> logits.labels()[t] == 0) ==> text@.len()
                == 0,
    {
        let ghost labels = logits.labels();
        let mut decoded: Vec<char> = Vec::new();
        let mut prev: Option<usize> = None;
        let mut t: usize = 0;
        while t < logits.steps
            invariant
                logits.wf(),
                logits.classes == self.charset@.len() + 1,
                labels == logits.labels(),
                t <= logits.steps,
                decoded@ == collapse(labels, self.charset@, t as int),
                match prev {
                    None => t == 0,
                    Some(p) => t > 0 && p == labels[t - 1],
                },
            decreases logits.steps - t,
        {
            let k = logits.best_class_at(t);
            let repeats = match prev {
                None => false,
                Some(p) => p == k,
            };
            if k != 0 && !repeats {
                decoded.push(self.charset[k - 1]);
            }
            prev = Some(k);
            t = t + 1;
        }
        proof {
            if forall|t: int| 0 <= t < logits.steps ==> logits.labels()[t] == 0 {
                lemma_collapse_blank(labels, self.charset@, logits.steps as int);
            }
        }
        string_of(&decoded)
    }

    /// The text that raw scores stand for. `shape` is the shape of the model's output: a batch
    /// size, the number of time steps and the number of classes; `data` holds the scores of
    /// the first item of the batch, time step after time step, and whatever follows them.
    /// Scores are refused when their shape has fewer than three numbers, when the number of
    /// classes is not that of the symbols of the character set and the blank, or when there
    /// are fewer scores than time steps times classes.
    pub fn decode_owned(&self, data: &Vec<i32>, shape: &Vec<usize>) -> (text: Result<
        String,
        OcrError,
    >)
        ensures
            match text {
                Ok(s) => {
                    &&& is_well_shaped(data@, shape@, self.charset@.len())
                    &&& s@ == collapsed(
                        labels_of(data@, shape@[1] as int, shape@[2] as int),
                        self.charset@,
                    )
                },
                Err(e) => e == OcrError::MalformedLogits && !is_well_shaped(
                    data@,
                    shape@,
                    self.charset@.len(),
                ),
            },
    {
        if shape.len() < 3 {
            return Err(OcrError::MalformedLogits);
        }
        let steps: usize = shape[1];
        let classes: usize = shape[2];
        if classes == 0 || classes - 1 != self.charset.len() {
            return Err(OcrError::MalformedLogits);
        }
        proof {
            assert(steps * classes >= 0) by (nonlinear_arith);
        }
        let given: usize = data.len();
        match steps.checked_mul(classes) {
            None => Err(OcrError::MalformedLogits),
            Some(cells) => {
                if cells > given {
                    return Err(OcrError::MalformedLogits);
                }
                let mut scores: Vec<i32> = Vec::new();
                let mut i: usize = 0;
                while i < cells
                    invariant
                        cells <= data@.len(),
                        i <= cells,
                        scores@ == data@.subrange(0, i as int),
                    decreases cells - i,
                {
                    scores.push(data[i]);
                    assert(data@.subrange(0, i + 1) =~= data@.subrange(0, i as int).push(
                        data@[i as int],
                    ));
                    i = i + 1;
                }
                let logits = Logits { steps, classes, scores };
                proof {
                    assert forall|t: int| 0 <= t < steps implies score_row(
                        logits.scores@,
                        classes as int,
                        t,
                    ) == score_row(data@, classes as int, t) by {
                        if classes > 0 {
                            lemma_index_in_grid(0, t, classes as int, steps as int);
                            assert(steps * classes == classes * steps) by (nonlinear_arith);
                        } else {
                            assert(t * classes == 0) by (nonlinear_arith)
                                requires
                                    classes == 0,
                            ;
                        }
                        assert(score_row(logits.scores@, classes as int, t) =~= score_row(
                            data@,
                            classes as int,
                            t,
                        ));
                    }
                    assert(logits.labels() =~= labels_of(data@, steps as int, classes as int));
                }
                Ok(self.decode(&logits))
            },
        }
    }
}

/// Whether raw scores of this shape can be decoded with a character set of `symbols` symbols:
/// the shape names a batch size, a number of time steps and a number of classes; there is one
/// class for each symbol and one for the blank; and there is a score for each class of each
/// time step.
pub open spec fn is_well_shaped(data: Seq<i32>, shape: Seq<usize>, symbols: nat) -> bool {
    &&& shape.len() >= 3
    &&& shape[2] == symbols + 1
    &&& shape[1] * shape[2] <= data.len()
}

} // verus!
