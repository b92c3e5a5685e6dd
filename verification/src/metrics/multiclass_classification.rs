//! The confusion matrix of a classifier over several classes.
//!
//! The value of an accumulator is the sequence of examples it was given: each
//! a row of scores, one per class, and a 1-based label. Its matrix holds, at
//! row `p` and column `a`, the number of examples predicted as class `p`
//! whose label is class `a`.

use crate::finite::{exact_value, float_is_finite, float_lt, is_finite};
use crate::metrics::Ratio;
use vstd::prelude::*;

verus! {

/// Whether the running best of an argmax stays when `challenger` comes: a
/// finite score beats every score that is not finite, and every smaller
/// finite score. On a tie, and between two scores that are not finite, the
/// later score wins.
pub open spec fn beats(best: u32, challenger: u32) -> bool {
    is_finite(best) && (!is_finite(challenger) || exact_value(best) > exact_value(challenger))
}

/// The class predicted from a row of scores: the argmax, scanned from the
/// first class to the last.
pub open spec fn predicted_class(scores: Seq<u32>) -> int
    decreases scores.len(),
{
    if scores.len() <= 1 {
        0
    } else {
        let best = predicted_class(scores.drop_last());
        if beats(scores[best], scores.last()) {
            best
        } else {
            scores.len() - 1
        }
    }
}

/// The predicted class is the last one that holds the largest finite score;
/// where no score is finite, it is the last class.
pub proof fn lemma_predicted_class_is_argmax(scores: Seq<u32>)
    requires
        scores.len() > 0,
    ensures
        0 <= predicted_class(scores) < scores.len(),
        (exists|j: int| 0 <= j < scores.len() && is_finite(scores[j])) ==> is_finite(
            scores[predicted_class(scores)],
        ),
        forall|j: int|
            0 <= j < scores.len() && is_finite(#[trigger] scores[j]) ==> exact_value(scores[j])
                <= exact_value(scores[predicted_class(scores)]),
        forall|j: int|
            predicted_class(scores) < j < scores.len() && is_finite(#[trigger] scores[j])
                ==> exact_value(scores[j]) < exact_value(scores[predicted_class(scores)]),
        (forall|j: int| 0 <= j < scores.len() ==> !is_finite(scores[j])) ==> predicted_class(scores)
            == scores.len() - 1,
    decreases scores.len(),
{
    if scores.len() > 1 {
        let front = scores.drop_last();
        lemma_predicted_class_is_argmax(front);
        let best = predicted_class(front);
        assert(forall|j: int| 0 <= j < front.len() ==> front[j] == scores[j]);
        if (exists|j: int| 0 <= j < scores.len() && is_finite(scores[j])) {
            let j = choose|j: int| 0 <= j < scores.len() && is_finite(scores[j]);
            if j < front.len() {
                assert(is_finite(front[j]));
            }
        }
        assert forall|j: int| 0 <= j < scores.len() && is_finite(#[trigger] scores[j]) implies exact_value(
            scores[j],
        ) <= exact_value(scores[predicted_class(scores)]) by {
            if j < front.len() {
                assert(is_finite(front[j]));
            }
        }
        assert forall|j: int|
            predicted_class(scores) < j < scores.len() && is_finite(
                #[trigger] scores[j],
            ) implies exact_value(scores[j]) < exact_value(scores[predicted_class(scores)]) by {
            if j < front.len() {
                assert(is_finite(front[j]));
            }
        }
    }
}

/// One example: the scores of the classes, and the label.
pub struct LabeledScores {
    pub scores: Seq<u32>,
    pub label: usize,
}

/// What an update reads, row beside label, as far as both reach.
pub open spec fn labeled_rows(probabilities: Seq<Vec<u32>>, labels: Seq<usize>) -> Seq<
    LabeledScores,
> {
    Seq::new(
        if labels.len() <= probabilities.len() {
            labels.len()
        } else {
            probabilities.len()
        },
        |j: int| LabeledScores { scores: probabilities[j]@, label: labels[j] },
    )
}

/// Whether an example's predicted class lies in `predicted.0 .. predicted.1`
/// and its label's class in `actual.0 .. actual.1`.
pub open spec fn falls_in_block(
    example: LabeledScores,
    predicted: (int, int),
    actual: (int, int),
) -> bool {
    predicted.0 <= predicted_class(example.scores) < predicted.1 && actual.0 <= example.label - 1
        < actual.1
}

/// The number of examples in a block of the matrix.
pub open spec fn count_block(
    examples: Seq<LabeledScores>,
    predicted: (int, int),
    actual: (int, int),
) -> nat
    decreases examples.len(),
{
    if examples.len() == 0 {
        0
    } else {
        count_block(examples.drop_last(), predicted, actual) + if falls_in_block(
            examples.last(),
            predicted,
            actual,
        ) {
            1nat
        } else {
            0nat
        }
    }
}

/// The number of examples in one cell of the matrix.
pub open spec fn count_cell(examples: Seq<LabeledScores>, predicted: int, actual: int) -> nat {
    count_block(examples, (predicted, predicted + 1), (actual, actual + 1))
}

/// The number of examples, among the classes below `classes`, that were
/// predicted as the class of their label.
pub open spec fn count_correct(examples: Seq<LabeledScores>, classes: int) -> nat
    decreases examples.len(),
{
    if examples.len() == 0 {
        0
    } else {
        count_correct(examples.drop_last(), classes) + if predicted_class(examples.last().scores)
            == examples.last().label - 1 && 0 <= examples.last().label - 1 < classes {
            1nat
        } else {
            0nat
        }
    }
}

/// The number of examples that are predicted as `class` or labeled as it.
pub open spec fn count_touching(examples: Seq<LabeledScores>, class: int) -> nat
    decreases examples.len(),
{
    if examples.len() == 0 {
        0
    } else {
        count_touching(examples.drop_last(), class) + if predicted_class(examples.last().scores)
            == class || examples.last().label - 1 == class {
            1nat
        } else {
            0nat
        }
    }
}

/// Whether every example has a score for each of the `n_classes` classes, and
/// a label among them.
pub open spec fn examples_fit(examples: Seq<LabeledScores>, n_classes: int) -> bool {
    forall|j: int|
        0 <= j < examples.len() ==> (#[trigger] examples[j]).scores.len() == n_classes && 1
            <= examples[j].label <= n_classes
}

/// Counting a sequence that was put together from two shards gives the sum of
/// the shards' counts, in every block of the matrix.
pub proof fn lemma_count_of_shards(
    first: Seq<LabeledScores>,
    second: Seq<LabeledScores>,
    predicted: (int, int),
    actual: (int, int),
)
    ensures
        count_block(first + second, predicted, actual) == count_block(first, predicted, actual)
            + count_block(second, predicted, actual),
    decreases second.len(),
{
    if second.len() == 0 {
        assert(first + second =~= first);
    } else {
        assert((first + second).drop_last() =~= first + second.drop_last());
        assert((first + second).last() == second.last());
        lemma_count_of_shards(first, second.drop_last(), predicted, actual);
    }
}

/// Two shards that were counted apart and merged count as the whole that
/// was counted at once: every cell of the whole is the sum of the shards'
/// cells, whichever shard comes first.
pub proof fn lemma_shards_merge_to_the_whole(
    first: Seq<LabeledScores>,
    second: Seq<LabeledScores>,
    predicted: int,
    actual: int,
)
    ensures
        count_cell(first + second, predicted, actual) == count_cell(first, predicted, actual)
            + count_cell(second, predicted, actual),
        count_cell(second + first, predicted, actual) == count_cell(
            first + second,
            predicted,
            actual,
        ),
{
    lemma_count_of_shards(first, second, (predicted, predicted + 1), (actual, actual + 1));
    lemma_count_of_shards(second, first, (predicted, predicted + 1), (actual, actual + 1));
}

/// A block never holds more examples than there are.
pub proof fn lemma_count_bounded(
    examples: Seq<LabeledScores>,
    predicted: (int, int),
    actual: (int, int),
)
    ensures
        count_block(examples, predicted, actual) <= examples.len(),
    decreases examples.len(),
{
    if examples.len() > 0 {
        lemma_count_bounded(examples.drop_last(), predicted, actual);
    }
}

/// A block that is cut in two along the predicted classes holds what its two
/// parts hold.
pub proof fn lemma_block_splits_by_predicted(
    examples: Seq<LabeledScores>,
    low: int,
    middle: int,
    high: int,
    actual: (int, int),
)
    requires
        low <= middle <= high,
    ensures
        count_block(examples, (low, high), actual) == count_block(examples, (low, middle), actual)
            + count_block(examples, (middle, high), actual),
    decreases examples.len(),
{
    if examples.len() > 0 {
        lemma_block_splits_by_predicted(examples.drop_last(), low, middle, high, actual);
    }
}

/// A block that is cut in two along the labels holds what its two parts hold.
pub proof fn lemma_block_splits_by_actual(
    examples: Seq<LabeledScores>,
    predicted: (int, int),
    low: int,
    middle: int,
    high: int,
)
    requires
        low <= middle <= high,
    ensures
        count_block(examples, predicted, (low, high)) == count_block(
            examples,
            predicted,
            (low, middle),
        ) + count_block(examples, predicted, (middle, high)),
    decreases examples.len(),
{
    if examples.len() > 0 {
        lemma_block_splits_by_actual(examples.drop_last(), predicted, low, middle, high);
    }
}

/// The block of all classes holds every example that fits.
pub proof fn lemma_whole_block(examples: Seq<LabeledScores>, n_classes: int)
    requires
        examples_fit(examples, n_classes),
    ensures
        count_block(examples, (0, n_classes), (0, n_classes)) == examples.len(),
    decreases examples.len(),
{
    if examples.len() > 0 {
        let front = examples.drop_last();
        assert(examples_fit(front, n_classes)) by {
            assert(forall|j: int| 0 <= j < front.len() ==> front[j] == examples[j]);
        }
        lemma_whole_block(front, n_classes);
        lemma_predicted_class_is_argmax(examples.last().scores);
    }
}

/// The correct predictions among the classes below `classes + 1` are those
/// below `classes` and the diagonal cell of `classes`.
pub proof fn lemma_correct_grows(examples: Seq<LabeledScores>, classes: int)
    requires
        0 <= classes,
    ensures
        count_correct(examples, classes + 1) == count_correct(examples, classes) + count_cell(
            examples,
            classes,
            classes,
        ),
        count_correct(examples, 0) == 0,
        count_correct(examples, classes) <= examples.len(),
    decreases examples.len(),
{
    if examples.len() > 0 {
        lemma_correct_grows(examples.drop_last(), classes);
    }
}

/// The examples that touch a class are those of its row and of its column,
/// the diagonal cell counted once; there are no more of them than examples.
pub proof fn lemma_row_and_column(examples: Seq<LabeledScores>, class: int, n_classes: int)
    requires
        0 <= class < n_classes,
        examples_fit(examples, n_classes),
    ensures
        count_touching(examples, class) + count_cell(examples, class, class) == count_block(
            examples,
            (class, class + 1),
            (0, n_classes),
        ) + count_block(examples, (0, n_classes), (class, class + 1)),
        count_touching(examples, class) <= examples.len(),
    decreases examples.len(),
{
    if examples.len() > 0 {
        let front = examples.drop_last();
        assert(examples_fit(front, n_classes)) by {
            assert(forall|j: int| 0 <= j < front.len() ==> front[j] == examples[j]);
        }
        lemma_row_and_column(front, class, n_classes);
        lemma_predicted_class_is_argmax(examples.last().scores);
    }
}

/// A square matrix of counts, kept in an `ndarray::Array2<u64>`.
#[verifier::external_body]
pub struct CountMatrix {
    inner: ndarray::Array2<u64>,
}

/// The cells of a matrix, row by row.
pub uninterp spec fn matrix_cells(matrix: CountMatrix) -> Seq<Seq<u64>>;

/// Whether `cells` has `n` rows of `n` cells.
pub open spec fn is_square(cells: Seq<Seq<u64>>, n: int) -> bool {
    cells.len() == n && forall|i: int| 0 <= i < n ==> (#[trigger] cells[i]).len() == n
}

impl CountMatrix {
    /// `ndarray::Array2::zeros` with the shape `(n, n)`: every cell is zero.
    /// It panics where the number of cells overflows `isize`; the bound here
    /// also keeps the cells' bytes within `isize`.
    #[verifier::external_body]
    fn zeros(n: usize) -> (r: CountMatrix)
        requires
            8 * (n * n) <= isize::MAX,
        ensures
            is_square(matrix_cells(r), n as int),
            forall|i: int, j: int| 0 <= i < n && 0 <= j < n ==> matrix_cells(r)[i][j] == 0,
    {
        CountMatrix { inner: ndarray::Array2::zeros((n, n)) }
    }

    /// `ndarray::ArrayBase::nrows`: the length of the first axis.
    #[verifier::external_body]
    fn n_rows(&self) -> (r: usize)
        ensures
            r == matrix_cells(*self).len(),
    {
        self.inner.nrows()
    }

    /// Indexing an `ndarray::Array2` by `(row, column)`, which panics out of
    /// bounds: the cell at that place.
    #[verifier::external_body]
    fn get(&self, row: usize, column: usize) -> (r: u64)
        requires
            row < matrix_cells(*self).len(),
            column < matrix_cells(*self)[row as int].len(),
        ensures
            r == matrix_cells(*self)[row as int][column as int],
    {
        self.inner[(row, column)]
    }

    /// Storing into an `ndarray::Array2` through its mutable index by
    /// `(row, column)`, which panics out of bounds: that cell becomes
    /// `value`, every other cell is unchanged.
    #[verifier::external_body]
    fn set(&mut self, row: usize, column: usize, value: u64)
        requires
            row < matrix_cells(*old(self)).len(),
            column < matrix_cells(*old(self))[row as int].len(),
        ensures
            matrix_cells(*final(self)) == matrix_cells(*old(self)).update(
                row as int,
                matrix_cells(*old(self))[row as int].update(column as int, value),
            ),
    {
        self.inner[(row, column)] = value;
    }

    /// `+=` between two `ndarray::Array2` of one shape: each cell grows by
    /// the cell of `other` at the same place.
    #[verifier::external_body]
    fn add_assign(&mut self, other: &CountMatrix)
        requires
            is_square(matrix_cells(*old(self)), matrix_cells(*old(self)).len() as int),
            is_square(matrix_cells(*other), matrix_cells(*old(self)).len() as int),
            forall|i: int, j: int|
                0 <= i < matrix_cells(*old(self)).len() && 0 <= j < matrix_cells(*old(self)).len()
                    ==> matrix_cells(*old(self))[i][j] + matrix_cells(*other)[i][j] <= u64::MAX,
        ensures
            is_square(matrix_cells(*final(self)), matrix_cells(*old(self)).len() as int),
            forall|i: int, j: int|
                0 <= i < matrix_cells(*old(self)).len() && 0 <= j < matrix_cells(*old(self)).len()
                    ==> matrix_cells(*final(self))[i][j] == matrix_cells(*old(self))[i][j]
                    + matrix_cells(*other)[i][j],
    {
        self.inner += &other.inner;
    }
}

/// What an update reads: one row of scores per example, as bit patterns, and
/// 1-based labels.
pub struct MulticlassClassificationMetricsInput<'a> {
    pub probabilities: &'a [Vec<u32>],
    pub labels: &'a [usize],
}

/// The statistics of one class against all others.
#[derive(Clone, Copy, Debug, PartialEq, Eq, Structural)]
pub struct ClassMetrics {
    pub true_positives: u64,
    pub false_positives: u64,
    pub true_negatives: u64,
    pub false_negatives: u64,
    pub accuracy: Ratio,
    pub precision: Ratio,
    pub recall: Ratio,
    pub f1_score: Ratio,
}

/// What `finalize` reports.
#[derive(Debug)]
pub struct MulticlassClassificationMetricsOutput {
    pub class_metrics: Vec<ClassMetrics>,
    pub accuracy: Ratio,
}

/// The statistics of `class` against all others: the true positives are its
/// diagonal cell, the false positives the rest of its row, the false
/// negatives the rest of its column, the true negatives all other examples.
/// The F1 score is the harmonic mean of precision and recall,
/// `2 tp / (2 tp + fp + fn)`; with no true positive it is the quotient 0 / 0.
pub open spec fn class_statistics(
    examples: Seq<LabeledScores>,
    class: int,
    n_classes: int,
) -> ClassMetrics {
    let tp = count_cell(examples, class, class);
    let fp = count_block(examples, (class, class + 1), (0, n_classes)) - tp;
    let fnn = count_block(examples, (0, n_classes), (class, class + 1)) - tp;
    let tn = examples.len() - tp - fp - fnn;
    ClassMetrics {
        true_positives: tp as u64,
        false_positives: fp as u64,
        true_negatives: tn as u64,
        false_negatives: fnn as u64,
        accuracy: Ratio { numerator: (tp + tn) as u128, denominator: examples.len() as u128 },
        precision: Ratio { numerator: tp as u128, denominator: (tp + fp) as u128 },
        recall: Ratio { numerator: tp as u128, denominator: (tp + fnn) as u128 },
        f1_score: Ratio {
            numerator: (2 * tp) as u128,
            denominator: if tp == 0 {
                0
            } else {
                (2 * tp + fp + fnn) as u128
            },
        },
    }
}

/// The argmax of a row of scores.
pub fn predict_class(scores: &Vec<u32>) -> (r: usize)
    requires
        scores@.len() > 0,
    ensures
        r == predicted_class(scores@),
        r < scores@.len(),
{
    let mut best: usize = 0;
    let mut k: usize = 1;
    assert(scores@.take(1).len() == 1);
    while k < scores.len()
        invariant
            1 <= k <= scores@.len(),
            best < k,
            best == predicted_class(scores@.take(k as int)),
        decreases scores@.len() - k,
    {
        let champion: u32 = scores[best];
        let challenger: u32 = scores[k];
        let stays: bool = float_is_finite(champion) && (!float_is_finite(challenger) || float_lt(
            challenger,
            champion,
        ));
        proof {
            let next = scores@.take(k as int + 1);
            assert(next.drop_last() =~= scores@.take(k as int));
            assert(next.last() == challenger);
            assert(next[best as int] == champion);
            assert(stays == beats(champion, challenger));
        }
        if !stays {
            best = k;
        }
        k += 1;
    }
    assert(scores@.take(k as int) =~= scores@);
    best
}

/// A confusion matrix over `n_classes` classes, indexed by predicted class
/// and then by the class of the label.
pub struct MulticlassClassificationMetrics {
    confusion_matrix: CountMatrix,
    examples: Ghost<Seq<LabeledScores>>,
}

impl MulticlassClassificationMetrics {
    /// The examples given so far, in the order of their arrival.
    pub closed spec fn examples(self) -> Seq<LabeledScores> {
        self.examples@
    }

    /// The number of classes.
    pub closed spec fn n_classes(self) -> nat {
        matrix_cells(self.confusion_matrix).len()
    }

    /// The matrix: rows by predicted class, columns by the label's class.
    pub closed spec fn cells(self) -> Seq<Seq<u64>> {
        matrix_cells(self.confusion_matrix)
    }

    /// The invariant of the type: the matrix is square and holds the counts
    /// of the examples, each of which fits the number of classes.
    pub closed spec fn well_formed(self) -> bool {
        &&& is_square(self.cells(), self.n_classes() as int)
        &&& self.examples@.len() <= u64::MAX
        &&& examples_fit(self.examples@, self.n_classes() as int)
        &&& forall|p: int, a: int|
            0 <= p < self.n_classes() && 0 <= a < self.n_classes() ==> #[trigger] self.cells()[p][a]
                == count_cell(self.examples@, p, a)
    }

    /// An accumulator without examples.
    pub fn new(n_classes: usize) -> (r: MulticlassClassificationMetrics)
        requires
            8 * (n_classes * n_classes) <= isize::MAX,
        ensures
            r.well_formed(),
            r.n_classes() == n_classes,
            r.examples() == Seq::<LabeledScores>::empty(),
    {
        let confusion_matrix = CountMatrix::zeros(n_classes);
        MulticlassClassificationMetrics { confusion_matrix, examples: Ghost(Seq::empty()) }
    }

    /// The number of examples predicted as class `predicted` whose label is
    /// class `actual` (both counted from 0).
    pub fn count(&self, predicted: usize, actual: usize) -> (r: u64)
        requires
            self.well_formed(),
            predicted < self.n_classes(),
            actual < self.n_classes(),
        ensures
            r == count_cell(self.examples(), predicted as int, actual as int),
    {
        self.confusion_matrix.get(predicted, actual)
    }

    /// Counts every example of the input in the cell of its predicted class
    /// and its label.
    #[verifier::rlimit(40)]
    pub fn update(&mut self, value: MulticlassClassificationMetricsInput)
        requires
            old(self).well_formed(),
            examples_fit(
                labeled_rows(value.probabilities@, value.labels@),
                old(self).n_classes() as int,
            ),
            old(self).examples().len() + labeled_rows(value.probabilities@, value.labels@).len()
                <= u64::MAX,
        ensures
            final(self).well_formed(),
            final(self).n_classes() == old(self).n_classes(),
            final(self).examples() == old(self).examples() + labeled_rows(
                value.probabilities@,
                value.labels@,
            ),
    {
        let ghost n = self.n_classes() as int;
        let ghost before = self.examples@;
        let ghost added = labeled_rows(value.probabilities@, value.labels@);
        let n_examples: usize = if value.labels.len() <= value.probabilities.len() {
            value.labels.len()
        } else {
            value.probabilities.len()
        };
        let mut j: usize = 0;
        proof {
            assert(before + added.take(0) =~= before);
        }
        while j < n_examples
            invariant
                j <= n_examples,
                n_examples == added.len(),
                added == labeled_rows(value.probabilities@, value.labels@),
                examples_fit(added, n),
                before.len() + added.len() <= u64::MAX,
                n == self.n_classes(),
                self.examples@ == before + added.take(j as int),
                self.well_formed(),
            decreases n_examples - j,
        {
            let scores: &Vec<u32> = &value.probabilities[j];
            let ghost example = added[j as int];
            assert(example.scores == scores@ && example.label == value.labels@[j as int]);
            let prediction: usize = predict_class(scores);
            let label: usize = value.labels[j] - 1;
            let ghost seen = before + added.take(j as int);
            let ghost next = before + added.take(j as int + 1);
            let ghost cells_before = self.cells();
            proof {
                assert(next.drop_last() =~= seen);
                assert(next.last() == example);
                lemma_count_bounded(
                    seen,
                    (prediction as int, prediction as int + 1),
                    (label as int, label as int + 1),
                );
                assert(cells_before[prediction as int][label as int] == count_cell(
                    seen,
                    prediction as int,
                    label as int,
                ));
            }
            let count: u64 = self.confusion_matrix.get(prediction, label);
            self.confusion_matrix.set(prediction, label, count + 1);
            self.examples = Ghost(next);
            proof {
                let cells_after = self.cells();
                assert(is_square(cells_after, n));
                assert forall|p: int, a: int| 0 <= p < n && 0 <= a < n implies #[trigger] cells_after[p][a]
                    == count_cell(next, p, a) by {
                    assert(cells_before[p][a] == count_cell(seen, p, a));
                }
                assert(examples_fit(next, n)) by {
                    assert forall|k: int| 0 <= k < next.len() implies (#[trigger] next[k]).scores.len()
                        == n && 1 <= next[k].label <= n by {
                        if k < seen.len() {
                            assert(next[k] == seen[k]);
                        }
                    }
                }
            }
            j += 1;
        }
        proof {
            assert(added.take(n_examples as int) =~= added);
        }
    }

    /// Adds the counts of another accumulator over the same classes: the
    /// result has counted the examples of both.
    pub fn merge(&mut self, other: MulticlassClassificationMetrics)
        requires
            old(self).well_formed(),
            other.well_formed(),
            old(self).n_classes() == other.n_classes(),
            old(self).examples().len() + other.examples().len() <= u64::MAX,
        ensures
            final(self).well_formed(),
            final(self).n_classes() == old(self).n_classes(),
            final(self).examples() == old(self).examples() + other.examples(),
    {
        let ghost n = self.n_classes() as int;
        let ghost first = self.examples@;
        let ghost second = other.examples@;
        let ghost cells_before = self.cells();
        proof {
            assert forall|i: int, j: int| 0 <= i < n && 0 <= j < n implies cells_before[i][j]
                + matrix_cells(other.confusion_matrix)[i][j] <= u64::MAX by {
                lemma_count_of_shards(first, second, (i, i + 1), (j, j + 1));
                lemma_count_bounded(first + second, (i, i + 1), (j, j + 1));
                assert(cells_before[i][j] == count_cell(first, i, j));
                assert(other.cells()[i][j] == count_cell(second, i, j));
            }
        }
        self.confusion_matrix.add_assign(&other.confusion_matrix);
        self.examples = Ghost(first + second);
        proof {
            let cells_after = self.cells();
            assert forall|p: int, a: int| 0 <= p < n && 0 <= a < n implies #[trigger] cells_after[p][a]
                == count_cell(first + second, p, a) by {
                lemma_count_of_shards(first, second, (p, p + 1), (a, a + 1));
                assert(cells_before[p][a] == count_cell(first, p, a));
                assert(other.cells()[p][a] == count_cell(second, p, a));
            }
            assert(examples_fit(first + second, n)) by {
                assert forall|k: int| 0 <= k < (first + second).len() implies (#[trigger] (first
                    + second)[k]).scores.len() == n && 1 <= (first + second)[k].label <= n by {
                    if k < first.len() {
                        assert((first + second)[k] == first[k]);
                    } else {
                        assert((first + second)[k] == second[k - first.len()]);
                    }
                }
            }
        }
    }

    /// The number of examples predicted as `class`.
    fn row_total(&self, class: usize) -> (r: u64)
        requires
            self.well_formed(),
            class < self.n_classes(),
        ensures
            r == count_block(
                self.examples(),
                (class as int, class as int + 1),
                (0, self.n_classes() as int),
            ),
    {
        let n: usize = self.confusion_matrix.n_rows();
        let ghost examples = self.examples@;
        let ghost row = (class as int, class as int + 1);
        let mut sum: u64 = 0;
        let mut j: usize = 0;
        proof {
            lemma_block_splits_by_actual(examples, row, 0, 0, 0);
        }
        while j < n
            invariant
                j <= n,
                n == self.n_classes(),
                class < n,
                self.well_formed(),
                examples == self.examples@,
                row == (class as int, class as int + 1),
                sum == count_block(examples, row, (0, j as int)),
            decreases n - j,
        {
            proof {
                lemma_block_splits_by_actual(examples, row, 0, j as int, j as int + 1);
                lemma_count_bounded(examples, row, (0, j as int + 1));
                assert(self.cells()[class as int][j as int] == count_cell(
                    examples,
                    class as int,
                    j as int,
                ));
            }
            sum = sum + self.confusion_matrix.get(class, j);
            j += 1;
        }
        sum
    }

    /// The number of examples labeled as `class`.
    fn column_total(&self, class: usize) -> (r: u64)
        requires
            self.well_formed(),
            class < self.n_classes(),
        ensures
            r == count_block(
                self.examples(),
                (0, self.n_classes() as int),
                (class as int, class as int + 1),
            ),
    {
        let n: usize = self.confusion_matrix.n_rows();
        let ghost examples = self.examples@;
        let ghost column = (class as int, class as int + 1);
        let mut sum: u64 = 0;
        let mut i: usize = 0;
        proof {
            lemma_block_splits_by_predicted(examples, 0, 0, 0, column);
        }
        while i < n
            invariant
                i <= n,
                n == self.n_classes(),
                class < n,
                self.well_formed(),
                examples == self.examples@,
                column == (class as int, class as int + 1),
                sum == count_block(examples, (0, i as int), column),
            decreases n - i,
        {
            proof {
                lemma_block_splits_by_predicted(examples, 0, i as int, i as int + 1, column);
                lemma_count_bounded(examples, (0, i as int + 1), column);
                assert(self.cells()[i as int][class as int] == count_cell(
                    examples,
                    i as int,
                    class as int,
                ));
            }
            sum = sum + self.confusion_matrix.get(i, class);
            i += 1;
        }
        sum
    }

    /// The number of examples.
    fn total(&self) -> (r: u64)
        requires
            self.well_formed(),
        ensures
            r == self.examples().len(),
    {
        let n: usize = self.confusion_matrix.n_rows();
        let ghost examples = self.examples@;
        let mut sum: u64 = 0;
        let mut i: usize = 0;
        proof {
            lemma_block_splits_by_predicted(examples, 0, 0, 0, (0, n as int));
        }
        while i < n
            invariant
                i <= n,
                n == self.n_classes(),
                self.well_formed(),
                examples == self.examples@,
                sum == count_block(examples, (0, i as int), (0, n as int)),
            decreases n - i,
        {
            proof {
                lemma_block_splits_by_predicted(examples, 0, i as int, i as int + 1, (0, n as int));
                lemma_count_bounded(examples, (0, i as int + 1), (0, n as int));
            }
            sum = sum + self.row_total(i);
            i += 1;
        }
        proof {
            lemma_whole_block(examples, n as int);
        }
        sum
    }

    /// The number of examples predicted as the class of their label.
    fn n_correct(&self) -> (r: u64)
        requires
            self.well_formed(),
        ensures
            r == count_correct(self.examples(), self.n_classes() as int),
    {
        let n: usize = self.confusion_matrix.n_rows();
        let ghost examples = self.examples@;
        let mut sum: u64 = 0;
        let mut i: usize = 0;
        proof {
            lemma_correct_grows(examples, 0);
        }
        while i < n
            invariant
                i <= n,
                n == self.n_classes(),
                self.well_formed(),
                examples == self.examples@,
                sum == count_correct(examples, i as int),
            decreases n - i,
        {
            proof {
                lemma_correct_grows(examples, i as int);
                lemma_correct_grows(examples, i as int + 1);
                assert(self.cells()[i as int][i as int] == count_cell(examples, i as int, i as int));
            }
            sum = sum + self.confusion_matrix.get(i, i);
            i += 1;
        }
        sum
    }

    /// The statistics of every class against all others, and the share of
    /// examples predicted as the class of their label.
    #[verifier::rlimit(40)]
    pub fn finalize(self) -> (r: MulticlassClassificationMetricsOutput)
        requires
            self.well_formed(),
        ensures
            r.class_metrics@.len() == self.n_classes(),
            forall|class: int|
                0 <= class < self.n_classes() ==> #[trigger] r.class_metrics@[class]
                    == class_statistics(self.examples(), class, self.n_classes() as int),
            r.accuracy == (Ratio {
                numerator: count_correct(self.examples(), self.n_classes() as int) as u128,
                denominator: self.examples().len() as u128,
            }),
    {
        let n_classes: usize = self.confusion_matrix.n_rows();
        let n_examples: u64 = self.total();
        let ghost examples = self.examples@;
        let mut class_metrics: Vec<ClassMetrics> = Vec::new();
        let mut class: usize = 0;
        while class < n_classes
            invariant
                class <= n_classes,
                n_classes == self.n_classes(),
                self.well_formed(),
                examples == self.examples@,
                n_examples == examples.len(),
                class_metrics@.len() == class,
                forall|c: int|
                    0 <= c < class ==> #[trigger] class_metrics@[c] == class_statistics(
                        examples,
                        c,
                        n_classes as int,
                    ),
            decreases n_classes - class,
        {
            let true_positives: u64 = self.confusion_matrix.get(class, class);
            proof {
                assert(self.cells()[class as int][class as int] == count_cell(
                    examples,
                    class as int,
                    class as int,
                ));
                lemma_block_splits_by_actual(
                    examples,
                    (class as int, class as int + 1),
                    0,
                    class as int,
                    n_classes as int,
                );
                lemma_block_splits_by_actual(
                    examples,
                    (class as int, class as int + 1),
                    class as int,
                    class as int + 1,
                    n_classes as int,
                );
                lemma_block_splits_by_predicted(
                    examples,
                    0,
                    class as int,
                    n_classes as int,
                    (class as int, class as int + 1),
                );
                lemma_block_splits_by_predicted(
                    examples,
                    class as int,
                    class as int + 1,
                    n_classes as int,
                    (class as int, class as int + 1),
                );
                lemma_row_and_column(examples, class as int, n_classes as int);
            }
            let false_positives: u64 = self.row_total(class) - true_positives;
            let false_negatives: u64 = self.column_total(class) - true_positives;
            let true_negatives: u64 = n_examples - true_positives - false_positives
                - false_negatives;
            class_metrics.push(
                ClassMetrics {
                    true_positives,
                    false_positives,
                    true_negatives,
                    false_negatives,
                    accuracy: Ratio {
                        numerator: (true_positives + true_negatives) as u128,
                        denominator: n_examples as u128,
                    },
                    precision: Ratio {
                        numerator: true_positives as u128,
                        denominator: (true_positives + false_positives) as u128,
                    },
                    recall: Ratio {
                        numerator: true_positives as u128,
                        denominator: (true_positives + false_negatives) as u128,
                    },
                    f1_score: Ratio {
                        numerator: 2 * (true_positives as u128),
                        denominator: if true_positives == 0 {
                            0
                        } else {
                            2 * (true_positives as u128) + false_positives as u128
                                + false_negatives as u128
                        },
                    },
                },
            );
            class += 1;
        }
        let n_correct: u64 = self.n_correct();
        MulticlassClassificationMetricsOutput {
            class_metrics,
            accuracy: Ratio { numerator: n_correct as u128, denominator: n_examples as u128 },
        }
    }
}

} // verus!
