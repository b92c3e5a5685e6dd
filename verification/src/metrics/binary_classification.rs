//! Confusion matrices of a binary classifier at equally spaced thresholds.

use crate::finite::{float_ge_ratio, float_ge_ratio_spec};
use crate::metrics::Ratio;
use vstd::arithmetic::power2::{lemma_pow2_pos, pow2};
use vstd::prelude::*;

verus! {

/// Whether a probability reaches the threshold `(index + 1) / (n_thresholds + 1)`.
pub open spec fn is_predicted_positive(probability: u32, index: int, n_thresholds: int) -> bool {
    float_ge_ratio_spec(probability, (index + 1) as nat, (n_thresholds + 1) as nat)
}

/// Labels are 1 for the negative class and 2 for the positive class.
pub open spec fn is_actual_positive(label: usize) -> bool {
    label == 2
}

/// Whether an example is counted in the cell (`predicted`, `actual`) of the
/// matrix of threshold `index`.
pub open spec fn falls_in_cell(
    example: (u32, usize),
    index: int,
    n_thresholds: int,
    predicted: bool,
    actual: bool,
) -> bool {
    is_predicted_positive(example.0, index, n_thresholds) == predicted && is_actual_positive(
        example.1,
    ) == actual
}

/// The number of examples in one cell of the matrix of threshold `index`.
pub open spec fn count_cell(
    examples: Seq<(u32, usize)>,
    index: int,
    n_thresholds: int,
    predicted: bool,
    actual: bool,
) -> nat
    decreases examples.len(),
{
    if examples.len() == 0 {
        0
    } else {
        count_cell(examples.drop_last(), index, n_thresholds, predicted, actual) + if falls_in_cell(
            examples.last(),
            index,
            n_thresholds,
            predicted,
            actual,
        ) {
            1nat
        } else {
            0nat
        }
    }
}

/// The number of examples whose label is positive (`actual`) or is not.
pub open spec fn count_actual(examples: Seq<(u32, usize)>, actual: bool) -> nat
    decreases examples.len(),
{
    if examples.len() == 0 {
        0
    } else {
        count_actual(examples.drop_last(), actual) + if is_actual_positive(examples.last().1)
            == actual {
            1nat
        } else {
            0nat
        }
    }
}

/// The pairs that an update reads: probabilities and labels side by side, as
/// far as both reach.
pub open spec fn paired(probabilities: Seq<u32>, labels: Seq<usize>) -> Seq<(u32, usize)> {
    Seq::new(
        if probabilities.len() <= labels.len() {
            probabilities.len()
        } else {
            labels.len()
        },
        |j: int| (probabilities[j], labels[j]),
    )
}

/// The counts of one threshold.
#[derive(Clone, Copy, Debug, PartialEq, Eq, Structural)]
pub struct BinaryConfusionMatrix {
    pub false_negatives: u64,
    pub false_positives: u64,
    pub true_negatives: u64,
    pub true_positives: u64,
}

impl BinaryConfusionMatrix {
    /// The matrix of no examples.
    pub fn new() -> (r: BinaryConfusionMatrix)
        ensures
            r == (BinaryConfusionMatrix {
                false_negatives: 0,
                false_positives: 0,
                true_negatives: 0,
                true_positives: 0,
            }),
    {
        BinaryConfusionMatrix {
            false_negatives: 0,
            false_positives: 0,
            true_negatives: 0,
            true_positives: 0,
        }
    }

    /// The number of examples counted, as an integer without bound.
    pub open spec fn spec_total(self) -> int {
        self.false_negatives + self.false_positives + self.true_negatives + self.true_positives
    }

    /// The number of examples counted.
    pub fn total(&self) -> (r: u64)
        requires
            self.spec_total() <= u64::MAX,
        ensures
            r == self.spec_total(),
    {
        self.false_negatives + self.false_positives + self.true_negatives + self.true_positives
    }

    /// Whether the matrix holds the counts of `examples` at threshold `index`.
    pub open spec fn counts(self, examples: Seq<(u32, usize)>, index: int, n_thresholds: int) -> bool {
        &&& self.true_positives == count_cell(examples, index, n_thresholds, true, true)
        &&& self.false_positives == count_cell(examples, index, n_thresholds, true, false)
        &&& self.true_negatives == count_cell(examples, index, n_thresholds, false, false)
        &&& self.false_negatives == count_cell(examples, index, n_thresholds, false, true)
    }
}

/// Counting a sequence that was put together from two shards gives the sum of
/// the shards' counts, in every cell of every threshold.
pub proof fn lemma_count_of_shards(
    first: Seq<(u32, usize)>,
    second: Seq<(u32, usize)>,
    index: int,
    n_thresholds: int,
    predicted: bool,
    actual: bool,
)
    ensures
        count_cell(first + second, index, n_thresholds, predicted, actual) == count_cell(
            first,
            index,
            n_thresholds,
            predicted,
            actual,
        ) + count_cell(second, index, n_thresholds, predicted, actual),
    decreases second.len(),
{
    if second.len() == 0 {
        assert(first + second =~= first);
    } else {
        assert((first + second).drop_last() =~= first + second.drop_last());
        assert((first + second).last() == second.last());
        lemma_count_of_shards(first, second.drop_last(), index, n_thresholds, predicted, actual);
    }
}

/// Two shards that were counted apart and merged count as the whole that
/// was counted at once: at every threshold each of the four counts of the
/// whole is the sum of the shards' counts, whichever shard comes first.
pub proof fn lemma_shards_merge_to_the_whole(
    first: Seq<(u32, usize)>,
    second: Seq<(u32, usize)>,
    index: int,
    n_thresholds: int,
)
    ensures
        forall|predicted: bool, actual: bool|
            #![trigger count_cell(first + second, index, n_thresholds, predicted, actual)]
            count_cell(first + second, index, n_thresholds, predicted, actual) == count_cell(
                first,
                index,
                n_thresholds,
                predicted,
                actual,
            ) + count_cell(second, index, n_thresholds, predicted, actual),
        forall|predicted: bool, actual: bool|
            #![trigger count_cell(second + first, index, n_thresholds, predicted, actual)]
            count_cell(second + first, index, n_thresholds, predicted, actual) == count_cell(
                first + second,
                index,
                n_thresholds,
                predicted,
                actual,
            ),
        (first + second).len() <= u64::MAX ==> {
            let whole = matrix_of(first + second, index, n_thresholds);
            let one = matrix_of(first, index, n_thresholds);
            let other = matrix_of(second, index, n_thresholds);
            &&& whole.true_positives == one.true_positives + other.true_positives
            &&& whole.false_positives == one.false_positives + other.false_positives
            &&& whole.true_negatives == one.true_negatives + other.true_negatives
            &&& whole.false_negatives == one.false_negatives + other.false_negatives
            &&& whole == matrix_of(second + first, index, n_thresholds)
        },
{
    assert forall|predicted: bool, actual: bool|
        #![trigger count_cell(first + second, index, n_thresholds, predicted, actual)]
        count_cell(first + second, index, n_thresholds, predicted, actual) == count_cell(
            first,
            index,
            n_thresholds,
            predicted,
            actual,
        ) + count_cell(second, index, n_thresholds, predicted, actual) by {
        lemma_count_of_shards(first, second, index, n_thresholds, predicted, actual);
    }
    assert forall|predicted: bool, actual: bool|
        #![trigger count_cell(second + first, index, n_thresholds, predicted, actual)]
        count_cell(second + first, index, n_thresholds, predicted, actual) == count_cell(
            first + second,
            index,
            n_thresholds,
            predicted,
            actual,
        ) by {
        lemma_count_of_shards(first, second, index, n_thresholds, predicted, actual);
        lemma_count_of_shards(second, first, index, n_thresholds, predicted, actual);
    }
    if (first + second).len() <= u64::MAX {
        lemma_cells_partition(first + second, index, n_thresholds);
        lemma_cells_partition(first, index, n_thresholds);
        lemma_cells_partition(second, index, n_thresholds);
        lemma_cells_partition(second + first, index, n_thresholds);
        assert(count_cell(first + second, index, n_thresholds, true, true) == count_cell(
            first,
            index,
            n_thresholds,
            true,
            true,
        ) + count_cell(second, index, n_thresholds, true, true));
        assert(count_cell(first + second, index, n_thresholds, true, false) == count_cell(
            first,
            index,
            n_thresholds,
            true,
            false,
        ) + count_cell(second, index, n_thresholds, true, false));
        assert(count_cell(first + second, index, n_thresholds, false, true) == count_cell(
            first,
            index,
            n_thresholds,
            false,
            true,
        ) + count_cell(second, index, n_thresholds, false, true));
        assert(count_cell(first + second, index, n_thresholds, false, false) == count_cell(
            first,
            index,
            n_thresholds,
            false,
            false,
        ) + count_cell(second, index, n_thresholds, false, false));
        assert(count_cell(second + first, index, n_thresholds, true, true) == count_cell(
            first + second,
            index,
            n_thresholds,
            true,
            true,
        ));
        assert(count_cell(second + first, index, n_thresholds, true, false) == count_cell(
            first + second,
            index,
            n_thresholds,
            true,
            false,
        ));
        assert(count_cell(second + first, index, n_thresholds, false, true) == count_cell(
            first + second,
            index,
            n_thresholds,
            false,
            true,
        ));
        assert(count_cell(second + first, index, n_thresholds, false, false) == count_cell(
            first + second,
            index,
            n_thresholds,
            false,
            false,
        ));
    }
}

/// The same for the counts by label alone.
pub proof fn lemma_count_actual_of_shards(
    first: Seq<(u32, usize)>,
    second: Seq<(u32, usize)>,
    actual: bool,
)
    ensures
        count_actual(first + second, actual) == count_actual(first, actual) + count_actual(
            second,
            actual,
        ),
    decreases second.len(),
{
    if second.len() == 0 {
        assert(first + second =~= first);
    } else {
        assert((first + second).drop_last() =~= first + second.drop_last());
        assert((first + second).last() == second.last());
        lemma_count_actual_of_shards(first, second.drop_last(), actual);
    }
}

/// Every example falls in exactly one cell: at each threshold the predicted
/// positives and negatives of a label add up to the examples with that label,
/// and the two labels add up to all examples.
pub proof fn lemma_cells_partition(examples: Seq<(u32, usize)>, index: int, n_thresholds: int)
    ensures
        count_cell(examples, index, n_thresholds, true, true) + count_cell(
            examples,
            index,
            n_thresholds,
            false,
            true,
        ) == count_actual(examples, true),
        count_cell(examples, index, n_thresholds, true, false) + count_cell(
            examples,
            index,
            n_thresholds,
            false,
            false,
        ) == count_actual(examples, false),
        count_actual(examples, true) + count_actual(examples, false) == examples.len(),
    decreases examples.len(),
{
    if examples.len() > 0 {
        lemma_cells_partition(examples.drop_last(), index, n_thresholds);
    }
}

/// A probability that reaches a threshold reaches every lower one.
pub proof fn lemma_thresholds_nest(probability: u32, low: int, high: int, n_thresholds: int)
    requires
        0 <= low <= high,
        0 <= n_thresholds,
        is_predicted_positive(probability, high, n_thresholds),
    ensures
        is_predicted_positive(probability, low, n_thresholds),
{
    let p = pow2(149);
    lemma_pow2_pos(149);
    assert((low + 1) * p <= (high + 1) * p) by (nonlinear_arith)
        requires
            low <= high,
            p > 0,
    ;
}

/// Raising the threshold never adds a predicted positive.
pub proof fn lemma_predicted_positives_shrink(
    examples: Seq<(u32, usize)>,
    low: int,
    high: int,
    n_thresholds: int,
    actual: bool,
)
    requires
        0 <= low <= high,
        0 <= n_thresholds,
    ensures
        count_cell(examples, high, n_thresholds, true, actual) <= count_cell(
            examples,
            low,
            n_thresholds,
            true,
            actual,
        ),
    decreases examples.len(),
{
    if examples.len() > 0 {
        lemma_predicted_positives_shrink(examples.drop_last(), low, high, n_thresholds, actual);
        if is_predicted_positive(examples.last().0, high, n_thresholds) {
            lemma_thresholds_nest(examples.last().0, low, high, n_thresholds);
        }
    }
}

/// The matrix of threshold `index` for a sequence of examples.
pub open spec fn matrix_of(
    examples: Seq<(u32, usize)>,
    index: int,
    n_thresholds: int,
) -> BinaryConfusionMatrix {
    BinaryConfusionMatrix {
        false_negatives: count_cell(examples, index, n_thresholds, false, true) as u64,
        false_positives: count_cell(examples, index, n_thresholds, true, false) as u64,
        true_negatives: count_cell(examples, index, n_thresholds, false, false) as u64,
        true_positives: count_cell(examples, index, n_thresholds, true, true) as u64,
    }
}

/// The matrices of all thresholds for a sequence of examples, lowest
/// threshold first.
pub open spec fn matrices_of(examples: Seq<(u32, usize)>, n_thresholds: int) -> Seq<
    BinaryConfusionMatrix,
> {
    Seq::new(n_thresholds as nat, |i: int| matrix_of(examples, i, n_thresholds))
}

/// What an update reads: probabilities as bit patterns, and 1-based labels.
pub struct BinaryClassificationMetricsInput<'a> {
    pub probabilities: &'a [u32],
    pub labels: &'a [usize],
}

/// The statistics of one threshold.
#[derive(Clone, Copy, Debug, PartialEq, Eq, Structural)]
pub struct BinaryClassificationMetricsOutputForThreshold {
    pub threshold: Ratio,
    pub true_positives: u64,
    pub false_positives: u64,
    pub true_negatives: u64,
    pub false_negatives: u64,
    pub accuracy: Ratio,
    pub precision: Option<Ratio>,
    pub recall: Option<Ratio>,
    pub f1_score: Option<Ratio>,
    pub true_positive_rate: Ratio,
    pub false_positive_rate: Ratio,
}

/// What `finalize` reports.
#[derive(Clone, Debug)]
pub struct BinaryClassificationMetricsOutput {
    pub auc_roc_approx: Ratio,
    pub thresholds: Vec<BinaryClassificationMetricsOutputForThreshold>,
}

/// The statistics that follow from the counts of threshold `index`.
///
/// Precision has no value without predicted positives, recall none without
/// actual positives, and the F1 score none unless both have one. The F1 score
/// is the harmonic mean of precision and recall, `2 tp / (2 tp + fp + fn)`;
/// with no true positive it is the quotient 0 / 0.
pub open spec fn statistics_of(
    matrix: BinaryConfusionMatrix,
    index: int,
    n_thresholds: int,
) -> BinaryClassificationMetricsOutputForThreshold {
    let tp = matrix.true_positives;
    let fp = matrix.false_positives;
    let tn = matrix.true_negatives;
    let fnn = matrix.false_negatives;
    let precision = if tp + fp > 0 {
        Some(Ratio { numerator: tp as u128, denominator: (tp + fp) as u128 })
    } else {
        None
    };
    let recall = if tp + fnn > 0 {
        Some(Ratio { numerator: tp as u128, denominator: (tp + fnn) as u128 })
    } else {
        None
    };
    BinaryClassificationMetricsOutputForThreshold {
        threshold: Ratio {
            numerator: (index + 1) as u128,
            denominator: (n_thresholds + 1) as u128,
        },
        true_positives: tp,
        false_positives: fp,
        true_negatives: tn,
        false_negatives: fnn,
        accuracy: Ratio { numerator: (tp + tn) as u128, denominator: matrix.spec_total() as u128 },
        precision,
        recall,
        f1_score: if precision is Some && recall is Some {
            Some(
                Ratio {
                    numerator: (2 * tp) as u128,
                    denominator: if tp == 0 {
                        0
                    } else {
                        (2 * tp + fp + fnn) as u128
                    },
                },
            )
        } else {
            None
        },
        true_positive_rate: Ratio { numerator: tp as u128, denominator: (tp + fnn) as u128 },
        false_positive_rate: Ratio { numerator: fp as u128, denominator: (tn + fp) as u128 },
    }
}

/// Twice the area, times positives times negatives, under the segments
/// between the points of the thresholds `0..=last`: the trapezoid between two
/// neighbouring thresholds has the mean of their true positive rates as its
/// height and the difference of their false positive rates as its width.
pub open spec fn area_between_thresholds(matrices: Seq<BinaryConfusionMatrix>, last: int) -> int
    decreases last,
{
    if last <= 0 {
        0
    } else {
        area_between_thresholds(matrices, last - 1) + (matrices[last].true_positives
            + matrices[last - 1].true_positives) * (matrices[last - 1].false_positives
            - matrices[last].false_positives)
    }
}

/// The numerator of the approximate area under the curve, over the
/// denominator `2 * positives * negatives`: the trapezoids between
/// neighbouring thresholds, the segment from the origin to the point of the
/// highest threshold, and the segment from the point of the lowest threshold
/// to (1, 1).
pub open spec fn area_numerator(matrices: Seq<BinaryConfusionMatrix>) -> int {
    let lowest = matrices[0];
    let highest = matrices[matrices.len() - 1];
    let positives = lowest.true_positives + lowest.false_negatives;
    let negatives = lowest.false_positives + lowest.true_negatives;
    area_between_thresholds(matrices, matrices.len() - 1) + highest.true_positives
        * highest.false_positives + (lowest.true_positives + positives) * (negatives
        - lowest.false_positives)
}

/// Confusion matrices at the thresholds `(i + 1) / (n + 1)`, for `i` in `0..n`.
///
/// The value of an accumulator is the sequence of examples it was given; its
/// matrices are the counts of that sequence.
pub struct BinaryClassificationMetrics {
    confusion_matrices_for_thresholds: Vec<BinaryConfusionMatrix>,
    examples: Ghost<Seq<(u32, usize)>>,
}

impl BinaryClassificationMetrics {
    #[verifier::type_invariant]
    spec fn well_formed(self) -> bool {
        &&& self.confusion_matrices_for_thresholds@.len() % 2 == 1
        &&& self.confusion_matrices_for_thresholds@.len() < u64::MAX
        &&& self.examples@.len() <= u64::MAX
        &&& forall|i: int|
            0 <= i < self.confusion_matrices_for_thresholds@.len()
                ==> (#[trigger] self.confusion_matrices_for_thresholds@[i]).counts(
                self.examples@,
                i,
                self.confusion_matrices_for_thresholds@.len() as int,
            )
    }

    /// The examples given so far, in the order of their arrival.
    pub closed spec fn examples(self) -> Seq<(u32, usize)> {
        self.examples@
    }

    /// The number of thresholds.
    pub closed spec fn n_thresholds(self) -> nat {
        self.confusion_matrices_for_thresholds@.len()
    }

    /// An accumulator without examples. The number of thresholds is odd, so
    /// that the middle one is 1/2.
    pub fn new(n_thresholds: usize) -> (r: BinaryClassificationMetrics)
        requires
            n_thresholds % 2 == 1,
            n_thresholds < usize::MAX,
        ensures
            r.n_thresholds() == n_thresholds,
            r.examples() == Seq::<(u32, usize)>::empty(),
    {
        let mut matrices: Vec<BinaryConfusionMatrix> = Vec::new();
        let mut i: usize = 0;
        while i < n_thresholds
            invariant
                i <= n_thresholds,
                matrices@.len() == i,
                forall|k: int|
                    0 <= k < i ==> (#[trigger] matrices@[k]).counts(
                        Seq::<(u32, usize)>::empty(),
                        k,
                        n_thresholds as int,
                    ),
            decreases n_thresholds - i,
        {
            matrices.push(BinaryConfusionMatrix::new());
            i += 1;
        }
        BinaryClassificationMetrics {
            confusion_matrices_for_thresholds: matrices,
            examples: Ghost(Seq::empty()),
        }
    }

    /// The counts of threshold `index`.
    pub fn confusion_matrix(&self, index: usize) -> (r: BinaryConfusionMatrix)
        requires
            index < self.n_thresholds(),
        ensures
            r == matrix_of(self.examples(), index as int, self.n_thresholds() as int),
            r.counts(self.examples(), index as int, self.n_thresholds() as int),
            r.spec_total() == self.examples().len(),
    {
        proof {
            use_type_invariant(self);
            lemma_cells_partition(self.examples@, index as int, self.n_thresholds() as int);
        }
        self.confusion_matrices_for_thresholds[index]
    }

    /// The number of thresholds.
    pub fn len(&self) -> (r: usize)
        ensures
            r == self.n_thresholds(),
            r % 2 == 1,
    {
        proof {
            use_type_invariant(self);
        }
        self.confusion_matrices_for_thresholds.len()
    }

    /// Counts every pair of the input at every threshold: a probability that
    /// reaches the threshold is a predicted positive, the label 2 an actual
    /// positive.
    #[verifier::rlimit(40)]
    pub fn update(&mut self, input: BinaryClassificationMetricsInput)
        requires
            old(self).examples().len() + paired(input.probabilities@, input.labels@).len()
                <= u64::MAX,
        ensures
            final(self).examples() == old(self).examples() + paired(
                input.probabilities@,
                input.labels@,
            ),
            final(self).n_thresholds() == old(self).n_thresholds(),
    {
        proof {
            use_type_invariant(&*self);
        }
        let n: usize = self.confusion_matrices_for_thresholds.len();
        let n_examples: usize = if input.probabilities.len() <= input.labels.len() {
            input.probabilities.len()
        } else {
            input.labels.len()
        };
        let ghost before = self.examples@;
        let ghost added = paired(input.probabilities@, input.labels@);
        let mut matrices: Vec<BinaryConfusionMatrix> = Vec::new();
        let mut i: usize = 0;
        while i < n
            invariant
                i <= n,
                n == self.confusion_matrices_for_thresholds@.len(),
                n < u64::MAX,
                n_examples == added.len(),
                added == paired(input.probabilities@, input.labels@),
                before == self.examples@,
                before.len() + added.len() <= u64::MAX,
                matrices@.len() == i,
                forall|k: int|
                    0 <= k < n ==> (#[trigger] self.confusion_matrices_for_thresholds@[k]).counts(
                        before,
                        k,
                        n as int,
                    ),
                forall|k: int|
                    0 <= k < i ==> (#[trigger] matrices@[k]).counts(before + added, k, n as int),
            decreases n - i,
        {
            let mut matrix: BinaryConfusionMatrix = self.confusion_matrices_for_thresholds[i];
            proof {
                lemma_cells_partition(before, i as int, n as int);
            }
            let mut j: usize = 0;
            while j < n_examples
                invariant
                    j <= n_examples,
                    i < n,
                    n < u64::MAX,
                    n_examples == added.len(),
                    added == paired(input.probabilities@, input.labels@),
                    before.len() + added.len() <= u64::MAX,
                    matrix.counts(before + added.take(j as int), i as int, n as int),
                    matrix.spec_total() == before.len() + j,
                decreases n_examples - j,
            {
                let predicted: bool = float_ge_ratio(
                    input.probabilities[j],
                    i as u64 + 1,
                    n as u64 + 1,
                );
                let actual: bool = input.labels[j] == 2;
                proof {
                    let seen = before + added.take(j as int);
                    let next = before + added.take(j as int + 1);
                    assert(next.drop_last() =~= seen);
                    assert(next.last() == added[j as int]);
                    assert(added[j as int] == (input.probabilities@[j as int], input.labels@[j as int]));
                }
                if predicted {
                    if actual {
                        matrix.true_positives += 1;
                    } else {
                        matrix.false_positives += 1;
                    }
                } else {
                    if actual {
                        matrix.false_negatives += 1;
                    } else {
                        matrix.true_negatives += 1;
                    }
                }
                j += 1;
            }
            proof {
                assert(added.take(n_examples as int) =~= added);
            }
            matrices.push(matrix);
            i += 1;
        }
        *self = BinaryClassificationMetrics {
            confusion_matrices_for_thresholds: matrices,
            examples: Ghost(before + added),
        };
    }

    /// Adds the counts of another accumulator with the same thresholds: the
    /// result has counted the examples of both.
    pub fn merge(&mut self, other: BinaryClassificationMetrics)
        requires
            old(self).n_thresholds() == other.n_thresholds(),
            old(self).examples().len() + other.examples().len() <= u64::MAX,
        ensures
            final(self).examples() == old(self).examples() + other.examples(),
            final(self).n_thresholds() == old(self).n_thresholds(),
    {
        proof {
            use_type_invariant(&*self);
            use_type_invariant(&other);
        }
        let n: usize = self.confusion_matrices_for_thresholds.len();
        let ghost first = self.examples@;
        let ghost second = other.examples@;
        let mut matrices: Vec<BinaryConfusionMatrix> = Vec::new();
        let mut i: usize = 0;
        while i < n
            invariant
                i <= n,
                n == self.confusion_matrices_for_thresholds@.len(),
                n == other.confusion_matrices_for_thresholds@.len(),
                first == self.examples@,
                second == other.examples@,
                first.len() + second.len() <= u64::MAX,
                matrices@.len() == i,
                forall|k: int|
                    0 <= k < n ==> (#[trigger] self.confusion_matrices_for_thresholds@[k]).counts(
                        first,
                        k,
                        n as int,
                    ),
                forall|k: int|
                    0 <= k < n ==> (#[trigger] other.confusion_matrices_for_thresholds@[k]).counts(
                        second,
                        k,
                        n as int,
                    ),
                forall|k: int|
                    0 <= k < i ==> (#[trigger] matrices@[k]).counts(first + second, k, n as int),
            decreases n - i,
        {
            let a: BinaryConfusionMatrix = self.confusion_matrices_for_thresholds[i];
            let b: BinaryConfusionMatrix = other.confusion_matrices_for_thresholds[i];
            proof {
                lemma_cells_partition(first, i as int, n as int);
                lemma_cells_partition(second, i as int, n as int);
                lemma_count_of_shards(first, second, i as int, n as int, true, true);
                lemma_count_of_shards(first, second, i as int, n as int, true, false);
                lemma_count_of_shards(first, second, i as int, n as int, false, true);
                lemma_count_of_shards(first, second, i as int, n as int, false, false);
            }
            matrices.push(
                BinaryConfusionMatrix {
                    false_negatives: a.false_negatives + b.false_negatives,
                    false_positives: a.false_positives + b.false_positives,
                    true_negatives: a.true_negatives + b.true_negatives,
                    true_positives: a.true_positives + b.true_positives,
                },
            );
            i += 1;
        }
        *self = BinaryClassificationMetrics {
            confusion_matrices_for_thresholds: matrices,
            examples: Ghost(first + second),
        };
    }

    /// The statistics of every threshold, and the approximate area under the
    /// curve of true against false positive rates by the trapezoid rule.
    #[verifier::rlimit(40)]
    pub fn finalize(self) -> (r: BinaryClassificationMetricsOutput)
        ensures
            r.thresholds@.len() == self.n_thresholds(),
            forall|i: int|
                0 <= i < self.n_thresholds() ==> #[trigger] r.thresholds@[i] == statistics_of(
                    matrix_of(self.examples(), i, self.n_thresholds() as int),
                    i,
                    self.n_thresholds() as int,
                ),
            r.auc_roc_approx.numerator == area_numerator(
                matrices_of(self.examples(), self.n_thresholds() as int),
            ),
            r.auc_roc_approx.denominator == 2 * count_actual(self.examples(), true) * count_actual(
                self.examples(),
                false,
            ),
            r.auc_roc_approx.numerator <= r.auc_roc_approx.denominator,
    {
        proof {
            use_type_invariant(&self);
        }
        let n: usize = self.confusion_matrices_for_thresholds.len();
        let ghost examples = self.examples@;
        let ghost positives = count_actual(examples, true);
        let ghost negatives = count_actual(examples, false);
        let ghost matrices = self.confusion_matrices_for_thresholds@;
        proof {
            assert forall|i: int| 0 <= i < n implies #[trigger] matrices[i] == matrix_of(
                examples,
                i,
                n as int,
            ) && matrices[i].true_positives + matrices[i].false_negatives == positives
                && matrices[i].false_positives + matrices[i].true_negatives == negatives by {
                lemma_cells_partition(examples, i, n as int);
                assert(matrices[i].counts(examples, i, n as int));
            }
            assert(matrices =~= matrices_of(examples, n as int));
            lemma_cells_partition(examples, 0, n as int);
        }
        let mut thresholds: Vec<BinaryClassificationMetricsOutputForThreshold> = Vec::new();
        let mut i: usize = 0;
        while i < n
            invariant
                i <= n,
                n < u64::MAX,
                n == matrices.len(),
                matrices == self.confusion_matrices_for_thresholds@,
                positives + negatives <= u64::MAX,
                thresholds@.len() == i,
                forall|k: int|
                    0 <= k < n ==> (#[trigger] matrices[k]).true_positives
                        + matrices[k].false_negatives == positives && matrices[k].false_positives
                        + matrices[k].true_negatives == negatives,
                forall|k: int|
                    0 <= k < i ==> #[trigger] thresholds@[k] == statistics_of(
                        matrices[k],
                        k,
                        n as int,
                    ),
            decreases n - i,
        {
            let matrix: BinaryConfusionMatrix = self.confusion_matrices_for_thresholds[i];
            assert(matrix == matrices[i as int]);
            let tp: u64 = matrix.true_positives;
            let fp: u64 = matrix.false_positives;
            let tn: u64 = matrix.true_negatives;
            let fnn: u64 = matrix.false_negatives;
            let precision: Option<Ratio> = if tp + fp > 0 {
                Some(Ratio { numerator: tp as u128, denominator: (tp + fp) as u128 })
            } else {
                None
            };
            let recall: Option<Ratio> = if tp + fnn > 0 {
                Some(Ratio { numerator: tp as u128, denominator: (tp + fnn) as u128 })
            } else {
                None
            };
            let f1_score: Option<Ratio> = if precision.is_some() && recall.is_some() {
                Some(
                    Ratio {
                        numerator: 2 * (tp as u128),
                        denominator: if tp == 0 {
                            0
                        } else {
                            2 * (tp as u128) + fp as u128 + fnn as u128
                        },
                    },
                )
            } else {
                None
            };
            thresholds.push(
                BinaryClassificationMetricsOutputForThreshold {
                    threshold: Ratio { numerator: i as u128 + 1, denominator: n as u128 + 1 },
                    true_positives: tp,
                    false_positives: fp,
                    true_negatives: tn,
                    false_negatives: fnn,
                    accuracy: Ratio {
                        numerator: (tp + tn) as u128,
                        denominator: matrix.total() as u128,
                    },
                    precision,
                    recall,
                    f1_score,
                    true_positive_rate: Ratio {
                        numerator: tp as u128,
                        denominator: (tp + fnn) as u128,
                    },
                    false_positive_rate: Ratio {
                        numerator: fp as u128,
                        denominator: (tn + fp) as u128,
                    },
                },
            );
            i += 1;
        }
        let lowest: BinaryConfusionMatrix = self.confusion_matrices_for_thresholds[0];
        let highest: BinaryConfusionMatrix = self.confusion_matrices_for_thresholds[n - 1];
        let n_positives: u64 = lowest.true_positives + lowest.false_negatives;
        let n_negatives: u64 = lowest.false_positives + lowest.true_negatives;
        proof {
            lemma_area_fits(positives, negatives);
        }
        let mut area: u128 = 0;
        let mut k: usize = 1;
        while k < n
            invariant
                1 <= k <= n,
                n == matrices.len(),
                matrices == self.confusion_matrices_for_thresholds@,
                forall|j: int| 0 <= j < n ==> (#[trigger] matrices[j]).counts(examples, j, n as int),
                positives + negatives <= u64::MAX,
                2 * positives * negatives <= u128::MAX,
                forall|j: int|
                    0 <= j < n ==> (#[trigger] matrices[j]).true_positives
                        + matrices[j].false_negatives == positives && matrices[j].false_positives
                        + matrices[j].true_negatives == negatives,
                area == area_between_thresholds(matrices, k - 1),
                matrices[k - 1].false_positives <= matrices[0].false_positives,
                area <= 2 * positives * (matrices[0].false_positives - matrices[k
                    - 1].false_positives),
            decreases n - k,
        {
            let upper: BinaryConfusionMatrix = self.confusion_matrices_for_thresholds[k];
            let lower: BinaryConfusionMatrix = self.confusion_matrices_for_thresholds[k - 1];
            proof {
                lemma_predicted_positives_shrink(examples, k as int - 1, k as int, n as int, false);
                assert(upper == matrices[k as int] && lower == matrices[k as int - 1]);
                assert(upper.counts(examples, k as int, n as int));
                assert(lower.counts(examples, k as int - 1, n as int));
                assert(matrices[0].counts(examples, 0, n as int));
                lemma_trapezoid_fits(
                    area as int,
                    positives as int,
                    negatives as int,
                    upper.true_positives as int,
                    lower.true_positives as int,
                    matrices[0].false_positives as int,
                    lower.false_positives as int,
                    upper.false_positives as int,
                );
            }
            let height: u128 = upper.true_positives as u128 + lower.true_positives as u128;
            let width: u128 = (lower.false_positives - upper.false_positives) as u128;
            area = area + height * width;
            k += 1;
        }
        proof {
            lemma_ends_fit(
                area as int,
                positives as int,
                negatives as int,
                lowest.true_positives as int,
                lowest.false_positives as int,
                highest.true_positives as int,
                highest.false_positives as int,
            );
        }
        let origin_segment: u128 = highest.true_positives as u128 * highest.false_positives as u128;
        let corner_segment: u128 = (lowest.true_positives as u128 + n_positives as u128) * ((
        n_negatives - lowest.false_positives) as u128);
        let numerator: u128 = area + origin_segment + corner_segment;
        let denominator: u128 = 2 * (n_positives as u128) * (n_negatives as u128);
        BinaryClassificationMetricsOutput {
            auc_roc_approx: Ratio { numerator, denominator },
            thresholds,
        }
    }
}

/// Twice the product of two counts that add up to at most `u64::MAX` fits in
/// 128 bits.
proof fn lemma_area_fits(positives: nat, negatives: nat)
    requires
        positives + negatives <= u64::MAX,
    ensures
        2 * positives * negatives <= u128::MAX,
        2 * (positives * negatives) <= u128::MAX,
{
    assert(2 * (positives * negatives) <= 0xffff_ffff_ffff_ffff * 0xffff_ffff_ffff_ffff)
        by (nonlinear_arith)
        requires
            positives + negatives <= 0xffff_ffff_ffff_ffff,
    ;
    assert(2 * positives * negatives == 2 * (positives * negatives)) by (nonlinear_arith);
}

proof fn lemma_trapezoid_fits(
    area: int,
    positives: int,
    negatives: int,
    upper_tp: int,
    lower_tp: int,
    first_fp: int,
    lower_fp: int,
    upper_fp: int,
)
    requires
        0 <= upper_tp <= positives,
        0 <= lower_tp <= positives,
        0 <= upper_fp <= lower_fp <= first_fp <= negatives,
        0 <= area <= 2 * positives * (first_fp - lower_fp),
        2 * positives * negatives <= u128::MAX,
    ensures
        (upper_tp + lower_tp) * (lower_fp - upper_fp) >= 0,
        area + (upper_tp + lower_tp) * (lower_fp - upper_fp) <= 2 * positives * (first_fp
            - upper_fp),
        2 * positives * (first_fp - upper_fp) <= 2 * positives * negatives,
{
    let width = lower_fp - upper_fp;
    assert((upper_tp + lower_tp) * width >= 0) by (nonlinear_arith)
        requires
            upper_tp + lower_tp >= 0,
            width >= 0,
    ;
    assert((upper_tp + lower_tp) * width <= 2 * positives * width) by (nonlinear_arith)
        requires
            upper_tp + lower_tp <= 2 * positives,
            width >= 0,
    ;
    assert(2 * positives * (first_fp - lower_fp) + 2 * positives * width == 2 * positives * (
    first_fp - upper_fp)) by (nonlinear_arith)
        requires
            width == lower_fp - upper_fp,
    ;
    assert(2 * positives * (first_fp - upper_fp) <= 2 * positives * negatives) by (nonlinear_arith)
        requires
            first_fp - upper_fp <= negatives,
            positives >= 0,
    ;
}

proof fn lemma_ends_fit(
    area: int,
    positives: int,
    negatives: int,
    lowest_tp: int,
    lowest_fp: int,
    highest_tp: int,
    highest_fp: int,
)
    requires
        0 <= lowest_tp <= positives,
        0 <= highest_tp <= positives,
        0 <= highest_fp <= lowest_fp <= negatives,
        0 <= area <= 2 * positives * (lowest_fp - highest_fp),
        2 * positives * negatives <= u128::MAX,
    ensures
        0 <= highest_tp * highest_fp,
        0 <= (lowest_tp + positives) * (negatives - lowest_fp),
        area + highest_tp * highest_fp + (lowest_tp + positives) * (negatives - lowest_fp) <= 2
            * positives * negatives,
        2 * positives * negatives == 2 * (positives * negatives),
{
    assert(0 <= highest_tp * highest_fp <= 2 * positives * highest_fp) by (nonlinear_arith)
        requires
            0 <= highest_tp <= positives,
            0 <= highest_fp,
    ;
    let gap = negatives - lowest_fp;
    assert(0 <= (lowest_tp + positives) * gap <= 2 * positives * gap) by (nonlinear_arith)
        requires
            0 <= lowest_tp <= positives,
            0 <= gap,
    ;
    assert(2 * positives * (lowest_fp - highest_fp) + 2 * positives * highest_fp + 2 * positives
        * gap == 2 * positives * negatives) by (nonlinear_arith)
        requires
            gap == negatives - lowest_fp,
    ;
    assert(2 * positives * negatives == 2 * (positives * negatives)) by (nonlinear_arith);
}

} // verus!
