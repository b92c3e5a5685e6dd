//! How the values of a feature are put into bins.
//!
//! A number feature gets thresholds that lie between values that were seen;
//! each threshold is kept exactly, as a weighted mean of two neighbouring
//! values. An enum feature gets one bin per variant.

use crate::finite::{exact_value, float_is_finite, float_order_key, is_finite, lemma_order_key, order_key};
use crate::sorting::{
    all_items, is_ascending, lemma_no_occurrence_above, lemma_sorting_keeps_occurrences,
    lemma_stable_sorted, occurrences, sort_by_rank, stable_sorted,
};
use crate::tree::TrainOptions;
use vstd::prelude::*;

verus! {

/// A threshold between two values of a feature:
/// `lower + (upper - lower) * weight_numerator / weight_denominator`. The two
/// values are bit patterns of finite single precision numbers.
#[derive(Clone, Copy, Debug, PartialEq, Eq, Structural)]
pub struct Threshold {
    pub lower: u32,
    pub upper: u32,
    pub weight_numerator: u64,
    pub weight_denominator: u64,
}

impl Threshold {
    /// The threshold multiplied by 2^149 and by its weight's denominator.
    pub open spec fn scaled_value(self) -> int {
        exact_value(self.lower) * (self.weight_denominator - self.weight_numerator) + exact_value(
            self.upper,
        ) * self.weight_numerator
    }

    /// Whether this threshold is below another.
    pub open spec fn is_below(self, other: Threshold) -> bool {
        self.scaled_value() * other.weight_denominator < other.scaled_value()
            * self.weight_denominator
    }

    /// Whether this threshold is not above another.
    pub open spec fn is_at_most(self, other: Threshold) -> bool {
        self.scaled_value() * other.weight_denominator <= other.scaled_value()
            * self.weight_denominator
    }

    /// The threshold half way between two values.
    pub open spec fn midpoint(lower: u32, upper: u32) -> Threshold {
        Threshold { lower, upper, weight_numerator: 1, weight_denominator: 2 }
    }

    /// The threshold at a value.
    pub open spec fn at(value: u32) -> Threshold {
        Threshold { lower: value, upper: value, weight_numerator: 0, weight_denominator: 1 }
    }
}

/// How one feature is binned. Bin 0 is kept for missing and invalid values.
#[derive(Clone, Debug)]
pub enum BinningInstruction {
    Number { thresholds: Vec<Threshold> },
    Enum { n_variants: usize },
}

impl BinningInstruction {
    /// The number of bins for valid values: one more than there are
    /// thresholds, or one per variant.
    pub open spec fn spec_n_valid_bins(self) -> int {
        match self {
            BinningInstruction::Number { thresholds } => thresholds@.len() as int + 1,
            BinningInstruction::Enum { n_variants } => n_variants as int,
        }
    }

    /// The number of bins, with the bin 0 for missing and invalid values.
    pub open spec fn spec_n_bins(self) -> int {
        1 + self.spec_n_valid_bins()
    }

    /// A number feature has two bins more than thresholds: one more valid
    /// bin than thresholds, and the bin for missing values.
    pub proof fn lemma_bins_of_thresholds(self)
        requires
            self is Number,
        ensures
            self.spec_n_bins() == self->thresholds@.len() + 2,
            self.spec_n_bins() == self.spec_n_valid_bins() + 1,
            self.spec_n_valid_bins() == self->thresholds@.len() + 1,
    {
    }

    /// The number of bins, with the bin for missing values.
    pub fn n_bins(&self) -> (r: usize)
        requires
            self.spec_n_valid_bins() < usize::MAX,
        ensures
            r == self.spec_n_bins(),
            r == 1 + self.spec_n_valid_bins(),
            self matches BinningInstruction::Number { thresholds } ==> r == thresholds@.len() + 2,
    {
        1 + self.n_valid_bins()
    }

    /// The number of bins for valid values.
    pub fn n_valid_bins(&self) -> (r: usize)
        requires
            self.spec_n_valid_bins() <= usize::MAX,
        ensures
            r == self.spec_n_valid_bins(),
    {
        match self {
            BinningInstruction::Number { thresholds } => thresholds.len() + 1,
            BinningInstruction::Enum { n_variants } => *n_variants,
        }
    }
}

/// One column of a table of features: numbers as bit patterns of single
/// precision numbers, or the names of the variants of an enum.
pub enum TableColumnView<'a> {
    Number(&'a [u32]),
    Enum(&'a [String]),
}

/// The finite values among `values`, in their order, each with its order key
/// as rank and a count of one.
pub open spec fn finite_values(values: Seq<u32>) -> Seq<(i64, u32, usize)>
    decreases values.len(),
{
    if values.len() == 0 {
        Seq::empty()
    } else if is_finite(values.last()) {
        finite_values(values.drop_last()).push((order_key(values.last()) as i64, values.last(), 1))
    } else {
        finite_values(values.drop_last())
    }
}

/// The values that the thresholds are computed from: the finite ones among
/// the first `max_examples` values of the column, in ascending order.
pub open spec fn sample(column: Seq<u32>, max_examples: int) -> Seq<(i64, u32, usize)> {
    stable_sorted(
        finite_values(
            column.take(
                if column.len() <= max_examples {
                    column.len() as int
                } else {
                    max_examples
                },
            ),
        ),
    )
}

/// Whether an item of the sample is a finite value with its order key.
pub open spec fn is_sample_item(item: (i64, u32, usize)) -> bool {
    is_finite(item.1) && item.0 == order_key(item.1)
}

/// The distinct values of a sorted sample, in ascending order, each with the
/// number of times it occurs. The two zeros are one value; a value that
/// occurs several times is given by its first occurrence.
pub open spec fn histogram_of(sorted: Seq<(i64, u32, usize)>) -> Seq<(u32, usize)>
    decreases sorted.len(),
{
    if sorted.len() == 0 {
        Seq::empty()
    } else {
        let before = histogram_of(sorted.drop_last());
        if sorted.len() >= 2 && sorted[sorted.len() - 2].0 == sorted.last().0 {
            before.update(before.len() - 1, (before.last().0, (before.last().1 + 1) as usize))
        } else {
            before.push((sorted.last().1, 1))
        }
    }
}

/// The number of values in the first `k` entries of a histogram.
pub open spec fn cumulative(histogram: Seq<(u32, usize)>, k: int) -> int
    decreases k,
{
    if k <= 0 {
        0
    } else {
        cumulative(histogram, k - 1) + histogram[k - 1].1
    }
}

/// Whether the values of a histogram are finite and strictly increasing, and
/// every one of them occurs.
pub open spec fn is_histogram(histogram: Seq<(u32, usize)>) -> bool {
    &&& forall|i: int|
        0 <= i < histogram.len() ==> is_finite((#[trigger] histogram[i]).0) && histogram[i].1 >= 1
    &&& forall|i: int, j: int|
        0 <= i < j < histogram.len() ==> exact_value(histogram[i].0) < exact_value(histogram[j].0)
}

proof fn lemma_cumulative_agrees(first: Seq<(u32, usize)>, second: Seq<(u32, usize)>, k: int)
    requires
        0 <= k <= first.len(),
        k <= second.len(),
        forall|i: int| 0 <= i < k ==> first[i] == second[i],
    ensures
        cumulative(first, k) == cumulative(second, k),
    decreases k,
{
    if k > 0 {
        lemma_cumulative_agrees(first, second, k - 1);
    }
}

/// The counts of a histogram never fall as more entries are taken, and
/// rise with every entry that holds a value.
pub proof fn lemma_cumulative_rises(histogram: Seq<(u32, usize)>, low: int, high: int)
    requires
        0 <= low <= high <= histogram.len(),
    ensures
        cumulative(histogram, low) <= cumulative(histogram, high),
        (forall|i: int| 0 <= i < histogram.len() ==> (#[trigger] histogram[i]).1 >= 1) ==> cumulative(
            histogram,
            low,
        ) + (high - low) <= cumulative(histogram, high),
    decreases high - low,
{
    if low < high {
        lemma_cumulative_rises(histogram, low, high - 1);
    }
}

/// The histogram of a sorted sample holds every value of the sample once,
/// with finite, strictly increasing values.
#[verifier::rlimit(40)]
pub proof fn lemma_histogram_of(sorted: Seq<(i64, u32, usize)>)
    requires
        all_items(sorted, |item: (i64, u32, usize)| is_sample_item(item)),
        is_ascending(sorted),
        sorted.len() <= usize::MAX,
    ensures
        is_histogram(histogram_of(sorted)),
        histogram_of(sorted).len() <= sorted.len(),
        sorted.len() > 0 ==> histogram_of(sorted).len() > 0 && order_key(
            histogram_of(sorted).last().0,
        ) == sorted.last().0,
        cumulative(histogram_of(sorted), histogram_of(sorted).len() as int) == sorted.len(),
        forall|i: int|
            0 <= i < histogram_of(sorted).len() ==> (#[trigger] histogram_of(sorted)[i]).1
                <= sorted.len(),
    decreases sorted.len(),
{
    if sorted.len() > 0 {
        let front = sorted.drop_last();
        let last = sorted.last();
        assert(is_sample_item(sorted[sorted.len() - 1]));
        assert(all_items(front, |item: (i64, u32, usize)| is_sample_item(item))) by {
            assert forall|i: int| 0 <= i < front.len() implies is_sample_item(
                #[trigger] front[i],
            ) by {
                assert(front[i] == sorted[i]);
                assert(is_sample_item(sorted[i]));
            }
        }
        assert(is_ascending(front)) by {
            assert forall|i: int, j: int| 0 <= i <= j < front.len() implies front[i].0
                <= front[j].0 by {
                assert(sorted[i].0 <= sorted[j].0);
            }
        }
        lemma_histogram_of(front);
        let before = histogram_of(front);
        let after = histogram_of(sorted);
        if sorted.len() >= 2 {
            assert(front.last() == sorted[sorted.len() - 2]);
            assert(sorted[sorted.len() - 2].0 <= sorted[sorted.len() - 1].0);
        }
        if sorted.len() >= 2 && sorted[sorted.len() - 2].0 == last.0 {
            let n = before.len() as int;
            lemma_cumulative_agrees(before, after, n - 1);
            lemma_cumulative_rises(before, n - 1, n);
            lemma_cumulative_rises(before, 0, n - 1);
            assert(cumulative(after, n) == cumulative(after, n - 1) + after[n - 1].1);
            assert(cumulative(before, n) == cumulative(before, n - 1) + before[n - 1].1);
            assert forall|i: int, j: int| 0 <= i < j < after.len() implies exact_value(after[i].0)
                < exact_value(after[j].0) by {
                assert(after[i].0 == before[i].0 && after[j].0 == before[j].0);
            }
            assert forall|i: int| 0 <= i < after.len() implies is_finite((#[trigger] after[i]).0)
                && after[i].1 >= 1 by {
                assert(after[i].0 == before[i].0);
                assert(is_finite(before[i].0) && before[i].1 >= 1);
                if i < n - 1 {
                    assert(after[i] == before[i]);
                }
            }
            assert(before[n - 1].1 <= front.len());
            assert forall|i: int| 0 <= i < after.len() implies (#[trigger] after[i]).1
                <= sorted.len() by {
                if i < n - 1 {
                    assert(after[i] == before[i]);
                }
            }
        } else {
            let n = before.len() as int;
            lemma_cumulative_agrees(before, after, n);
            assert(cumulative(after, n + 1) == cumulative(after, n) + after[n].1);
            assert forall|i: int, j: int| 0 <= i < j < after.len() implies exact_value(after[i].0)
                < exact_value(after[j].0) by {
                if j < n {
                    assert(after[i] == before[i] && after[j] == before[j]);
                } else {
                    assert(after[i] == before[i]);
                    if i < n - 1 {
                        assert(exact_value(before[i].0) < exact_value(before[n - 1].0));
                    }
                    lemma_order_key(before.last().0, last.1);
                    lemma_order_key(last.1, before.last().0);
                }
            }
            assert forall|i: int| 0 <= i < after.len() implies is_finite((#[trigger] after[i]).0)
                && after[i].1 >= 1 by {
                if i < n {
                    assert(after[i] == before[i]);
                }
            }
            assert forall|i: int| 0 <= i < after.len() implies (#[trigger] after[i]).1
                <= sorted.len() by {
                if i < n {
                    assert(after[i] == before[i]);
                }
            }
        }
    }
}

/// Every entry of the histogram of a sorted sample counts the items of the
/// sample that have its value, and every item of the sample has the value
/// of an entry.
#[verifier::rlimit(40)]
pub proof fn lemma_histogram_counts(sorted: Seq<(i64, u32, usize)>)
    requires
        all_items(sorted, |item: (i64, u32, usize)| is_sample_item(item)),
        is_ascending(sorted),
        sorted.len() <= usize::MAX,
    ensures
        forall|i: int|
            0 <= i < histogram_of(sorted).len() ==> (#[trigger] histogram_of(sorted)[i]).1
                == occurrences(sorted, order_key(histogram_of(sorted)[i].0)),
        forall|k: int|
            0 <= k < sorted.len() ==> exists|i: int|
                0 <= i < histogram_of(sorted).len() && order_key(histogram_of(sorted)[i].0)
                    == (#[trigger] sorted[k]).0,
    decreases sorted.len(),
{
    if sorted.len() > 0 {
        let front = sorted.drop_last();
        let last = sorted.last();
        assert(is_sample_item(sorted[sorted.len() - 1]));
        assert(all_items(front, |item: (i64, u32, usize)| is_sample_item(item))) by {
            assert forall|i: int| 0 <= i < front.len() implies is_sample_item(
                #[trigger] front[i],
            ) by {
                assert(front[i] == sorted[i]);
                assert(is_sample_item(sorted[i]));
            }
        }
        assert(is_ascending(front)) by {
            assert forall|i: int, j: int| 0 <= i <= j < front.len() implies front[i].0
                <= front[j].0 by {
                assert(sorted[i].0 <= sorted[j].0);
            }
        }
        lemma_histogram_counts(front);
        lemma_histogram_of(front);
        lemma_histogram_of(sorted);
        let before = histogram_of(front);
        let after = histogram_of(sorted);
        let n = before.len() as int;
        if sorted.len() >= 2 {
            assert(front.last() == sorted[sorted.len() - 2]);
            assert(sorted[sorted.len() - 2].0 <= sorted[sorted.len() - 1].0);
        }
        if sorted.len() >= 2 && sorted[sorted.len() - 2].0 == last.0 {
            assert forall|i: int| 0 <= i < after.len() implies (#[trigger] after[i]).1
                == occurrences(sorted, order_key(after[i].0)) by {
                if i < n - 1 {
                    assert(after[i] == before[i]);
                    assert(exact_value(before[i].0) < exact_value(before[n - 1].0));
                    lemma_order_key(before[i].0, before[n - 1].0);
                    lemma_order_key(before[n - 1].0, before[i].0);
                } else {
                    assert(after[i].0 == before[n - 1].0);
                    assert(before[n - 1].1 <= front.len());
                }
            }
            assert forall|k: int| 0 <= k < sorted.len() implies exists|i: int|
                0 <= i < after.len() && order_key(after[i].0) == (#[trigger] sorted[k]).0 by {
                if k < front.len() {
                    assert(sorted[k] == front[k]);
                    let i = choose|i: int|
                        0 <= i < before.len() && order_key(before[i].0) == front[k].0;
                    assert(after[i].0 == before[i].0);
                } else {
                    assert(order_key(after[n - 1].0) == sorted[k].0);
                }
            }
        } else {
            lemma_no_occurrence_above(front, last.0 as int);
            assert forall|i: int| 0 <= i < after.len() implies (#[trigger] after[i]).1
                == occurrences(sorted, order_key(after[i].0)) by {
                if i < n {
                    assert(after[i] == before[i]);
                    assert(exact_value(after[i].0) < exact_value(after[n].0));
                    lemma_order_key(after[i].0, after[n].0);
                    lemma_order_key(after[n].0, after[i].0);
                }
            }
            assert forall|k: int| 0 <= k < sorted.len() implies exists|i: int|
                0 <= i < after.len() && order_key(after[i].0) == (#[trigger] sorted[k]).0 by {
                if k < front.len() {
                    assert(sorted[k] == front[k]);
                    let i = choose|i: int|
                        0 <= i < before.len() && order_key(before[i].0) == front[k].0;
                    assert(after[i] == before[i]);
                } else {
                    assert(order_key(after[n].0) == sorted[k].0);
                }
            }
        }
    }
}

/// The histogram of the sample of a column counts, for every value of the
/// sample, how often the column's sampled finite values have it.
pub proof fn lemma_histogram_counts_the_column(column: Seq<u32>, max_examples: int, i: int)
    requires
        column.len() <= usize::MAX,
        0 <= max_examples,
        0 <= i < histogram_of(sample(column, max_examples)).len(),
    ensures
        histogram_of(sample(column, max_examples))[i].1 == occurrences(
            finite_values(
                column.take(
                    if column.len() <= max_examples {
                        column.len() as int
                    } else {
                        max_examples
                    },
                ),
            ),
            order_key(histogram_of(sample(column, max_examples))[i].0),
        ),
{
    let prefix = column.take(
        if column.len() <= max_examples {
            column.len() as int
        } else {
            max_examples
        },
    );
    lemma_finite_values(prefix);
    lemma_stable_sorted(finite_values(prefix), |item: (i64, u32, usize)| is_sample_item(item));
    lemma_histogram_counts(sample(column, max_examples));
    lemma_sorting_keeps_occurrences(
        finite_values(prefix),
        order_key(histogram_of(sample(column, max_examples))[i].0),
    );
}

/// The distinct finite values among the first `max_examples` values of a
/// column, in ascending order, each with the number of times it occurs.
#[verifier::rlimit(40)]
pub fn compute_histogram(column: &[u32], max_examples: usize) -> (r: Vec<(u32, usize)>)
    ensures
        r@ == histogram_of(sample(column@, max_examples as int)),
        is_histogram(r@),
        cumulative(r@, r@.len() as int) == sample(column@, max_examples as int).len(),
        cumulative(r@, r@.len() as int) <= usize::MAX,
{
    let max: usize = if column.len() <= max_examples {
        column.len()
    } else {
        max_examples
    };
    let ghost prefix = column@.take(max as int);
    let mut items: Vec<(i64, u32, usize)> = Vec::new();
    let mut i: usize = 0;
    while i < max
        invariant
            i <= max,
            max <= column@.len(),
            prefix == column@.take(max as int),
            items@ == finite_values(prefix.take(i as int)),
            items@.len() <= i,
            all_items(items@, |item: (i64, u32, usize)| is_sample_item(item)),
        decreases max - i,
    {
        let value: u32 = column[i];
        proof {
            let next = prefix.take(i as int + 1);
            assert(next.drop_last() =~= prefix.take(i as int));
            assert(next.last() == value);
        }
        if float_is_finite(value) {
            let rank: i64 = float_order_key(value);
            let ghost before = items@;
            items.push((rank, value, 1));
            proof {
                assert forall|k: int| 0 <= k < items@.len() implies is_sample_item(
                    #[trigger] items@[k],
                ) by {
                    if k < before.len() {
                        assert(items@[k] == before[k]);
                        assert(is_sample_item(before[k]));
                    }
                }
            }
        }
        i += 1;
    }
    proof {
        assert(prefix.take(max as int) =~= prefix);
        lemma_stable_sorted(items@, |item: (i64, u32, usize)| is_sample_item(item));
    }
    sort_by_rank(&mut items);
    let ghost sorted = items@;
    let n: usize = items.len();
    let mut histogram: Vec<(u32, usize)> = Vec::new();
    let mut j: usize = 0;
    while j < n
        invariant
            j <= n,
            n == sorted.len(),
            sorted == items@,
            all_items(sorted, |item: (i64, u32, usize)| is_sample_item(item)),
            is_ascending(sorted),
            histogram@ == histogram_of(sorted.take(j as int)),
        decreases n - j,
    {
        let ghost seen = sorted.take(j as int);
        let ghost next = sorted.take(j as int + 1);
        proof {
            assert(next.drop_last() =~= seen);
            assert(next.last() == sorted[j as int]);
            assert(all_items(next, |item: (i64, u32, usize)| is_sample_item(item))) by {
                assert forall|k: int| 0 <= k < next.len() implies is_sample_item(
                    #[trigger] next[k],
                ) by {
                    assert(next[k] == sorted[k]);
                    assert(is_sample_item(sorted[k]));
                }
            }
            assert(is_ascending(next)) by {
                assert forall|a: int, b: int| 0 <= a <= b < next.len() implies next[a].0
                    <= next[b].0 by {
                    assert(sorted[a].0 <= sorted[b].0);
                }
            }
            lemma_histogram_of(next);
            assert(all_items(seen, |item: (i64, u32, usize)| is_sample_item(item))) by {
                assert forall|k: int| 0 <= k < seen.len() implies is_sample_item(
                    #[trigger] seen[k],
                ) by {
                    assert(seen[k] == sorted[k]);
                    assert(is_sample_item(sorted[k]));
                }
            }
            assert(is_ascending(seen)) by {
                assert forall|a: int, b: int| 0 <= a <= b < seen.len() implies seen[a].0
                    <= seen[b].0 by {
                    assert(sorted[a].0 <= sorted[b].0);
                }
            }
            lemma_histogram_of(seen);
            if j > 0 {
                assert(next[j as int - 1] == sorted[j as int - 1]);
            }
        }
        if j > 0 && items[j - 1].0 == items[j].0 {
            let last: usize = histogram.len() - 1;
            let entry: (u32, usize) = histogram[last];
            assert(entry.1 <= seen.len());
            histogram.set(last, (entry.0, entry.1 + 1));
        } else {
            histogram.push((items[j].1, 1));
        }
        j += 1;
    }
    proof {
        assert(sorted.take(n as int) =~= sorted);
        lemma_histogram_of(sorted);
    }
    histogram
}

/// The thresholds half way between every two neighbouring values of a
/// histogram.
pub open spec fn midpoints(histogram: Seq<(u32, usize)>) -> Seq<Threshold> {
    Seq::new(
        if histogram.len() == 0 {
            0nat
        } else {
            (histogram.len() - 1) as nat
        },
        |i: int| Threshold::midpoint(histogram[i].0, histogram[i + 1].0),
    )
}

/// A histogram without the entry of the value zero.
pub open spec fn without_zero(histogram: Seq<(u32, usize)>) -> Seq<(u32, usize)>
    decreases histogram.len(),
{
    if histogram.len() == 0 {
        Seq::empty()
    } else if exact_value(histogram.last().0) == 0 {
        without_zero(histogram.drop_last())
    } else {
        without_zero(histogram.drop_last()).push(histogram.last())
    }
}

/// The first entry at or behind `from` with which the count of values
/// reaches `target`; the last entry where none does.
pub open spec fn bucket_reaching(walk: Seq<(u32, usize)>, target: int, from: int) -> int
    decreases walk.len() - from,
{
    if from + 1 >= walk.len() || cumulative(walk, from + 1) >= target {
        from
    } else {
        bucket_reaching(walk, target, from + 1)
    }
}

/// The place of quantile `q` of `n_bins` among `total` values in ascending
/// order, counted from 0: `(total - 1) * q / n_bins`, rounded down.
pub open spec fn quantile_position(total: int, q: int, n_bins: int) -> int {
    ((total - 1) * q) / n_bins
}

/// What the division that gives the place of a quantile leaves over: the
/// numerator of the weight with which the next value enters the threshold.
pub open spec fn quantile_remainder(total: int, q: int, n_bins: int) -> int {
    ((total - 1) * q) % n_bins
}

/// The threshold of quantile `q` of `n_bins`. It lies at the first value
/// with which the count reaches the quantile's place. Where the count
/// reaches the place exactly and the division left a remainder, the
/// threshold moves from that value towards the next one by
/// `remainder / n_bins` of their distance.
pub open spec fn quantile_threshold(walk: Seq<(u32, usize)>, q: int, n_bins: int) -> Threshold {
    let total = cumulative(walk, walk.len() as int);
    let position = quantile_position(total, q, n_bins);
    let remainder = quantile_remainder(total, q, n_bins);
    let k = bucket_reaching(walk, position + 1, 0);
    if cumulative(walk, k + 1) == position + 1 && remainder > 0 {
        Threshold {
            lower: walk[k].0,
            upper: walk[k + 1].0,
            weight_numerator: remainder as u64,
            weight_denominator: n_bins as u64,
        }
    } else {
        Threshold::at(walk[k].0)
    }
}

/// The thresholds at the quantiles `1 / n_bins` to `(n_bins - 1) / n_bins`
/// of the values of a histogram other than zero.
pub open spec fn quantiles(histogram: Seq<(u32, usize)>, n_bins: int) -> Seq<Threshold> {
    Seq::new(
        if n_bins <= 1 {
            0nat
        } else {
            (n_bins - 1) as nat
        },
        |i: int| quantile_threshold(without_zero(histogram), i + 1, n_bins),
    )
}

/// The thresholds of a number feature: with fewer distinct values than
/// bins, the midpoints between the values; else the quantiles.
pub open spec fn number_thresholds(column: Seq<u32>, max_examples: int, n_bins: int) -> Seq<
    Threshold,
> {
    let histogram = histogram_of(sample(column, max_examples));
    if histogram.len() < n_bins {
        midpoints(histogram)
    } else {
        quantiles(histogram, n_bins)
    }
}

/// The front of a histogram is a histogram.
proof fn lemma_front_is_histogram(histogram: Seq<(u32, usize)>)
    requires
        is_histogram(histogram),
        histogram.len() > 0,
    ensures
        is_histogram(histogram.drop_last()),
{
    let front = histogram.drop_last();
    assert forall|i: int| 0 <= i < front.len() implies is_finite((#[trigger] front[i]).0)
        && front[i].1 >= 1 by {
        assert(front[i] == histogram[i]);
    }
    assert forall|i: int, j: int| 0 <= i < j < front.len() implies exact_value(front[i].0)
        < exact_value(front[j].0) by {
        assert(front[i] == histogram[i] && front[j] == histogram[j]);
    }
}

/// Every entry that is left without the zero is an entry of the histogram.
proof fn lemma_without_zero_members(histogram: Seq<(u32, usize)>)
    ensures
        without_zero(histogram).len() <= histogram.len(),
        forall|i: int|
            0 <= i < without_zero(histogram).len() ==> exists|j: int|
                0 <= j < histogram.len() && histogram[j] == #[trigger] without_zero(histogram)[i],
    decreases histogram.len(),
{
    if histogram.len() > 0 {
        let front = histogram.drop_last();
        lemma_without_zero_members(front);
        let inner = without_zero(front);
        let walk = without_zero(histogram);
        assert forall|i: int| 0 <= i < walk.len() implies exists|j: int|
            0 <= j < histogram.len() && histogram[j] == #[trigger] walk[i] by {
            if i < inner.len() {
                assert(walk[i] == inner[i]);
                let j = choose|j: int| 0 <= j < front.len() && front[j] == inner[i];
                assert(histogram[j] == front[j]);
            } else {
                assert(histogram[histogram.len() - 1] == walk[i]);
            }
        }
    }
}

/// Without the zero the entries hold no more values than with it.
proof fn lemma_without_zero_total(histogram: Seq<(u32, usize)>)
    ensures
        cumulative(without_zero(histogram), without_zero(histogram).len() as int) <= cumulative(
            histogram,
            histogram.len() as int,
        ),
    decreases histogram.len(),
{
    if histogram.len() > 0 {
        let front = histogram.drop_last();
        lemma_without_zero_total(front);
        let inner = without_zero(front);
        let walk = without_zero(histogram);
        let n = histogram.len() as int;
        lemma_cumulative_agrees(front, histogram, n - 1);
        if exact_value(histogram.last().0) != 0 {
            let m = inner.len() as int;
            lemma_cumulative_agrees(inner, walk, m);
        }
    }
}

/// A histogram holds the value zero at most once: without it, it has lost
/// at most one entry, and none where it is unchanged.
proof fn lemma_without_zero_len(histogram: Seq<(u32, usize)>)
    requires
        is_histogram(histogram),
    ensures
        without_zero(histogram).len() + 1 >= histogram.len(),
        without_zero(histogram).len() == histogram.len() ==> without_zero(histogram) == histogram,
    decreases histogram.len(),
{
    if histogram.len() > 0 {
        let front = histogram.drop_last();
        lemma_front_is_histogram(histogram);
        lemma_without_zero_len(front);
        lemma_without_zero_members(front);
        let inner = without_zero(front);
        let n = histogram.len() as int;
        if exact_value(histogram.last().0) == 0 {
            if inner.len() < front.len() {
                lemma_front_holds_zero(front);
                let z = choose|z: int| 0 <= z < front.len() && exact_value(front[z].0) == 0;
                assert(front[z] == histogram[z]);
                assert(exact_value(histogram[z].0) < exact_value(histogram[n - 1].0));
            }
        } else if without_zero(histogram).len() == histogram.len() {
            assert(without_zero(histogram) =~= histogram);
        }
    }
}

/// Without the value zero a histogram is still one, and has lost at most one
/// entry.
#[verifier::rlimit(40)]
pub proof fn lemma_without_zero(histogram: Seq<(u32, usize)>)
    requires
        is_histogram(histogram),
    ensures
        is_histogram(without_zero(histogram)),
        without_zero(histogram).len() + 1 >= histogram.len(),
        without_zero(histogram).len() <= histogram.len(),
        cumulative(without_zero(histogram), without_zero(histogram).len() as int) <= cumulative(
            histogram,
            histogram.len() as int,
        ),
        without_zero(histogram).len() == histogram.len() ==> without_zero(histogram) == histogram,
    decreases histogram.len(),
{
    lemma_without_zero_members(histogram);
    lemma_without_zero_total(histogram);
    lemma_without_zero_len(histogram);
    if histogram.len() > 0 {
        let front = histogram.drop_last();
        lemma_front_is_histogram(histogram);
        lemma_without_zero(front);
        lemma_without_zero_members(front);
        let inner = without_zero(front);
        let walk = without_zero(histogram);
        let n = histogram.len() as int;
        if exact_value(histogram.last().0) != 0 {
            let m = inner.len() as int;
            assert forall|i: int| 0 <= i < walk.len() implies is_finite((#[trigger] walk[i]).0)
                && walk[i].1 >= 1 by {
                if i < m {
                    assert(walk[i] == inner[i]);
                }
            }
            assert forall|i: int, j: int| 0 <= i < j < walk.len() implies exact_value(walk[i].0)
                < exact_value(walk[j].0) by {
                assert(walk[i] == inner[i]);
                if j < m {
                    assert(walk[j] == inner[j]);
                } else {
                    let a = choose|a: int| 0 <= a < front.len() && front[a] == inner[i];
                    assert(histogram[a] == front[a]);
                    assert(exact_value(histogram[a].0) < exact_value(histogram[n - 1].0));
                }
            }
        }
    }
}

/// A histogram that loses an entry without its zero holds the value zero.
proof fn lemma_front_holds_zero(histogram: Seq<(u32, usize)>)
    requires
        without_zero(histogram).len() < histogram.len(),
    ensures
        exists|z: int| 0 <= z < histogram.len() && exact_value(histogram[z].0) == 0,
    decreases histogram.len(),
{
    if histogram.len() > 0 {
        if exact_value(histogram.last().0) == 0 {
            assert(exact_value(histogram[histogram.len() - 1].0) == 0);
        } else {
            lemma_front_holds_zero(histogram.drop_last());
            let z = choose|z: int|
                0 <= z < histogram.drop_last().len() && exact_value(histogram.drop_last()[z].0)
                    == 0;
            assert(histogram[z] == histogram.drop_last()[z]);
        }
    }
}

/// The entry that `bucket_reaching` names is the one before which the count
/// is below the target and with which it reaches it.
pub proof fn lemma_bucket_reaching(walk: Seq<(u32, usize)>, target: int, from: int, k: int)
    requires
        0 <= from <= k < walk.len(),
        forall|j: int| from < j <= k ==> #[trigger] cumulative(walk, j) < target,
        cumulative(walk, k + 1) >= target || k + 1 == walk.len(),
    ensures
        bucket_reaching(walk, target, from) == k,
    decreases k - from,
{
    if from < k {
        assert(cumulative(walk, from + 1) < target);
        lemma_bucket_reaching(walk, target, from + 1, k);
    }
}

/// The place of a quantile is a place among the values, and places never
/// fall from one quantile to the next.
pub proof fn lemma_quantile_position(total: int, q: int, n_bins: int)
    requires
        total >= 1,
        0 <= q < n_bins,
    ensures
        0 <= quantile_position(total, q, n_bins) <= total - 1,
        0 <= quantile_remainder(total, q, n_bins) < n_bins,
        quantile_position(total, q, n_bins) <= quantile_position(total, q + 1, n_bins),
        (total - 1) * q >= 0,
        (total - 1) * q <= (total - 1) * n_bins,
{
    let m = (total - 1) * q;
    let m_next = (total - 1) * (q + 1);
    let top = (total - 1) * n_bins;
    assert(0 <= m <= m_next && m <= top) by (nonlinear_arith)
        requires
            total >= 1,
            0 <= q < n_bins,
            m == (total - 1) * q,
            m_next == (total - 1) * (q + 1),
            top == (total - 1) * n_bins,
    ;
    vstd::arithmetic::div_mod::lemma_div_is_ordered(m, m_next, n_bins);
    vstd::arithmetic::div_mod::lemma_div_is_ordered(m, top, n_bins);
    vstd::arithmetic::div_mod::lemma_div_is_ordered(0, m, n_bins);
    vstd::arithmetic::div_mod::lemma_div_multiples_vanish(total - 1, n_bins);
    assert(top == n_bins * (total - 1)) by (nonlinear_arith)
        requires
            top == (total - 1) * n_bins,
    ;
    vstd::arithmetic::div_mod::lemma_mod_bound(m, n_bins);
    vstd::arithmetic::div_mod::lemma_div_basics(n_bins);
}

/// A quantile whose place leaves a remainder is not the place of the last
/// value: there is a next value to move towards.
pub proof fn lemma_interpolation_has_next(total: int, q: int, n_bins: int)
    requires
        total >= 1,
        0 <= q < n_bins,
        quantile_remainder(total, q, n_bins) > 0,
    ensures
        quantile_position(total, q, n_bins) + 1 < total,
{
    let m = (total - 1) * q;
    let position = m / n_bins;
    let remainder = m % n_bins;
    vstd::arithmetic::div_mod::lemma_fundamental_div_mod(m, n_bins);
    assert(m < (total - 1) * n_bins || total == 1) by (nonlinear_arith)
        requires
            total >= 1,
            0 <= q < n_bins,
            m == (total - 1) * q,
    ;
    if total == 1 {
        assert(m == 0) by (nonlinear_arith)
            requires
                m == (total - 1) * q,
                total == 1,
        ;
        vstd::arithmetic::div_mod::lemma_small_mod(0, n_bins as nat);
    } else {
        assert(position < total - 1) by (nonlinear_arith)
            requires
                n_bins * position + remainder < (total - 1) * n_bins,
                remainder > 0,
                n_bins > 0,
        ;
    }
}

/// The entries of a histogram other than the one of the value zero.
fn remove_zero(histogram: &Vec<(u32, usize)>) -> (r: Vec<(u32, usize)>)
    ensures
        r@ == without_zero(histogram@),
{
    let mut walk: Vec<(u32, usize)> = Vec::new();
    let mut i: usize = 0;
    while i < histogram.len()
        invariant
            i <= histogram@.len(),
            walk@ == without_zero(histogram@.take(i as int)),
        decreases histogram@.len() - i,
    {
        let entry: (u32, usize) = histogram[i];
        proof {
            let next = histogram@.take(i as int + 1);
            assert(next.drop_last() =~= histogram@.take(i as int));
            assert(next.last() == entry);
            crate::finite::lemma_magnitude_order(entry.0, entry.0);
        }
        if (entry.0 & 0x7fff_ffff) != 0 {
            walk.push(entry);
        }
        i += 1;
    }
    proof {
        assert(histogram@.take(i as int) =~= histogram@);
    }
    walk
}

/// The thresholds at the quantiles of a histogram, found in one pass over
/// its entries.
#[verifier::rlimit(40)]
pub fn compute_binning_instruction_thresholds_for_number_feature_as_quantiles_from_histogram(
    histogram: Vec<(u32, usize)>,
    train_options: &TrainOptions,
) -> (r: Vec<Threshold>)
    requires
        is_histogram(histogram@),
        cumulative(histogram@, histogram@.len() as int) <= usize::MAX,
        histogram@.len() >= train_options.max_valid_bins_for_number_features,
    ensures
        r@ == quantiles(histogram@, train_options.max_valid_bins_for_number_features as int),
{
    let n_bins: u8 = train_options.max_valid_bins_for_number_features;
    let mut thresholds: Vec<Threshold> = Vec::new();
    if n_bins <= 1 {
        proof {
            assert(thresholds@ =~= quantiles(histogram@, n_bins as int));
        }
        return thresholds;
    }
    let walk: Vec<(u32, usize)> = remove_zero(&histogram);
    proof {
        lemma_without_zero(histogram@);
    }
    let n: usize = walk.len();
    let mut total: usize = 0;
    let mut i: usize = 0;
    while i < n
        invariant
            i <= n,
            n == walk@.len(),
            is_histogram(walk@),
            cumulative(walk@, n as int) <= usize::MAX,
            total == cumulative(walk@, i as int),
        decreases n - i,
    {
        proof {
            lemma_cumulative_rises(walk@, i as int + 1, n as int);
        }
        total = total + walk[i].1;
        i += 1;
    }
    proof {
        lemma_cumulative_rises(walk@, 0, n as int);
        lemma_cumulative_rises(walk@, 0, 1);
    }
    let mut k: usize = 0;
    let mut reached: usize = walk[0].1;
    let mut q: u8 = 1;
    while q < n_bins
        invariant
            1 <= q <= n_bins,
            n_bins == train_options.max_valid_bins_for_number_features,
            n == walk@.len(),
            n >= 1,
            walk@ == without_zero(histogram@),
            is_histogram(walk@),
            total == cumulative(walk@, n as int),
            total >= 1,
            k < n,
            reached == cumulative(walk@, k as int + 1),
            forall|j: int|
                0 < j <= k ==> #[trigger] cumulative(walk@, j) < quantile_position(
                    total as int,
                    q as int,
                    n_bins as int,
                ) + 1,
            thresholds@.len() == q - 1,
            forall|m: int|
                0 <= m < q - 1 ==> #[trigger] thresholds@[m] == quantile_threshold(
                    walk@,
                    m + 1,
                    n_bins as int,
                ),
        decreases n_bins - q,
    {
        proof {
            lemma_quantile_position(total as int, q as int, n_bins as int);
        }
        assert((total - 1) * q <= 0xffff_ffff_ffff_ffff * 255) by (nonlinear_arith)
            requires
                1 <= total <= 0x1_0000_0000_0000_0000,
                1 <= q <= 255,
        ;
        let scaled: u128 = (total - 1) as u128 * q as u128;
        let position: usize = (scaled / n_bins as u128) as usize;
        let remainder: u64 = (scaled % n_bins as u128) as u64;
        let target: usize = position + 1;
        while k + 1 < n && reached < target
            invariant
                n == walk@.len(),
                k < n,
                target <= total,
                total == cumulative(walk@, n as int),
                reached == cumulative(walk@, k as int + 1),
                forall|j: int| 0 < j <= k ==> #[trigger] cumulative(walk@, j) < target,
            decreases n - k,
        {
            k += 1;
            proof {
                lemma_cumulative_rises(walk@, k as int + 1, n as int);
            }
            reached = reached + walk[k].1;
        }
        proof {
            lemma_bucket_reaching(walk@, target as int, 0, k as int);
        }
        proof {
            if remainder > 0 {
                lemma_interpolation_has_next(total as int, q as int, n_bins as int);
            }
        }
        let threshold: Threshold = if reached == target && remainder > 0 {
            Threshold {
                lower: walk[k].0,
                upper: walk[k + 1].0,
                weight_numerator: remainder,
                weight_denominator: n_bins as u64,
            }
        } else {
            Threshold { lower: walk[k].0, upper: walk[k].0, weight_numerator: 0, weight_denominator: 1 }
        };
        thresholds.push(threshold);
        proof {
            assert(threshold == quantile_threshold(walk@, q as int, n_bins as int));
            if q + 1 < n_bins {
                lemma_quantile_position(total as int, q as int + 1, n_bins as int);
            }
        }
        q += 1;
    }
    proof {
        assert(thresholds@ =~= quantiles(histogram@, n_bins as int));
    }
    thresholds
}

/// The binning of a number feature.
pub fn compute_binning_instructions_for_number_feature(
    column: &[u32],
    train_options: &TrainOptions,
) -> (r: BinningInstruction)
    ensures
        r matches BinningInstruction::Number { thresholds } && thresholds@ == number_thresholds(
            column@,
            train_options.max_examples_for_computing_bin_thresholds as int,
            train_options.max_valid_bins_for_number_features as int,
        ),
        r.spec_n_valid_bins() <= train_options.max_valid_bins_for_number_features
            || r.spec_n_valid_bins() == 1,
{
    let histogram: Vec<(u32, usize)> = compute_histogram(
        column,
        train_options.max_examples_for_computing_bin_thresholds,
    );
    let thresholds: Vec<Threshold> = if histogram.len()
        < train_options.max_valid_bins_for_number_features as usize {
        let mut midpoints_between: Vec<Threshold> = Vec::new();
        let mut i: usize = 1;
        while i < histogram.len()
            invariant
                1 <= i,
                i <= histogram@.len() || i == 1,
                midpoints_between@.len() == i - 1,
                forall|m: int|
                    0 <= m < i - 1 ==> #[trigger] midpoints_between@[m] == Threshold::midpoint(
                        histogram@[m].0,
                        histogram@[m + 1].0,
                    ),
            decreases histogram@.len() - i,
        {
            midpoints_between.push(
                Threshold {
                    lower: histogram[i - 1].0,
                    upper: histogram[i].0,
                    weight_numerator: 1,
                    weight_denominator: 2,
                },
            );
            i += 1;
        }
        proof {
            assert(midpoints_between@.len() == midpoints(histogram@).len());
            assert forall|m: int| 0 <= m < midpoints_between@.len() implies midpoints_between@[m]
                == midpoints(histogram@)[m] by {
                assert(midpoints_between@[m] == Threshold::midpoint(
                    histogram@[m].0,
                    histogram@[m + 1].0,
                ));
            }
            assert(midpoints_between@ =~= midpoints(histogram@));
        }
        midpoints_between
    } else {
        compute_binning_instruction_thresholds_for_number_feature_as_quantiles_from_histogram(
            histogram,
            train_options,
        )
    };
    BinningInstruction::Number { thresholds }
}

/// Whether an instruction is the binning of a column.
pub open spec fn is_binning_of(
    instruction: BinningInstruction,
    column: TableColumnView,
    train_options: TrainOptions,
) -> bool {
    match column {
        TableColumnView::Number(values) => instruction matches BinningInstruction::Number {
            thresholds,
        } && thresholds@ == number_thresholds(
            values@,
            train_options.max_examples_for_computing_bin_thresholds as int,
            train_options.max_valid_bins_for_number_features as int,
        ),
        TableColumnView::Enum(variants) => instruction matches BinningInstruction::Enum {
            n_variants,
        } && n_variants == variants@.len(),
    }
}

/// The binning of one column.
pub fn compute_binning_instruction(column: &TableColumnView, train_options: &TrainOptions) -> (r:
    BinningInstruction)
    ensures
        is_binning_of(r, *column, *train_options),
{
    match column {
        TableColumnView::Number(values) => compute_binning_instructions_for_number_feature(
            values,
            train_options,
        ),
        TableColumnView::Enum(variants) => BinningInstruction::Enum { n_variants: variants.len() },
    }
}

/// The binning of every column of a table, in the order of the columns.
pub fn compute_binning_instructions(
    features: &[TableColumnView],
    train_options: &TrainOptions,
) -> (r: Vec<BinningInstruction>)
    ensures
        r@.len() == features@.len(),
        forall|i: int|
            0 <= i < features@.len() ==> is_binning_of(#[trigger] r@[i], features@[i], *train_options),
{
    let mut instructions: Vec<BinningInstruction> = Vec::new();
    let mut i: usize = 0;
    while i < features.len()
        invariant
            i <= features@.len(),
            instructions@.len() == i,
            forall|m: int|
                0 <= m < i ==> is_binning_of(
                    #[trigger] instructions@[m],
                    features@[m],
                    *train_options,
                ),
        decreases features@.len() - i,
    {
        instructions.push(compute_binning_instruction(&features[i], train_options));
        i += 1;
    }
    instructions
}

/// Every item of `finite_values` is a finite value with its order key.
pub proof fn lemma_finite_values(values: Seq<u32>)
    ensures
        all_items(finite_values(values), |item: (i64, u32, usize)| is_sample_item(item)),
        finite_values(values).len() <= values.len(),
    decreases values.len(),
{
    if values.len() > 0 {
        lemma_finite_values(values.drop_last());
        let before = finite_values(values.drop_last());
        let after = finite_values(values);
        assert forall|k: int| 0 <= k < after.len() implies is_sample_item(#[trigger] after[k]) by {
            if k < before.len() {
                assert(after[k] == before[k]);
                assert(is_sample_item(before[k]));
            } else {
                let key = order_key(values.last());
                assert(is_finite(values.last()));
                assert(-0x8000_0000 < key < 0x8000_0000) by {
                    let bits = values.last();
                    assert((bits & 0x7fff_ffff) < 0x8000_0000u32) by (bit_vector);
                }
            }
        }
    }
}

/// The histogram of the sample of a column has finite, strictly increasing
/// values, each of which occurs.
pub proof fn lemma_histogram_of_sample(column: Seq<u32>, max_examples: int)
    requires
        column.len() <= usize::MAX,
        0 <= max_examples,
    ensures
        is_histogram(histogram_of(sample(column, max_examples))),
{
    let prefix = column.take(
        if column.len() <= max_examples {
            column.len() as int
        } else {
            max_examples
        },
    );
    lemma_finite_values(prefix);
    lemma_stable_sorted(finite_values(prefix), |item: (i64, u32, usize)| is_sample_item(item));
    lemma_histogram_of(sample(column, max_examples));
}

/// With fewer distinct values than bins there is one threshold between
/// every two neighbouring distinct values, exactly half way between them,
/// and the thresholds rise strictly.
pub proof fn lemma_few_values_give_midpoints(column: Seq<u32>, max_examples: int, n_bins: int)
    requires
        column.len() <= usize::MAX,
        0 <= max_examples,
        histogram_of(sample(column, max_examples)).len() < n_bins,
    ensures
        ({
            let histogram = histogram_of(sample(column, max_examples));
            let thresholds = number_thresholds(column, max_examples, n_bins);
            &&& is_histogram(histogram)
            &&& histogram.len() > 0 ==> thresholds.len() == histogram.len() - 1
            &&& forall|i: int|
                0 <= i < thresholds.len() ==> (#[trigger] thresholds[i]).weight_denominator == 2
                    && thresholds[i].scaled_value() == exact_value(histogram[i].0) + exact_value(
                    histogram[i + 1].0,
                )
            &&& forall|i: int, j: int|
                0 <= i < j < thresholds.len() ==> thresholds[i].is_below(thresholds[j])
        }),
{
    lemma_histogram_of_sample(column, max_examples);
    let histogram = histogram_of(sample(column, max_examples));
    let thresholds = number_thresholds(column, max_examples, n_bins);
    assert(thresholds == midpoints(histogram));
    assert forall|i: int| 0 <= i < thresholds.len() implies (#[trigger] thresholds[i]).weight_denominator
        == 2 && thresholds[i].scaled_value() == exact_value(histogram[i].0) + exact_value(
        histogram[i + 1].0,
    ) by {
        lemma_midpoint_value(histogram[i].0, histogram[i + 1].0);
    }
    assert forall|i: int, j: int| 0 <= i < j < thresholds.len() implies thresholds[i].is_below(
        thresholds[j],
    ) by {
        lemma_midpoint_value(histogram[i].0, histogram[i + 1].0);
        lemma_midpoint_value(histogram[j].0, histogram[j + 1].0);
        assert(exact_value(histogram[i].0) < exact_value(histogram[j].0));
        if i + 1 < j {
            assert(exact_value(histogram[i + 1].0) < exact_value(histogram[j].0));
        }
        assert(exact_value(histogram[j].0) < exact_value(histogram[j + 1].0));
    }
}

proof fn lemma_midpoint_value(lower: u32, upper: u32)
    ensures
        Threshold::midpoint(lower, upper).scaled_value() == exact_value(lower) + exact_value(upper),
{
    let a = exact_value(lower);
    let b = exact_value(upper);
    assert(a * (2 - 1) + b * 1 == a + b) by (nonlinear_arith);
}

/// Where the count reaches a target at all, `bucket_reaching` names the
/// entry before which the count is below the target and with which it
/// reaches it.
pub proof fn lemma_bucket_found(walk: Seq<(u32, usize)>, target: int, from: int)
    requires
        0 <= from < walk.len(),
        cumulative(walk, from) < target <= cumulative(walk, walk.len() as int),
    ensures
        from <= bucket_reaching(walk, target, from) < walk.len(),
        cumulative(walk, bucket_reaching(walk, target, from)) < target,
        target <= cumulative(walk, bucket_reaching(walk, target, from) + 1),
    decreases walk.len() - from,
{
    if !(from + 1 >= walk.len() || cumulative(walk, from + 1) >= target) {
        lemma_bucket_found(walk, target, from + 1);
    }
}

/// A threshold as the quantiles make them: at a value, or between two
/// values with a weight between 0 and 1.
proof fn lemma_threshold_bounds(threshold: Threshold)
    requires
        threshold.weight_numerator < threshold.weight_denominator,
        exact_value(threshold.lower) <= exact_value(threshold.upper),
    ensures
        exact_value(threshold.lower) * threshold.weight_denominator <= threshold.scaled_value(),
        threshold.scaled_value() <= exact_value(threshold.upper) * threshold.weight_denominator,
        exact_value(threshold.lower) < exact_value(threshold.upper) ==> threshold.scaled_value()
            < exact_value(threshold.upper) * threshold.weight_denominator,
        exact_value(threshold.lower) < exact_value(threshold.upper) && threshold.weight_numerator
            > 0 ==> exact_value(threshold.lower) * threshold.weight_denominator
            < threshold.scaled_value(),
{
    let low = exact_value(threshold.lower);
    let high = exact_value(threshold.upper);
    let n = threshold.weight_numerator as int;
    let d = threshold.weight_denominator as int;
    assert(low * (d - n) + high * n == low * d + (high - low) * n) by (nonlinear_arith);
    assert(low * (d - n) + high * n == high * d - (high - low) * (d - n)) by (nonlinear_arith);
    assert((high - low) * n >= 0) by (nonlinear_arith)
        requires
            high - low >= 0,
            n >= 0,
    ;
    assert((high - low) * (d - n) >= 0) by (nonlinear_arith)
        requires
            high - low >= 0,
            d - n >= 0,
    ;
    if low < high {
        assert((high - low) * (d - n) > 0) by (nonlinear_arith)
            requires
                high - low > 0,
                d - n > 0,
        ;
        if n > 0 {
            assert((high - low) * n > 0) by (nonlinear_arith)
                requires
                    high - low > 0,
                    n > 0,
            ;
        }
    }
}

proof fn lemma_apart(sa: int, da: int, sb: int, db: int, middle: int)
    requires
        sa < middle * da,
        middle * db <= sb,
        da > 0,
        db > 0,
    ensures
        sa * db < sb * da,
{
    assert(sa * db < (middle * da) * db) by (nonlinear_arith)
        requires
            sa < middle * da,
            db > 0,
    ;
    assert((middle * db) * da <= sb * da) by (nonlinear_arith)
        requires
            middle * db <= sb,
            da > 0,
    ;
    assert((middle * da) * db == (middle * db) * da) by (nonlinear_arith);
}

/// The thresholds of the quantiles never fall: the threshold of a later
/// quantile is above that of an earlier one, unless both lie at one value
/// of the histogram.
#[verifier::rlimit(40)]
pub proof fn lemma_quantiles_rise(walk: Seq<(u32, usize)>, n_bins: int, q: int, later: int)
    requires
        is_histogram(walk),
        walk.len() >= 1,
        2 <= n_bins <= u64::MAX,
        1 <= q < later < n_bins,
    ensures
        quantile_threshold(walk, q, n_bins).is_at_most(quantile_threshold(walk, later, n_bins)),
        quantile_threshold(walk, q, n_bins).is_below(quantile_threshold(walk, later, n_bins))
            || quantile_threshold(walk, q, n_bins) == quantile_threshold(walk, later, n_bins),
{
    let total = cumulative(walk, walk.len() as int);
    lemma_cumulative_rises(walk, 0, walk.len() as int);
    lemma_quantile_position(total, q, n_bins);
    lemma_quantile_position(total, later, n_bins);
    lemma_positions_rise(total, n_bins, q, later);
    let position = quantile_position(total, q, n_bins);
    let remainder = quantile_remainder(total, q, n_bins);
    let later_position = quantile_position(total, later, n_bins);
    let later_remainder = quantile_remainder(total, later, n_bins);
    lemma_bucket_found(walk, position + 1, 0);
    lemma_bucket_found(walk, later_position + 1, 0);
    let k = bucket_reaching(walk, position + 1, 0);
    let m = bucket_reaching(walk, later_position + 1, 0);
    let a = quantile_threshold(walk, q, n_bins);
    let b = quantile_threshold(walk, later, n_bins);
    if k > m {
        lemma_cumulative_rises(walk, m + 1, k);
    }
    assert(k <= m);
    if remainder > 0 {
        lemma_interpolation_has_next(total, q, n_bins);
    }
    if later_remainder > 0 {
        lemma_interpolation_has_next(total, later, n_bins);
    }
    assert(is_finite(walk[k].0) && is_finite(walk[m].0));
    if k + 1 < walk.len() {
        assert(exact_value(walk[k].0) < exact_value(walk[k + 1].0));
    }
    if m + 1 < walk.len() {
        assert(exact_value(walk[m].0) < exact_value(walk[m + 1].0));
    }
    lemma_threshold_bounds(a);
    lemma_threshold_bounds(b);
    let value_m = exact_value(walk[m].0);
    if k < m {
        // The earlier threshold lies below the value of the later bucket.
        if a.lower == a.upper {
            assert(exact_value(walk[k].0) < value_m);
            assert(a.scaled_value() < value_m * a.weight_denominator) by (nonlinear_arith)
                requires
                    a.scaled_value() <= exact_value(a.upper) * a.weight_denominator,
                    exact_value(a.upper) < value_m,
                    a.weight_denominator >= 1,
            ;
        } else {
            if k + 1 < m {
                assert(exact_value(walk[k + 1].0) < value_m);
            }
            assert(a.scaled_value() < value_m * a.weight_denominator) by (nonlinear_arith)
                requires
                    a.scaled_value() < exact_value(a.upper) * a.weight_denominator,
                    exact_value(a.upper) <= value_m,
                    a.weight_denominator >= 1,
            ;
        }
        lemma_apart(
            a.scaled_value(),
            a.weight_denominator as int,
            b.scaled_value(),
            b.weight_denominator as int,
            value_m,
        );
    } else if a.lower == a.upper {
        // Both lie in one bucket, the earlier one at its value.
        assert(a == Threshold::at(walk[k].0));
        assert(a.scaled_value() == value_m) by (nonlinear_arith)
            requires
                a.scaled_value() == value_m * (1 - 0) + value_m * 0,
        ;
        assert(a.scaled_value() * b.weight_denominator == value_m * b.weight_denominator);
        assert(b.scaled_value() * a.weight_denominator == b.scaled_value()) by (nonlinear_arith)
            requires
                a.weight_denominator == 1,
        ;
        if b != a {
            assert(b.lower == walk[m].0 && b.upper == walk[m + 1].0 && b.weight_numerator > 0);
        }
    } else {
        // Both lie in one bucket and the earlier one has left its value:
        // the later one has gone further.
        assert(cumulative(walk, k + 1) == position + 1);
        assert(later_position == position);
        assert(later_remainder > remainder);
        assert(b.lower == a.lower && b.upper == a.upper);
        assert(b.weight_numerator == later_remainder && a.weight_numerator == remainder);
        let low = exact_value(a.lower);
        let high = exact_value(a.upper);
        assert(low * (n_bins - remainder) + high * remainder < low * (n_bins - later_remainder)
            + high * later_remainder) by (nonlinear_arith)
            requires
                low < high,
                remainder < later_remainder,
        ;
        assert(a.scaled_value() * n_bins < b.scaled_value() * n_bins) by (nonlinear_arith)
            requires
                a.scaled_value() < b.scaled_value(),
                n_bins > 0,
        ;
    }
}

/// The places of the quantiles never fall, and of two quantiles at one
/// place the later one leaves the larger remainder.
proof fn lemma_positions_rise(total: int, n_bins: int, q: int, later: int)
    requires
        total >= 1,
        0 <= q < later < n_bins,
    ensures
        quantile_position(total, q, n_bins) <= quantile_position(total, later, n_bins),
        quantile_position(total, q, n_bins) == quantile_position(total, later, n_bins)
            ==> quantile_remainder(total, q, n_bins) <= quantile_remainder(total, later, n_bins),
        quantile_position(total, q, n_bins) == quantile_position(total, later, n_bins) && total
            > 1 ==> quantile_remainder(total, q, n_bins) < quantile_remainder(
            total,
            later,
            n_bins,
        ),
        total == 1 ==> quantile_remainder(total, q, n_bins) == 0,
{
    let m = (total - 1) * q;
    let m_later = (total - 1) * later;
    assert(m <= m_later && (total > 1 ==> m < m_later) && (total == 1 ==> m == 0))
        by (nonlinear_arith)
        requires
            total >= 1,
            0 <= q < later,
            m == (total - 1) * q,
            m_later == (total - 1) * later,
    ;
    vstd::arithmetic::div_mod::lemma_div_is_ordered(m, m_later, n_bins);
    vstd::arithmetic::div_mod::lemma_fundamental_div_mod(m, n_bins);
    vstd::arithmetic::div_mod::lemma_fundamental_div_mod(m_later, n_bins);
    if total == 1 {
        vstd::arithmetic::div_mod::lemma_small_mod(0, n_bins as nat);
    }
}

/// The thresholds of a number feature never fall from one to the next, and
/// two of them are equal only where both are quantiles that lie at one
/// value of the feature.
pub proof fn lemma_number_thresholds_never_fall(
    column: Seq<u32>,
    max_examples: int,
    n_bins: int,
    i: int,
    j: int,
)
    requires
        column.len() <= usize::MAX,
        0 <= max_examples,
        0 <= n_bins <= u8::MAX,
        0 <= i < j < number_thresholds(column, max_examples, n_bins).len(),
    ensures
        number_thresholds(column, max_examples, n_bins)[i].is_at_most(
            number_thresholds(column, max_examples, n_bins)[j],
        ),
        number_thresholds(column, max_examples, n_bins)[i].is_below(
            number_thresholds(column, max_examples, n_bins)[j],
        ) || number_thresholds(column, max_examples, n_bins)[i] == number_thresholds(
            column,
            max_examples,
            n_bins,
        )[j],
{
    let histogram = histogram_of(sample(column, max_examples));
    lemma_histogram_of_sample(column, max_examples);
    if histogram.len() < n_bins {
        lemma_few_values_give_midpoints(column, max_examples, n_bins);
    } else {
        lemma_without_zero(histogram);
        lemma_quantiles_rise(without_zero(histogram), n_bins, i + 1, j + 1);
    }
}

/// A number feature never gets more valid bins than it may have: there
/// are fewer thresholds than bins, so that its bins, with the one for
/// missing values, can always be counted.
pub proof fn lemma_number_thresholds_are_few(column: Seq<u32>, max_examples: int, n_bins: int)
    ensures
        number_thresholds(column, max_examples, n_bins).len() < n_bins || number_thresholds(
            column,
            max_examples,
            n_bins,
        ).len() == 0,
{
}

} // verus!
