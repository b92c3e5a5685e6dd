//! The exact area under the curve of true against false positive rates.

use crate::distance::{within_epsilon, within_epsilon_spec};
use crate::finite::{float_order_key, is_nan, order_key};
use crate::metrics::Ratio;
use crate::sorting::{
    all_items, insert_by_rank, lemma_stable_sorted, sort_by_rank, stable_sorted,
};
use vstd::prelude::*;

verus! {

/// The running counts at one point of the curve: the positive and negative
/// labels among the examples whose probability is that of the point or
/// higher.
#[derive(Clone, Copy, Debug, PartialEq, Eq, Structural)]
pub struct TruePositivesFalsePositivesPoint {
    pub probability: u32,
    pub true_positives: u64,
    pub false_positives: u64,
}

/// An example with the rank it is sorted by: the negated order key of its
/// probability, so that ascending ranks are descending probabilities.
pub open spec fn ranked(example: (u32, usize)) -> (i64, u32, usize) {
    ((-order_key(example.0)) as i64, example.0, example.1)
}

/// Whether an item can be counted: its probability is a number and its label
/// is 1 (negative) or 2 (positive).
pub open spec fn is_countable(item: (i64, u32, usize)) -> bool {
    !is_nan(item.1) && 1 <= item.2 <= 2
}

/// The points of the curve for items in descending order of probability. An
/// item that is less than 2^-23 from the probability that opened the last
/// point is counted at that point; any other item opens a point, which
/// starts from the counts of the point before.
pub open spec fn curve_points(sorted: Seq<(i64, u32, usize)>) -> Seq<
    TruePositivesFalsePositivesPoint,
>
    decreases sorted.len(),
{
    if sorted.len() == 0 {
        Seq::empty()
    } else {
        let points = curve_points(sorted.drop_last());
        let item = sorted.last();
        let positive = (item.2 - 1) as int;
        let negative = 1 - positive;
        if points.len() == 0 {
            points.push(
                TruePositivesFalsePositivesPoint {
                    probability: item.1,
                    true_positives: positive as u64,
                    false_positives: negative as u64,
                },
            )
        } else {
            let last = points.last();
            let counted = TruePositivesFalsePositivesPoint {
                probability: if within_epsilon_spec(item.1, last.probability) {
                    last.probability
                } else {
                    item.1
                },
                true_positives: (last.true_positives + positive) as u64,
                false_positives: (last.false_positives + negative) as u64,
            };
            if within_epsilon_spec(item.1, last.probability) {
                points.drop_last().push(counted)
            } else {
                points.push(counted)
            }
        }
    }
}

/// The number of items with the positive label.
pub open spec fn count_positives(items: Seq<(i64, u32, usize)>) -> nat
    decreases items.len(),
{
    if items.len() == 0 {
        0
    } else {
        count_positives(items.drop_last()) + if items.last().2 == 2 {
            1nat
        } else {
            0nat
        }
    }
}

/// Twice the area under the first `k` segments of the curve, times positives
/// times negatives. The curve starts at the origin; a segment between two
/// points has the mean of their true positives as its height and the
/// difference of their false positives as its width.
pub open spec fn area_under(points: Seq<TruePositivesFalsePositivesPoint>, k: int) -> int
    decreases k,
{
    if k <= 0 {
        0
    } else if k == 1 {
        points[0].true_positives * points[0].false_positives
    } else {
        area_under(points, k - 1) + (points[k - 2].true_positives + points[k - 1].true_positives)
            * (points[k - 1].false_positives - points[k - 2].false_positives)
    }
}

/// The area under the curve of examples that are sorted by descending
/// probability: an exact quotient.
pub open spec fn area_of(sorted: Seq<(i64, u32, usize)>) -> Ratio {
    let points = curve_points(sorted);
    Ratio {
        numerator: area_under(points, points.len() as int) as u128,
        denominator: (2 * count_positives(sorted) * (sorted.len() - count_positives(sorted)))
            as u128,
    }
}

proof fn lemma_inserting_counts(sorted: Seq<(i64, u32, usize)>, item: (i64, u32, usize))
    ensures
        count_positives(insert_by_rank(sorted, item)) == count_positives(sorted) + (if item.2
            == 2 {
            1nat
        } else {
            0nat
        }),
    decreases sorted.len(),
{
    if sorted.len() == 0 || sorted.last().0 <= item.0 {
        assert(sorted.push(item).drop_last() =~= sorted);
    } else {
        lemma_inserting_counts(sorted.drop_last(), item);
        let inner = insert_by_rank(sorted.drop_last(), item);
        assert(inner.push(sorted.last()).drop_last() =~= inner);
    }
}

/// Sorting changes neither the number of examples nor the number of
/// positive labels among them: the denominator of the area is twice the
/// positive labels times the negative labels of the input.
pub proof fn lemma_sorting_keeps_positives(items: Seq<(i64, u32, usize)>)
    ensures
        count_positives(stable_sorted(items)) == count_positives(items),
    decreases items.len(),
{
    if items.len() > 0 {
        lemma_sorting_keeps_positives(items.drop_last());
        lemma_inserting_counts(stable_sorted(items.drop_last()), items.last());
    }
}

/// The last point has counted every item; the counts never fall from one
/// point to the next.
#[verifier::rlimit(40)]
pub proof fn lemma_curve_points(sorted: Seq<(i64, u32, usize)>)
    requires
        forall|i: int| 0 <= i < sorted.len() ==> is_countable(#[trigger] sorted[i]),
        sorted.len() <= u64::MAX,
    ensures
        curve_points(sorted).len() <= sorted.len(),
        sorted.len() > 0 ==> curve_points(sorted).len() > 0,
        curve_points(sorted).len() > 0 ==> curve_points(sorted).last().true_positives
            == count_positives(sorted) && curve_points(sorted).last().false_positives
            == sorted.len() - count_positives(sorted),
        count_positives(sorted) <= sorted.len(),
        forall|k: int|
            0 < k < curve_points(sorted).len() ==> (#[trigger] curve_points(sorted)[k
                - 1]).true_positives <= curve_points(sorted)[k].true_positives && curve_points(
                sorted,
            )[k - 1].false_positives <= curve_points(sorted)[k].false_positives,
    decreases sorted.len(),
{
    if sorted.len() > 0 {
        let front = sorted.drop_last();
        assert(forall|i: int| 0 <= i < front.len() ==> front[i] == sorted[i]);
        assert(is_countable(sorted[sorted.len() - 1]));
        lemma_curve_points(front);
        let before = curve_points(front);
        let after = curve_points(sorted);
        assert forall|k: int| 0 < k < after.len() implies (#[trigger] after[k - 1]).true_positives
            <= after[k].true_positives && after[k - 1].false_positives
            <= after[k].false_positives by {
            if k < before.len() - 1 {
                assert(after[k - 1] == before[k - 1]);
                assert(after[k] == before[k]);
            } else if k == before.len() - 1 {
                assert(after[k - 1] == before[k - 1]);
            } else {
                assert(after[k - 1] == before[k - 1]);
            }
        }
    }
}

/// The area under the first `k` segments is at most twice the product of the
/// counts at point `k - 1`.
proof fn lemma_area_bounded(points: Seq<TruePositivesFalsePositivesPoint>, k: int)
    requires
        0 <= k <= points.len(),
        forall|j: int|
            0 < j < points.len() ==> (#[trigger] points[j - 1]).true_positives
                <= points[j].true_positives && points[j - 1].false_positives
                <= points[j].false_positives,
    ensures
        0 <= area_under(points, k),
        k > 0 ==> area_under(points, k) <= 2 * (points[k - 1].true_positives * points[k
            - 1].false_positives),
    decreases k,
{
    if k == 1 {
        let t = points[0].true_positives as int;
        let f = points[0].false_positives as int;
        assert(0 <= t * f <= 2 * (t * f)) by (nonlinear_arith)
            requires
                t >= 0,
                f >= 0,
        ;
    } else if k > 1 {
        lemma_area_bounded(points, k - 1);
        assert(points[k - 1 - 1].true_positives <= points[k - 1].true_positives);
        let t0 = points[k - 2].true_positives as int;
        let f0 = points[k - 2].false_positives as int;
        let t1 = points[k - 1].true_positives as int;
        let f1 = points[k - 1].false_positives as int;
        let a = area_under(points, k - 1);
        assert(0 <= (t0 + t1) * (f1 - f0) && a + (t0 + t1) * (f1 - f0) <= 2 * (t1 * f1))
            by (nonlinear_arith)
            requires
                0 <= t0 <= t1,
                0 <= f0 <= f1,
                0 <= a <= 2 * (t0 * f0),
        ;
    }
}

proof fn lemma_product_fits(positives: int, negatives: int)
    requires
        0 <= positives,
        0 <= negatives,
        positives + negatives <= u64::MAX,
    ensures
        2 * (positives * negatives) <= u128::MAX,
        2 * positives * negatives == 2 * (positives * negatives),
{
    assert(2 * (positives * negatives) <= 0xffff_ffff_ffff_ffff * 0xffff_ffff_ffff_ffff)
        by (nonlinear_arith)
        requires
            0 <= positives,
            0 <= negatives,
            positives + negatives <= 0xffff_ffff_ffff_ffff,
    ;
    assert(2 * positives * negatives == 2 * (positives * negatives)) by (nonlinear_arith);
}

proof fn lemma_product_ordered(t: int, f: int, positives: int, negatives: int)
    requires
        0 <= t <= positives,
        0 <= f <= negatives,
    ensures
        2 * (t * f) <= 2 * (positives * negatives),
{
    assert(t * f <= positives * negatives) by (nonlinear_arith)
        requires
            0 <= t <= positives,
            0 <= f <= negatives,
    ;
}

/// The area under the receiver operating characteristic curve.
pub struct AucRoc;

impl AucRoc {
    /// Sorts the examples by descending probability, counts examples whose
    /// probabilities are less than 2^-23 apart at one point, and integrates
    /// the curve through the points by the trapezoid rule.
    #[verifier::rlimit(40)]
    pub fn compute(input: Vec<(u32, usize)>) -> (r: Ratio)
        requires
            forall|i: int|
                0 <= i < input@.len() ==> !is_nan((#[trigger] input@[i]).0) && 1 <= input@[i].1
                    <= 2,
        ensures
            r == area_of(stable_sorted(input@.map_values(|example: (u32, usize)| ranked(example)))),
            r.numerator <= r.denominator,
    {
        let ghost ranked_input = input@.map_values(|example: (u32, usize)| ranked(example));
        let mut items: Vec<(i64, u32, usize)> = Vec::new();
        let mut i: usize = 0;
        while i < input.len()
            invariant
                i <= input@.len(),
                ranked_input == input@.map_values(|example: (u32, usize)| ranked(example)),
                items@ == ranked_input.take(i as int),
            decreases input@.len() - i,
        {
            let probability: u32 = input[i].0;
            let label: usize = input[i].1;
            let rank: i64 = -float_order_key(probability);
            items.push((rank, probability, label));
            proof {
                assert(ranked_input[i as int] == ranked(input@[i as int]));
                assert(items@ =~= ranked_input.take(i as int + 1));
            }
            i += 1;
        }
        proof {
            assert(ranked_input.take(i as int) =~= ranked_input);
            assert forall|k: int| 0 <= k < ranked_input.len() implies is_countable(
                #[trigger] ranked_input[k],
            ) by {
                assert(ranked_input[k] == ranked(input@[k]));
            }
            lemma_stable_sorted(ranked_input, |item: (i64, u32, usize)| is_countable(item));
            assert(all_items(ranked_input, |item: (i64, u32, usize)| is_countable(item)));
        }
        sort_by_rank(&mut items);
        let ghost sorted = items@;
        let n: usize = items.len();
        let mut points: Vec<TruePositivesFalsePositivesPoint> = Vec::new();
        let mut j: usize = 0;
        while j < n
            invariant
                j <= n,
                n == sorted.len(),
                sorted == items@,
                forall|k: int| 0 <= k < sorted.len() ==> is_countable(#[trigger] sorted[k]),
                points@ == curve_points(sorted.take(j as int)),
            decreases n - j,
        {
            let probability: u32 = items[j].1;
            let label: usize = items[j].2;
            let ghost seen = sorted.take(j as int);
            let ghost next = sorted.take(j as int + 1);
            proof {
                assert(next.drop_last() =~= seen);
                assert(next.last() == sorted[j as int]);
                assert(is_countable(sorted[j as int]));
                assert forall|k: int| 0 <= k < next.len() implies is_countable(
                    #[trigger] next[k],
                ) by {
                    assert(next[k] == sorted[k]);
                }
                assert forall|k: int| 0 <= k < seen.len() implies is_countable(
                    #[trigger] seen[k],
                ) by {
                    assert(seen[k] == sorted[k]);
                }
                lemma_curve_points(seen);
                lemma_curve_points(next);
            }
            let positive: u64 = (label - 1) as u64;
            let negative: u64 = 1 - positive;
            let n_points: usize = points.len();
            if n_points == 0 {
                points.push(
                    TruePositivesFalsePositivesPoint {
                        probability,
                        true_positives: positive,
                        false_positives: negative,
                    },
                );
            } else {
                let last: TruePositivesFalsePositivesPoint = points[n_points - 1];
                if within_epsilon(probability, last.probability) {
                    points.set(
                        n_points - 1,
                        TruePositivesFalsePositivesPoint {
                            probability: last.probability,
                            true_positives: last.true_positives + positive,
                            false_positives: last.false_positives + negative,
                        },
                    );
                    proof {
                        assert(points@ =~= curve_points(next));
                    }
                } else {
                    points.push(
                        TruePositivesFalsePositivesPoint {
                            probability,
                            true_positives: last.true_positives + positive,
                            false_positives: last.false_positives + negative,
                        },
                    );
                }
            }
            j += 1;
        }
        proof {
            assert(sorted.take(n as int) =~= sorted);
            lemma_curve_points(sorted);
        }
        let ghost positives = count_positives(sorted) as int;
        let ghost negatives = sorted.len() - count_positives(sorted);
        let n_points: usize = points.len();
        proof {
            lemma_product_fits(positives, negatives);
        }
        let mut area: u128 = 0;
        let mut k: usize = 0;
        while k < n_points
            invariant
                k <= n_points,
                n_points == points@.len(),
                points@ == curve_points(sorted),
                positives >= 0,
                negatives >= 0,
                2 * (positives * negatives) <= u128::MAX,
                n_points > 0 ==> points@.last().true_positives == positives
                    && points@.last().false_positives == negatives,
                forall|m: int|
                    0 < m < points@.len() ==> (#[trigger] points@[m - 1]).true_positives
                        <= points@[m].true_positives && points@[m - 1].false_positives
                        <= points@[m].false_positives,
                area == area_under(points@, k as int),
            decreases n_points - k,
        {
            let point: TruePositivesFalsePositivesPoint = points[k];
            proof {
                lemma_area_bounded(points@, k as int + 1);
                lemma_area_bounded(points@, k as int);
                lemma_counts_rise(points@, k as int, n_points as int - 1);
                lemma_product_ordered(
                    point.true_positives as int,
                    point.false_positives as int,
                    positives,
                    negatives,
                );
            }
            if k == 0 {
                area = point.true_positives as u128 * point.false_positives as u128;
            } else {
                let before: TruePositivesFalsePositivesPoint = points[k - 1];
                assert(points@[k as int - 1].true_positives <= points@[k as int].true_positives);
                let height: u128 = before.true_positives as u128 + point.true_positives as u128;
                let width: u128 = (point.false_positives - before.false_positives) as u128;
                assert(height * width >= 0) by (nonlinear_arith)
                    requires
                        height >= 0,
                        width >= 0,
                ;
                area = area + height * width;
            }
            k += 1;
        }
        let n_positives: u128 = if n_points == 0 {
            0
        } else {
            points[n_points - 1].true_positives as u128
        };
        let n_negatives: u128 = if n_points == 0 {
            0
        } else {
            points[n_points - 1].false_positives as u128
        };
        assert(2 * n_positives * n_negatives == 2 * (positives * negatives)) by (nonlinear_arith)
            requires
                n_positives == positives,
                n_negatives == negatives,
        ;
        proof {
            lemma_area_bounded(points@, n_points as int);
            if n_points == 0 {
                assert(0 * 0 == 0) by (nonlinear_arith);
            }
        }
        Ratio { numerator: area, denominator: 2 * n_positives * n_negatives }
    }
}

/// Counts that never fall from one point to the next never fall between any
/// two points.
proof fn lemma_counts_rise(points: Seq<TruePositivesFalsePositivesPoint>, low: int, high: int)
    requires
        0 <= low <= high < points.len(),
        forall|j: int|
            0 < j < points.len() ==> (#[trigger] points[j - 1]).true_positives
                <= points[j].true_positives && points[j - 1].false_positives
                <= points[j].false_positives,
    ensures
        points[low].true_positives <= points[high].true_positives,
        points[low].false_positives <= points[high].false_positives,
    decreases high - low,
{
    if low < high {
        lemma_counts_rise(points, low, high - 1);
        assert(points[high - 1].true_positives <= points[high].true_positives);
    }
}

} // verus!
