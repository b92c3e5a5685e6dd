use shadow::metrics::auc_roc::AucRoc;
use shadow::metrics::binary_classification::{
    BinaryClassificationMetrics, BinaryClassificationMetricsInput, BinaryConfusionMatrix,
};
use shadow::metrics::multiclass_classification::{
    predict_class, ClassMetrics, MulticlassClassificationMetrics,
    MulticlassClassificationMetricsInput, MulticlassClassificationMetricsOutput,
};
use shadow::metrics::Ratio;

fn to_f32(ratio: Ratio) -> f32 {
    ratio.numerator as f32 / ratio.denominator as f32
}

fn bits(values: &[f32]) -> Vec<u32> {
    values.iter().map(|value| value.to_bits()).collect()
}

#[test]
fn test_roc_curve() {
    let labels = vec![2usize, 2, 1, 1];
    let probabilities = vec![0.9f32, 0.4, 0.4, 0.2];
    let input = probabilities
        .into_iter()
        .map(|probability| probability.to_bits())
        .zip(labels.into_iter())
        .collect();
    let actual = to_f32(AucRoc::compute(input));
    let expected = 0.875;
    assert!(f32::abs(actual - expected) < f32::EPSILON)
}

#[test]
fn roc_curve_is_exact_and_sorts_its_input() {
    let input = vec![
        (0.2f32.to_bits(), 1usize),
        (0.4f32.to_bits(), 2),
        (0.9f32.to_bits(), 2),
        (0.4f32.to_bits(), 1),
    ];
    let area = AucRoc::compute(input);
    assert_eq!(area, Ratio { numerator: 7, denominator: 8 });
}

#[test]
fn roc_curve_of_a_perfect_ranking_is_one() {
    let input = vec![
        (0.1f32.to_bits(), 1usize),
        (0.8f32.to_bits(), 2),
        (0.3f32.to_bits(), 1),
        (0.7f32.to_bits(), 2),
        (0.6f32.to_bits(), 2),
    ];
    let area = AucRoc::compute(input);
    assert_eq!(area, Ratio { numerator: 12, denominator: 12 });
    let reversed = vec![
        (0.9f32.to_bits(), 1usize),
        (0.8f32.to_bits(), 2),
        (0.95f32.to_bits(), 1),
    ];
    assert_eq!(AucRoc::compute(reversed).numerator, 0);
}

#[test]
fn roc_curve_counts_close_probabilities_at_one_point() {
    let close = f32::from_bits(0.5f32.to_bits() + 1);
    let apart = vec![(0.75f32.to_bits(), 2usize), (0.5f32.to_bits(), 1)];
    let together = vec![(close.to_bits(), 2usize), (0.5f32.to_bits(), 1)];
    assert_eq!(AucRoc::compute(apart), Ratio { numerator: 2, denominator: 2 });
    assert_eq!(AucRoc::compute(together), Ratio { numerator: 1, denominator: 2 });
}

#[test]
fn roc_curve_without_examples_has_no_value() {
    assert_eq!(AucRoc::compute(vec![]), Ratio { numerator: 0, denominator: 0 });
    let only_positives = vec![(0.5f32.to_bits(), 2usize), (0.25f32.to_bits(), 2)];
    assert_eq!(AucRoc::compute(only_positives).denominator, 0);
}

/// The area summed in floating point from the rounded rates: the trapezoids
/// between neighbouring thresholds from the highest threshold down, then the
/// segment from the origin and the segment to (1, 1).
fn area_in_single_precision(
    output: &shadow::metrics::binary_classification::BinaryClassificationMetricsOutput,
) -> f32 {
    let rates: Vec<(f32, f32)> = output
        .thresholds
        .iter()
        .map(|at| (to_f32(at.true_positive_rate), to_f32(at.false_positive_rate)))
        .collect();
    let mut area = rates
        .windows(2)
        .rev()
        .map(|pair| {
            let (right, left) = (pair[0], pair[1]);
            let y_avg = (left.0 as f64 + right.0 as f64) / 2.0;
            let dx = right.1 as f64 - left.1 as f64;
            y_avg * dx
        })
        .sum::<f64>() as f32;
    let last = rates.last().unwrap();
    area += ((last.0 as f64 / 2.0) * last.1 as f64) as f32;
    let first = rates.first().unwrap();
    area += (((first.0 as f64 + 1.0) / 2.0) * (1.0 - first.1 as f64)) as f32;
    area
}

#[test]
fn binary_classification_test_test() {
    let mut metrics = BinaryClassificationMetrics::new(3);
    let labels = &[2usize, 1, 2, 1, 2];
    let probabilities = &bits(&[0.9, 0.2, 0.7, 0.2, 0.1]);
    metrics.update(BinaryClassificationMetricsInput {
        probabilities,
        labels,
    });
    let metrics = metrics.finalize();
    assert_eq!(area_in_single_precision(&metrics), 0.8333334);
    assert!(f32::abs(to_f32(metrics.auc_roc_approx) - 0.8333334) < f32::EPSILON);
    assert_eq!(metrics.auc_roc_approx, Ratio { numerator: 10, denominator: 12 });
    assert_eq!(metrics.thresholds.len(), 3);

    let at = &metrics.thresholds[0];
    assert_eq!(to_f32(at.threshold), 0.25);
    assert_eq!(at.true_positives, 2);
    assert_eq!(at.false_positives, 0);
    assert_eq!(at.true_negatives, 2);
    assert_eq!(at.false_negatives, 1);
    assert_eq!(to_f32(at.accuracy), 0.8);
    assert_eq!(at.precision.map(to_f32), Some(1.0));
    assert_eq!(at.recall.map(to_f32), Some(0.6666667));
    assert_eq!(at.f1_score.map(to_f32), Some(0.8));
    assert_eq!(to_f32(at.true_positive_rate), 0.6666667);
    assert_eq!(to_f32(at.false_positive_rate), 0.0);

    let at = &metrics.thresholds[1];
    assert_eq!(to_f32(at.threshold), 0.5);
    assert_eq!(at.true_positives, 2);
    assert_eq!(at.false_positives, 0);
    assert_eq!(at.true_negatives, 2);
    assert_eq!(at.false_negatives, 1);
    assert_eq!(to_f32(at.accuracy), 0.8);
    assert_eq!(at.precision.map(to_f32), Some(1.0));
    assert_eq!(at.recall.map(to_f32), Some(0.6666667));
    assert_eq!(at.f1_score.map(to_f32), Some(0.8));
    assert_eq!(to_f32(at.true_positive_rate), 0.6666667);
    assert_eq!(to_f32(at.false_positive_rate), 0.0);

    let at = &metrics.thresholds[2];
    assert_eq!(to_f32(at.threshold), 0.75);
    assert_eq!(at.true_positives, 1);
    assert_eq!(at.false_positives, 0);
    assert_eq!(at.true_negatives, 2);
    assert_eq!(at.false_negatives, 2);
    assert_eq!(to_f32(at.accuracy), 0.6);
    assert_eq!(at.precision.map(to_f32), Some(1.0));
    assert_eq!(at.recall.map(to_f32), Some(0.33333334));
    assert_eq!(at.f1_score.map(to_f32), Some(0.5));
    assert_eq!(to_f32(at.true_positive_rate), 0.33333334);
    assert_eq!(to_f32(at.false_positive_rate), 0.0);
}

#[test]
fn binary_metrics_of_shards_merge_to_the_whole() {
    let probabilities = bits(&[0.9, 0.2, 0.7, 0.2, 0.1, 0.55, 0.45, 0.3, 0.8, 0.5]);
    let labels = [2usize, 1, 2, 1, 2, 1, 2, 2, 1, 1];
    for cut in 0..=probabilities.len() {
        let mut whole = BinaryClassificationMetrics::new(5);
        whole.update(BinaryClassificationMetricsInput {
            probabilities: &probabilities,
            labels: &labels,
        });
        let mut first = BinaryClassificationMetrics::new(5);
        first.update(BinaryClassificationMetricsInput {
            probabilities: &probabilities[..cut],
            labels: &labels[..cut],
        });
        let mut second = BinaryClassificationMetrics::new(5);
        second.update(BinaryClassificationMetricsInput {
            probabilities: &probabilities[cut..],
            labels: &labels[cut..],
        });
        first.merge(second);
        for index in 0..5 {
            assert_eq!(first.confusion_matrix(index), whole.confusion_matrix(index));
        }
        let merged = first.finalize();
        let whole = whole.finalize();
        assert_eq!(merged.auc_roc_approx, whole.auc_roc_approx);
        assert_eq!(merged.thresholds, whole.thresholds);
    }
}

#[test]
fn binary_metrics_leave_undefined_what_has_no_value() {
    let mut metrics = BinaryClassificationMetrics::new(1);
    assert_eq!(metrics.len(), 1);
    metrics.update(BinaryClassificationMetricsInput {
        probabilities: &bits(&[0.1, 0.2]),
        labels: &[1, 1],
    });
    assert_eq!(
        metrics.confusion_matrix(0),
        BinaryConfusionMatrix {
            false_negatives: 0,
            false_positives: 0,
            true_negatives: 2,
            true_positives: 0,
        }
    );
    assert_eq!(metrics.confusion_matrix(0).total(), 2);
    let output = metrics.finalize();
    let at = &output.thresholds[0];
    assert_eq!(at.threshold, Ratio { numerator: 1, denominator: 2 });
    assert_eq!(at.precision, None);
    assert_eq!(at.recall, None);
    assert_eq!(at.f1_score, None);
    assert_eq!(at.accuracy, Ratio { numerator: 2, denominator: 2 });
    assert_eq!(output.auc_roc_approx.denominator, 0);
}

#[test]
fn binary_metrics_count_a_probability_at_the_threshold_as_positive() {
    let mut metrics = BinaryClassificationMetrics::new(3);
    let below = f32::from_bits(0.5f32.to_bits() - 1);
    metrics.update(BinaryClassificationMetricsInput {
        probabilities: &[0.5f32.to_bits(), below.to_bits(), f32::NAN.to_bits()],
        labels: &[2, 2, 2, 1],
    });
    let middle = metrics.confusion_matrix(1);
    assert_eq!(middle.true_positives, 1);
    assert_eq!(middle.false_negatives, 2);
    assert_eq!(middle.total(), 3);
    assert_eq!(BinaryConfusionMatrix::new().total(), 0);
}

fn class(
    true_positives: u64,
    false_positives: u64,
    true_negatives: u64,
    false_negatives: u64,
) -> (u64, u64, u64, u64) {
    (true_positives, false_positives, true_negatives, false_negatives)
}

fn counts(metrics: &ClassMetrics) -> (u64, u64, u64, u64) {
    (
        metrics.true_positives,
        metrics.false_positives,
        metrics.true_negatives,
        metrics.false_negatives,
    )
}

fn precision_unweighted(output: &MulticlassClassificationMetricsOutput) -> f32 {
    output
        .class_metrics
        .iter()
        .map(|class| to_f32(class.precision))
        .sum::<f32>()
        / output.class_metrics.len() as f32
}

fn recall_unweighted(output: &MulticlassClassificationMetricsOutput) -> f32 {
    output
        .class_metrics
        .iter()
        .map(|class| to_f32(class.recall))
        .sum::<f32>()
        / output.class_metrics.len() as f32
}

fn precision_weighted(output: &MulticlassClassificationMetricsOutput) -> f32 {
    output
        .class_metrics
        .iter()
        .map(|class| to_f32(class.precision) * (class.true_positives + class.false_negatives) as f32)
        .sum::<f32>()
        / output.accuracy.denominator as f32
}

fn recall_weighted(output: &MulticlassClassificationMetricsOutput) -> f32 {
    output
        .class_metrics
        .iter()
        .map(|class| to_f32(class.recall) * (class.true_positives + class.false_negatives) as f32)
        .sum::<f32>()
        / output.accuracy.denominator as f32
}

#[test]
fn test_one() {
    let classes = vec![String::from("Cat"), String::from("Dog")];
    let mut metrics = MulticlassClassificationMetrics::new(classes.len());
    let labels = [1usize, 1, 1, 1, 1, 1, 1, 1, 2, 2, 2, 2, 2];
    let probabilities: Vec<Vec<u32>> = [
        [1.0f32, 0.0],
        [1.0, 0.0],
        [1.0, 0.0],
        [1.0, 0.0],
        [1.0, 0.0],
        [0.0, 1.0],
        [0.0, 1.0],
        [0.0, 1.0],
        [0.0, 1.0],
        [0.0, 1.0],
        [0.0, 1.0],
        [1.0, 0.0],
        [1.0, 0.0],
    ]
    .iter()
    .map(|row| bits(row))
    .collect();
    metrics.update(MulticlassClassificationMetricsInput {
        probabilities: &probabilities,
        labels: &labels,
    });
    let metrics = metrics.finalize();
    assert_eq!(metrics.class_metrics.len(), 2);
    let cat = &metrics.class_metrics[0];
    assert_eq!(counts(cat), class(5, 2, 3, 3));
    assert_eq!(to_f32(cat.accuracy), 0.61538464);
    assert_eq!(to_f32(cat.precision), 0.71428573);
    assert_eq!(to_f32(cat.recall), 0.625);
    assert_eq!(to_f32(cat.f1_score), 0.6666667);
    let dog = &metrics.class_metrics[1];
    assert_eq!(counts(dog), class(3, 3, 5, 2));
    assert_eq!(to_f32(dog.accuracy), 0.61538464);
    assert_eq!(to_f32(dog.precision), 0.5);
    assert_eq!(to_f32(dog.recall), 0.6);
    assert_eq!(to_f32(dog.f1_score), 0.54545456);
    assert_eq!(to_f32(metrics.accuracy), 0.61538464);
    assert_eq!(precision_unweighted(&metrics), 0.60714287);
    assert_eq!(precision_weighted(&metrics), 0.6318681);
    assert_eq!(recall_unweighted(&metrics), 0.6125);
    assert_eq!(recall_weighted(&metrics), 0.61538464);
}

#[test]
fn multiclass_classi_test_test_two() {
    let classes = vec![
        String::from("Cat"),
        String::from("Dog"),
        String::from("Rabbit"),
    ];
    let mut metrics = MulticlassClassificationMetrics::new(classes.len());
    let labels = [
        1usize, 1, 1, 1, 1, 2, 2, 1, 1, 1, 2, 2, 2, 3, 3, 2, 3, 3, 3, 3, 3, 3, 3, 3, 3, 3, 3,
    ];
    let probabilities: Vec<Vec<u32>> = [
        [1.0f32, 0.0, 0.0],
        [1.0, 0.0, 0.0],
        [1.0, 0.0, 0.0],
        [1.0, 0.0, 0.0],
        [1.0, 0.0, 0.0],
        [1.0, 0.0, 0.0],
        [1.0, 0.0, 0.0],
        [0.0, 1.0, 0.0],
        [0.0, 1.0, 0.0],
        [0.0, 1.0, 0.0],
        [0.0, 1.0, 0.0],
        [0.0, 1.0, 0.0],
        [0.0, 1.0, 0.0],
        [0.0, 1.0, 0.0],
        [0.0, 1.0, 0.0],
        [0.0, 0.0, 1.0],
        [0.0, 0.0, 1.0],
        [0.0, 0.0, 1.0],
        [0.0, 0.0, 1.0],
        [0.0, 0.0, 1.0],
        [0.0, 0.0, 1.0],
        [0.0, 0.0, 1.0],
        [0.0, 0.0, 1.0],
        [0.0, 0.0, 1.0],
        [0.0, 0.0, 1.0],
        [0.0, 0.0, 1.0],
        [0.0, 0.0, 1.0],
    ]
    .iter()
    .map(|row| bits(row))
    .collect();
    metrics.update(MulticlassClassificationMetricsInput {
        probabilities: &probabilities,
        labels: &labels,
    });
    let metrics = metrics.finalize();
    assert_eq!(metrics.class_metrics.len(), 3);
    let cat = &metrics.class_metrics[0];
    assert_eq!(counts(cat), class(5, 2, 17, 3));
    assert_eq!(to_f32(cat.accuracy), 0.8148148);
    assert_eq!(to_f32(cat.precision), 0.71428573);
    assert_eq!(to_f32(cat.recall), 0.625);
    assert_eq!(to_f32(cat.f1_score), 0.6666667);
    let dog = &metrics.class_metrics[1];
    assert_eq!(counts(dog), class(3, 5, 16, 3));
    assert_eq!(to_f32(dog.accuracy), 0.7037037);
    assert_eq!(to_f32(dog.precision), 0.375);
    assert_eq!(to_f32(dog.recall), 0.5);
    assert_eq!(to_f32(dog.f1_score), 0.42857143);
    let rabbit = &metrics.class_metrics[2];
    assert_eq!(counts(rabbit), class(11, 1, 13, 2));
    assert_eq!(to_f32(rabbit.accuracy), 0.8888889);
    assert_eq!(to_f32(rabbit.precision), 0.9166667);
    assert_eq!(to_f32(rabbit.recall), 0.84615386);
    assert_eq!(to_f32(rabbit.f1_score), 0.88);
    assert_eq!(to_f32(metrics.accuracy), 0.7037037);
    assert_eq!(precision_unweighted(&metrics), 0.6686508);
    assert_eq!(precision_weighted(&metrics), 0.7363316);
    assert_eq!(recall_unweighted(&metrics), 0.65705127);
    assert_eq!(recall_weighted(&metrics), 0.7037037);
}

#[test]
fn multiclass_metrics_of_shards_merge_to_the_whole() {
    let rows: Vec<Vec<u32>> = vec![
        bits(&[0.1, 0.7, 0.2]),
        bits(&[0.5, 0.3, 0.2]),
        bits(&[0.2, 0.2, 0.6]),
        bits(&[0.3, 0.4, 0.3]),
        bits(&[0.9, 0.05, 0.05]),
        bits(&[0.1, 0.1, 0.8]),
    ];
    let labels = [2usize, 1, 3, 1, 1, 2];
    for cut in 0..=rows.len() {
        let mut whole = MulticlassClassificationMetrics::new(3);
        whole.update(MulticlassClassificationMetricsInput {
            probabilities: &rows,
            labels: &labels,
        });
        let mut first = MulticlassClassificationMetrics::new(3);
        first.update(MulticlassClassificationMetricsInput {
            probabilities: &rows[..cut],
            labels: &labels[..cut],
        });
        let mut second = MulticlassClassificationMetrics::new(3);
        second.update(MulticlassClassificationMetricsInput {
            probabilities: &rows[cut..],
            labels: &labels[cut..],
        });
        first.merge(second);
        for predicted in 0..3 {
            for actual in 0..3 {
                assert_eq!(first.count(predicted, actual), whole.count(predicted, actual));
            }
        }
        assert_eq!(whole.count(1, 1), 1);
        assert_eq!(whole.count(0, 0), 2);
        assert_eq!(whole.count(1, 0), 1);
        assert_eq!(whole.count(2, 1), 1);
        let merged = first.finalize();
        let whole = whole.finalize();
        assert_eq!(merged.accuracy, whole.accuracy);
        assert_eq!(merged.class_metrics, whole.class_metrics);
    }
}

#[test]
fn predicted_class_prefers_finite_scores_and_later_ties() {
    assert_eq!(predict_class(&bits(&[0.2, 0.5, 0.3])), 1);
    assert_eq!(predict_class(&bits(&[0.5, 0.5, 0.3])), 1);
    assert_eq!(predict_class(&bits(&[f32::NAN, 0.1, f32::INFINITY])), 1);
    assert_eq!(predict_class(&bits(&[f32::NAN, f32::INFINITY, f32::NAN])), 2);
    assert_eq!(predict_class(&bits(&[-1.0, f32::NEG_INFINITY])), 0);
    assert_eq!(predict_class(&bits(&[0.0, -0.0])), 1);
    assert_eq!(predict_class(&bits(&[0.7])), 0);
}

#[test]
fn binary_metrics_count_against_exact_thresholds() {
    let n_thresholds = 99usize;
    let mut state: u64 = 0x1234_5678_9abc_def1;
    let mut numerators: Vec<u64> = Vec::new();
    let mut labels: Vec<usize> = Vec::new();
    for k in 0..=100u64 {
        // The single precision numbers next to every threshold.
        let near = ((k as f64 / 100.0) as f32).to_bits();
        for pattern in [near.wrapping_sub(1), near, near + 1] {
            let value = f32::from_bits(pattern);
            if value.is_finite() && value >= 0.0 && value <= 1.0 {
                let scaled = (value as f64) * (1u64 << 40) as f64;
                if scaled == scaled.trunc() {
                    numerators.push(scaled as u64);
                    labels.push(1 + (k % 2) as usize);
                }
            }
        }
    }
    for _ in 0..500 {
        state ^= state << 13;
        state ^= state >> 7;
        state ^= state << 17;
        numerators.push((state >> 40) << 16);
        labels.push(1 + ((state >> 3) & 1) as usize);
    }
    let probabilities: Vec<u32> = numerators
        .iter()
        .map(|numerator| ((*numerator as f64 / (1u64 << 40) as f64) as f32).to_bits())
        .collect();
    for (numerator, pattern) in numerators.iter().zip(probabilities.iter()) {
        assert_eq!((f32::from_bits(*pattern) as f64) * (1u64 << 40) as f64, *numerator as f64);
    }
    let mut metrics = BinaryClassificationMetrics::new(n_thresholds);
    metrics.update(BinaryClassificationMetricsInput {
        probabilities: &probabilities,
        labels: &labels,
    });
    for index in 0..n_thresholds {
        let mut expected = BinaryConfusionMatrix::new();
        for (numerator, label) in numerators.iter().zip(labels.iter()) {
            let predicted =
                (*numerator as u128) * 100 >= ((index as u128) + 1) * (1u128 << 40);
            match (predicted, *label == 2) {
                (false, false) => expected.true_negatives += 1,
                (false, true) => expected.false_negatives += 1,
                (true, false) => expected.false_positives += 1,
                (true, true) => expected.true_positives += 1,
            }
        }
        assert_eq!(metrics.confusion_matrix(index), expected, "threshold {index}");
    }
}
