use shadow::tree::compute_binning_instructions::{
    compute_binning_instruction, compute_binning_instructions,
    compute_binning_instructions_for_number_feature, compute_histogram, BinningInstruction,
    TableColumnView, Threshold,
};
use shadow::tree::TrainOptions;

fn bits(values: &[f32]) -> Vec<u32> {
    values.iter().map(|value| value.to_bits()).collect()
}

fn value(threshold: &Threshold) -> f32 {
    let weight = threshold.weight_numerator as f32 / threshold.weight_denominator as f32;
    if weight > 0.0 {
        f32::from_bits(threshold.lower) * (1.0 - weight) + f32::from_bits(threshold.upper) * weight
    } else {
        f32::from_bits(threshold.lower)
    }
}

fn thresholds(column: &[f32], options: &TrainOptions) -> Vec<f32> {
    match compute_binning_instructions_for_number_feature(&bits(column), options) {
        BinningInstruction::Number { thresholds } => thresholds.iter().map(value).collect(),
        BinningInstruction::Enum { .. } => panic!("a number feature has thresholds"),
    }
}

fn with_bins(n_bins: u8) -> TrainOptions {
    TrainOptions {
        max_valid_bins_for_number_features: n_bins,
        ..TrainOptions::default()
    }
}

#[test]
fn few_values_give_the_midpoints() {
    let options = TrainOptions::default();
    assert_eq!(thresholds(&[3.0, 1.0, 2.0, 2.0, 1.0], &options), vec![1.5, 2.5]);
    assert_eq!(thresholds(&[-1.0, 4.0], &options), vec![1.5]);
    match compute_binning_instructions_for_number_feature(&bits(&[1.0, 2.0, 4.0]), &options) {
        BinningInstruction::Number { thresholds } => {
            assert_eq!(
                thresholds,
                vec![
                    Threshold {
                        lower: 1.0f32.to_bits(),
                        upper: 2.0f32.to_bits(),
                        weight_numerator: 1,
                        weight_denominator: 2,
                    },
                    Threshold {
                        lower: 2.0f32.to_bits(),
                        upper: 4.0f32.to_bits(),
                        weight_numerator: 1,
                        weight_denominator: 2,
                    },
                ]
            );
        }
        BinningInstruction::Enum { .. } => panic!("a number feature has thresholds"),
    }
}

#[test]
fn degenerate_columns_give_no_thresholds() {
    let options = TrainOptions::default();
    assert_eq!(thresholds(&[], &options), Vec::<f32>::new());
    assert_eq!(thresholds(&[5.0, 5.0, 5.0], &options), Vec::<f32>::new());
    assert_eq!(
        thresholds(&[f32::NAN, f32::INFINITY, f32::NEG_INFINITY], &options),
        Vec::<f32>::new()
    );
    assert_eq!(thresholds(&[0.0, -0.0], &options), Vec::<f32>::new());
    assert_eq!(thresholds(&[1.0, 2.0, 3.0], &with_bins(0)), Vec::<f32>::new());
    assert_eq!(thresholds(&[1.0, 2.0, 3.0], &with_bins(1)), Vec::<f32>::new());
}

#[test]
fn values_that_are_not_finite_are_left_out() {
    let options = TrainOptions::default();
    assert_eq!(
        thresholds(&[1.0, f32::NAN, 3.0, f32::INFINITY], &options),
        vec![2.0]
    );
}

#[test]
fn only_the_first_values_are_sampled() {
    let options = TrainOptions {
        max_examples_for_computing_bin_thresholds: 3,
        ..TrainOptions::default()
    };
    assert_eq!(thresholds(&[1.0, 2.0, 3.0, 100.0, 200.0], &options), vec![1.5, 2.5]);
}

#[test]
fn many_values_give_the_quantiles() {
    let column: Vec<f32> = (1..=10).map(|value| value as f32).collect();
    assert_eq!(thresholds(&column, &with_bins(4)), vec![3.25, 5.5, 7.75]);
    assert_eq!(thresholds(&column, &with_bins(2)), vec![5.5]);
    let column: Vec<f32> = (1..=9).map(|value| value as f32).collect();
    assert_eq!(thresholds(&column, &with_bins(4)), vec![3.0, 5.0, 7.0]);
}

#[test]
fn quantiles_may_fall_on_one_value() {
    let mut column = vec![1.0f32; 100];
    column.push(2.0);
    column.push(3.0);
    assert_eq!(thresholds(&column, &with_bins(3)), vec![1.0, 1.0]);
}

#[test]
fn zero_is_not_counted_among_the_quantiles() {
    let column = [0.0f32, 0.0, 0.0, 0.0, 1.0, 2.0, 3.0, 4.0, 5.0];
    assert_eq!(thresholds(&column, &with_bins(2)), vec![3.0]);
    assert_eq!(thresholds(&column, &with_bins(4)), vec![2.0, 3.0, 4.0]);
    let column = [-2.0f32, -1.0, 0.0, 0.0, 0.0, 1.0, 2.0];
    assert_eq!(thresholds(&column, &with_bins(2)), vec![0.0]);
}

#[test]
fn histogram_counts_distinct_values_in_order() {
    let histogram = compute_histogram(&bits(&[2.0, -1.0, 2.0, 0.0, -0.0, f32::NAN, 7.0]), 100);
    let readable: Vec<(f32, usize)> = histogram
        .iter()
        .map(|entry| (f32::from_bits(entry.0), entry.1))
        .collect();
    assert_eq!(readable, vec![(-1.0, 1), (0.0, 2), (2.0, 2), (7.0, 1)]);
    assert_eq!(compute_histogram(&bits(&[2.0, -1.0, 2.0]), 2).len(), 2);
    assert_eq!(compute_histogram(&bits(&[2.0, -1.0, 2.0]), 0).len(), 0);
}

#[test]
fn bins_are_counted_with_the_bin_for_missing_values() {
    let options = TrainOptions::default();
    let instruction = compute_binning_instructions_for_number_feature(&bits(&[1.0, 2.0, 3.0]), &options);
    assert_eq!(instruction.n_valid_bins(), 3);
    assert_eq!(instruction.n_bins(), 4);
    let instruction = BinningInstruction::Enum { n_variants: 5 };
    assert_eq!(instruction.n_valid_bins(), 5);
    assert_eq!(instruction.n_bins(), 6);
    let instruction = BinningInstruction::Number { thresholds: vec![] };
    assert_eq!(instruction.n_bins(), 2);
}

#[test]
fn every_column_gets_its_instruction() {
    let options = TrainOptions::default();
    let numbers = bits(&[1.0, 3.0]);
    let variants = vec!["red".to_owned(), "green".to_owned(), "blue".to_owned()];
    let columns = vec![
        TableColumnView::Enum(&variants),
        TableColumnView::Number(&numbers),
        TableColumnView::Enum(&[]),
    ];
    let instructions = compute_binning_instructions(&columns, &options);
    assert_eq!(instructions.len(), 3);
    assert!(matches!(instructions[0], BinningInstruction::Enum { n_variants: 3 }));
    assert!(matches!(instructions[2], BinningInstruction::Enum { n_variants: 0 }));
    match &instructions[1] {
        BinningInstruction::Number { thresholds } => {
            assert_eq!(thresholds.iter().map(value).collect::<Vec<f32>>(), vec![2.0])
        }
        BinningInstruction::Enum { .. } => panic!("a number feature has thresholds"),
    }
    assert!(matches!(
        compute_binning_instruction(&columns[0], &options),
        BinningInstruction::Enum { n_variants: 3 }
    ));
}
