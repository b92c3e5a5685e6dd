use shadow::linear::{
    batches, train_early_stopping_split, EarlyStoppingMonitor, EarlyStoppingOptions,
    EpochReport, TrainOptions, TrainProgressEvent, Trainer,
};

#[test]
fn rows_are_cut_into_batches_that_follow_each_other() {
    assert_eq!(batches(10, 4), vec![(0, 4), (4, 8), (8, 10)]);
    assert_eq!(batches(8, 4), vec![(0, 4), (4, 8)]);
    assert_eq!(batches(3, 32), vec![(0, 3)]);
    assert_eq!(batches(0, 32), vec![]);
    assert_eq!(batches(3, 1), vec![(0, 1), (1, 2), (2, 3)]);
}

fn observe(monitor: &mut EarlyStoppingMonitor, value: f32) -> bool {
    let distance = match monitor.previous_epoch_metric_value() {
        Some(previous) => f32::abs(value - f32::from_bits(previous)),
        None => 0.0,
    };
    monitor.update(value.to_bits(), distance.to_bits())
}

#[test]
fn monitor_stops_after_epochs_without_improvement() {
    let mut monitor = EarlyStoppingMonitor::new(0.01f32.to_bits(), 2);
    assert!(!observe(&mut monitor, 1.0));
    assert!(!observe(&mut monitor, 0.5));
    assert!(!observe(&mut monitor, 0.495));
    assert!(observe(&mut monitor, 0.6));
}

#[test]
fn monitor_starts_over_after_an_improvement() {
    let mut monitor = EarlyStoppingMonitor::new(0.01f32.to_bits(), 2);
    assert!(!observe(&mut monitor, 1.0));
    assert!(!observe(&mut monitor, 1.1));
    assert!(!observe(&mut monitor, 0.9));
    assert!(!observe(&mut monitor, 0.95));
    assert!(observe(&mut monitor, 0.95));
    assert_eq!(monitor.previous_epoch_metric_value(), Some(0.95f32.to_bits()));
}

#[test]
fn monitor_with_one_epoch_stops_at_the_first_stall() {
    let mut monitor = EarlyStoppingMonitor::new(0.1f32.to_bits(), 1);
    assert!(!observe(&mut monitor, 1.0));
    assert!(!observe(&mut monitor, 0.5));
    assert!(observe(&mut monitor, 0.45));
}

fn run(options: &TrainOptions, metrics: &[f32], cancel_after: Option<usize>) -> usize {
    let mut trainer = Trainer::new(options);
    match trainer.train_event() {
        TrainProgressEvent::Train(counter) => {
            assert_eq!(counter.total(), options.max_epochs as u64);
            assert_eq!(counter.get(), 0);
        }
        TrainProgressEvent::TrainDone => panic!("training has not begun"),
    }
    let mut epochs = 0;
    while trainer.begin_epoch() {
        let early_stopping_metric = if trainer.watches_early_stopping() {
            let value = metrics[epochs];
            let distance = match trainer.previous_early_stopping_metric() {
                Some(previous) => f32::abs(value - f32::from_bits(previous)),
                None => 0.0,
            };
            Some((value.to_bits(), distance.to_bits()))
        } else {
            None
        };
        epochs += 1;
        trainer.end_epoch(EpochReport {
            early_stopping_metric,
            cancelled: cancel_after == Some(epochs),
        });
    }
    assert!(!trainer.begin_epoch());
    match trainer.train_event() {
        TrainProgressEvent::Train(counter) => assert_eq!(counter.get(), epochs as u64),
        TrainProgressEvent::TrainDone => panic!("the counter is asked for"),
    }
    assert!(matches!(trainer.finish(), TrainProgressEvent::TrainDone));
    epochs
}

#[test]
fn training_runs_all_epochs_without_a_reason_to_stop() {
    let options = TrainOptions {
        max_epochs: 7,
        ..TrainOptions::default()
    };
    assert_eq!(run(&options, &[], None), 7);
    let none = TrainOptions {
        max_epochs: 0,
        ..TrainOptions::default()
    };
    assert_eq!(run(&none, &[], None), 0);
}

#[test]
fn training_stops_when_cancelled() {
    let options = TrainOptions {
        max_epochs: 7,
        ..TrainOptions::default()
    };
    assert_eq!(run(&options, &[], Some(3)), 3);
}

#[test]
fn training_stops_early_when_the_metric_stalls() {
    let options = TrainOptions {
        max_epochs: 10,
        early_stopping_options: Some(EarlyStoppingOptions {
            early_stopping_fraction: 0.1f32.to_bits(),
            n_rounds_without_improvement_to_stop: 2,
            min_decrease_in_loss_for_significant_change: 0.01f32.to_bits(),
        }),
        ..TrainOptions::default()
    };
    let metrics = [1.0, 0.8, 0.7, 0.699, 0.698, 0.5, 0.4, 0.3, 0.2, 0.1];
    assert_eq!(run(&options, &metrics, None), 5);
    let improving = [1.0, 0.9, 0.8, 0.7, 0.6, 0.5, 0.4, 0.3, 0.2, 0.1];
    assert_eq!(run(&options, &improving, None), 10);
}

#[test]
fn default_linear_train_options_hold_the_documented_numbers() {
    let options = TrainOptions::default();
    assert_eq!(f32::from_bits(options.learning_rate), 0.1);
    assert_eq!(f32::from_bits(options.l2_regularization), 0.0);
    assert_eq!(options.max_epochs, 100);
    assert_eq!(options.n_examples_per_batch, 32);
    assert!(!options.compute_losses);
    assert!(options.early_stopping_options.is_none());
    assert!(Trainer::new(&options).computes_losses() == false);
}

fn split(n_rows: usize, fraction: f32) -> Option<usize> {
    train_early_stopping_split(n_rows, ((1.0 - fraction) * n_rows as f32).to_bits())
}

#[test]
fn rows_are_split_for_early_stopping() {
    assert_eq!(split(100, 0.1), Some(90));
    assert_eq!(split(100, 0.0), Some(100));
    assert_eq!(split(100, 1.0), Some(0));
    assert_eq!(split(10, 0.25), Some(7));
    assert_eq!(split(0, 0.5), Some(0));
    assert_eq!(split(100, -0.5), None);
    assert_eq!(split(100, 1.5), None);
    assert_eq!(split(100, f32::NAN), None);
}

#[test]
fn monitor_follows_the_rule_on_every_pair() {
    let values = [0.0f32, 0.1, 0.5, 0.505, 0.51, 0.52, 1.0, 1.0e-3, 2.0, -1.0, f32::NAN];
    let threshold = 0.01f32;
    for previous in values {
        for value in values {
            let mut monitor = EarlyStoppingMonitor::new(threshold.to_bits(), 1);
            assert!(!observe(&mut monitor, previous));
            let expected = value > previous || f32::abs(value - previous) < threshold;
            assert_eq!(observe(&mut monitor, value), expected, "{previous} {value}");
            assert_eq!(monitor.previous_epoch_metric_value(), Some(value.to_bits()));
        }
    }
}

#[test]
fn monitor_takes_the_distance_as_it_was_rounded() {
    // The difference of 1 and 2^-26 rounds to 1, which is not below the
    // threshold 1: the epoch counts as an improvement.
    let mut monitor = EarlyStoppingMonitor::new(1.0f32.to_bits(), 1);
    assert!(!observe(&mut monitor, 1.0));
    assert!(!observe(&mut monitor, f32::from_bits(0x3280_0000)));
    let mut monitor = EarlyStoppingMonitor::new(1.0f32.to_bits(), 1);
    assert!(!observe(&mut monitor, 1.0));
    assert!(observe(&mut monitor, 0.5));
}
