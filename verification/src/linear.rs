//! The decisions of training a linear model by gradient descent.
//!
//! The arithmetic of training on single precision numbers is the caller's.
//! What is decided here is how the rows are cut into batches, how many
//! epochs run, and when training stops early. Numbers that are not counts
//! are bit patterns of single precision numbers (see `crate::finite`).

use crate::finite::{float_lt, float_lt_spec, float_to_usize, float_to_usize_spec};
use crate::progress_counter::ProgressCounter;
use vstd::prelude::*;

verus! {

/// When to stop training before the last epoch.
#[derive(Clone, Copy, Debug, PartialEq, Eq, Structural)]
pub struct EarlyStoppingOptions {
    pub early_stopping_fraction: u32,
    pub n_rounds_without_improvement_to_stop: usize,
    pub min_decrease_in_loss_for_significant_change: u32,
}

/// The options of training a linear model.
#[derive(Clone, Copy, Debug, PartialEq, Eq, Structural)]
pub struct TrainOptions {
    pub compute_losses: bool,
    pub early_stopping_options: Option<EarlyStoppingOptions>,
    pub l2_regularization: u32,
    pub learning_rate: u32,
    pub max_epochs: usize,
    pub n_examples_per_batch: usize,
}

/// The options that training starts from: a learning rate of 0.1, 100
/// epochs, batches of 32 examples.
pub open spec fn default_train_options() -> TrainOptions {
    TrainOptions {
        compute_losses: false,
        early_stopping_options: None,
        l2_regularization: 0,
        learning_rate: 0x3dcc_cccd,
        max_epochs: 100,
        n_examples_per_batch: 32,
    }
}

impl Default for TrainOptions {
    fn default() -> (r: TrainOptions)
        ensures
            r == default_train_options(),
    {
        TrainOptions {
            compute_losses: false,
            early_stopping_options: None,
            l2_regularization: 0,
            learning_rate: 0x3dcc_cccd,
            max_epochs: 100,
            n_examples_per_batch: 32,
        }
    }
}

/// What a trainer tells its caller: that training has begun, with the
/// counter of its epochs, and that it is over.
#[derive(Clone, Debug)]
pub enum TrainProgressEvent {
    Train(ProgressCounter),
    TrainDone,
}

/// The number of rows to train on, from their number as the caller
/// computed it in single precision: `(1 - fraction) * n_rows`, where
/// `fraction` is the share of rows that is held out for early stopping. The
/// rows behind them are the held out ones. `None` where the number is no
/// number of rows that the table has.
pub fn train_early_stopping_split(n_rows: usize, n_rows_to_train_on: u32) -> (split_index: Option<
    usize,
>)
    ensures
        split_index == (match float_to_usize_spec(n_rows_to_train_on) {
            Some(whole) => if whole <= n_rows {
                Some(whole)
            } else {
                None
            },
            None => None,
        }),
{
    match float_to_usize(n_rows_to_train_on) {
        Some(whole) => if whole <= n_rows {
            Some(whole)
        } else {
            None
        },
        None => None,
    }
}

/// The rows of batch `index` when `n_rows` rows are cut into batches of
/// `batch_size`: the first row, and the row behind the last.
pub open spec fn batch_bounds(n_rows: int, batch_size: int, index: int) -> (int, int) {
    (
        index * batch_size,
        if (index + 1) * batch_size <= n_rows {
            (index + 1) * batch_size
        } else {
            n_rows
        },
    )
}

/// The number of batches: `n_rows / batch_size`, rounded up.
pub open spec fn n_batches(n_rows: int, batch_size: int) -> int {
    (n_rows + batch_size - 1) / batch_size
}

/// Cuts `n_rows` rows into batches of `batch_size` rows that follow each
/// other; the last batch holds the rows that are left.
pub fn batches(n_rows: usize, batch_size: usize) -> (r: Vec<(usize, usize)>)
    requires
        batch_size > 0,
    ensures
        r@.len() == n_batches(n_rows as int, batch_size as int),
        forall|i: int|
            0 <= i < r@.len() ==> (#[trigger] r@[i]).0 == batch_bounds(
                n_rows as int,
                batch_size as int,
                i,
            ).0 && r@[i].1 == batch_bounds(n_rows as int, batch_size as int, i).1,
        forall|i: int| 0 <= i < r@.len() ==> (#[trigger] r@[i]).0 < r@[i].1 <= n_rows,
        forall|i: int| 0 < i < r@.len() ==> (#[trigger] r@[i]).0 == r@[i - 1].1,
        r@.len() > 0 ==> r@[0].0 == 0 && r@[r@.len() - 1].1 == n_rows,
        n_rows == 0 ==> r@.len() == 0,
{
    let mut bounds: Vec<(usize, usize)> = Vec::new();
    let mut start: usize = 0;
    proof {
        lemma_n_batches(n_rows as int, batch_size as int, 0);
    }
    while start < n_rows
        invariant
            batch_size > 0,
            start <= n_rows,
            start == bounds@.len() * batch_size || (start == n_rows && bounds@.len() == n_batches(
                n_rows as int,
                batch_size as int,
            )),
            start < n_rows ==> start == bounds@.len() * batch_size,
            bounds@.len() <= n_batches(n_rows as int, batch_size as int),
            start == n_rows ==> bounds@.len() == n_batches(n_rows as int, batch_size as int),
            forall|i: int|
                0 <= i < bounds@.len() ==> (#[trigger] bounds@[i]).0 == batch_bounds(
                    n_rows as int,
                    batch_size as int,
                    i,
                ).0 && bounds@[i].1 == batch_bounds(n_rows as int, batch_size as int, i).1,
            forall|i: int| 0 <= i < bounds@.len() ==> (#[trigger] bounds@[i]).0 < bounds@[i].1 <= n_rows,
            forall|i: int| 0 < i < bounds@.len() ==> (#[trigger] bounds@[i]).0 == bounds@[i - 1].1,
            bounds@.len() > 0 ==> bounds@[0].0 == 0 && bounds@[bounds@.len() - 1].1 == start,
        decreases n_rows - start,
    {
        let end: usize = if n_rows - start >= batch_size {
            start + batch_size
        } else {
            n_rows
        };
        proof {
            let index = bounds@.len() as int;
            assert((index + 1) * batch_size == start + batch_size) by (nonlinear_arith)
                requires
                    start == index * batch_size,
            ;
            lemma_n_batches(n_rows as int, batch_size as int, index + 1);
            lemma_n_batches(n_rows as int, batch_size as int, index);
        }
        bounds.push((start, end));
        start = end;
    }
    bounds
}

/// `k` batches hold fewer rows than there are exactly when `k` is below the
/// number of batches.
proof fn lemma_n_batches(n_rows: int, batch_size: int, k: int)
    requires
        n_rows >= 0,
        batch_size > 0,
        k >= 0,
    ensures
        k * batch_size < n_rows <==> k < n_batches(n_rows, batch_size),
        n_batches(n_rows, batch_size) >= 0,
{
    let total = n_rows + batch_size - 1;
    vstd::arithmetic::div_mod::lemma_fundamental_div_mod(total, batch_size);
    vstd::arithmetic::div_mod::lemma_mod_bound(total, batch_size);
    let count = total / batch_size;
    let rest = total % batch_size;
    assert(total == batch_size * count + rest);
    if k < count {
        assert(k * batch_size + batch_size <= batch_size * count) by (nonlinear_arith)
            requires
                k + 1 <= count,
                batch_size > 0,
        ;
    } else {
        assert(k * batch_size >= batch_size * count) by (nonlinear_arith)
            requires
                k >= count,
                batch_size > 0,
        ;
    }
    if count < 0 {
        assert(batch_size * count <= -batch_size) by (nonlinear_arith)
            requires
                count <= -1,
                batch_size > 0,
        ;
    }
}

/// Watches a metric from epoch to epoch and says when it has stopped
/// improving: when, for `epochs` epochs in a row, the metric rose or moved
/// by less than `threshold`.
#[derive(Clone, Copy, Debug)]
pub struct EarlyStoppingMonitor {
    threshold: u32,
    epochs: usize,
    n_epochs_without_observed_improvement: usize,
    previous_epoch_metric_value: Option<u32>,
}

/// Whether an epoch brought no improvement: the metric is above its last
/// value, or its distance to that value is below the threshold. The distance
/// is the absolute value of the difference of the two, rounded to single
/// precision: the caller subtracts and hands it in.
pub open spec fn is_without_improvement(
    threshold: u32,
    previous: u32,
    value: u32,
    distance: u32,
) -> bool {
    float_lt_spec(previous, value) || float_lt_spec(distance, threshold)
}

impl EarlyStoppingMonitor {
    pub closed spec fn threshold(self) -> u32 {
        self.threshold
    }

    pub closed spec fn epochs(self) -> usize {
        self.epochs
    }

    /// The number of epochs in a row that brought no improvement.
    pub closed spec fn stalled(self) -> usize {
        self.n_epochs_without_observed_improvement
    }

    /// The metric of the last epoch.
    pub closed spec fn previous(self) -> Option<u32> {
        self.previous_epoch_metric_value
    }

    pub fn new(threshold: u32, epochs: usize) -> (r: EarlyStoppingMonitor)
        ensures
            r.threshold() == threshold,
            r.epochs() == epochs,
            r.stalled() == 0,
            r.previous() is None,
    {
        EarlyStoppingMonitor {
            threshold,
            epochs,
            previous_epoch_metric_value: None,
            n_epochs_without_observed_improvement: 0,
        }
    }

    /// The number of epochs in a row without improvement once the monitor
    /// has taken a metric: one more where the epoch brought none, zero where
    /// it brought one, and unchanged after the first epoch, which has no
    /// metric before it.
    pub open spec fn stalled_after(self, value: u32, distance: u32) -> int {
        match self.previous() {
            Some(previous) => if is_without_improvement(
                self.threshold(),
                previous,
                value,
                distance,
            ) {
                self.stalled() + 1
            } else {
                0
            },
            None => self.stalled() as int,
        }
    }

    /// Whether the monitor says stop when it takes a metric: the epoch
    /// brought no improvement, and with it as many epochs in a row as the
    /// monitor waits for.
    pub open spec fn stops_at(self, value: u32, distance: u32) -> bool {
        match self.previous() {
            Some(previous) => is_without_improvement(self.threshold(), previous, value, distance)
                && self.stalled() + 1 >= self.epochs(),
            None => false,
        }
    }

    /// The metric of the last epoch, from which the caller takes the
    /// distance that `update` asks for.
    pub fn previous_epoch_metric_value(&self) -> (r: Option<u32>)
        ensures
            r == self.previous(),
    {
        self.previous_epoch_metric_value
    }

    /// Takes the metric of an epoch and says whether training should stop.
    /// `distance` is the absolute value of the metric's difference to the
    /// last one; it is not read in the first epoch.
    pub fn update(&mut self, early_stopping_metric_value: u32, distance: u32) -> (r: bool)
        requires
            old(self).stalled() < usize::MAX,
        ensures
            final(self).threshold() == old(self).threshold(),
            final(self).epochs() == old(self).epochs(),
            final(self).previous() == Some(early_stopping_metric_value),
            final(self).stalled() == old(self).stalled_after(early_stopping_metric_value, distance),
            r == old(self).stops_at(early_stopping_metric_value, distance),
    {
        let result: bool = match self.previous_epoch_metric_value {
            Some(previous_stopping_metric) => {
                if float_lt(previous_stopping_metric, early_stopping_metric_value) || float_lt(
                    distance,
                    self.threshold,
                ) {
                    self.n_epochs_without_observed_improvement += 1;
                    self.n_epochs_without_observed_improvement >= self.epochs
                } else {
                    self.n_epochs_without_observed_improvement = 0;
                    false
                }
            },
            None => false,
        };
        self.previous_epoch_metric_value = Some(early_stopping_metric_value);
        result
    }
}

/// What the caller found at the end of an epoch: the metric on the rows
/// held out for early stopping with its distance to the metric of the epoch
/// before, where early stopping is asked for, and whether cancellation was
/// seen.
#[derive(Clone, Copy, Debug)]
pub struct EpochReport {
    pub early_stopping_metric: Option<(u32, u32)>,
    pub cancelled: bool,
}

/// The state of a training run between its epochs.
pub struct Trainer {
    max_epochs: usize,
    compute_losses: bool,
    early_stopping_monitor: Option<EarlyStoppingMonitor>,
    progress_counter: ProgressCounter,
    n_epochs_started: usize,
    epoch_is_open: bool,
    stopped: bool,
}

impl Trainer {
    /// Whether an epoch has begun and not ended.
    pub closed spec fn epoch_is_open(self) -> bool {
        self.epoch_is_open
    }

    /// The number of epochs that have begun.
    pub closed spec fn n_epochs_started(self) -> usize {
        self.n_epochs_started
    }

    /// The largest number of epochs.
    pub closed spec fn max_epochs(self) -> usize {
        self.max_epochs
    }

    /// Whether early stopping or cancellation has ended the run.
    pub closed spec fn stopped(self) -> bool {
        self.stopped
    }

    /// The monitor of early stopping, where it was asked for.
    pub closed spec fn monitor(self) -> Option<EarlyStoppingMonitor> {
        self.early_stopping_monitor
    }

    /// Whether the loss is to be recorded after every epoch.
    pub closed spec fn records_losses(self) -> bool {
        self.compute_losses
    }

    /// The invariant of the type: no more epochs have begun than may run.
    pub closed spec fn well_formed(self) -> bool {
        &&& self.n_epochs_started <= self.max_epochs
        &&& self.progress_counter.spec_total() == self.max_epochs
        &&& self.epoch_is_open ==> self.n_epochs_started > 0
        &&& self.early_stopping_monitor matches Some(monitor) ==> monitor.stalled() + (
        if self.epoch_is_open {
            1int
        } else {
            0int
        }) <= self.n_epochs_started
    }

    /// A run that has not begun: no epoch started, a fresh monitor where
    /// early stopping is asked for, a counter over all epochs.
    pub fn new(train_options: &TrainOptions) -> (r: Trainer)
        ensures
            r.well_formed(),
            r.n_epochs_started() == 0,
            !r.epoch_is_open(),
            !r.stopped(),
            r.max_epochs() == train_options.max_epochs,
            r.records_losses() == train_options.compute_losses,
            match train_options.early_stopping_options {
                Some(options) => r.monitor() matches Some(monitor) && monitor.threshold()
                    == options.min_decrease_in_loss_for_significant_change && monitor.epochs()
                    == options.n_rounds_without_improvement_to_stop && monitor.stalled() == 0
                    && monitor.previous() is None,
                None => r.monitor() is None,
            },
    {
        let early_stopping_monitor: Option<EarlyStoppingMonitor> =
            match train_options.early_stopping_options {
            Some(options) => Some(
                EarlyStoppingMonitor::new(
                    options.min_decrease_in_loss_for_significant_change,
                    options.n_rounds_without_improvement_to_stop,
                ),
            ),
            None => None,
        };
        Trainer {
            max_epochs: train_options.max_epochs,
            compute_losses: train_options.compute_losses,
            early_stopping_monitor,
            progress_counter: ProgressCounter::new(train_options.max_epochs as u64),
            n_epochs_started: 0,
            epoch_is_open: false,
            stopped: false,
        }
    }

    /// The event that opens the run. Its counter is the one that
    /// `begin_epoch` advances.
    pub fn train_event(&self) -> (r: TrainProgressEvent)
        requires
            self.well_formed(),
        ensures
            r matches TrainProgressEvent::Train(counter) && counter.spec_total()
                == self.max_epochs(),
    {
        TrainProgressEvent::Train(self.progress_counter.clone())
    }

    /// Whether the loss is to be recorded after every epoch.
    pub fn computes_losses(&self) -> (r: bool)
        ensures
            r == self.records_losses(),
    {
        self.compute_losses
    }

    /// The metric of the last epoch, where early stopping is asked for and
    /// an epoch has ended.
    pub fn previous_early_stopping_metric(&self) -> (r: Option<u32>)
        ensures
            r == (match self.monitor() {
                Some(monitor) => monitor.previous(),
                None => None,
            }),
    {
        match &self.early_stopping_monitor {
            Some(monitor) => monitor.previous_epoch_metric_value(),
            None => None,
        }
    }

    /// Whether the metric on the held out rows is to be computed after
    /// every epoch.
    pub fn watches_early_stopping(&self) -> (r: bool)
        ensures
            r == self.monitor() is Some,
    {
        self.early_stopping_monitor.is_some()
    }

    /// Begins the next epoch, and advances the counter, unless all epochs
    /// have run or the run was stopped. Returns whether an epoch has begun;
    /// where none has, the run is over.
    pub fn begin_epoch(&mut self) -> (r: bool)
        requires
            old(self).well_formed(),
            !old(self).epoch_is_open(),
        ensures
            final(self).well_formed(),
            final(self).epoch_is_open() == r,
            r == (!old(self).stopped() && old(self).n_epochs_started() < old(self).max_epochs()),
            final(self).n_epochs_started() == old(self).n_epochs_started() + (if r {
                1int
            } else {
                0int
            }),
            final(self).max_epochs() == old(self).max_epochs(),
            final(self).stopped() == old(self).stopped(),
            final(self).monitor() == old(self).monitor(),
            final(self).records_losses() == old(self).records_losses(),
    {
        if self.stopped || self.n_epochs_started >= self.max_epochs {
            return false;
        }
        self.progress_counter.inc(1);
        self.n_epochs_started += 1;
        self.epoch_is_open = true;
        true
    }

    /// Ends the run between two epochs and hands out the event that closes
    /// it. The trainer is used up, so that the event is given once.
    pub fn finish(self) -> (r: TrainProgressEvent)
        requires
            self.well_formed(),
            !self.epoch_is_open(),
        ensures
            r is TrainDone,
    {
        TrainProgressEvent::TrainDone
    }

    /// Ends an epoch: the monitor takes the metric, and the run stops where
    /// the monitor says so or cancellation was seen.
    pub fn end_epoch(&mut self, report: EpochReport)
        requires
            old(self).well_formed(),
            old(self).epoch_is_open(),
        ensures
            final(self).well_formed(),
            !final(self).epoch_is_open(),
            final(self).n_epochs_started() == old(self).n_epochs_started(),
            final(self).max_epochs() == old(self).max_epochs(),
            final(self).records_losses() == old(self).records_losses(),
            final(self).stopped() == (old(self).stopped() || report.cancelled || (match (
                old(self).monitor(),
                report.early_stopping_metric,
            ) {
                (Some(monitor), Some((value, distance))) => monitor.stops_at(value, distance),
                _ => false,
            })),
            match (old(self).monitor(), report.early_stopping_metric) {
                (Some(monitor), Some((value, distance))) => {
                    &&& final(self).monitor() is Some
                    &&& final(self).monitor()->0.threshold() == monitor.threshold()
                    &&& final(self).monitor()->0.epochs() == monitor.epochs()
                    &&& final(self).monitor()->0.previous() == Some(value)
                    &&& final(self).monitor()->0.stalled() == monitor.stalled_after(value, distance)
                },
                _ => final(self).monitor() == old(self).monitor(),
            },
    {
        let mut should_stop: bool = false;
        match report.early_stopping_metric {
            Some((value, distance)) => {
                match self.early_stopping_monitor {
                    Some(monitor) => {
                        let mut monitor: EarlyStoppingMonitor = monitor;
                        should_stop = monitor.update(value, distance);
                        self.early_stopping_monitor = Some(monitor);
                    },
                    None => {},
                }
            },
            None => {},
        }
        self.epoch_is_open = false;
        if should_stop || report.cancelled {
            self.stopped = true;
        }
    }
}

} // verus!
