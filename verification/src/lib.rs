//! A tabular machine-learning engine: feature binning, decision-tree
//! inference, the decisions of linear training, and evaluation metrics,
//! stated over exact integer models.

pub mod distance;
pub mod finite;
pub mod finite_order;
pub mod id;
pub mod kill_chip;
pub mod license;
pub mod linear;
pub mod metrics;
pub mod number_formatter;
pub mod progress_counter;
pub mod sorting;
pub mod strings;
pub mod text;
pub mod tree;
pub mod wheel_writer;
pub mod zip;
