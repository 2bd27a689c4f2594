//! Sample series streaming, filtering and statistical reduction for plotting.
//!
//! Samples expose numeric fields (32-bit integers) and text fields by key.
//! Series of samples are read from files or memory, seen through filter
//! sets, projected to labelled `(x, y)` points whose bounding box is tracked,
//! and reduced per legend: outliers removed, points of one x aggregated by a
//! metric, and the result thinned on a grid for drawing. Metric values are
//! exact fractions.

pub mod sample;
pub mod filtering;
pub mod source;
pub mod memory_serie;
pub mod file_serie;
pub mod filtered_serie;
pub mod plottable;
pub mod stats;
pub mod stats_by_value;
pub mod outliers;
pub mod plot_data;
pub mod layout;
pub mod grouping;
pub mod seq_facts;
