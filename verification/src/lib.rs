//! The verified core of `benchit`, a minimal benchmarking harness: no
//! configuration, and a comparison you can trust.
//!
//! Everything the harness decides stands here, over whole nanoseconds and
//! texts: what the command line means ([`cli`]), which cases of a group run and
//! in which order ([`group`], [`runner`]), how large a batch is ([`bencher`]),
//! which batch comes next ([`measurement`]), what the samples say ([`stats`]),
//! how a report is laid out ([`report`]), and what a saved baseline holds
//! ([`baseline`]). The clock, the files, the benchmark bodies and the
//! floating-point rendering of numbers belong to the program around it.
//!
//! # The comparison is the product
//!
//! A group's cases are run in interleaved rounds: one sample of each, then the
//! next round. Round `i` yields `A_i` and `B_i` measured milliseconds apart,
//! under the same thermal state and the same background load. Drift cancels
//! inside every pair, and the interquartile range of the per-round ratios is an
//! honest noise band, measured rather than resampled.

pub mod baseline;
pub mod bench;
pub mod bencher;
pub mod cli;
pub mod group;
pub mod measurement;
pub mod number;
pub mod report;
pub mod runner;
pub mod stats;
pub mod text;

pub use baseline::{Baseline, BaselineError, BuildDir, Row};
pub use bench::{reporter_for, Bench, Reporter};
pub use bencher::{Batch, Bencher, Calibrated, Calibration};
pub use cli::{ArgError, Config, Format, USAGE};
pub use group::{Case, Group, Throughput};
pub use measurement::{Measurement, Phase, Wanted};
pub use report::{
    CaseNumbers, CaseResult, GroupResult, Rate, SavedStats, TextReporter, TsvReporter,
};
pub use runner::{Plan, Schedule, Selection};
pub use stats::{Fraction, Pair, Quantile, Ratio, Stats};
