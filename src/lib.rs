//! Turns profiler reports into per-region time series and tables.
use vstd::prelude::*;

pub mod assoc;
pub mod config;
pub mod cpu;
pub mod grammar;

pub mod laws;
pub mod log;
pub mod report;
pub mod series;
pub mod table;
pub mod text;

pub use config::{load_config, sweep_runs, relativize_output, relativize_targets, Config, RegionConfig, TableConfig, TestConfig};
pub use cpu::CpuFreq;
pub use log::Log;
pub use report::{likwid_extract, likwid_extract_reporting, perfctr_args, LineIssue, Metric, RegionMetrics};
pub use series::{update_regset, MetricSet, RegionSet};
pub use table::{create_table, create_table_reporting, plot_columns, write_csv, Table, TableColumn};

verus! {

} // verus!
