//! Core engines of an operator-facing resource inspection tool.
//!
//! Two independent engines share nothing but the shape of their output, a
//! ranked list of records with a numeric score:
//!
//! - the bounded top-K directory size scanner ([`scanner`]), which walks a
//!   directory tree held as plain data, computes cumulative sizes under a
//!   depth limit and an exclusion policy, and retains only the largest
//!   directories seen, in bounded space;
//! - the process stats aggregator ([`stats`]), which merges the rows of an
//!   OS process table by executable name and exposes top-N views by CPU or
//!   memory.
//!
//! Presentation, argument parsing and the calls that sample the live system
//! are left to the surrounding program; the engines here take and return
//! plain values and are verified.

pub mod args;
pub mod ranked;
pub mod scanner;
pub mod stats;
pub mod topk;

pub use args::{Args, TriBool};
pub use scanner::{DirectoryEntry, DirectoryScanner, FsNode, ScanError};
pub use stats::{Metric, ProcRow, ProcessCollector, ProcessStats};
