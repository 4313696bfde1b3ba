//! Aggregate statistics over a filesystem subtree: total size, a breakdown by
//! file extension, and the largest files, together with the rendering of byte
//! counts in binary units.
//!
//! The library does no input or output. `walk` holds the traversal engine, a
//! state machine that its caller drives with what the filesystem answers;
//! `tree` runs it on directory trees held in memory and states what a walk
//! comes to. `fact` describes what is recorded per file, `aggregate` the
//! strategy by which facts are combined, and `total`, `extensions` and
//! `files` the three strategies. `ranking` orders by descending size,
//! `units` renders byte counts, and `report` lays out the lines of the
//! reports.

pub mod aggregate;
pub mod error;
pub mod extensions;
pub mod fact;
pub mod files;
pub mod ranking;
pub mod report;
pub mod total;
pub mod tree;
pub mod units;
pub mod walk;
