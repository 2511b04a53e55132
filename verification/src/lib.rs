//! Verified core of a parallel recursive directory copier.
//!
//! The pipeline has three verified stages: scanning a source tree into a flat
//! manifest of copy tasks while listing the destination directories to create,
//! partitioning the manifest into byte-balanced work buckets for a fixed
//! number of workers, and accounting for per-task completion events to drive
//! a live progress percentage. All file-system and terminal I/O lives outside
//! this crate; the logic here works on plain values and is proved against the
//! contracts below.

pub mod progress;
pub mod scan;
pub mod types;
pub mod util;
pub mod worker;
