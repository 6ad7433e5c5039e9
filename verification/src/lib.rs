//! Verified core of a batch file-copy tool.
//!
//! The library holds the pure pipeline logic: rendering byte counts as
//! human-readable sizes, normalizing and matching file extensions,
//! planning destination paths (preserve or flatten mode), and deciding,
//! task by task, whether a copy is performed or skipped because the
//! destination already exists.  All filesystem access lives outside.

pub mod ext;
pub mod human;
pub mod paths;
pub mod plan;
pub mod run;
