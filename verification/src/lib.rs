//! Disk usage, duplicate detection and scan history, with proved behaviour.
//!
//! The library decides and computes; reading and changing the filesystem is left to its
//! caller. What was read comes in as plain values ([`walk::WalkEntry`], [`dupes::Probe`],
//! [`remove::RemoveEntry`]), and what is to be done goes out as plain values
//! ([`reclaim::Step`], [`remove::RemovePlan`]).
pub mod cache;
pub mod calendar;
pub mod decimal;
pub mod diff_laws;
pub mod dupe_laws;
pub mod dupes;
pub mod glob;
pub mod hash;
pub mod history;
pub mod index;
pub mod laws;
pub mod model;
pub mod number_laws;
pub mod order_laws;
pub mod path;
pub mod progress;
pub mod raw;
pub mod reclaim;
pub mod reclaim_laws;
pub mod record_laws;
pub mod remove;
pub mod remove_laws;
pub mod report;
pub mod scan;
pub mod scan_laws;
pub mod shown;
pub mod size;
pub mod snapshot;
pub mod sort;
pub mod spelling_laws;
pub mod stages;
pub mod store;
pub mod text;
pub mod text_laws;
pub mod timestamps;
pub mod trail;
pub mod tree;
pub mod tree_laws;
pub mod walk;

pub use crate::calendar::format_timestamp;
pub use crate::dupes::{find_duplicates, find_duplicates_with_progress, DupGroup};
pub use crate::glob::{validate_globs, Options};
pub use crate::path::{FilePath, PathPart};
pub use crate::progress::Progress;
pub use crate::reclaim::{reclaim, ReclaimAction, ReclaimReport};
pub use crate::remove::{remove_path, RemoveMode, RemoveReport};
pub use crate::report::{DirSize, FileEntry, ScanReport};
pub use crate::scan::{disk_space, scan, scan_with_progress};
pub use crate::shown::PathStyle;
pub use crate::size::human_size;
pub use crate::snapshot::{
    diff, DiffReport, DirDelta, Snapshot, SnapshotError, SNAPSHOT_FORMAT,
};
pub use crate::tree::ScanTree;
pub use crate::walk::walk_files;
