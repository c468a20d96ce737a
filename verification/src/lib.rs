//! Planning core of a one-way directory mirror.
//!
//! The crate decides, level by level, what has to happen to a backup tree so
//! that it follows a source tree: which files to copy, delete or refresh,
//! which directories to create or delete, and which pairs of directories to
//! visit next. It never touches a filesystem itself; callers scan directories,
//! hand the results in as plain values, and carry out the actions they get
//! back.
//!
//! - [`scan`], [`exclusion`], [`differ`], [`files`] and [`dirs`] are the
//!   steps of one level, and [`backup`] puts them together.
//! - [`orchestrator`] keeps the queue of levels and the failures of a run.
//! - [`config`] reads the inputs of a run out of settings.
//! - [`model`] says what the planned actions do to a tree, [`effects`]
//!   proves it level by level, [`laws`] states what follows for whole runs,
//!   and [`traversal`] shows that the orchestrator's queue makes such a
//!   run.

pub mod backup;
pub mod config;
pub mod differ;
pub mod dirs;
pub mod effects;
pub mod entry;
pub mod exclusion;
pub mod files;
pub mod laws;
pub mod model;
pub mod orchestrator;
pub mod report;
pub mod scan;
pub mod traversal;

pub use backup::{create_backup, LevelPlan};
pub use config::{configure, parse_filter_dirs, Config, ConfigError};
pub use differ::{diff_names, NameDiff};
pub use dirs::{clear_inconsistencies_dirs, DirAction, DirPlan};
pub use entry::{child_path, Entry, Timestamp};
pub use exclusion::filter_files;
pub use files::{clear_inconsistencies_files, FileAction};
pub use orchestrator::Orchestrator;
pub use report::{Failure, Operation};
pub use scan::{fetch_files, DirItems, Scanned};
