//! Planning and bookkeeping for converting a tree of media files in bulk.
//!
//! The library decides; its caller touches the disk and runs the transcoder.
//! It rewrites each input path into its output path, says for each task
//! whether the transcoder has to run, counts completed tasks and folds the
//! listings of a directory walk into the list of files found.

pub mod batch;
pub mod path;
pub mod progress;
pub mod report;
pub mod stage;
pub mod task;
pub mod text;
pub mod tree;
pub mod walk;
