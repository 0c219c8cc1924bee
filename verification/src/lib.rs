//! Per-path disk usage of a directory tree, with every file object counted once.
//!
//! A traversal starts at a root directory, lists one directory after the
//! other, counts every file whose identity it has not seen, and credits what
//! a directory gained to that directory and to every directory above it up to
//! the root. Reading the filesystem is left to the caller: [`walk::process_dir`]
//! is handed a lister, and a [`walker::Walker`] is handed the listings one by
//! one, by as many workers as the caller likes.
//!
//! What holds of every traversal is proved in [`dedup`], [`aggregation`], [`beneath`],
//! [`order`], [`totals`], [`schedule`] and [`reach`].

pub mod aggregation;
pub mod beneath;
pub mod dedup;
pub mod file_size;
pub mod history;
pub mod order;
pub mod paths;
pub mod process_directory;
pub mod reach;
pub mod records;
pub mod report;
pub mod schedule;
pub mod tally;
pub mod totals;
pub mod types;
pub mod utils;
pub mod walk;
pub mod walker;
