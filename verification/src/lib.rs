//! Duplicate detection over a snapshot of a directory tree.
//!
//! The crate models a scanned directory as an immutable tree of typed nodes,
//! groups its regular files by content fingerprint and by normalized name, and
//! reports every group that holds more than one file.
//!
//! Nothing here touches the filesystem. The [`walker`] asks for one listing or
//! one probe at a time and builds the tree from the answers; the fingerprints
//! of the files come from outside as well. What is left is pure: the tree in
//! [`file_tree`], the names in [`path_name`], the two groupings in
//! [`file_tree::index`] and [`scan`], and the collisions in [`report`].
//! [`snapshot`] states what a walk of a given filesystem must yield, and shows
//! that the walker yields it.

pub mod file_tree;
pub mod path_name;
pub mod report;
pub mod scan;
pub mod snapshot;
pub mod walker;
