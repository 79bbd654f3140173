//! Data and algorithms over commits, diffs and the staging area.

pub mod commit;
pub mod diff;
pub mod diff_laws;
pub mod graph;
pub mod graph_columns;
pub mod graph_laws;
pub mod graph_sources;
pub mod patch_laws;
pub mod repository;
pub mod staging;
pub mod stash;
