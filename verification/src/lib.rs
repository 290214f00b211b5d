//! Dry-run sandbox core: model a directory tree as a set of relative paths
//! with byte contents, collect that model from a nested directory, compute
//! the changes between two trees, replay a change list onto a tree, select
//! leftover sandbox directories for cleanup, and decide the control flow of
//! one invocation.

pub mod apply;
pub mod clean;
pub mod control;
pub mod diff;
pub mod tree;
pub mod walk;
