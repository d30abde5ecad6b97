//! Finds build-artifact directories named "target" under a root, lets the
//! user pick a subset through list-based selectors, and confirms before the
//! chosen directories are removed.
//!
//! The library holds the verified core: the scan over a directory tree, the
//! selector state machines, and the confirmation check. Reading the real
//! filesystem and driving the terminal belong to the surrounding binary.

pub mod confirm;
pub mod scan;
pub mod select;
