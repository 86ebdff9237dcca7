//! Finds files with byte-identical content under a directory tree.
//!
//! - `hasher`: a streaming SHA-1 content digest.
//! - `registry`: the map from digest to the first path seen with it, with a
//!   first-writer-wins check-or-insert.
//! - `scan`: the walk controller (what to descend into, what to hash, which
//!   links to skip) and the end of each hashing task.

pub mod hasher;
pub mod registry;
pub mod scan;
