//! Content-addressed snapshots of directory trees, the changes between two
//! snapshots, and patch archives that carry one snapshot to another.

pub mod archive;
pub mod common;
pub mod diff;
pub mod digest;
pub mod edit;
pub mod frame;
pub mod hash;
pub mod listing;
pub mod manifest;
pub mod moves;
pub mod patch;
pub mod prelude;
pub mod replay;
pub mod store;
