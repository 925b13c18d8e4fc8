//! Positional diffing of labeled, ordered trees, and the projection that
//! replays a set of patches against the tree they were computed for.
//!
//! [`diff`] walks two trees in lockstep and records, under the pre-order
//! position of each vertex of the first, what has to change to arrive at the
//! second. [`patch`] walks the first tree with the same counting rule and
//! writes out the tree that the patches describe, one indented line for each
//! vertex, marking what is new.

pub mod diff;
pub mod laws;
pub mod model;
pub mod patch;
pub mod tree;

pub use diff::diff;
pub use patch::patch;
pub use tree::{key, Node, Patch};
