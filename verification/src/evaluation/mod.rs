//! Holding an inferred tree against the tree that is known to be true:
//! snapshots that do not differ are made siblings, and every snapshot's
//! ancestors in the one tree are compared with those in the other.

pub mod ancestors;
pub mod clusters;
