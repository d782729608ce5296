//! Names for the versions of a tree of forks, against which an inferred tree
//! can be held.

pub mod cloning;
pub mod fork_points;
pub mod forks;
