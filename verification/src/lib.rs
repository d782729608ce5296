//! Inference of a plausible version-history tree from unordered snapshots of a
//! codebase: pairwise line diffs, directed divergence scores, a spanning
//! arborescence over the scores, and the tree assembled from it.

pub mod equality;
pub mod evaluation;
pub mod files;
pub mod git_generation;
pub mod inference;
pub mod rendering;
pub mod seqs;
pub mod testing;
pub mod text;
pub mod tree;
pub mod types;
pub mod utils;
