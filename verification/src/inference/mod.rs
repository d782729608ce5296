//! The stages of the inference: diffing, scoring, the spanning arborescence
//! and the tree.

pub mod assembly;
pub mod diffing;
pub mod driver;
pub mod edmonds;
pub mod engine;
pub mod parents;
pub mod spanning;
