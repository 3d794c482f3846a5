//! Game-agnostic framework: text rendering helpers, symmetry permutations and the rules contract.

pub mod features;
pub mod symmetry;
pub mod text;
pub mod traits;
