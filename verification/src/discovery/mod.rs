//! The discovery pipeline's logic: sweep configuration and cell enumeration, game expansion
//! into corpus records, corpus loading, verification and summary counts, annotation by the
//! exhaustive solver, experiment validation, and the deterministic CART classifier used to mine
//! heuristics.

pub mod agreement;
pub mod analyze;
pub mod archive;
pub mod annotate;
pub mod bundle;
pub mod config;
pub mod dataset;
pub mod corpus;
pub mod discover;
pub mod evaluate;
pub mod experiment;
pub mod induction;
pub mod match_engine;
pub mod mine;
pub mod report;
pub mod solver;
pub mod stages;
pub mod summary;
pub mod tournament;
pub mod tree;
