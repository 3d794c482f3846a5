//! Automated strategy discovery for board games: game rules and their structural primitives,
//! exhaustive solving, canonicalization under symmetry, corpus records and their verification,
//! corpus summaries, sweep and experiment configuration, decision-tree mining, content hashes and
//! seed derivation.

pub mod framework;
pub mod discovery;
pub mod games;
pub mod io;
