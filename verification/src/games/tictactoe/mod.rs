//! Tic-tac-toe domain: board, rules, primitives, features, canonicalization and evaluation.

pub mod board;
pub mod canonical;
pub mod corpus;
pub mod engine;
pub mod eval;
pub mod features;
pub mod primitives;
pub mod roster;
pub mod rules;

pub use board::{Board, Move, Outcome, Player, TicTacToe, LINES};
pub use canonical::TicTacToeCanonicalizer;
pub use corpus::game_bundle;
pub use rules::TicTacToeRules;
