//! Concrete game domains.

pub mod tictactoe;
