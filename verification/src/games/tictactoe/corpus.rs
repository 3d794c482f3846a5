//! The tic-tac-toe game bundle: rules, turn order `[X, O]`, the `default` and `zero` evaluators, the
//! symmetry canonicalizer and primitives, the benchmark roster as both default strategies and
//! roster, exhaustive depth 9 and 765 known canonical positions.

use vstd::prelude::*;
use vstd::string::*;
use super::board::{Player, TicTacToe};
use super::canonical::{board_group, TicTacToeCanonicalizer};
use super::primitives::TicTacToePrimitives;
use super::rules::TicTacToeRules;
use crate::discovery::bundle::GameBundle;
use crate::discovery::config::entry_names;
use super::roster::{benchmark_roster, is_benchmark_roster};

verus! {

/// The tic-tac-toe bundle type.
pub type TicTacToeBundle = GameBundle<TicTacToe, TicTacToeRules, TicTacToeCanonicalizer, TicTacToePrimitives>;

/// Builds the tic-tac-toe game bundle.
pub fn game_bundle() -> (b: TicTacToeBundle)
    ensures
        b.name@ == "tictactoe"@,
        b.players@ == seq![Player::X, Player::O],
        b.default_evaluator@ == "default"@,
        b.evaluators@.len() == 2,
        b.evaluators@[0]@ == "default"@,
        b.evaluators@[1]@ == "zero"@,
        b.canonicalizer matches Some(c) && board_group(c.spec_elements()),
        b.primitives is Some,
        entry_names(b.default_strategies@) == entry_names(b.roster.entries@),
        b.default_strategies@.len() == b.roster.entries@.len(),
        forall|i: int| 0 <= i < b.roster.entries@.len() ==> b.default_strategies@[i].spec == b.roster.entries@[i].spec,
        is_benchmark_roster(b.roster),
        b.full_search_depth == 9,
        b.known_canonical_positions == Some(765usize),
{
    let roster = benchmark_roster();
    let default_strategies = benchmark_roster().entries;
    proof {
        assert forall|i: int| 0 <= i < roster.entries@.len() implies default_strategies@[i].spec
            == roster.entries@[i].spec by {
            assert(0 <= i < 7);
        }
    }
    GameBundle {
        name: String::from_str("tictactoe"),
        rules: TicTacToeRules,
        players: vec![Player::X, Player::O],
        evaluators: vec![String::from_str("default"), String::from_str("zero")],
        default_evaluator: String::from_str("default"),
        canonicalizer: Some(TicTacToeCanonicalizer::new()),
        primitives: Some(TicTacToePrimitives),
        default_strategies,
        roster,
        full_search_depth: 9,
        known_canonical_positions: Some(765),
    }
}

} // verus!
