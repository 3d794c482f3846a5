use std::collections::HashSet;
use strategy_discovery::framework::symmetry::Permutation;
use strategy_discovery::framework::traits::{Canonicalize, GameRules};
use strategy_discovery::games::tictactoe::canonical::encode;
use strategy_discovery::games::tictactoe::primitives::{rot90, TicTacToePrimitives};
use strategy_discovery::games::tictactoe::{Board, Outcome, Player, TicTacToeCanonicalizer, TicTacToeRules};

#[test]
fn encode_empty_board_is_zero() {
    assert_eq!(encode(&Board::empty()), 0);
}

#[test]
fn encode_last_cell_x_is_one() {
    assert_eq!(encode(&Board::parse("........X").unwrap()), 1);
}

#[test]
fn encode_first_cell_x_is_3_pow_8() {
    assert_eq!(encode(&Board::parse("X........").unwrap()), 6561);
}

#[test]
fn encode_first_cell_o_is_2_times_3_pow_8() {
    let mut cells = [None; 9];
    cells[0] = Some(Player::O);
    let board = Board::from_cells(cells, Player::X);
    assert_eq!(encode(&board), 13122);
}

#[test]
fn encode_of_a_full_board() {
    // X O X / X O O / O X X: digits 1 2 1 1 2 2 2 1 1.
    let board = Board::parse("XOXXOOOXX").unwrap();
    assert_eq!(encode(&board), 12145);
}

#[test]
fn canonical_form_count() {
    let rules = TicTacToeRules;
    let canon = TicTacToeCanonicalizer::new();
    let reachable = rules.reachable_positions();
    assert_eq!(reachable.len(), 5478);
    let canonical_forms: HashSet<Board> = reachable.iter().map(|s| canon.canonicalize(s)).collect();
    assert_eq!(canonical_forms.len(), 765);
}

#[test]
fn canonicalize_is_idempotent_over_all_reachable_positions() {
    let rules = TicTacToeRules;
    let canon = TicTacToeCanonicalizer::new();
    for s in rules.reachable_positions() {
        let canonical = canon.canonicalize(&s);
        let (twice, perm) = canon.canonicalize_with_transform(&canonical);
        assert_eq!(twice, canonical);
        assert!(perm.is_identity());
    }
}

#[test]
fn transform_by_returned_permutation_reproduces_canonical_form() {
    let rules = TicTacToeRules;
    let canon = TicTacToeCanonicalizer::new();
    let primitives = TicTacToePrimitives;
    for s in rules.reachable_positions() {
        let (canonical, perm) = canon.canonicalize_with_transform(&s);
        assert_eq!(primitives.transform(&s, &perm), canonical);
    }
}

#[test]
fn canonicalize_preserves_outcome_and_player_to_move_over_all_reachable_positions() {
    let rules = TicTacToeRules;
    let canon = TicTacToeCanonicalizer::new();
    for s in rules.reachable_positions() {
        let canonical = canon.canonicalize(&s);
        assert_eq!(rules.outcome(&canonical), rules.outcome(&s));
        assert_eq!(rules.player_to_move(&canonical), rules.player_to_move(&s));
    }
}

#[test]
fn orbit_of_a_single_corner_mark_is_a_single_canonical_form() {
    let canon = TicTacToeCanonicalizer::new();
    let corners = [
        Board::parse("X........").unwrap(),
        Board::parse("..X......").unwrap(),
        Board::parse("......X..").unwrap(),
        Board::parse("........X").unwrap(),
    ];
    let canonical_forms: Vec<Board> = corners.iter().map(|b| canon.canonicalize(b)).collect();
    for w in canonical_forms.windows(2) {
        assert_eq!(w[0], w[1]);
    }
    let edge = Board::parse(".X.......").unwrap();
    assert_ne!(canonical_forms[0], canon.canonicalize(&edge));
}

#[test]
fn canonicalize_of_empty_board_is_itself_with_identity() {
    let canon = TicTacToeCanonicalizer::new();
    let (canonical, perm) = canon.canonicalize_with_transform(&Board::empty());
    assert_eq!(canonical, Board::empty());
    assert!(perm.is_identity());
}

#[test]
fn canonical_form_of_a_corner_mark_has_the_lowest_code() {
    let canon = TicTacToeCanonicalizer::new();
    let (canonical, perm) = canon.canonicalize_with_transform(&Board::parse("X........").unwrap());
    assert_eq!(canonical, Board::parse("........X").unwrap());
    assert_eq!(encode(&canonical), 1);
    assert!(!perm.is_identity());
    assert!(!perm.same_as(&Permutation::identity(9)));
}

#[test]
fn canonical_form_of_both_players_holding_a_line_may_change_the_winner() {
    let rules = TicTacToeRules;
    let canon = TicTacToeCanonicalizer::new();
    let s = Board::parse("XXXOOO...").unwrap();
    assert_eq!(rules.outcome(&s), Some(Outcome::Win(Player::X)));
    let canonical = canon.canonicalize(&s);
    assert_eq!(canonical, Board::parse("...OOOXXX").unwrap());
    assert_eq!(rules.outcome(&canonical), Some(Outcome::Win(Player::O)));
}

#[test]
fn a_rotated_board_has_the_same_canonical_form() {
    let canon = TicTacToeCanonicalizer::new();
    let primitives = TicTacToePrimitives;
    let s = Board::parse("XO..X.O..").unwrap();
    let rotated = primitives.transform(&s, &rot90());
    assert_eq!(canon.canonicalize(&s), canon.canonicalize(&rotated));
}
