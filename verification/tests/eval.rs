use strategy_discovery::framework::traits::GameRules;
use strategy_discovery::games::tictactoe::eval::{TicTacToeEvaluator, WIN_SCORE};
use strategy_discovery::games::tictactoe::{Board, Player, TicTacToeRules};

#[test]
fn empty_board_evaluates_to_zero() {
    let eval = TicTacToeEvaluator;
    let board = Board::empty();
    assert_eq!(eval.evaluate(&board, Player::X) as f32, 0.0);
    assert_eq!(eval.evaluate(&board, Player::O) as f32, 0.0);
}

#[test]
fn fixture_values() {
    let eval = TicTacToeEvaluator;

    let board = Board::parse("X........").unwrap();
    assert_eq!(eval.evaluate(&board, Player::X) as f32, 3.0);
    assert_eq!(eval.evaluate(&board, Player::O) as f32, -3.0);

    let board = Board::parse("X...O....").unwrap();
    assert_eq!(eval.evaluate(&board, Player::X) as f32, -1.0);
    assert_eq!(eval.evaluate(&board, Player::O) as f32, 1.0);
}

#[test]
fn terminal_values() {
    let eval = TicTacToeEvaluator;

    let board = Board::parse("XXXOO....").unwrap();
    assert_eq!(eval.evaluate(&board, Player::X) as f32, 100.0);
    assert_eq!(eval.evaluate(&board, Player::O) as f32, -100.0);

    let board = Board::parse("XX.OOO.X.").unwrap();
    assert_eq!(eval.evaluate(&board, Player::X) as f32, -100.0);
    assert_eq!(eval.evaluate(&board, Player::O) as f32, 100.0);

    let board = Board::parse("XOXXOOOXX").unwrap();
    assert_eq!(eval.evaluate(&board, Player::X) as f32, 0.0);
    assert_eq!(eval.evaluate(&board, Player::O) as f32, 0.0);
    assert_eq!(WIN_SCORE, 100);
}

#[test]
fn range_is_within_eight_on_all_nonterminal_positions() {
    let eval = TicTacToeEvaluator;
    let rules = TicTacToeRules;
    let positions = rules.reachable_positions();
    assert_eq!(positions.len(), 5478);

    for b in positions.iter().filter(|b| !rules.is_terminal(b)) {
        for p in [Player::X, Player::O] {
            let v = eval.evaluate(b, p) as f32;
            assert!((-8.0..=8.0).contains(&v), "value {v} out of range for {b:?}");
            assert_eq!(v, v.trunc(), "value {v} not integral for {b:?}");
        }
    }
}

#[test]
fn perspectives_are_antisymmetric_on_all_nonterminal_positions() {
    let eval = TicTacToeEvaluator;
    let rules = TicTacToeRules;
    let positions = rules.reachable_positions();

    for b in positions.iter().filter(|b| !rules.is_terminal(b)) {
        assert_eq!(eval.evaluate(b, Player::X), -eval.evaluate(b, Player::O));
    }
}

#[test]
fn lines_without_counts_free_lines() {
    let board = Board::parse("X...O....").unwrap();
    assert_eq!(TicTacToeEvaluator::lines_without(&board, Player::X), 5);
    assert_eq!(TicTacToeEvaluator::lines_without(&board, Player::O), 4);
    assert_eq!(TicTacToeEvaluator::lines_without(&Board::empty(), Player::X), 8);
}
