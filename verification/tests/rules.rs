use strategy_discovery::framework::traits::{GameRules, RulesError};
use strategy_discovery::games::tictactoe::{Board, Move, Outcome, Player, TicTacToeRules};

#[test]
fn turns_alternate_and_cells_update() {
    let rules = TicTacToeRules;
    let state = rules.initial_state();
    let state = rules.apply(&state, &Move(0)).unwrap();
    assert_eq!(rules.player_to_move(&state), Player::O);
    let state = rules.apply(&state, &Move(1)).unwrap();
    assert_eq!(rules.player_to_move(&state), Player::X);
    assert_eq!(state.cell(0), Some(Player::X));
    assert_eq!(state.cell(1), Some(Player::O));
}

#[test]
fn apply_rejects_out_of_range_action() {
    let rules = TicTacToeRules;
    let state = rules.initial_state();
    assert_eq!(
        rules.apply(&state, &Move(9)),
        Err(RulesError::IllegalAction("cell index 9 out of range 0..9".to_string()))
    );
}

#[test]
fn apply_rejects_occupied_cell() {
    let rules = TicTacToeRules;
    let state = rules.initial_state();
    let state = rules.apply(&state, &Move(4)).unwrap();
    assert_eq!(
        rules.apply(&state, &Move(4)),
        Err(RulesError::IllegalAction("cell 4 is occupied".to_string()))
    );
}

#[test]
fn apply_rejects_moves_on_a_draw_board() {
    let rules = TicTacToeRules;
    let board = Board::parse("XOXXOOOXX").unwrap();
    assert_eq!(rules.apply(&board, &Move(0)), Err(RulesError::GameOver));
}

#[test]
fn apply_rejects_moves_on_a_won_board() {
    let rules = TicTacToeRules;
    let board = Board::from_cells(
        [
            Some(Player::X),
            Some(Player::X),
            Some(Player::X),
            Some(Player::O),
            Some(Player::O),
            None,
            None,
            None,
            None,
        ],
        Player::O,
    );
    assert_eq!(rules.apply(&board, &Move(5)), Err(RulesError::GameOver));
}

#[test]
fn parse_rejects_wrong_length() {
    assert!(Board::parse("XOXO").is_err());
}

#[test]
fn parse_rejects_bad_char() {
    assert!(Board::parse("XOXOXOXO?").is_err());
}

#[test]
fn parse_rejects_more_o_than_x() {
    assert!(Board::parse("OOX......").is_err());
}

#[test]
fn parse_accepts_empty_board_with_x_to_move() {
    let board = Board::parse(".........").unwrap();
    assert_eq!(board.to_move(), Player::X);
}

#[test]
fn parse_derives_o_to_move_after_one_x() {
    let board = Board::parse("X........").unwrap();
    assert_eq!(board.to_move(), Player::O);
    assert_eq!(board.to_string(), "X..\n...\n...");
}

#[test]
fn every_line_is_a_win_for_either_player() {
    let rules = TicTacToeRules;
    for &line in strategy_discovery::games::tictactoe::LINES.iter() {
        for &winner in &[Player::X, Player::O] {
            let loser = winner.other();
            let mut cells = [None; 9];
            for &i in &line {
                cells[i] = Some(winner);
            }
            let non_line: Vec<usize> = (0..9).filter(|i| !line.contains(i)).take(2).collect();
            for &i in &non_line {
                cells[i] = Some(loser);
            }
            let board = Board::from_cells(cells, winner);
            assert_eq!(rules.outcome(&board), Some(Outcome::Win(winner)));
            assert!(rules.is_terminal(&board));
            assert!(rules.legal_actions(&board).is_empty());
        }
    }
}

#[test]
fn full_board_with_no_winner_is_a_draw() {
    let rules = TicTacToeRules;
    let board = Board::parse("XOXXOOOXX").unwrap();
    assert_eq!(rules.outcome(&board), Some(Outcome::Draw));
    assert!(rules.legal_actions(&board).is_empty());
}

#[test]
fn initial_state_is_nonterminal_with_nine_actions() {
    let rules = TicTacToeRules;
    let state = rules.initial_state();
    assert_eq!(rules.outcome(&state), None);
    assert_eq!(rules.legal_actions(&state).len(), 9);
    assert_eq!(rules.player_to_move(&state), Player::X);
}

#[test]
fn reachable_positions_count() {
    let rules = TicTacToeRules;
    assert_eq!(rules.reachable_positions().len(), 5478);
}

#[test]
fn parse_error_messages_name_the_problem() {
    assert_eq!(Board::parse("XOXO"), Err("expected 9 characters, got 4".to_string()));
    assert_eq!(
        Board::parse("XOXOXOXO?"),
        Err("invalid character '?' at position 8".to_string())
    );
    assert_eq!(Board::parse("OOX......"), Err("invalid cell counts: X=1, O=2".to_string()));
}

#[test]
fn reachable_positions_start_empty_and_are_distinct() {
    let rules = TicTacToeRules;
    let positions = rules.reachable_positions();
    assert_eq!(positions[0], Board::empty());
    let set: std::collections::HashSet<Board> = positions.iter().copied().collect();
    assert_eq!(set.len(), positions.len());
    let terminal = positions.iter().filter(|b| rules.is_terminal(b)).count();
    assert_eq!(terminal, 958);
}
