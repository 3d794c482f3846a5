use strategy_discovery::discovery::annotate::{
    annotate_states, counts, AnnotateOptions, DEFAULT_SOLVER_LIMIT,
};
use strategy_discovery::discovery::solver::{reachable_states, ExhaustiveSolver, SolverError};
use strategy_discovery::framework::traits::GameRules;
use strategy_discovery::games::tictactoe::{game_bundle, Board, Move, Player, TicTacToe, TicTacToeRules};
use strategy_discovery::io::schema::SCHEMA_VERSION;

fn solver(limit: usize) -> ExhaustiveSolver<TicTacToe, TicTacToeRules> {
    ExhaustiveSolver::new(TicTacToeRules, limit)
}

fn label(to_move: Player, value: i8) -> &'static str {
    match (to_move, value) {
        (Player::X, 1) | (Player::O, -1) => "X wins",
        (Player::O, 1) | (Player::X, -1) => "O wins",
        _ => "draw",
    }
}

#[test]
fn solver_facts_on_fixture_boards() {
    let mut es = solver(ExhaustiveSolver::<TicTacToe, TicTacToeRules>::DEFAULT_LIMIT);

    let empty = Board::empty();
    let solved = es.solve(&empty).unwrap();
    assert_eq!(solved.value, 0);
    assert_eq!(solved.optimal, (0..9).map(Move).collect::<Vec<_>>());

    let solved = es.solve(&Board::parse("XX.OO....").unwrap()).unwrap();
    assert_eq!(solved.value, 1);
    assert_eq!(solved.optimal, vec![Move(2)]);

    let solved = es.solve(&Board::parse("XX.O.....").unwrap()).unwrap();
    assert_eq!(solved.value, -1);
    assert_eq!(solved.optimal, vec![Move(2), Move(4), Move(5), Move(6), Move(7), Move(8)]);

    let solved = es.solve(&Board::parse("X...O...X").unwrap()).unwrap();
    assert_eq!(solved.value, 0);
    assert_eq!(solved.optimal, vec![Move(1), Move(3), Move(5), Move(7)]);

    let solved = es.solve(&Board::parse("XXXOO....").unwrap()).unwrap();
    assert_eq!(solved.value, -1);
    assert_eq!(solved.optimal, Vec::<Move>::new());

    let solved = es.solve(&Board::parse("XOXXOOOXX").unwrap()).unwrap();
    assert_eq!(solved.value, 0);
    assert_eq!(solved.optimal, Vec::<Move>::new());
}

#[test]
fn solving_from_empty_memoizes_all_reachable_states_with_known_label_distribution() {
    let mut es = solver(ExhaustiveSolver::<TicTacToe, TicTacToeRules>::DEFAULT_LIMIT);
    es.solve(&Board::empty()).unwrap();
    assert_eq!(es.solved_states(), 5478);

    let rules = TicTacToeRules;
    let reachable = reachable_states(&rules, ExhaustiveSolver::<TicTacToe, TicTacToeRules>::DEFAULT_LIMIT).unwrap();

    let (mut all_x, mut all_draw, mut all_o) = (0, 0, 0);
    let (mut nt_x, mut nt_draw, mut nt_o) = (0, 0, 0);
    for state in &reachable {
        let solved = es.solve(state).unwrap();
        let lbl = label(state.to_move(), solved.value);
        let is_terminal = rules.is_terminal(state);
        match lbl {
            "X wins" => {
                all_x += 1;
                if !is_terminal {
                    nt_x += 1;
                }
            }
            "draw" => {
                all_draw += 1;
                if !is_terminal {
                    nt_draw += 1;
                }
            }
            "O wins" => {
                all_o += 1;
                if !is_terminal {
                    nt_o += 1;
                }
            }
            other => unreachable!("unexpected label {other}"),
        }
    }

    assert_eq!((all_x, all_draw, all_o), (2936, 1068, 1474));
    assert_eq!((nt_x, nt_draw, nt_o), (2310, 1052, 1158));
    assert_eq!(es.solved_states(), 5478);
}

#[test]
fn reachable_states_matches_tictactoe_reachable_positions() {
    let rules = TicTacToeRules;
    let via_solver = reachable_states(&rules, 1_000_000).unwrap();
    let via_rules = rules.reachable_positions();
    assert_eq!(via_solver, via_rules);
    assert_eq!(via_solver.len(), 5478);
    let terminal_count = via_solver.iter().filter(|state| rules.is_terminal(state)).count();
    assert_eq!(terminal_count, 958);
}

#[test]
fn too_large_is_an_error() {
    let mut es = solver(10);
    assert_eq!(es.solve(&Board::empty()), Err(SolverError::TooLarge { limit: 10 }));

    let rules = TicTacToeRules;
    assert_eq!(reachable_states(&rules, 10), Err(SolverError::TooLarge { limit: 10 }));

    let mut es_full = solver(5478);
    assert!(es_full.solve(&Board::empty()).is_ok());
    assert_eq!(es_full.solved_states(), 5478);

    let full = reachable_states(&rules, 5478).unwrap();
    assert_eq!(full.len(), 5478);

    assert_eq!(reachable_states(&rules, 5477), Err(SolverError::TooLarge { limit: 5477 }));
}

#[test]
fn too_large_message_flags_the_accelerant() {
    let message = SolverError::TooLarge { limit: 7 }.to_string();
    assert!(message.contains("limit of 7 states"));
    assert!(message.contains("small-game accelerant"));
}

#[test]
fn too_large_message_is_exact() {
    assert_eq!(
        SolverError::TooLarge { limit: 3 }.to_string(),
        "state space exceeds the exhaustive-solver limit of 3 states; exhaustive modes are a small-game accelerant — larger games must sample"
    );
}

#[test]
fn solver_limit_is_kept() {
    assert_eq!(solver(42).limit(), 42);
    assert_eq!(solver(42).solved_states(), 0);
}

#[test]
fn default_solver_limit_matches_the_solver() {
    assert_eq!(DEFAULT_SOLVER_LIMIT, ExhaustiveSolver::<TicTacToe, TicTacToeRules>::DEFAULT_LIMIT);
}

#[test]
fn annotate_states_labels_known_boards() {
    let bundle = game_bundle();
    let mut solver = ExhaustiveSolver::new(TicTacToeRules, DEFAULT_SOLVER_LIMIT);
    let states = vec![
        Board::empty(),
        Board::parse("XX.OO....").unwrap(),
        Board::parse("XXXOO....").unwrap(),
    ];
    // The search engine's choices: centre on the empty board, the winning cell, none at the end.
    let engine = vec![Some(Move(4)), Some(Move(2)), None];

    let records = annotate_states(&bundle, &states, &engine, &mut solver).unwrap();
    assert_eq!(records.len(), 3);

    assert_eq!(records[0].value, 0);
    assert_eq!(records[0].optimal_actions.len(), 9);
    assert!(!records[0].terminal);
    assert_eq!(records[0].engine_agrees, Some(true));

    assert_eq!(records[1].value, 1);
    assert_eq!(records[1].optimal_actions, vec![Move(2)]);
    assert_eq!(records[1].engine_agrees, Some(true));

    assert!(records[2].terminal);
    assert!(records[2].optimal_actions.is_empty());
    assert_eq!(records[2].engine_action, None);
    assert_eq!(records[2].engine_agrees, None);

    for record in &records {
        assert_eq!(record.schema_version, SCHEMA_VERSION);
    }
    assert_eq!(counts(&records), (1, 0));
}

#[test]
fn annotate_states_reports_disagreement_and_canonical_state() {
    let bundle = game_bundle();
    let mut solver = ExhaustiveSolver::new(TicTacToeRules, DEFAULT_SOLVER_LIMIT);
    let states = vec![Board::parse("XX.OO....").unwrap()];
    let engine = vec![Some(Move(8))];
    let records = annotate_states(&bundle, &states, &engine, &mut solver).unwrap();
    assert_eq!(records[0].engine_agrees, Some(false));
    assert_eq!(records[0].side_to_move, Player::X);
    assert_eq!(records[0].canonical_state, bundle.canonicalize(&states[0]).0);
    assert_eq!(counts(&records), (0, 1));
}

#[test]
fn annotate_states_fails_when_the_solver_limit_is_too_small() {
    let bundle = game_bundle();
    let mut solver = ExhaustiveSolver::new(TicTacToeRules, 10);
    let states = vec![Board::parse("XXXOO....").unwrap(), Board::empty()];
    let engine = vec![None, Some(Move(4))];
    assert_eq!(
        annotate_states(&bundle, &states, &engine, &mut solver),
        Err(SolverError::TooLarge { limit: 10 })
    );
}

#[test]
fn annotate_options_default_to_the_bundle_depth() {
    let options = AnnotateOptions::default();
    assert_eq!(options.solver_limit, DEFAULT_SOLVER_LIMIT);
    assert_eq!(options.engine_depth_or(9), 9);
    let explicit = AnnotateOptions { engine_depth: Some(3), solver_limit: 5 };
    assert_eq!(explicit.engine_depth_or(9), 3);
}

#[test]
fn reachable_positions_come_in_breadth_first_order() {
    let rules = TicTacToeRules;
    let v = rules.reachable_positions();
    let occupied: Vec<usize> = v.iter().map(|b| (0..9).filter(|&i| b.cell(i).is_some()).count()).collect();
    assert_eq!(occupied[0], 0);
    assert!(occupied.windows(2).all(|w| w[0] <= w[1]));
}
