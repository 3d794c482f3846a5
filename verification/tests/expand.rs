use strategy_discovery::discovery::config::{resolve, Cell, CorpusError, GenerateConfig, NamedOpening, Pairing, RosterEntry};
use strategy_discovery::discovery::corpus::expand_game;
use strategy_discovery::discovery::summary::verify_corpus;
use strategy_discovery::framework::traits::{GameRules, MatchRecord, RulesError};
use strategy_discovery::games::tictactoe::{game_bundle, Board, Move, Outcome, Player};
use strategy_discovery::io::schema::SCHEMA_VERSION;

fn entry(name: &str) -> RosterEntry<String> {
    RosterEntry { name: name.to_string(), spec: format!("spec:{name}") }
}

/// The one cell of a sweep with a `center` opening followed by `random_plies` random plies.
fn opening_cell(random_plies: u32) -> Cell<Move, String> {
    let config = GenerateConfig {
        schema_version: 1,
        game: "tictactoe".to_string(),
        seed: 3,
        games_per_cell: 1,
        max_plies: None,
        strategies: vec![entry("random"), entry("perfect")],
        pairings: vec![Pairing(vec!["random".to_string(), "perfect".to_string()])],
        evaluators: vec![],
        openings: vec![NamedOpening { name: "center".to_string(), actions: vec![Move(4)] }],
        random_opening_plies: vec![random_plies],
    };
    let builds = vec![None; 2];
    let mut resolved = resolve(config, &game_bundle(), &[], &builds).unwrap();
    resolved.cells.remove(0)
}

/// A drawn game: X 4, O 0, X 1, O 7, X 2, O 6, X 3, O 5, X 8.
fn drawn_game() -> MatchRecord<Move, Outcome> {
    MatchRecord {
        game_index: 5,
        seed: 99,
        actions: [4, 0, 1, 7, 2, 6, 3, 5, 8].iter().map(|&c| Move(c)).collect(),
        outcome: Some(Outcome::Draw),
    }
}

#[test]
fn expand_game_marks_opening_plies() {
    let bundle = game_bundle();
    let cell = opening_cell(1);
    let record = drawn_game();

    let (game, positions) = expand_game(&bundle, "run", &cell, &record).unwrap();

    assert_eq!(positions[0].chosen_by, "opening");
    assert_eq!(positions[0].chosen_action, Move(4));
    assert_eq!(positions[1].chosen_by, "random-opening");
    let slot = bundle.player_slot(positions[2].side_to_move).unwrap();
    assert_eq!(positions[2].chosen_by, cell.entries[slot].name);
    assert_eq!(game.opening_plies, 2);
}

#[test]
fn expanded_records_carry_the_game() {
    let bundle = game_bundle();
    let cell = opening_cell(0);
    let record = drawn_game();
    let (game, positions) = expand_game(&bundle, "abc", &cell, &record).unwrap();

    assert_eq!(game.schema_version, SCHEMA_VERSION);
    assert_eq!(game.run_id, "abc");
    assert_eq!(game.game_id, "0:5");
    assert_eq!(game.cell, cell.key);
    assert_eq!(game.game_index, 5);
    assert_eq!(game.seed, 99);
    assert_eq!(game.players, vec![Player::X, Player::O]);
    assert_eq!(game.specs, vec!["spec:random".to_string(), "spec:perfect".to_string()]);
    assert_eq!(game.opening_plies, 1);
    assert_eq!(game.actions, record.actions);
    assert_eq!(game.outcome, Some(Outcome::Draw));
    assert_eq!(game.length, 9);
    assert!(game.final_state.is_full());
    assert_eq!(game.final_canonical_state, bundle.canonicalize(&game.final_state).0);

    assert_eq!(positions.len(), 9);
    let names: Vec<&str> = positions.iter().map(|p| p.chosen_by.as_str()).collect();
    assert_eq!(
        names,
        vec!["opening", "perfect", "random", "perfect", "random", "perfect", "random", "perfect", "random"]
    );
    assert_eq!(positions[0].state, Board::empty());
    assert_eq!(positions[0].legal_actions.len(), 9);
    assert_eq!(positions[8].legal_actions, vec![Move(8)]);
    for (ply, p) in positions.iter().enumerate() {
        assert_eq!(p.ply, ply);
        assert_eq!(p.game_id, "0:5");
        assert_eq!(p.game_length, 9);
        assert_eq!(p.outcome, Some(Outcome::Draw));
        assert_eq!(p.side_to_move, if ply % 2 == 0 { Player::X } else { Player::O });
        assert_eq!(p.chosen_action, record.actions[ply]);
    }
}

#[test]
fn expanded_game_passes_verification() {
    let bundle = game_bundle();
    let cell = opening_cell(1);
    let (game, positions) = expand_game(&bundle, "run", &cell, &drawn_game()).unwrap();
    assert_eq!(verify_corpus(&bundle, &[game], &positions), Ok(1));
}

#[test]
fn unreplayable_actions_are_the_rules_refusal() {
    let bundle = game_bundle();
    let cell = opening_cell(0);
    let record = MatchRecord { game_index: 0, seed: 0, actions: vec![Move(4), Move(4)], outcome: None };
    match expand_game(&bundle, "run", &cell, &record) {
        Err(CorpusError::Rules(RulesError::IllegalAction(_))) => {}
        other => panic!("expected a rules refusal, got {:?}", other.map(|(g, _)| g.length)),
    }
    let after_end = MatchRecord {
        game_index: 0,
        seed: 0,
        actions: [0, 3, 1, 4, 2, 5].iter().map(|&c| Move(c)).collect(),
        outcome: None,
    };
    match expand_game(&bundle, "run", &cell, &after_end) {
        Err(CorpusError::Rules(RulesError::GameOver)) => {}
        other => panic!("expected a game-over refusal, got {:?}", other.map(|(g, _)| g.length)),
    }
}

#[test]
fn stray_side_to_move_is_a_config_error() {
    let mut bundle = game_bundle();
    bundle.players = vec![Player::X, Player::X];
    let cell = opening_cell(0);
    match expand_game(&bundle, "run", &cell, &drawn_game()) {
        Err(CorpusError::Config(m)) => {
            assert_eq!(m, "side to move is not one of the game's players at ply 1 of game 0:5")
        }
        other => panic!("expected a config error, got {:?}", other.map(|(g, _)| g.length)),
    }
}

#[test]
fn empty_game_expands_to_no_positions() {
    let bundle = game_bundle();
    let cell = opening_cell(0);
    let record = MatchRecord::<Move, Outcome> { game_index: 1, seed: 0, actions: vec![], outcome: None };
    let (game, positions) = expand_game(&bundle, "run", &cell, &record).unwrap();
    assert!(positions.is_empty());
    assert_eq!(game.opening_plies, 0);
    assert_eq!(game.final_state, bundle.rules.initial_state());
}
