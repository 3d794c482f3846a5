use strategy_discovery::discovery::config::CorpusError;
use strategy_discovery::discovery::summary::verify_corpus;
use strategy_discovery::framework::traits::{GameRules, RulesError};
use strategy_discovery::games::tictactoe::corpus::TicTacToeBundle;
use strategy_discovery::games::tictactoe::{game_bundle, Board, Move, Outcome, Player};
use strategy_discovery::io::schema::{CellKey, GameRecord, IoError, PositionRecord, SCHEMA_VERSION};
use strategy_discovery::io::{final_state, replay};

type Game = GameRecord<Board, Move, Player, Outcome, String>;
type Pos = PositionRecord<Board, Move, Player, Outcome>;

fn cell() -> CellKey {
    CellKey {
        index: 0,
        strategies: vec!["random".to_string(), "perfect".to_string()],
        evaluator: "default".to_string(),
        opening: "none".to_string(),
        random_opening_plies: 0,
    }
}

fn record(bundle: &TicTacToeBundle, game_id: &str, actions: Vec<Move>) -> (Game, Vec<Pos>) {
    let rules = &bundle.rules;
    let pairs = replay(rules, &actions).unwrap();
    let last = final_state(rules, &actions).unwrap();
    let outcome = rules.outcome(&last);
    let positions = pairs
        .iter()
        .enumerate()
        .map(|(ply, (state, action))| {
            let (canonical_state, canonical_transform) = bundle.canonicalize(state);
            PositionRecord {
                schema_version: SCHEMA_VERSION,
                game_id: game_id.to_string(),
                ply,
                side_to_move: rules.player_to_move(state),
                state: *state,
                canonical_state,
                canonical_transform,
                legal_actions: rules.legal_actions(state),
                chosen_action: *action,
                chosen_by: "random".to_string(),
                outcome,
                game_length: actions.len(),
            }
        })
        .collect();
    let game = GameRecord {
        schema_version: SCHEMA_VERSION,
        run_id: "r".to_string(),
        game_id: game_id.to_string(),
        cell: cell(),
        game_index: 0,
        seed: 1,
        players: vec![Player::X, Player::O],
        specs: vec!["random".to_string(), "perfect".to_string()],
        opening_plies: 0,
        length: actions.len(),
        final_canonical_state: bundle.canonicalize(&last).0,
        final_state: last,
        outcome,
        actions,
    };
    (game, positions)
}

fn invalid(message: &str) -> CorpusError {
    CorpusError::Io(IoError::Invalid(message.to_string()))
}

fn corpus() -> (TicTacToeBundle, Vec<Game>, Vec<Pos>) {
    let bundle = game_bundle();
    let (g0, p0) = record(&bundle, "0:0", vec![Move(4), Move(0), Move(1), Move(2), Move(7)]);
    let (g1, p1) = record(&bundle, "0:1", vec![Move(0), Move(4), Move(8)]);
    // Interleave the two games' positions: grouping is by game id, in file order.
    let mut positions = Vec::new();
    let n = p0.len().max(p1.len());
    for i in 0..n {
        if i < p0.len() {
            positions.push(p0[i].clone());
        }
        if i < p1.len() {
            positions.push(p1[i].clone());
        }
    }
    (bundle, vec![g0, g1], positions)
}

#[test]
fn verify_corpus_accepts_a_hand_built_corpus() {
    let (bundle, games, positions) = corpus();
    assert_eq!(verify_corpus(&bundle, &games, &positions), Ok(2));
}

#[test]
fn verify_corpus_of_no_games_is_zero() {
    let bundle = game_bundle();
    assert_eq!(verify_corpus::<_, _, _, _, String>(&bundle, &[], &[]), Ok(0));
}

#[test]
fn verify_corpus_reports_missing_positions() {
    let (bundle, games, positions) = corpus();
    let only_first: Vec<Pos> = positions.into_iter().filter(|p| p.game_id == "0:0").collect();
    assert_eq!(verify_corpus(&bundle, &games, &only_first), Err(invalid("game 0:1: missing positions mismatch")));
}

#[test]
fn verify_corpus_reports_position_count() {
    let (bundle, games, mut positions) = corpus();
    positions.pop();
    assert_eq!(verify_corpus(&bundle, &games, &positions), Err(invalid("game 0:0: position count mismatch")));
}

#[test]
fn verify_corpus_reports_the_first_bad_ply() {
    let (bundle, games, mut positions) = corpus();
    let idx = positions.iter().position(|p| p.game_id == "0:0" && p.ply == 2).unwrap();
    positions[idx].chosen_action = Move(8);
    assert_eq!(
        verify_corpus(&bundle, &games, &positions),
        Err(invalid("game 0:0: chosen_action mismatch at ply 2"))
    );
    positions[idx].legal_actions.pop();
    assert_eq!(
        verify_corpus(&bundle, &games, &positions),
        Err(invalid("game 0:0: chosen_action mismatch at ply 2"))
    );
    let idx1 = positions.iter().position(|p| p.game_id == "0:0" && p.ply == 1).unwrap();
    positions[idx1].outcome = None;
    assert_eq!(
        verify_corpus(&bundle, &games, &positions),
        Err(invalid("game 0:0: outcome mismatch at ply 1"))
    );
}

#[test]
fn verify_corpus_reports_final_fields() {
    let (bundle, mut games, positions) = corpus();
    games[1].length = 4;
    assert_eq!(verify_corpus(&bundle, &games, &positions), Err(invalid("game 0:1: length mismatch")));
    games[1].final_state = Board::empty();
    assert_eq!(verify_corpus(&bundle, &games, &positions), Err(invalid("game 0:1: final_state mismatch")));
}

#[test]
fn verify_corpus_reports_canonical_mismatch() {
    let (bundle, games, mut positions) = corpus();
    let idx = positions.iter().position(|p| p.game_id == "0:1" && p.ply == 1).unwrap();
    positions[idx].canonical_transform = vec![];
    assert_eq!(
        verify_corpus(&bundle, &games, &positions),
        Err(invalid("game 0:1: canonical_state mismatch at ply 1"))
    );
}

#[test]
fn verify_corpus_reports_unreplayable_actions() {
    let (bundle, mut games, positions) = corpus();
    games[0].actions[1] = Move(4);
    match verify_corpus(&bundle, &games, &positions) {
        Err(CorpusError::Rules(RulesError::IllegalAction(_))) => {}
        other => panic!("expected a rules error, got {other:?}"),
    }
}

use strategy_discovery::discovery::analyze::{check_annotations, load_corpus, missing_annotations, RunHeader};
use strategy_discovery::discovery::annotate::{annotation_metadata, corpus_states, AnnotateMode};
use strategy_discovery::games::tictactoe::TicTacToeRules;
use strategy_discovery::io::schema::AnnotationRecord;

fn header(version: u32, game: &str) -> RunHeader {
    RunHeader { schema_version: version, game: game.to_string(), run_id: "5eafa65f76637df3".to_string() }
}

#[test]
fn load_corpus_accepts_a_current_corpus() {
    let (bundle, games, positions) = corpus();
    let loaded = load_corpus(&bundle, header(1, "tictactoe"), games.clone(), positions.clone(), "run.json", "games.jsonl", "positions.jsonl").unwrap();
    assert_eq!(loaded.header.run_id, "5eafa65f76637df3");
    assert_eq!(loaded.games, games);
    assert_eq!(loaded.positions, positions);
}

#[test]
fn load_corpus_rejects_in_order() {
    let (bundle, mut games, mut positions) = corpus();
    match load_corpus(&bundle, header(2, "chess"), games.clone(), positions.clone(), "d/run.json", "d/games.jsonl", "d/positions.jsonl") {
        Err(CorpusError::Io(IoError::SchemaVersion { path, expected, found })) => {
            assert_eq!((path.as_str(), expected, found), ("d/run.json", 1, 2));
        }
        _ => panic!("expected a schema-version error"),
    }
    match load_corpus(&bundle, header(1, "chess"), games.clone(), positions.clone(), "d/run.json", "d/games.jsonl", "d/positions.jsonl") {
        Err(CorpusError::Config(m)) => assert_eq!(m, "corpus game `chess` does not match bundle `tictactoe`"),
        _ => panic!("expected a config error"),
    }
    positions[3].schema_version = 5;
    games[1].schema_version = 4;
    match load_corpus(&bundle, header(1, "tictactoe"), games.clone(), positions.clone(), "d/run.json", "d/games.jsonl", "d/positions.jsonl") {
        Err(CorpusError::Io(IoError::SchemaVersion { path, found, .. })) => assert_eq!((path.as_str(), found), ("d/games.jsonl", 4)),
        _ => panic!("expected a schema-version error"),
    }
    games[1].schema_version = 1;
    match load_corpus(&bundle, header(1, "tictactoe"), games, positions, "d/run.json", "d/games.jsonl", "d/positions.jsonl") {
        Err(CorpusError::Io(IoError::SchemaVersion { path, found, .. })) => assert_eq!((path.as_str(), found), ("d/positions.jsonl", 5)),
        _ => panic!("expected a schema-version error"),
    }
}

#[test]
fn corpus_states_are_distinct_in_first_appearance_order() {
    let (_bundle, _games, positions) = corpus();
    let states = corpus_states(&TicTacToeRules, &positions);
    // Both games start from the empty board; every other state appears once.
    assert_eq!(states.len(), positions.len() - 1);
    assert_eq!(states[0], Board::empty());
    assert_eq!(states[1], positions[2].state);
    let distinct: std::collections::HashSet<Board> = states.iter().copied().collect();
    assert_eq!(distinct.len(), states.len());
}

fn annotation(terminal: bool, agrees: Option<bool>) -> AnnotationRecord<Board, Move, Player> {
    AnnotationRecord {
        schema_version: SCHEMA_VERSION,
        state: Board::empty(),
        canonical_state: Board::empty(),
        side_to_move: Player::X,
        terminal,
        value: 0,
        optimal_actions: vec![],
        engine_action: None,
        engine_agrees: agrees,
    }
}

#[test]
fn annotation_metadata_counts_terminal_and_disagreeing_records() {
    let bundle = game_bundle();
    let records = vec![annotation(true, None), annotation(false, Some(false)), annotation(false, Some(true))];
    let m = annotation_metadata(&bundle, AnnotateMode::Exhaustive, None, 9, &records, 5478);
    assert_eq!(m.annotated, 3);
    assert_eq!(m.terminal, 1);
    assert_eq!(m.disagreements, 1);
    assert_eq!(m.game, "tictactoe");
    assert_eq!(m.evaluator, "default");
    assert_eq!(m.mode, AnnotateMode::Exhaustive);
    assert_eq!(m.schema_version, SCHEMA_VERSION);
    assert_eq!(m.solver_states, 5478);
}

#[test]
fn annotations_missing_is_a_precondition_error() {
    assert_eq!(
        missing_annotations("runs/x/annotations.jsonl", "runs/x"),
        CorpusError::Precondition("runs/x/annotations.jsonl not found; run `annotate --corpus runs/x` first".to_string())
    );
}

#[test]
fn annotations_are_schema_checked() {
    let mut records = vec![annotation(false, None), annotation(false, None)];
    assert_eq!(check_annotations(&records, "a.jsonl"), Ok(()));
    records[1].schema_version = 3;
    assert_eq!(
        check_annotations(&records, "a.jsonl"),
        Err(CorpusError::Io(IoError::SchemaVersion { path: "a.jsonl".to_string(), expected: 1, found: 3 }))
    );
}
