use strategy_discovery::framework::traits::{GameRules, RulesError};
use strategy_discovery::games::tictactoe::{Board, Move, Outcome, Player, TicTacToe, TicTacToeRules};
use strategy_discovery::io::hash::{content_hash, fnv1a64, hex16};
use strategy_discovery::io::schema::{
    check_schema_version, CorpusGame, IoError, ANALYZE_FILE, ANNOTATE_FILE, ANNOTATIONS_FILE,
    ARCHIVE_ENTRIES_FILE, ARCHIVE_FILE, DATASET_FILE, DATASET_MANIFEST_FILE, DISCOVER_FILE,
    EVALUATION_FILE, GAMES_FILE, HEURISTICS_FILE, MINE_ENGINE_CART, MINE_ENGINE_LINFA_TREES,
    POSITIONS_FILE, RUN_FILE, SCHEMA_VERSION, SUMMARY_FILE,
};
use strategy_discovery::io::{final_state, replay};

#[test]
fn fnv1a64_reference_values() {
    assert_eq!(fnv1a64(b""), 0xcbf29ce484222325);
    assert_eq!(fnv1a64(b"a"), 0xaf63dc4c8601ec8c);
    assert_eq!(fnv1a64(b"abc"), 0xe71fa2190541574b);
}

#[test]
fn hex16_pads_to_16_digits() {
    assert_eq!(hex16(0), "0000000000000000");
    assert_eq!(hex16(0xcbf29ce484222325), "cbf29ce484222325");
}

#[test]
fn hex16_of_small_and_large_values() {
    assert_eq!(hex16(255), "00000000000000ff");
    assert_eq!(hex16(u64::MAX), "ffffffffffffffff");
}

#[test]
fn content_hash_is_hex_of_fnv() {
    assert_eq!(content_hash(b"{\"a\":1}"), "9c3e82dd6fcae8b1");
    assert_eq!(content_hash(b""), "cbf29ce484222325");
}

#[test]
fn replay_rejects_illegal_sequences() {
    let rules = TicTacToeRules;

    let occupied = [Move(4), Move(4)];
    match replay(&rules, &occupied) {
        Err(RulesError::IllegalAction(_)) => {}
        other => panic!("expected IllegalAction, got {other:?}"),
    }
    match final_state(&rules, &occupied) {
        Err(RulesError::IllegalAction(_)) => {}
        other => panic!("expected IllegalAction, got {other:?}"),
    }

    let finished = [Move(0), Move(3), Move(1), Move(4), Move(2), Move(5)];
    match replay(&rules, &finished) {
        Err(RulesError::GameOver) => {}
        other => panic!("expected GameOver, got {other:?}"),
    }
    match final_state(&rules, &finished) {
        Err(RulesError::GameOver) => {}
        other => panic!("expected GameOver, got {other:?}"),
    }
}

#[test]
fn replay_reproduces_a_known_game() {
    let rules = TicTacToeRules;
    let actions = vec![Move(4), Move(0), Move(1), Move(2), Move(7)];
    let pairs = replay(&rules, &actions).unwrap();
    assert_eq!(pairs.len(), 5);
    assert_eq!(pairs[0].0, Board::empty());
    for (i, action) in actions.iter().enumerate() {
        assert_eq!(&pairs[i].1, action);
    }
    for i in 1..pairs.len() {
        let expected = rules.apply(&pairs[i - 1].0, &pairs[i - 1].1).unwrap();
        assert_eq!(pairs[i].0, expected);
    }
    let final_board = final_state(&rules, &actions).unwrap();
    assert_eq!(final_board.winner(), Some(Player::X));
    assert_eq!(rules.outcome(&final_board), Some(Outcome::Win(Player::X)));
}

#[test]
fn replay_of_empty_list_is_initial_state() {
    let rules = TicTacToeRules;
    assert!(replay(&rules, &[]).unwrap().is_empty());
    assert_eq!(final_state(&rules, &[]).unwrap(), Board::empty());
}

fn assert_corpus_game<G: CorpusGame>() {}

#[test]
fn tictactoe_is_a_corpus_game() {
    assert_corpus_game::<TicTacToe>();
}

#[test]
fn check_schema_version_accepts_current_and_rejects_others() {
    assert!(check_schema_version("p", 1).is_ok());
    let err = check_schema_version("p", 99);
    match &err {
        Err(IoError::SchemaVersion { expected, found, .. }) => {
            assert_eq!(*expected, 1);
            assert_eq!(*found, 99);
        }
        other => panic!("expected SchemaVersion error, got {other:?}"),
    }
    assert!(err.unwrap_err().to_string().contains("schema_version 99"));
}

#[test]
fn schema_version_message_is_exact() {
    let err = check_schema_version("runs/x/run.json", 7).unwrap_err();
    assert_eq!(err.to_string(), "runs/x/run.json: schema_version 7 does not match expected 1");
    assert_eq!(IoError::Missing { path: "a.json".to_string() }.to_string(), "a.json: missing");
}

#[test]
fn file_name_constants() {
    assert_eq!(RUN_FILE, "run.json");
    assert_eq!(GAMES_FILE, "games.jsonl");
    assert_eq!(POSITIONS_FILE, "positions.jsonl");
    assert_eq!(ANNOTATIONS_FILE, "annotations.jsonl");
    assert_eq!(ANNOTATE_FILE, "annotate.json");
    assert_eq!(SUMMARY_FILE, "summary.json");
    assert_eq!(ANALYZE_FILE, "analyze.json");
    assert_eq!(SCHEMA_VERSION, 1);
    assert_eq!(EVALUATION_FILE, "evaluation.json");
    assert_eq!(ARCHIVE_FILE, "archive.json");
    assert_eq!(ARCHIVE_ENTRIES_FILE, "entries.jsonl");
}

#[test]
fn new_file_consts() {
    assert_eq!(DATASET_FILE, "dataset.jsonl");
    assert_eq!(DATASET_MANIFEST_FILE, "dataset.json");
    assert_eq!(HEURISTICS_FILE, "heuristics.json");
    assert_eq!(DISCOVER_FILE, "discover.json");
    assert_eq!(MINE_ENGINE_CART, "cart");
    assert_eq!(MINE_ENGINE_LINFA_TREES, "linfa-trees");
}
