use strategy_discovery::discovery::config::{all_pairings, cell_seed, Pairing, CELL_SEED_MUL, CELL_SEED_SALT};
use strategy_discovery::discovery::discover::{archive_display, miner_id};
use strategy_discovery::discovery::match_engine::{
    game_seed, opening_plies_played, opening_seed, player_seed, splitmix64, Opening,
};
use strategy_discovery::discovery::config::CorpusError;
use strategy_discovery::discovery::mine::{candidate_name, check_mine_params};
use strategy_discovery::framework::traits::{Canonicalize, MatchRecord};
use strategy_discovery::games::tictactoe::{game_bundle, Board, Move, Outcome, Player};
use strategy_discovery::io::schema::{MINE_ENGINE_CART, MINE_ENGINE_LINFA_TREES};

#[test]
fn splitmix64_reference_values() {
    assert_eq!(splitmix64(0), 0xE220A8397B1DCDAF);
    assert_eq!(splitmix64(1), 0x910A2DEC89025CC1);
}

#[test]
fn game_seed_reference_values() {
    assert_eq!(game_seed(42, 0), 0xBDD732262FEB6E95);
    assert_eq!(game_seed(42, 1), 0x28EFE333B266F103);
    assert_eq!(game_seed(42, 2), 0x5FD30D2FCBEF75E3);
}

#[test]
fn player_seed_reference_values() {
    assert_eq!(player_seed(0, 0), 0x2D0F28C7E7E786B2);
    assert_eq!(player_seed(0x28EFE333B266F103, 0), 0xED6D6CCF127CB19E);
    assert_eq!(player_seed(0x28EFE333B266F103, 1), 0xEB03688B255D6EEE);
}

#[test]
fn opening_seed_reference_values() {
    assert_eq!(opening_seed(0), 0x4396D60DBD8537AF);
    assert_eq!(opening_seed(42), 0xC549D6F38899C014);
    assert_eq!(opening_seed(0xBDD732262FEB6E95), 0x5A0ECCCE1EDF2C68);
}

#[test]
fn opening_plies_are_capped_by_the_game_length() {
    let record = |n: usize| MatchRecord::<Move, Outcome> {
        game_index: 0,
        seed: 0,
        actions: vec![Move(0); n],
        outcome: None,
    };
    let opening = Opening { actions: vec![Move(4)], random_plies: 2 };
    assert_eq!(opening_plies_played(&record(9), &opening), 3);
    assert_eq!(opening_plies_played(&record(2), &opening), 2);
    assert_eq!(opening_plies_played(&record(0), &Opening::<Move>::default()), 0);
    assert_eq!(opening_plies_played(&record(5), &Opening::<Move>::default()), 0);
}

#[test]
fn cell_seed_reference_values() {
    assert_eq!(cell_seed(0, 0), 0xBA8894FA3BE59747);
    assert_eq!(cell_seed(0, 1), 0x2366A2894CCB62DB);
    assert_eq!(cell_seed(20260821, 0), 0xF7AB10D4F37DAD2A);
    assert_eq!(cell_seed(20260821, 1), 0x45120386E5756643);
    assert_ne!(cell_seed(0, 0), cell_seed(0, 1));
}

#[test]
fn cell_seeds_follow_the_formula_and_are_distinct() {
    let master = 20260821u64;
    let mut seen = std::collections::HashSet::new();
    for index in 0..24usize {
        let expected = splitmix64(master ^ CELL_SEED_SALT ^ (index as u64).wrapping_mul(CELL_SEED_MUL));
        assert_eq!(cell_seed(master, index), expected);
        assert!(seen.insert(cell_seed(master, index)));
    }
}

fn names(v: &[&str]) -> Vec<String> {
    v.iter().map(|s| s.to_string()).collect()
}

#[test]
fn all_pairings_enumerate_in_documented_order() {
    let pairs = all_pairings(&names(&["a", "b", "c"]), 2);
    let expected: Vec<Pairing> = [
        ["a", "a"], ["a", "b"], ["a", "c"],
        ["b", "a"], ["b", "b"], ["b", "c"],
        ["c", "a"], ["c", "b"], ["c", "c"],
    ]
    .iter()
    .map(|p| Pairing(names(p)))
    .collect();
    assert_eq!(pairs, expected);
}

#[test]
fn all_pairings_edge_cases() {
    assert_eq!(all_pairings(&names(&["a", "b"]), 0), vec![Pairing(vec![])]);
    assert_eq!(all_pairings(&[], 2), Vec::<Pairing>::new());
    assert_eq!(all_pairings(&names(&["x"]), 3), vec![Pairing(names(&["x", "x", "x"]))]);
    assert_eq!(all_pairings(&names(&["a", "b"]), 3).len(), 8);
}

#[test]
fn miner_id_maps_both_engines() {
    assert_eq!(miner_id(MINE_ENGINE_CART), "cart-v1");
    assert_eq!(miner_id(MINE_ENGINE_LINFA_TREES), "linfa-trees-0.8.1");
}

#[test]
fn miner_id_keeps_other_engines() {
    assert_eq!(miner_id("gbdt"), "gbdt");
}

#[test]
fn archive_display_is_relative_to_out() {
    let out = "runs/x";
    assert_eq!(archive_display("runs/x/archive", out), "archive");
    assert_eq!(archive_display("runs/x/a/b", out), "a/b");
}

#[test]
fn archive_display_keeps_absolute_paths() {
    let out = "runs/x";
    let archive_dir = "C:/elsewhere/archive";
    assert_eq!(archive_display(archive_dir, out), archive_dir);
}

#[test]
fn archive_display_of_the_run_directory_itself_is_dot() {
    assert_eq!(archive_display("runs/x", "runs/x"), ".");
}

#[test]
fn candidate_names() {
    assert_eq!(candidate_name(MINE_ENGINE_CART, 4, 1), "mined-d4-l1");
    assert_eq!(candidate_name(MINE_ENGINE_LINFA_TREES, 0, 2), "mined-linfa-d0-l2");
}

#[test]
fn candidate_name_of_multi_digit_limits() {
    assert_eq!(candidate_name("other", 12, 305), "mined-d12-l305");
}

#[test]
fn bundle_without_canonicalizer_is_identity() {
    let mut bundle = game_bundle();
    bundle.canonicalizer = None;
    bundle.primitives = None;

    let board = Board::parse("..X......").unwrap();
    assert_eq!(bundle.canonicalize(&board), (board, vec![]));
}

#[test]
fn canonicalize_returns_state_and_transform() {
    let bundle = game_bundle();
    let state = Board::parse("..X......").unwrap();

    let (canonical, transform) = bundle.canonicalize(&state);
    assert_eq!(transform.len(), 9);

    let perm = strategy_discovery::framework::symmetry::Permutation::new(transform.clone()).unwrap();
    assert_eq!(bundle.primitives.as_ref().unwrap().transform(&state, &perm), canonical);
    assert_eq!(canonical, bundle.canonicalizer.as_ref().unwrap().canonicalize(&state));

    assert_eq!(bundle.canonicalize(&Board::empty()).0, Board::empty());
}

#[test]
fn player_slot_follows_turn_order() {
    let bundle = game_bundle();
    assert_eq!(bundle.player_slot(Player::X), Some(0));
    assert_eq!(bundle.player_slot(Player::O), Some(1));
}

#[test]
fn game_bundle_facts() {
    let bundle = game_bundle();
    assert_eq!(bundle.name, "tictactoe");
    assert_eq!(bundle.players, vec![Player::X, Player::O]);
    assert_eq!(bundle.evaluators, vec!["default".to_string(), "zero".to_string()]);
    assert_eq!(bundle.default_evaluator, "default");
    assert!(bundle.canonicalizer.is_some());
    assert!(bundle.primitives.is_some());
    let strategy_names: Vec<&str> = bundle.default_strategies.iter().map(|e| e.name.as_str()).collect();
    assert_eq!(strategy_names, vec!["random", "depth-1", "depth-2", "depth-3", "depth-4", "depth-6", "perfect"]);
    assert_eq!(bundle.roster.entries, bundle.default_strategies);
    assert_eq!(bundle.roster.id(), "ttt-benchmark-v1");
    assert_eq!(bundle.full_search_depth, 9);
    assert_eq!(bundle.known_canonical_positions, Some(765));
}

#[test]
fn mine_params_validate_rejects_bad_values() {
    fn err_msg(engine: &str, depths: &[usize], min_leaf: usize) -> String {
        match check_mine_params(engine, depths, min_leaf) {
            Err(CorpusError::Config(msg)) => msg,
            other => panic!("expected Config error, got {other:?}"),
        }
    }
    assert!(err_msg("x", &[8], 1).contains("[mine] engine"));
    assert!(err_msg("cart", &[], 1).contains("at least one depth"));
    assert!(err_msg("cart", &[4, 4], 1).contains("more than once"));
    assert!(err_msg("cart", &[8], 0).contains("min_leaf"));
    assert!(check_mine_params("linfa-trees", &[0, 8], 1).is_ok());
    assert!(check_mine_params("cart", &[8], 1).is_ok());
}

#[test]
fn mine_params_messages_are_exact() {
    let msg = |engine: &str, depths: &[usize], min_leaf: usize| match check_mine_params(engine, depths, min_leaf) {
        Err(CorpusError::Config(m)) => m,
        other => panic!("expected Config error, got {other:?}"),
    };
    assert_eq!(msg("x", &[], 0), "[mine] engine `x` is not one of: cart, linfa-trees");
    assert_eq!(msg("cart", &[], 0), "[mine] depths must list at least one depth");
    assert_eq!(msg("cart", &[3, 5, 5, 3], 0), "[mine] depths lists 5 more than once");
    assert_eq!(msg("cart", &[3], 0), "[mine] min_leaf must be >= 1, got 0");
}
