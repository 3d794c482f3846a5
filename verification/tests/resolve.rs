use std::collections::BTreeSet;
use strategy_discovery::discovery::config::{
    cell_seed, resolve, CorpusError, GenerateConfig, NamedOpening, Pairing, RosterEntry,
};
use strategy_discovery::discovery::match_engine::Opening;
use strategy_discovery::discovery::corpus::run_metadata;
use strategy_discovery::games::tictactoe::{game_bundle, Move, Player};
use strategy_discovery::io::schema::SCHEMA_VERSION;
use strategy_discovery::io::schema::CellKey;

fn entry(name: &str, spec: &str) -> RosterEntry<String> {
    RosterEntry { name: name.to_string(), spec: spec.to_string() }
}

fn benchmark() -> Vec<RosterEntry<String>> {
    ["random", "depth-1", "depth-2", "depth-3", "depth-4", "depth-6", "perfect"]
        .iter()
        .map(|n| entry(n, &format!("spec:{n}")))
        .collect()
}

fn minimal<K>() -> GenerateConfig<Move, K> {
    GenerateConfig {
        schema_version: 1,
        game: "tictactoe".to_string(),
        seed: 1,
        games_per_cell: 1,
        max_plies: None,
        strategies: vec![],
        pairings: vec![],
        evaluators: vec![],
        openings: vec![],
        random_opening_plies: vec![],
    }
}

fn small() -> GenerateConfig<Move, String> {
    GenerateConfig {
        schema_version: 1,
        game: "tictactoe".to_string(),
        seed: 20260821,
        games_per_cell: 4,
        max_plies: None,
        strategies: vec![entry("random", "random"), entry("depth-2", "minimax 2"), entry("perfect", "minimax 9")],
        pairings: vec![],
        evaluators: vec!["default".to_string()],
        openings: vec![
            NamedOpening { name: "none".to_string(), actions: vec![] },
            NamedOpening { name: "center".to_string(), actions: vec![Move(4)] },
        ],
        random_opening_plies: vec![0, 2],
    }
}

fn names(v: &[&str]) -> Vec<String> {
    v.iter().map(|s| s.to_string()).collect()
}

fn ok_builds(config: &GenerateConfig<Move, String>) -> Vec<Option<String>> {
    let n = if config.strategies.is_empty() { benchmark().len() } else { config.strategies.len() };
    vec![None; n]
}

fn resolve_ok(config: GenerateConfig<Move, String>) -> Result<strategy_discovery::discovery::config::ResolvedConfig<Move, String>, CorpusError> {
    let builds = ok_builds(&config);
    resolve(config, &game_bundle(), &benchmark(), &builds)
}

fn config_message(r: Result<strategy_discovery::discovery::config::ResolvedConfig<Move, String>, CorpusError>) -> String {
    match r {
        Err(CorpusError::Config(m)) => m,
        other => panic!("expected a config error, got {:?}", other.map(|r| r.cells.len())),
    }
}

#[test]
fn resolve_fills_defaults_from_the_bundle() {
    let bundle = game_bundle();
    let builds = vec![None; bundle.default_strategies.len()];
    let resolved = resolve(minimal(), &bundle, &bundle.default_strategies, &builds).unwrap();
    let strategy_names: Vec<&str> = resolved.config.strategies.iter().map(|e| e.name.as_str()).collect();
    assert_eq!(strategy_names, vec!["random", "depth-1", "depth-2", "depth-3", "depth-4", "depth-6", "perfect"]);
    assert_eq!(resolved.config.pairings.len(), 49);
    assert_eq!(resolved.config.evaluators, vec!["default".to_string()]);
    assert_eq!(resolved.config.openings, vec![NamedOpening { name: "none".to_string(), actions: vec![] }]);
    assert_eq!(resolved.config.random_opening_plies, vec![0]);

    assert_eq!(resolved.cells.len(), 49);
    assert_eq!(
        resolved.cells[0].key,
        CellKey {
            index: 0,
            strategies: names(&["random", "random"]),
            evaluator: "default".to_string(),
            opening: "none".to_string(),
            random_opening_plies: 0,
        }
    );
    assert_eq!(resolved.cells[1].key.strategies, names(&["random", "depth-1"]));
    assert_eq!(resolved.cells[7].key.strategies, names(&["depth-1", "random"]));
    assert_eq!(resolved.cells[48].key.strategies, names(&["perfect", "perfect"]));
    assert_eq!(resolved.cells[0].opening, Opening::<Move>::default());
}

#[test]
fn three_strategies_enumerate_cells_in_documented_order() {
    let resolved = resolve_ok(small()).unwrap();
    let expected: Vec<Pairing> = [
        ["random", "random"], ["random", "depth-2"], ["random", "perfect"],
        ["depth-2", "random"], ["depth-2", "depth-2"], ["depth-2", "perfect"],
        ["perfect", "random"], ["perfect", "depth-2"], ["perfect", "perfect"],
    ]
    .iter()
    .map(|p| Pairing(names(p)))
    .collect();
    assert_eq!(resolved.config.pairings, expected);
    assert_eq!(resolved.cells.len(), 36);
    for (i, cell) in resolved.cells.iter().enumerate() {
        assert_eq!(cell.key.index, i);
    }
    assert_eq!(resolved.cells[0].key.strategies, names(&["random", "random"]));
    assert_eq!(resolved.cells[0].key.evaluator, "default");
    assert_eq!(resolved.cells[0].key.opening, "none");
    assert_eq!(resolved.cells[0].key.random_opening_plies, 0);
    assert_eq!(resolved.cells[1].key.strategies, resolved.cells[0].key.strategies);
    assert_eq!(resolved.cells[1].key.opening, "none");
    assert_eq!(resolved.cells[1].key.random_opening_plies, 2);
    assert_eq!(resolved.cells[2].key.opening, "center");
    assert_eq!(resolved.cells[2].key.random_opening_plies, 0);
    assert_eq!(resolved.cells[3].key.opening, "center");
    assert_eq!(resolved.cells[3].key.random_opening_plies, 2);
    assert_eq!(resolved.cells[4].key.strategies, names(&["random", "depth-2"]));
    assert_eq!(resolved.cells[2].opening, Opening { actions: vec![Move(4)], random_plies: 0 });
    assert_eq!(resolved.cells[3].opening.random_plies, 2);
    let entry_names: Vec<&str> = resolved.cells[4].entries.iter().map(|e| e.name.as_str()).collect();
    assert_eq!(entry_names, vec!["random", "depth-2"]);
    assert_eq!(resolved.cells[4].entries[1].spec, resolved.config.strategies[1].spec);
}

#[test]
fn resolved_cell_seeds_follow_the_formula_and_are_distinct() {
    let resolved = resolve_ok(small()).unwrap();
    for (i, cell) in resolved.cells.iter().enumerate() {
        assert_eq!(cell.seed, cell_seed(20260821, i));
    }
    let distinct: BTreeSet<u64> = resolved.cells.iter().map(|c| c.seed).collect();
    assert_eq!(distinct.len(), 36);
}

#[test]
fn defaulted_and_spelled_out_configs_resolve_equal() {
    let defaulted = resolve_ok(small()).unwrap();
    let mut spelled = small();
    spelled.pairings = [
        ["random", "random"], ["random", "depth-2"], ["random", "perfect"],
        ["depth-2", "random"], ["depth-2", "depth-2"], ["depth-2", "perfect"],
        ["perfect", "random"], ["perfect", "depth-2"], ["perfect", "perfect"],
    ]
    .iter()
    .map(|p| Pairing(names(p)))
    .collect();
    assert_eq!(defaulted, resolve_ok(spelled).unwrap());
}

#[test]
fn invalid_configs_are_rejected() {
    let mut c = small();
    c.schema_version = 2;
    assert_eq!(config_message(resolve_ok(c)), "schema_version 2 is not the supported 1");

    let mut c = small();
    c.game = "chess".to_string();
    assert_eq!(config_message(resolve_ok(c)), "game `chess` does not match bundle `tictactoe`");

    let mut c = small();
    c.games_per_cell = 0;
    assert_eq!(config_message(resolve_ok(c)), "games_per_cell must be > 0");

    let mut c = small();
    c.pairings = vec![Pairing(names(&["random", "nope"]))];
    assert_eq!(config_message(resolve_ok(c)), "pairing [\"random\", \"nope\"] names unknown strategy `nope`");

    let mut c = small();
    c.pairings = vec![Pairing(names(&["random"]))];
    assert_eq!(config_message(resolve_ok(c)), "pairing [\"random\"] must name 2 strategies (one per player)");

    let mut c = small();
    c.evaluators = vec!["nope".to_string()];
    assert_eq!(config_message(resolve_ok(c)), "unknown evaluator `nope`; known evaluators: default, zero");

    let mut c = small();
    c.strategies.push(entry("random", "random"));
    assert!(config_message(resolve_ok(c)).contains("duplicate strategy name `random`"));

    let mut c = small();
    c.strategies[1].name = String::new();
    assert!(config_message(resolve_ok(c)).contains("must not be empty"));

    let mut c = small();
    c.openings[1].name = "none".to_string();
    assert_eq!(config_message(resolve_ok(c)), "duplicate opening name `none`");

    let mut c = small();
    c.openings[1].actions = vec![Move(4), Move(4)];
    assert_eq!(
        config_message(resolve_ok(c)),
        "opening `center` is not a legal action sequence: illegal action: cell 4 is occupied"
    );

    let mut c = small();
    c.random_opening_plies = vec![0, 0];
    assert_eq!(config_message(resolve_ok(c)), "duplicate random_opening_plies value 0");

    let c = small();
    let builds = vec![None, Some("depth must be at least 1".to_string()), None];
    assert_eq!(
        config_message(resolve(c, &game_bundle(), &benchmark(), &builds)),
        "strategy `depth-2`: depth must be at least 1"
    );
}

#[test]
fn unknown_default_evaluator_is_rejected_first() {
    let mut bundle = game_bundle();
    bundle.default_evaluator = "missing".to_string();
    let c = small();
    let builds = ok_builds(&c);
    assert_eq!(
        config_message(resolve(c, &bundle, &benchmark(), &builds)),
        "unknown evaluator `missing`; known evaluators: default, zero"
    );
}

#[test]
fn run_metadata_records_the_resolved_sweep() {
    let bundle = game_bundle();
    let resolved = resolve_ok(small()).unwrap();
    let keys: Vec<CellKey> = resolved.cells.iter().map(|c| c.key.clone()).collect();
    let config = resolved.config.clone();
    let m = run_metadata(&bundle, resolved, "5eafa65f76637df3", 144, 1083);
    assert_eq!(m.schema_version, SCHEMA_VERSION);
    assert_eq!(m.run_id, "5eafa65f76637df3");
    assert_eq!(m.config_hash, "5eafa65f76637df3");
    assert_eq!(m.crate_name, "strategy-discovery");
    assert_eq!(m.crate_version, "0.1.0");
    assert_eq!(m.game, "tictactoe");
    assert_eq!(m.players, vec![Player::X, Player::O]);
    assert_eq!(m.config, config);
    assert_eq!(m.cells, keys);
    assert_eq!(m.cells.len(), 36);
    assert_eq!((m.games, m.positions), (144, 1083));
}
