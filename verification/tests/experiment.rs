use strategy_discovery::discovery::analyze::validate_analyzers;
use strategy_discovery::discovery::config::{CorpusError, GenerateConfig, RosterEntry};
use strategy_discovery::discovery::experiment::{check_experiment_header, check_experiment_plan};
use strategy_discovery::games::tictactoe::{game_bundle, Move};

fn entry(name: &str, spec: &str) -> RosterEntry<String> {
    RosterEntry { name: name.to_string(), spec: spec.to_string() }
}

fn sweep(game: &str) -> GenerateConfig<Move, String> {
    GenerateConfig {
        schema_version: 1,
        game: game.to_string(),
        seed: 7,
        games_per_cell: 2,
        max_plies: None,
        strategies: vec![entry("random", "random"), entry("depth-1", "minimax 1")],
        pairings: vec![],
        evaluators: vec![],
        openings: vec![],
        random_opening_plies: vec![],
    }
}

fn strings(v: &[&str]) -> Vec<String> {
    v.iter().map(|s| s.to_string()).collect()
}

/// The built-in analyzers and a stub `agreement` that requires annotations, in name order.
fn registry() -> (Vec<String>, Vec<bool>) {
    (strings(&["agreement", "dataset", "mine", "summary"]), vec![true, true, true, false])
}

fn plan(game: &str, config: GenerateConfig<Move, String>, analyzers: &[&str], annotate: bool) -> Result<(), CorpusError> {
    let (known, needs) = registry();
    let builds = vec![None; config.strategies.len()];
    check_experiment_plan(game, config, &game_bundle(), &[], &builds, &known, &needs, &strings(analyzers), annotate)
}

fn message(r: Result<(), CorpusError>) -> String {
    match r {
        Err(CorpusError::Config(m)) => m,
        other => panic!("expected Err(Config(_)), got {other:?}"),
    }
}

#[test]
fn validation_errors_name_field_and_value() {
    let header_cases: Vec<(u32, &str, &str, Option<usize>, &str)> = vec![
        (2, "small", "tictactoe", None, "schema_version 2"),
        (1, "", "tictactoe", None, "name must not be empty"),
        (1, "small", "chess", None, "game `chess`"),
        (1, "small", "tictactoe", Some(0), "threads must be >= 1"),
    ];
    for (version, name, game, threads, fragment) in header_cases {
        let msg = message(check_experiment_header(version, name, game, "tictactoe", threads));
        assert!(msg.contains(fragment), "expected {fragment:?} in {msg:?}");
    }

    let plan_cases: Vec<(Result<(), CorpusError>, Vec<&str>)> = vec![
        (plan("tictactoe", sweep("tictactoe"), &[], true), vec!["at least one analyzer"]),
        (plan("tictactoe", sweep("tictactoe"), &["summary", "summary"], true), vec!["more than once"]),
        (plan("tictactoe", sweep("tictactoe"), &["nope"], true), vec!["unknown analyzer `nope`", "summary"]),
        (plan("tictactoe", sweep("tictactoe"), &["agreement"], false), vec!["requires annotations"]),
        (plan("tictactoe", sweep("chess"), &["summary"], true), vec!["does not match the sweep's game"]),
    ];
    for (result, expected) in plan_cases {
        let msg = message(result);
        for fragment in expected {
            assert!(msg.contains(fragment), "expected {fragment:?} in {msg:?}");
        }
    }
}

#[test]
fn experiment_header_messages_are_exact() {
    assert_eq!(
        message(check_experiment_header(2, "small", "tictactoe", "tictactoe", None)),
        "schema_version 2 is not the supported 1"
    );
    assert_eq!(
        message(check_experiment_header(1, "small", "chess", "tictactoe", Some(4))),
        "game `chess` does not match bundle `tictactoe`"
    );
    assert_eq!(
        message(check_experiment_header(1, "small", "tictactoe", "tictactoe", Some(0))),
        "[generate] threads must be >= 1, got 0"
    );
    // The schema version is checked before the name.
    assert_eq!(
        message(check_experiment_header(3, "", "chess", "tictactoe", Some(0))),
        "schema_version 3 is not the supported 1"
    );
}

#[test]
fn experiment_header_accepts_a_valid_header() {
    assert!(check_experiment_header(1, "small", "tictactoe", "tictactoe", None).is_ok());
    assert!(check_experiment_header(1, "small", "tictactoe", "tictactoe", Some(4)).is_ok());
}

#[test]
fn experiment_plan_messages_are_exact() {
    assert_eq!(
        message(plan("tictactoe", sweep("tictactoe"), &[], true)),
        "[analyze] analyzers must name at least one analyzer; known analyzers: agreement, dataset, mine, summary"
    );
    assert_eq!(
        message(plan("tictactoe", sweep("tictactoe"), &["summary", "mine", "summary"], true)),
        "[analyze] analyzers lists `summary` more than once"
    );
    assert_eq!(
        message(plan("tictactoe", sweep("tictactoe"), &["summary", "nope"], true)),
        "unknown analyzer `nope` in [analyze] analyzers; known analyzers: agreement, dataset, mine, summary"
    );
    assert_eq!(
        message(plan("tictactoe", sweep("tictactoe"), &["mine"], false)),
        "analyzer `mine` requires annotations; set [annotate] enabled = true or drop it"
    );
    assert_eq!(
        message(plan("tictactoe", sweep("chess"), &["summary"], true)),
        "game `tictactoe` does not match the sweep's game `chess`"
    );
}

#[test]
fn experiment_plan_passes_sweep_errors_through() {
    let mut config = sweep("tictactoe");
    config.games_per_cell = 0;
    assert_eq!(message(plan("tictactoe", config, &["summary"], true)), "games_per_cell must be > 0");
}

#[test]
fn experiment_plan_accepts_a_valid_plan() {
    assert!(plan("tictactoe", sweep("tictactoe"), &["summary"], false).is_ok());
    assert!(plan("tictactoe", sweep("tictactoe"), &["summary", "agreement", "mine"], true).is_ok());
}

#[test]
fn analyze_rejects_empty_unknown_and_duplicate_analyzers() {
    let known = strings(&["agreement", "dataset", "mine", "summary"]);

    match validate_analyzers(&known, &[]) {
        Err(CorpusError::Config(msg)) => assert!(msg.contains("no analyzers")),
        other => panic!("expected Err(Config(_)), got {other:?}"),
    }

    match validate_analyzers(&known, &strings(&["nope"])) {
        Err(CorpusError::Config(msg)) => {
            assert!(msg.contains("unknown analyzer `nope`"));
            assert!(msg.contains("summary"));
        }
        other => panic!("expected Err(Config(_)), got {other:?}"),
    }

    match validate_analyzers(&known, &strings(&["summary", "summary"])) {
        Err(CorpusError::Config(msg)) => assert!(msg.contains("more than once")),
        other => panic!("expected Err(Config(_)), got {other:?}"),
    }
}

#[test]
fn analyzer_list_messages_are_exact() {
    let known = strings(&["dataset", "summary"]);
    assert_eq!(
        message(validate_analyzers(&known, &[])),
        "no analyzers requested; known analyzers: dataset, summary"
    );
    assert_eq!(
        message(validate_analyzers(&known, &strings(&["summary", "dataset", "summary"]))),
        "analyzer `summary` is listed more than once; list each analyzer once"
    );
    assert_eq!(
        message(validate_analyzers(&known, &strings(&["summary", "mine"]))),
        "unknown analyzer `mine`; known analyzers: dataset, summary"
    );
    assert!(validate_analyzers(&known, &strings(&["summary", "dataset"])).is_ok());
    assert!(validate_analyzers(&[], &[]).is_err());
}
