use std::collections::BTreeSet;
use strategy_discovery::framework::features::{boolify, tier_name, FeatureValue, Tier};
use strategy_discovery::framework::text::render_heading_block;
use strategy_discovery::games::tictactoe::features::TicTacToeFeatures;
use strategy_discovery::games::tictactoe::{Board, Player};

#[test]
fn definitions_are_well_formed() {
    let defs = TicTacToeFeatures.definitions();
    assert_eq!(defs.len(), 22);
    let names: BTreeSet<&str> = defs.iter().map(|d| d.name.as_str()).collect();
    assert_eq!(names.len(), 22, "names must be unique");
    assert_eq!(defs.first().unwrap().name, "ttt.line0.x");
    assert_eq!(defs.last().unwrap().name, "ttt.win_available");
    for def in &defs {
        assert_eq!(def.tier, Tier::Supplied);
    }
}

#[test]
fn line_definitions_name_their_cells() {
    let defs = TicTacToeFeatures.definitions();
    assert_eq!(defs[0].description, "number of X marks on line 0 {0, 1, 2}");
    assert_eq!(defs[15].name, "ttt.line7.o");
    assert_eq!(defs[15].description, "number of O marks on line 7 {2, 4, 6}");
}

#[test]
fn fixture_one_single_open_threat() {
    let board = Board::parse("XX..O....").unwrap();
    assert_eq!(board.to_move(), Player::O);
    let fv = TicTacToeFeatures.extract(&board);
    assert_eq!(fv.get("ttt.line0.x"), Some(&FeatureValue::Int(2)));
    assert_eq!(fv.get("ttt.line0.o"), Some(&FeatureValue::Int(0)));
    assert_eq!(fv.get("ttt.line1.o"), Some(&FeatureValue::Int(1)));
    assert_eq!(fv.get("ttt.threats.mine"), Some(&FeatureValue::Int(0)));
    assert_eq!(fv.get("ttt.threats.theirs"), Some(&FeatureValue::Int(1)));
    assert_eq!(fv.get("ttt.winning_cells"), Some(&FeatureValue::CellSet(vec![])));
    assert_eq!(fv.get("ttt.blocking_cells"), Some(&FeatureValue::CellSet(vec![2])));
    assert_eq!(fv.get("ttt.fork_cells"), Some(&FeatureValue::CellSet(vec![])));
    assert_eq!(fv.get("ttt.win_available"), Some(&FeatureValue::Bool(false)));
}

#[test]
fn fixture_two_block_and_fork() {
    let board = Board::parse("XO..O...X").unwrap();
    assert_eq!(board.to_move(), Player::X);
    let fv = TicTacToeFeatures.extract(&board);
    assert_eq!(fv.get("ttt.threats.mine"), Some(&FeatureValue::Int(0)));
    assert_eq!(fv.get("ttt.threats.theirs"), Some(&FeatureValue::Int(1)));
    assert_eq!(fv.get("ttt.winning_cells"), Some(&FeatureValue::CellSet(vec![])));
    assert_eq!(fv.get("ttt.blocking_cells"), Some(&FeatureValue::CellSet(vec![7])));
    assert_eq!(fv.get("ttt.fork_cells"), Some(&FeatureValue::CellSet(vec![6])));
    assert_eq!(fv.get("ttt.win_available"), Some(&FeatureValue::Bool(false)));
}

#[test]
fn fixture_three_mover_is_o() {
    let board = Board::parse("XXO.O...X").unwrap();
    assert_eq!(board.to_move(), Player::O);
    let fv = TicTacToeFeatures.extract(&board);
    assert_eq!(fv.get("ttt.threats.mine"), Some(&FeatureValue::Int(1)));
    assert_eq!(fv.get("ttt.threats.theirs"), Some(&FeatureValue::Int(0)));
    assert_eq!(fv.get("ttt.winning_cells"), Some(&FeatureValue::CellSet(vec![6])));
    assert_eq!(fv.get("ttt.blocking_cells"), Some(&FeatureValue::CellSet(vec![])));
    assert_eq!(fv.get("ttt.win_available"), Some(&FeatureValue::Bool(true)));
}

#[test]
fn fixture_four_empty_board() {
    let board = Board::empty();
    let fv = TicTacToeFeatures.extract(&board);
    for l in 0..8 {
        assert_eq!(fv.get(&format!("ttt.line{l}.x")), Some(&FeatureValue::Int(0)));
        assert_eq!(fv.get(&format!("ttt.line{l}.o")), Some(&FeatureValue::Int(0)));
    }
    assert_eq!(fv.get("ttt.threats.mine"), Some(&FeatureValue::Int(0)));
    assert_eq!(fv.get("ttt.threats.theirs"), Some(&FeatureValue::Int(0)));
    assert_eq!(fv.get("ttt.winning_cells"), Some(&FeatureValue::CellSet(vec![])));
    assert_eq!(fv.get("ttt.blocking_cells"), Some(&FeatureValue::CellSet(vec![])));
    assert_eq!(fv.get("ttt.fork_cells"), Some(&FeatureValue::CellSet(vec![])));
    assert_eq!(fv.get("ttt.win_available"), Some(&FeatureValue::Bool(false)));
}

#[test]
fn extract_names_match_definitions_on_empty_board() {
    let extractor = TicTacToeFeatures;
    let def_names: BTreeSet<String> = extractor.definitions().into_iter().map(|d| d.name).collect();
    let fv = extractor.extract(&Board::empty());
    let value_names: BTreeSet<String> = fv.entries.iter().map(|(name, _)| name.clone()).collect();
    assert_eq!(def_names, value_names);
}

#[test]
fn extract_does_not_panic_on_terminal_board() {
    let board = Board::parse("XXXOO....").unwrap();
    assert_eq!(board.to_move(), Player::O);
    let _ = TicTacToeFeatures.extract(&board);
}

#[test]
fn unknown_feature_name_is_absent() {
    let fv = TicTacToeFeatures.extract(&Board::empty());
    assert_eq!(fv.get("ttt.nope"), None);
    assert_eq!(fv.len(), 22);
}

#[test]
fn tiers_have_lower_case_names() {
    assert_eq!(tier_name(Tier::Primitive), "primitive");
    assert_eq!(tier_name(Tier::Supplied), "supplied");
    assert_eq!(tier_name(Tier::Invented), "invented");
}

#[test]
fn feature_values_read_as_truth() {
    assert!(boolify(&FeatureValue::Bool(true)));
    assert!(!boolify(&FeatureValue::Bool(false)));
    assert!(boolify(&FeatureValue::Int(2)));
    assert!(!boolify(&FeatureValue::Int(0)));
    assert!(!boolify(&FeatureValue::Int(-3)));
    assert!(boolify(&FeatureValue::CellSet(vec![4])));
    assert!(!boolify(&FeatureValue::CellSet(vec![])));
}

#[test]
fn heading_blocks_join_their_body() {
    assert_eq!(render_heading_block("## Concepts", &[]), "## Concepts");
    assert_eq!(
        render_heading_block("## Concepts", &["- a".to_string(), "- b".to_string()]),
        "## Concepts\n\n- a\n- b"
    );
}
