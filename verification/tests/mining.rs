use strategy_discovery::discovery::config::CorpusError;
use strategy_discovery::discovery::dataset::{build_dataset, DatasetCounts, DatasetInput};
use strategy_discovery::discovery::mine::{mine_decision_list, mine_one, Condition, GeneratorError};
use strategy_discovery::io::schema::OutcomeTally;
use strategy_discovery::framework::features::{FeatureValue, Tier};
use strategy_discovery::games::tictactoe::{Board, TicTacToe};

fn input(board: &str, terminal: bool, legal: Vec<usize>, optimal: Vec<usize>, winning: Vec<usize>) -> DatasetInput<Board> {
    DatasetInput {
        canonical_state: Board::parse(board).unwrap(),
        terminal,
        value: 1,
        legal: legal.clone(),
        optimal,
        features: vec![FeatureValue::Bool(true), FeatureValue::Int(-3), FeatureValue::CellSet(legal), FeatureValue::CellSet(winning)],
    }
}

fn tiers() -> Vec<Tier> {
    vec![Tier::Primitive, Tier::Primitive, Tier::Primitive, Tier::Supplied]
}

#[test]
fn dataset_collapses_repeated_canonical_states_in_first_appearance_order() {
    let inputs = vec![
        input("XX.OO....", false, vec![2, 5, 6, 7, 8], vec![2], vec![2]),
        input("XXXOO....", true, vec![], vec![], vec![]),
        input("X........", false, vec![1, 2, 3, 4, 5, 6, 7, 8], vec![4], vec![]),
        input("XX.OO....", false, vec![2, 5, 6, 7, 8], vec![2], vec![2]),
    ];
    let dataset = build_dataset::<TicTacToe>(&inputs, &tiers()).unwrap();
    let rows = &dataset.rows;
    assert_eq!(rows.len(), 2);
    assert_eq!(
        dataset.counts,
        DatasetCounts { annotated: 4, nonterminal: 3, rows: 2, collapsed: 1, unlabeled: 1 }
    );
    assert_eq!(rows.iter().map(|r| r.occurrences).sum::<usize>(), dataset.counts.nonterminal);
    assert_eq!(rows[0].canonical_state, Board::parse("XX.OO....").unwrap());
    assert_eq!(rows[0].occurrences, 2);
    assert_eq!(rows[1].occurrences, 1);
    assert_eq!(rows[0].values, vec![1, -3, 5, 1]);
    // Classes: the legal set (primitive) and the winning cells (supplied); only the latter is optimal.
    assert_eq!(rows[0].classes.qualifying, vec![1]);
    assert_eq!(rows[0].classes.label, Some(1));
    assert_eq!(rows[1].classes.label, None);
}

#[test]
fn dataset_requires_a_nonterminal_position() {
    let inputs = vec![input("XXXOO....", true, vec![], vec![], vec![])];
    assert_eq!(
        build_dataset::<TicTacToe>(&inputs, &tiers()).unwrap_err(),
        CorpusError::Precondition("dataset requires at least one non-terminal annotation record".to_string())
    );
    assert!(build_dataset::<TicTacToe>(&[], &tiers()).is_err());
}

#[test]
fn decision_list_walks_leaves_left_first_and_accounts_for_rows() {
    // One column separates the classes: values <= 1 qualify class 0, larger values class 1.
    let matrix: Vec<Vec<i64>> = vec![vec![0], vec![1], vec![2], vec![3], vec![0], vec![3]];
    let labels = vec![0, 0, 1, 1, 0, 1];
    let qualifying = vec![vec![0], vec![0], vec![1], vec![1], vec![0], vec![1]];
    let holdout = vec![false, false, false, false, true, true];
    let occurrences = vec![3, 1, 2, 5, 7, 7];
    let values: Vec<i8> = vec![1, 0, -1, -1, 1, 1];
    let list = mine_decision_list(&matrix, &labels, &qualifying, &occurrences, &values, &holdout, 2, 3, 1);

    assert_eq!(list.train_rows, 4);
    assert_eq!(list.rules.len(), 2);
    assert_eq!(list.rules[0].conditions, vec![Condition { column: 0, threshold: 1, at_most: true }]);
    assert_eq!(list.rules[0].class, 0);
    assert_eq!(list.rules[1].conditions, vec![Condition { column: 0, threshold: 1, at_most: false }]);
    assert_eq!(list.rules[1].class, 1);
    for rule in &list.rules {
        assert_eq!(rule.support, 2);
        assert_eq!(rule.sound, 2);
        assert_eq!(rule.label_matches, 2);
    }
    assert_eq!(list.rules[0].occurrences, 4);
    assert_eq!(list.rules[0].outcomes, OutcomeTally { win: 1, draw: 1, loss: 0 });
    assert_eq!(list.rules[1].occurrences, 7);
    assert_eq!(list.rules[1].outcomes, OutcomeTally { win: 0, draw: 0, loss: 2 });
    assert_eq!(list.leaves, 2);
    assert_eq!(list.fallback_rows, 0);
    assert_eq!(list.rules.iter().map(|r| r.support).sum::<usize>() + list.fallback_rows, list.train_rows);
    assert_eq!(list.train_correct, 4);
    assert_eq!((list.holdout_rows, list.holdout_correct, list.holdout_sound), (2, 2, 2));
}

#[test]
fn leaves_where_no_class_qualifies_fall_back() {
    let matrix: Vec<Vec<i64>> = vec![vec![5], vec![5], vec![5]];
    let labels = vec![2, 2, 2];
    let qualifying: Vec<Vec<usize>> = vec![vec![], vec![], vec![]];
    let holdout = vec![false, false, true];
    let list = mine_decision_list(&matrix, &labels, &qualifying, &[1, 1, 1], &[0, 0, 0], &holdout, 2, 2, 1);
    assert!(list.rules.is_empty());
    assert_eq!(list.fallback_rows, 2);
    // Labels of "none" match the fallback leaf; nothing is sound.
    assert_eq!(list.train_correct, 2);
    assert_eq!((list.holdout_rows, list.holdout_correct, list.holdout_sound), (1, 1, 0));
}

#[test]
fn mine_one_names_the_candidate_and_refuses_other_engines() {
    let matrix: Vec<Vec<i64>> = vec![vec![0], vec![1], vec![2], vec![3]];
    let labels = vec![0, 0, 1, 1];
    let qualifying = vec![vec![0], vec![0], vec![1], vec![1]];
    let occurrences = vec![1, 1, 1, 1];
    let values: Vec<i8> = vec![0, 0, 0, 0];
    let holdout = vec![false; 4];
    let mine = |engine: &str| mine_one(&matrix, &labels, &qualifying, &occurrences, &values, &holdout, engine, 2, 3, 1);

    let h = mine("cart").unwrap();
    assert_eq!(h.name, "mined-d3-l1");
    assert_eq!(h.engine, "cart");
    assert_eq!((h.max_depth, h.min_leaf), (3, 1));
    assert_eq!(h.list.rules.len(), 2);
    assert_eq!(h.list.train_rows, 4);

    assert_eq!(mine("gbm").unwrap_err(), GeneratorError::Failed("unknown mine engine `gbm`".to_string()));
    assert_eq!(
        mine("linfa-trees").unwrap_err(),
        GeneratorError::Failed(
            "mine engine `linfa-trees` is unavailable: it fits trees on floating-point features".to_string()
        )
    );
}
