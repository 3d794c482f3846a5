use strategy_discovery::discovery::dataset::{column_tiers, dataset_columns, qualify_classes, DatasetColumn, RowClasses};
use strategy_discovery::framework::features::FeatureDef;
use strategy_discovery::framework::features::{FeatureValue, Tier};

fn classes() -> Vec<(Tier, Vec<usize>)> {
    vec![
        // Every free cell: covers non-optimal legal moves.
        (Tier::Primitive, vec![2, 5, 6, 7, 8]),
        // The winning cells.
        (Tier::Supplied, vec![2]),
        // The cells blocking the opponent: legal but not optimal.
        (Tier::Supplied, vec![5]),
        // Corners: a legal part of {2, 6, 8}.
        (Tier::Primitive, vec![0, 2, 6, 8]),
        // Occupied cells only: an empty legal part.
        (Tier::Primitive, vec![0, 1, 3, 4]),
    ]
}

#[test]
fn winning_cells_explain_a_winning_move() {
    // X to move on XX.OO....: only 2 wins.
    let legal = [2, 5, 6, 7, 8];
    let optimal = [2];
    let r = qualify_classes(&legal, &optimal, &classes());
    assert_eq!(r, RowClasses { qualifying: vec![1], label: Some(1) });
}

#[test]
fn higher_tier_then_smaller_part_then_earlier_class_labels() {
    let legal = [0, 2, 6, 8];
    let optimal = [0, 2, 6, 8];
    let classes = vec![
        (Tier::Primitive, vec![0]),
        (Tier::Supplied, vec![0, 2, 6]),
        (Tier::Supplied, vec![2, 6]),
        (Tier::Supplied, vec![6, 8]),
        (Tier::Primitive, vec![4]),
    ];
    let r = qualify_classes(&legal, &optimal, &classes);
    assert_eq!(r.qualifying, vec![0, 1, 2, 3]);
    // Supplied beats primitive; among supplied, the smallest legal part; then the earliest.
    assert_eq!(r.label, Some(2));

    let mut invented = classes.clone();
    invented.push((Tier::Invented, vec![0, 2, 6, 8]));
    assert_eq!(qualify_classes(&legal, &optimal, &invented).label, Some(5));
}

#[test]
fn no_qualifying_class_leaves_the_row_unlabeled() {
    let legal = [5, 6, 7];
    let optimal = [5];
    let classes = vec![(Tier::Supplied, vec![5, 6]), (Tier::Primitive, vec![0, 1])];
    assert_eq!(qualify_classes(&legal, &optimal, &classes), RowClasses { qualifying: vec![], label: None });
    assert_eq!(qualify_classes(&legal, &optimal, &[]), RowClasses { qualifying: vec![], label: None });
}

#[test]
fn repeated_positions_count_once() {
    // The legal part of the second class is {2, 6}, of size 2, whatever the repeats.
    let legal = [2, 6, 2, 6, 8];
    let optimal = [2, 6, 8];
    let classes = vec![(Tier::Supplied, vec![2, 6, 6]), (Tier::Supplied, vec![2, 6, 8])];
    assert_eq!(qualify_classes(&legal, &optimal, &classes), RowClasses { qualifying: vec![0, 1], label: Some(0) });
}

#[test]
fn columns_follow_the_vocabulary_with_kinds_from_the_first_row() {
    let def = |name: &str, tier: Tier| FeatureDef { name: name.to_string(), tier, description: format!("{name} desc") };
    let defs = vec![def("x_count", Tier::Primitive), def("wins", Tier::Supplied), def("center", Tier::Primitive)];
    let first = vec![FeatureValue::Int(2), FeatureValue::CellSet(vec![4]), FeatureValue::Bool(true)];
    let columns = dataset_columns(&defs, &first);
    assert_eq!(
        columns,
        vec![
            DatasetColumn { name: "x_count".into(), tier: Tier::Primitive, kind: "int".into(), description: "x_count desc".into() },
            DatasetColumn { name: "wins".into(), tier: Tier::Supplied, kind: "set".into(), description: "wins desc".into() },
            DatasetColumn { name: "center".into(), tier: Tier::Primitive, kind: "bool".into(), description: "center desc".into() },
        ]
    );
    assert_eq!(column_tiers(&columns), vec!["primitive".to_string(), "supplied".to_string()]);
    assert_eq!(column_tiers(&[]), Vec::<String>::new());
}
