use strategy_discovery::discovery::tree::{beats, fit, route, Counts, Node};

#[test]
fn finds_the_best_split() {
    let matrix = vec![vec![0, 5], vec![1, 5], vec![2, 5], vec![3, 5]];
    let labels = vec![0, 0, 1, 1];
    let tree = fit(&matrix, &labels, 2, 0, 1);
    match tree.root {
        Node::Split {
            column,
            threshold,
            left,
            right,
            ..
        } => {
            assert_eq!(column, 0);
            assert_eq!(threshold, 1);
            match *left {
                Node::Leaf { class, rows } => {
                    assert_eq!(class, 0);
                    assert_eq!(rows, vec![0, 1]);
                }
                _ => panic!("expected leaf"),
            }
            match *right {
                Node::Leaf { class, rows } => {
                    assert_eq!(class, 1);
                    assert_eq!(rows, vec![2, 3]);
                }
                _ => panic!("expected leaf"),
            }
        }
        _ => panic!("expected split"),
    }
}

#[test]
fn ties_break_to_the_lower_column() {
    let matrix = vec![vec![0, 0], vec![1, 1], vec![2, 2], vec![3, 3]];
    let labels = vec![0, 0, 1, 1];
    let tree = fit(&matrix, &labels, 2, 0, 1);
    match tree.root {
        Node::Split { column, threshold, .. } => {
            assert_eq!(column, 0);
            assert_eq!(threshold, 1);
        }
        _ => panic!("expected split"),
    }
}

#[test]
fn min_leaf_blocks_and_allows_splits() {
    let matrix = vec![vec![0, 0], vec![1, 1], vec![2, 2], vec![3, 3]];
    let labels = vec![0, 0, 1, 1];

    let blocked = fit(&matrix, &labels, 2, 0, 3);
    match blocked.root {
        Node::Leaf { .. } => {}
        _ => panic!("expected leaf"),
    }

    let allowed = fit(&matrix, &labels, 2, 0, 2);
    match allowed.root {
        Node::Split { threshold, .. } => assert_eq!(threshold, 1),
        _ => panic!("expected split"),
    }
}

#[test]
fn pure_nodes_stop() {
    let matrix = vec![vec![0], vec![1], vec![2], vec![3]];
    let labels = vec![0, 0, 0, 0];
    let tree = fit(&matrix, &labels, 1, 0, 1);
    match tree.root {
        Node::Leaf { class, .. } => assert_eq!(class, 0),
        _ => panic!("expected leaf"),
    }
}

#[test]
fn max_depth_limits_and_zero_is_unlimited() {
    let matrix = vec![vec![0], vec![1], vec![2], vec![3], vec![4], vec![5]];
    let labels = vec![0, 0, 1, 1, 2, 2];

    let limited = fit(&matrix, &labels, 3, 1, 1);
    match limited.root {
        Node::Split {
            threshold, left, right, ..
        } => {
            assert_eq!(threshold, 1);
            match *left {
                Node::Leaf { class, .. } => assert_eq!(class, 0),
                _ => panic!("expected leaf"),
            }
            match *right {
                Node::Leaf { class, rows } => {
                    assert_eq!(class, 1);
                    assert_eq!(rows, vec![2, 3, 4, 5]);
                }
                _ => panic!("expected leaf"),
            }
        }
        _ => panic!("expected split"),
    }

    let unlimited = fit(&matrix, &labels, 3, 0, 1);
    assert_eq!(unlimited.depth(), 2);
    match unlimited.root {
        Node::Split {
            threshold, left, right, ..
        } => {
            assert_eq!(threshold, 1);
            match *left {
                Node::Leaf { class, rows } => {
                    assert_eq!(class, 0);
                    assert_eq!(rows, vec![0, 1]);
                }
                _ => panic!("expected leaf"),
            }
            match *right {
                Node::Split {
                    threshold, left, right, ..
                } => {
                    assert_eq!(threshold, 3);
                    match *left {
                        Node::Leaf { class, rows } => {
                            assert_eq!(class, 1);
                            assert_eq!(rows, vec![2, 3]);
                        }
                        _ => panic!("expected leaf"),
                    }
                    match *right {
                        Node::Leaf { class, rows } => {
                            assert_eq!(class, 2);
                            assert_eq!(rows, vec![4, 5]);
                        }
                        _ => panic!("expected leaf"),
                    }
                }
                _ => panic!("expected split"),
            }
        }
        _ => panic!("expected split"),
    }
}

#[test]
fn fit_twice_is_identical() {
    let matrix = vec![vec![0], vec![1], vec![2], vec![3], vec![4], vec![5]];
    let labels = vec![0, 0, 1, 1, 2, 2];
    assert_eq!(fit(&matrix, &labels, 3, 0, 1), fit(&matrix, &labels, 3, 0, 1));
}

#[test]
fn empty_matrix_is_a_lone_leaf() {
    let matrix: Vec<Vec<i64>> = Vec::new();
    let labels: Vec<usize> = Vec::new();
    let tree = fit(&matrix, &labels, 2, 0, 1);
    assert_eq!(tree.root, Node::Leaf { class: 0, rows: vec![] });
    assert_eq!(tree.depth(), 0);
}

#[test]
fn no_improving_split_leaves_a_leaf() {
    // Each threshold leaves the classes as mixed as the parent: no split strictly improves.
    let matrix = vec![vec![0], vec![0], vec![1], vec![1]];
    let labels = vec![0, 1, 0, 1];
    let tree = fit(&matrix, &labels, 2, 0, 1);
    assert_eq!(tree.root, Node::Leaf { class: 0, rows: vec![0, 1, 2, 3] });
}

#[test]
fn constant_columns_offer_no_split() {
    let matrix = vec![vec![7, 7], vec![7, 7], vec![7, 7]];
    let labels = vec![1, 0, 1];
    let tree = fit(&matrix, &labels, 2, 0, 1);
    assert_eq!(tree.root, Node::Leaf { class: 1, rows: vec![0, 1, 2] });
}

#[test]
fn negative_values_split_below_zero() {
    let matrix = vec![vec![-3], vec![-1], vec![2], vec![4]];
    let labels = vec![1, 1, 0, 0];
    let tree = fit(&matrix, &labels, 2, 0, 1);
    match tree.root {
        Node::Split { column, threshold, .. } => {
            assert_eq!(column, 0);
            assert_eq!(threshold, -1);
        }
        _ => panic!("expected split"),
    }
}

#[test]
fn later_column_wins_when_strictly_better() {
    // Column 0 separates three of four rows, column 1 separates all of them.
    let matrix = vec![vec![0, 0], vec![0, 0], vec![1, 1], vec![0, 1]];
    let labels = vec![0, 0, 1, 1];
    let tree = fit(&matrix, &labels, 2, 0, 1);
    match tree.root {
        Node::Split { column, threshold, left, right, .. } => {
            assert_eq!(column, 1);
            assert_eq!(threshold, 0);
            assert_eq!(*left, Node::Leaf { class: 0, rows: vec![0, 1] });
            assert_eq!(*right, Node::Leaf { class: 1, rows: vec![2, 3] });
        }
        _ => panic!("expected split"),
    }
}

#[test]
fn cloned_tree_is_equal() {
    let matrix = vec![vec![0], vec![1], vec![2], vec![3]];
    let labels = vec![0, 0, 1, 1];
    let tree = fit(&matrix, &labels, 2, 0, 1);
    assert_eq!(tree.clone(), tree);
}

#[test]
fn depth_limit_of_one_allows_one_split() {
    let matrix = vec![vec![0], vec![1], vec![2], vec![3], vec![4], vec![5]];
    let labels = vec![0, 1, 0, 1, 0, 1];
    for max_depth in 1..4 {
        let tree = fit(&matrix, &labels, 2, max_depth, 1);
        assert!(tree.depth() <= max_depth);
    }
}

#[test]
fn counts_from_rows_counts_each_class() {
    let labels = vec![0, 2, 2, 1, 2];
    let counts = Counts::from_rows(&labels, &[1, 2, 4, 0], 3);
    assert_eq!(counts.counts, vec![1, 0, 3]);
    assert_eq!(counts.a, 10);
    assert_eq!(counts.n, 4);
}

#[test]
fn modal_class_ties_to_the_lowest() {
    let labels = vec![1, 2, 1, 2, 0];
    let counts = Counts::from_rows(&labels, &[0, 1, 2, 3, 4], 3);
    assert_eq!(counts.modal_class(), 1);
    let empty = Counts::from_rows(&labels, &[], 0);
    assert_eq!(empty.modal_class(), 0);
}

#[test]
fn purity_needs_at_most_one_class() {
    let labels = vec![1, 1, 0];
    assert!(Counts::from_rows(&labels, &[0, 1], 2).is_pure());
    assert!(!Counts::from_rows(&labels, &[0, 2], 2).is_pure());
    assert!(Counts::from_rows(&labels, &[], 2).is_pure());
}

#[test]
fn right_side_purity_from_left_counts() {
    let labels = vec![0, 0, 1, 1, 1];
    let parent = Counts::from_rows(&labels, &[0, 1, 2, 3, 4], 2);
    // Left holds one row of class 0 and two of class 1: right holds one of each.
    assert_eq!(parent.right_a_from_counts(&[1, 2]), 2);
    assert_eq!(parent.right_a_from_counts(&[0, 0]), 13);
}

#[test]
fn beats_compares_weighted_purity() {
    // 4/2 + 4/2 = 4 against 4/2 + 2/2 = 3.
    assert!(beats(4, 2, 4, 2, 4, 2, 2, 2));
    assert!(!beats(4, 2, 2, 2, 4, 2, 4, 2));
    // Equal scores do not beat each other.
    assert!(!beats(4, 2, 4, 2, 4, 2, 4, 2));
}

#[test]
fn beats_is_exact_on_sides_of_any_size() {
    assert_eq!(beats(21267647932558653966460912964485513216, 4611686018427387904, 21267647932558653966460912964485513215, 4611686018427387904, 21267647932558653966460912964485513215, 4611686018427387904, 21267647932558653966460912964485513216, 4611686018427387904), false);
    assert_eq!(beats(21267647932558653966460912964485513216, 4611686018427387904, 21267647932558653966460912964485513215, 4611686018427387904, 21267647932558653966460912964485513214, 4611686018427387904, 21267647932558653966460912964485513216, 4611686018427387904), true);
    assert_eq!(beats(21267647932558653966460912964485513214, 4611686018427387904, 21267647932558653966460912964485513216, 4611686018427387904, 21267647932558653966460912964485513215, 4611686018427387904, 21267647932558653966460912964485513216, 4611686018427387904), false);
    assert_eq!(beats(15814340477527171916045604493327428155, 4712128852136459334, 32391301221540370324069076945627048098, 6613812840851947674, 5302677976162818932720947631779735912, 4594210616595436405, 542525793473955682435819008215970713, 956523682424107606), true);
    assert_eq!(beats(3527376443026705369577178205239494169, 3358703120032737310, 26682507339090944230062504611738426752, 7183850473961985350, 482958098540807142224793202881612868, 1326906338224231256, 16748616683524809186628932308813729175, 8205770171119394380), true);
    assert_eq!(beats(5616568845400224484888409162205960522, 7069225725891199283, 50853690925576595023658625703438119, 397900185494973937, 15718768670331097277441365758547467717, 7653677975526109579, 7491319927162762526032697737044107487, 4866471433331325029), false);
    assert_eq!(beats(10467374451038504204347683393932050049, 4725720759045430516, 39320083763927351072912884979661136918, 6597368502031651074, 39374903300947421348454203501761977296, 7457909554320907579, 25169309218293915427573587800585866289, 7725998870071162791), false);
}

#[test]
fn training_rows_route_to_their_leaf() {
    let matrix = vec![vec![0, 9], vec![1, 8], vec![2, 7], vec![3, 6], vec![4, 5], vec![5, 4]];
    let labels = vec![0, 0, 1, 1, 2, 2];
    let tree = fit(&matrix, &labels, 3, 0, 1);
    for (r, values) in matrix.iter().enumerate() {
        match route(&tree.root, values) {
            Node::Leaf { class, rows } => {
                assert!(rows.contains(&r));
                assert_eq!(*class, labels[r]);
            }
            _ => panic!("expected leaf"),
        }
    }
}

#[test]
fn unseen_values_route_by_threshold() {
    let matrix = vec![vec![0], vec![1], vec![2], vec![3]];
    let labels = vec![0, 0, 1, 1];
    let tree = fit(&matrix, &labels, 2, 0, 1);
    assert_eq!(route(&tree.root, &[-10]), &Node::Leaf { class: 0, rows: vec![0, 1] });
    assert_eq!(route(&tree.root, &[1]), &Node::Leaf { class: 0, rows: vec![0, 1] });
    assert_eq!(route(&tree.root, &[10]), &Node::Leaf { class: 1, rows: vec![2, 3] });
}
