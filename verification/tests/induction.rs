use strategy_discovery::discovery::induction::candidate_thresholds;

#[test]
fn thresholds_are_the_training_values_ascending_and_capped() {
    let values = vec![5, -1, 3, 5, 9, 3, 0];
    let train = vec![0, 1, 2, 3, 5];
    assert_eq!(candidate_thresholds(&values, &train, 8), vec![-1, 3, 5]);
    assert_eq!(candidate_thresholds(&values, &train, 2), vec![-1, 3]);
    assert_eq!(candidate_thresholds(&values, &train, 0), Vec::<i64>::new());
    assert_eq!(candidate_thresholds(&values, &[], 4), Vec::<i64>::new());
    assert_eq!(candidate_thresholds(&values, &[6, 4], 4), vec![0, 9]);
}
