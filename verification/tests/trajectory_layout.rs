use motion_matching::trajectory::TrajectoryConfig;

#[test]
fn trajectory_points_are_history_current_then_prediction() {
    let config = TrajectoryConfig { interval_time: 0.1667f32, predict_count: 5, history_count: 1 };
    assert_eq!(config.num_segments(), 6);
    assert_eq!(config.num_points(), 7);
    assert_eq!(config.num_predict_points(), 6);
    assert_eq!(config.history_point_index(1), 0);
    assert_eq!(config.current_point_index(), 1);
    let predictions: Vec<usize> = (0..5).map(|i| config.prediction_point_index(i)).collect();
    assert_eq!(predictions, vec![2, 3, 4, 5, 6]);
}

#[test]
fn every_index_has_exactly_one_role() {
    let config = TrajectoryConfig { interval_time: (), predict_count: 3, history_count: 4 };
    let mut seen = vec![0; config.num_points()];
    for i in 1..=config.history_count {
        seen[config.history_point_index(i)] += 1;
    }
    seen[config.current_point_index()] += 1;
    for i in 0..config.predict_count {
        seen[config.prediction_point_index(i)] += 1;
    }
    assert!(seen.iter().all(|&n| n == 1));
    // The furthest history point comes first.
    assert_eq!(config.history_point_index(4), 0);
}
