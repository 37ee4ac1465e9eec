use motion_matching::motion_data::chunk::{ChunkIterator, ChunkOffsets};
use motion_matching::motion_data::trajectory_data::{TrajectoryData, TrajectoryDataConfig};
use motion_matching::motion_matching::{
    agreement_scores, best_pose_index, group_by_cluster, keep_nearest, nearest_within,
    prediction_window, push_nearest, sort_matches, trajectory_windows, MatchTrajectory,
};
use motion_matching::ranking::distance_rank;

fn m(rank: u32, chunk_index: usize, chunk_offset: usize) -> MatchTrajectory {
    MatchTrajectory { distance_rank: rank, chunk_index, chunk_offset }
}

#[test]
fn sorting_is_stable_by_rank() {
    let mut matches = vec![m(5, 0, 0), m(2, 0, 1), m(5, 1, 0), m(1, 1, 1), m(2, 2, 0)];
    sort_matches(&mut matches);
    assert_eq!(matches, vec![m(1, 1, 1), m(2, 0, 1), m(2, 2, 0), m(5, 0, 0), m(5, 1, 0)]);
    let mut empty: Vec<MatchTrajectory> = vec![];
    sort_matches(&mut empty);
    assert!(empty.is_empty());
}

#[test]
fn kept_matches_are_the_nearest_ones() {
    let ranks = [9u32, 4, 7, 1, 8, 4, 3, 10];
    let candidates: Vec<_> = ranks.iter().enumerate().map(|(i, &r)| m(r, 0, i)).collect();
    let mut nearest = Vec::new();
    for &c in &candidates {
        push_nearest(&mut nearest, c, 3);
        assert!(nearest.len() <= 3);
    }
    // The three smallest ranks, farthest last; ties keep arrival order.
    assert_eq!(nearest, vec![m(1, 0, 3), m(3, 0, 6), m(4, 0, 1)]);

    let mut all = candidates.clone();
    sort_matches(&mut all);
    assert_eq!(&all[..3], &nearest[..]);
}

#[test]
fn no_match_is_kept_when_none_is_wanted() {
    let mut nearest = Vec::new();
    push_nearest(&mut nearest, m(1, 0, 0), 0);
    assert!(nearest.is_empty());
}

#[test]
fn fewer_candidates_than_wanted_are_all_kept_sorted() {
    let mut nearest = Vec::new();
    push_nearest(&mut nearest, m(5, 0, 0), 4);
    push_nearest(&mut nearest, m(2, 0, 1), 4);
    assert_eq!(nearest, vec![m(2, 0, 1), m(5, 0, 0)]);
}

#[test]
fn keeping_over_all_candidates_gives_the_nearest_sorted() {
    let candidates = vec![m(5, 0, 0), m(3, 0, 1), m(1, 0, 2), m(4, 0, 3)];
    assert_eq!(keep_nearest(&candidates, 2), vec![m(1, 0, 2), m(3, 0, 1)]);
    assert_eq!(keep_nearest(&candidates, 9).len(), 4);
    assert!(keep_nearest(&candidates, 0).is_empty());
}

#[test]
fn candidates_beyond_the_threshold_are_skipped() {
    let candidates = vec![m(5, 0, 0), m(3, 0, 1), m(1, 0, 2), m(4, 0, 3), m(4, 1, 0)];
    assert_eq!(nearest_within(&candidates, 4, 2), vec![m(1, 0, 2), m(3, 0, 1)]);
    assert_eq!(nearest_within(&candidates, 4, 9), vec![m(1, 0, 2), m(3, 0, 1), m(4, 0, 3), m(4, 1, 0)]);
    assert!(nearest_within(&candidates, 0, 3).is_empty());
}

#[test]
fn distance_ranks_follow_the_order_of_distances() {
    let values = [f32::NEG_INFINITY, -2.5, -1.0, -0.0, 0.0, 1e-30, 0.5, 1.0, 3.0, f32::MAX, f32::INFINITY];
    for pair in values.windows(2) {
        let (a, b) = (distance_rank(pair[0].to_bits()), distance_rank(pair[1].to_bits()));
        if pair[0] < pair[1] {
            assert!(a < b, "{} < {}", pair[0], pair[1]);
        } else {
            assert_eq!(a, b);
        }
    }
    assert_eq!(distance_rank(1.0f32.to_bits()), 0xBF80_0000);
    assert_eq!(distance_rank((-0.0f32).to_bits()), distance_rank(0.0f32.to_bits()));
    assert_eq!(distance_rank(f32::NAN.to_bits()), u32::MAX);
    assert_eq!(distance_rank((-f32::NAN).to_bits()), u32::MAX);
    assert!(distance_rank(f32::INFINITY.to_bits()) < distance_rank(f32::NAN.to_bits()));
}

#[test]
fn single_nearest_match_replaces_only_when_strictly_nearer() {
    let mut nearest = vec![m(u32::MAX, 0, 0)];
    push_nearest(&mut nearest, m(7, 1, 2), 1);
    push_nearest(&mut nearest, m(7, 3, 4), 1);
    push_nearest(&mut nearest, m(9, 5, 6), 1);
    assert_eq!(nearest, vec![m(7, 1, 2)]);
}

#[test]
fn windows_cover_every_fitting_offset() {
    let offsets = ChunkOffsets::from_offsets(vec![0, 4, 6, 9]);
    // Windows of 3 points (2 segments).
    let windows = trajectory_windows(&offsets, 2);
    assert_eq!(windows, vec![(0, 0), (0, 1), (2, 0)]);
    let windows = trajectory_windows(&offsets, 0);
    assert_eq!(windows.len(), 9);
    assert_eq!(windows[4], (1, 0));
    let empty = trajectory_windows(&ChunkOffsets::new(), 5);
    assert!(empty.is_empty());
}

#[test]
fn prediction_window_continues_loops_or_asks_for_a_match() {
    // Enough points remain after the offset.
    assert_eq!(prediction_window(Some(10), Some(false), 4, 6), Some(4));
    // Not enough: a loopable chunk restarts, another needs a new match.
    assert_eq!(prediction_window(Some(10), Some(true), 6, 6), Some(0));
    assert_eq!(prediction_window(Some(10), Some(false), 6, 6), None);
    // Offset past the end of the chunk.
    assert_eq!(prediction_window(Some(10), Some(false), 12, 6), None);
    // Missing chunk or loop information.
    assert_eq!(prediction_window(None, Some(true), 0, 6), None);
    assert_eq!(prediction_window(Some(10), None, 0, 6), None);
}

#[test]
fn best_pose_is_the_first_smallest_below_the_initial_rank() {
    assert_eq!(best_pose_index(&[5, 3, 8, 3, 4], u32::MAX), 1);
    assert_eq!(best_pose_index(&[5, 6], 5), 0);
    assert_eq!(best_pose_index(&[7, 6, 2], 5), 2);
    assert_eq!(best_pose_index(&[], u32::MAX), 0);
}

#[test]
fn items_are_grouped_by_cluster() {
    let groups = group_by_cluster(&[2, 0, 2, 1, 0], 4);
    assert_eq!(groups, vec![vec![1, 4], vec![3], vec![0, 2], vec![]]);
    let none = group_by_cluster(&[], 2);
    assert_eq!(none, vec![Vec::<usize>::new(), vec![]]);
}

#[test]
fn agreement_counts_equal_indices_and_offsets() {
    let reference = [m(0, 1, 5), m(0, 2, 6), m(0, 3, 7)];
    let candidate = [m(9, 1, 4), m(9, 9, 6), m(9, 3, 7), m(9, 0, 0)];
    assert_eq!(agreement_scores(&reference, &candidate, 3), (2, 2));
    assert_eq!(agreement_scores(&reference, &candidate, 1), (1, 0));
    assert_eq!(agreement_scores(&reference, &candidate, 0), (0, 0));
}

#[test]
fn every_trajectory_chunk_offers_a_window() {
    let config = TrajectoryDataConfig { interval_time: 0.1f32, point_len: 3 };
    let mut data: TrajectoryData<u8, f32> = TrajectoryData::new(config);
    data.append_trajectory_chunk(&mut vec![0, 1, 2]);
    data.append_trajectory_chunk(&mut vec![0, 1, 2, 3, 4]);
    let windows = trajectory_windows(data.offsets(), 2);
    assert_eq!(windows, vec![(0, 0), (1, 0), (1, 1), (1, 2)]);
}
