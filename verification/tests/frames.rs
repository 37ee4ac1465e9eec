use motion_matching::frames::{next_frame_index_clamped, next_frame_index_looped, surrounding_pose_indices};

#[test]
fn next_frame_holds_at_the_last_frame() {
    assert_eq!(next_frame_index_clamped(0, 5), 1);
    assert_eq!(next_frame_index_clamped(4, 5), 4);
    assert_eq!(next_frame_index_clamped(9, 5), 4);
    assert_eq!(next_frame_index_clamped(0, 1), 0);
}

#[test]
fn next_frame_loops_to_the_first_frame() {
    assert_eq!(next_frame_index_looped(3, 5), 4);
    assert_eq!(next_frame_index_looped(4, 5), 0);
    assert_eq!(next_frame_index_looped(0, 1), 0);
}

#[test]
fn surrounding_poses_stop_at_the_chunk_end() {
    assert_eq!(surrounding_pose_indices(4, 1), Some((1, 2)));
    assert_eq!(surrounding_pose_indices(4, 3), Some((3, 3)));
    assert_eq!(surrounding_pose_indices(4, 4), None);
    assert_eq!(surrounding_pose_indices(0, 0), None);
}
