use std::collections::VecDeque;

use motion_matching::motion_player::MotionPlayer;
use motion_matching::record::{record, resize_history, resize_records};

#[test]
fn target_index_alternates_between_both_slots() {
    let mut player = MotionPlayer::new(0.0f32);
    assert_eq!(player.target_pair_index(), 0);
    player.switch_target_index();
    assert_eq!(player.target_pair_index(), 1);
    player.switch_target_index();
    assert_eq!(player.target_pair_index(), 0);
    player.set_interp_factor(0.25);
    assert_eq!(*player.interp_factor(), 0.25);
    assert_eq!(player.target_pair_index(), 0);
}

#[test]
fn recording_pushes_front_and_drops_oldest() {
    let mut records: VecDeque<i32> = VecDeque::from(vec![3, 2, 1]);
    record(&mut records, 4);
    assert_eq!(records, VecDeque::from(vec![4, 3, 2]));
    let mut empty: VecDeque<i32> = VecDeque::new();
    record(&mut empty, 7);
    assert_eq!(empty, VecDeque::from(vec![7]));
}

#[test]
fn records_are_reset_only_on_length_change() {
    let mut records: VecDeque<u8> = VecDeque::from(vec![1, 2]);
    resize_records(&mut records, 2, 0);
    assert_eq!(records, VecDeque::from(vec![1, 2]));
    resize_records(&mut records, 3, 0);
    assert_eq!(records, VecDeque::from(vec![0, 0, 0]));
}

#[test]
fn history_grows_with_its_oldest_value_and_shrinks_from_the_back() {
    let mut histories: VecDeque<i32> = VecDeque::from(vec![5, 6]);
    resize_history(&mut histories, 4, 0);
    assert_eq!(histories, VecDeque::from(vec![5, 6, 6, 6]));
    resize_history(&mut histories, 1, 0);
    assert_eq!(histories, VecDeque::from(vec![5]));
    let mut empty: VecDeque<i32> = VecDeque::new();
    resize_history(&mut empty, 2, 9);
    assert_eq!(empty, VecDeque::from(vec![9, 9]));
}
