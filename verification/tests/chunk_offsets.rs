use motion_matching::motion_data::chunk::{ChunkIterator, ChunkOffsets};
use motion_matching::motion_data::pose_data::PoseData;
use motion_matching::motion_data::trajectory_data::{TrajectoryData, TrajectoryDataConfig};

fn offsets_3_5_7() -> ChunkOffsets {
    let mut offsets = ChunkOffsets::new();
    offsets.push_chunk(3);
    offsets.push_chunk(2);
    offsets.push_chunk(2);
    offsets
}

#[test]
fn new_offsets_hold_no_chunk() {
    let offsets = ChunkOffsets::new();
    assert_eq!(offsets.num_chunks(), 0);
    assert_eq!(offsets.as_slice(), &[0]);
    assert_eq!(offsets.get_chunk(0), None);
    assert_eq!(offsets.total_len(), 0);
    let default = ChunkOffsets::default();
    assert_eq!(default.as_slice(), &[0]);
}

#[test]
fn pushed_chunks_are_listed_in_order() {
    let offsets = offsets_3_5_7();
    assert_eq!(offsets.as_slice(), &[0, 3, 5, 7]);
    assert_eq!(offsets.num_chunks(), 3);
    assert_eq!(offsets.get_chunk(0), Some((0, 3)));
    assert_eq!(offsets.get_chunk(1), Some((3, 5)));
    assert_eq!(offsets.get_chunk(2), Some((5, 7)));
    assert_eq!(offsets.get_chunk(3), None);
    assert_eq!(offsets.get_chunk(usize::MAX), None);
    assert_eq!(offsets.get_chunk_unchecked(1), (3, 5));
    assert_eq!(offsets.total_len(), 7);
}

#[test]
fn iteration_yields_contiguous_chunks() {
    let offsets = offsets_3_5_7();
    let mut iter = offsets.iter();
    let mut prev_end = 0;
    let mut count = 0;
    while let Some((start, end)) = iter.next() {
        // Start index always equals the previous end index.
        assert_eq!(start, prev_end);
        // End index is larger than the start index for non-empty chunks.
        assert!(end > start);
        prev_end = end;
        count += 1;
    }
    assert_eq!(count, 3);
    assert_eq!(prev_end, 7);
    // Once exhausted the iterator keeps yielding nothing.
    assert_eq!(iter.next(), None);
}

#[test]
fn empty_chunk_starts_where_it_ends() {
    let mut offsets = ChunkOffsets::new();
    offsets.push_chunk(4);
    offsets.push_chunk(0);
    assert_eq!(offsets.get_chunk(1), Some((4, 4)));
    assert_eq!(offsets.num_chunks(), 2);
}

#[test]
fn rebuilt_offsets_are_kept_as_stored_and_checked() {
    let rebuilt = ChunkOffsets::from_offsets(vec![0, 3, 5, 7]);
    assert!(rebuilt.is_valid());
    assert_eq!(rebuilt.get_chunk(2), Some((5, 7)));
    assert!(!ChunkOffsets::from_offsets(vec![]).is_valid());
    let shifted = ChunkOffsets::from_offsets(vec![1, 3]);
    assert!(!shifted.is_valid());
    assert_eq!(shifted.as_slice(), &[1, 3]);
    assert_eq!(shifted.get_chunk(0), Some((1, 3)));
    assert!(!ChunkOffsets::from_offsets(vec![0, 5, 3]).is_valid());
    assert!(ChunkOffsets::from_offsets(vec![0]).is_valid());
}

#[test]
fn pushed_lengths_give_as_many_contiguous_chunks() {
    let lens = [3usize, 1, 4, 1, 5];
    let mut offsets = ChunkOffsets::new();
    for &len in &lens {
        offsets.push_chunk(len);
    }
    assert_eq!(offsets.num_chunks(), lens.len());
    let mut prev_end = 0;
    let mut iter = offsets.iter();
    for &len in &lens {
        let (start, end) = iter.next().expect("one chunk per push");
        assert_eq!(start, prev_end);
        assert!(end > start);
        assert_eq!(end - start, len);
        prev_end = end;
    }
    assert_eq!(iter.next(), None);
    assert_eq!(iter.next(), None);
}

#[test]
fn pose_chunks_follow_appended_frames() {
    let mut poses: PoseData<u32, f32> = PoseData::new(0.5);
    poses.append_frames(vec![10, 11, 12], true);
    poses.append_frames(vec![20, 21], false);
    assert_eq!(poses.items(), &[10, 11, 12, 20, 21]);
    assert_eq!(poses.offsets().as_slice(), &[0, 3, 5]);
    assert_eq!(poses.get_chunk(0), Some(&[10u32, 11, 12][..]));
    assert_eq!(poses.get_chunk(1), Some(&[20u32, 21][..]));
    assert_eq!(poses.get_chunk(2), None);
    assert_eq!(poses.get_chunk_unchecked(1), &[20, 21]);
    assert_eq!(poses.is_chunk_loopable(0), Some(true));
    assert_eq!(poses.is_chunk_loopable(1), Some(false));
    assert_eq!(poses.is_chunk_loopable(2), None);
    assert!(poses.is_chunk_loopable_unchecked(0));
    assert_eq!(*poses.interval_time(), 0.5);
    assert_eq!(poses.loopables(), &[true, false]);
    let chunks = poses.iter_chunk();
    assert_eq!(chunks.len(), 2);
    assert_eq!(chunks[0], &[10, 11, 12]);
    assert_eq!(chunks[1], &[20, 21]);
}

#[test]
fn pose_data_is_checked_when_rebuilt() {
    let offsets = ChunkOffsets::from_offsets(vec![0, 2]);
    let ok = PoseData::from_parts(vec![1u8, 2], offsets, vec![false], 1.0f32);
    assert!(ok.is_valid());
    assert_eq!(ok.items(), &[1, 2]);
    let offsets = ChunkOffsets::from_offsets(vec![0, 2]);
    assert!(!PoseData::from_parts(vec![1u8, 2, 3], offsets, vec![false], 1.0f32).is_valid());
    let offsets = ChunkOffsets::from_offsets(vec![0, 2]);
    assert!(!PoseData::from_parts(vec![1u8, 2], offsets, vec![], 1.0f32).is_valid());
}

#[test]
fn trajectory_chunk_holds_appended_points() {
    let config = TrajectoryDataConfig { interval_time: 0.1667f32, point_len: 2 };
    let mut data: TrajectoryData<i32, f32> = TrajectoryData::new(config);
    let mut points = vec![1, 2, 3];
    data.append_trajectory_chunk(&mut points);
    // The passed in points are emptied into the data.
    assert!(points.is_empty());
    let mut more = vec![4, 5];
    data.append_trajectory_chunk(&mut more);
    assert_eq!(data.items(), &[1, 2, 3, 4, 5]);
    assert_eq!(data.offsets().as_slice(), &[0, 3, 5]);
    assert_eq!(data.get_chunk(0), Some(&[1, 2, 3][..]));
    assert_eq!(data.get_chunk(1), Some(&[4, 5][..]));
    assert_eq!(data.config().point_len, 2);
    assert_eq!(data.config().interval_time, 0.1667f32);
}

#[test]
fn trajectory_data_is_checked_when_rebuilt() {
    let config = TrajectoryDataConfig { interval_time: 0.1f32, point_len: 2 };
    let offsets = ChunkOffsets::from_offsets(vec![0, 2, 5]);
    assert!(TrajectoryData::from_parts(vec![0u8; 5], offsets, config).is_valid());
    let offsets = ChunkOffsets::from_offsets(vec![0, 1, 5]);
    assert!(!TrajectoryData::from_parts(vec![0u8; 5], offsets, config).is_valid());
    let offsets = ChunkOffsets::from_offsets(vec![0, 2, 5]);
    assert!(!TrajectoryData::from_parts(vec![0u8; 4], offsets, config).is_valid());
    let offsets = ChunkOffsets::from_offsets(vec![0, 3, 2]);
    assert!(!TrajectoryData::from_parts(vec![0u8; 2], offsets, config).is_valid());
}
