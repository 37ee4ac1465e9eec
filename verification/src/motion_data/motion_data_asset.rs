//! Joints, trajectories and poses of several animation clips in one asset.
use vstd::prelude::*;

use super::chunk::ChunkIterator;
use super::pose_data::PoseData;
use super::trajectory_data::{TrajectoryData, TrajectoryDataConfig};

verus! {

/// A memory and storage efficient storage of joints and of the trajectory
/// and pose data of several clips: chunk `i` of the trajectory data and
/// chunk `i` of the pose data come from the same clip.
///
/// `J` is the joint type, `P` the pose type, `Q` the trajectory point type
/// and `I` the type of interval times.
#[derive(Debug)]
pub struct MotionDataAsset<J, P, Q, I> {
    /// Joint data.
    joints: Vec<J>,
    /// Trajectory data for trajectory matching.
    pub trajectory_data: TrajectoryData<Q, I>,
    /// Pose data for pose matching and animation sampling.
    pub pose_data: PoseData<P, I>,
}

impl<J, P, Q, I> MotionDataAsset<J, P, Q, I> {
    /// Trajectory data for trajectory matching.
    pub closed spec fn spec_trajectory_data(&self) -> TrajectoryData<Q, I> {
        self.trajectory_data
    }

    /// Pose data for pose matching and animation sampling.
    pub closed spec fn spec_pose_data(&self) -> PoseData<P, I> {
        self.pose_data
    }

    /// Joint data.
    pub closed spec fn spec_joints(&self) -> Seq<J> {
        self.joints@
    }

    /// Both data are well formed and hold one chunk per clip each.
    pub open spec fn wf(&self) -> bool {
        &&& self.spec_trajectory_data().wf()
        &&& self.spec_pose_data().wf()
        &&& self.spec_trajectory_data().spec_offsets().spec_num_chunks()
            == self.spec_pose_data().spec_offsets().spec_num_chunks()
    }

    /// An asset with the given joints and no clip yet.
    pub fn new(joints: Vec<J>, config: TrajectoryDataConfig<I>, pose_interval: I) -> (asset: Self)
        ensures
            asset.wf(),
            asset.spec_joints() == joints@,
            asset.spec_trajectory_data().spec_items() == Seq::<Q>::empty(),
            asset.spec_trajectory_data().spec_config() == config,
            asset.spec_pose_data().spec_items() == Seq::<P>::empty(),
            asset.spec_pose_data().spec_interval_time() == pose_interval,
            asset.spec_pose_data().spec_offsets().spec_num_chunks() == 0,
    {
        MotionDataAsset {
            joints,
            trajectory_data: TrajectoryData::new(config),
            pose_data: PoseData::new(pose_interval),
        }
    }

    /// Rebuild an asset from its parts, as stored; [`Self::is_valid`] tells
    /// whether they fit together.
    pub fn from_parts(
        joints: Vec<J>,
        trajectory_data: TrajectoryData<Q, I>,
        pose_data: PoseData<P, I>,
    ) -> (asset: Self)
        ensures
            asset.spec_joints() == joints@,
            asset.spec_trajectory_data() == trajectory_data,
            asset.spec_pose_data() == pose_data,
    {
        MotionDataAsset { joints, trajectory_data, pose_data }
    }

    /// Whether both data are valid and hold the same number of chunks.
    pub fn is_valid(&self) -> (valid: bool)
        ensures
            valid == self.wf(),
    {
        self.trajectory_data.is_valid() && self.pose_data.is_valid()
            && self.trajectory_data.offsets().num_chunks() == self.pose_data.offsets().num_chunks()
    }

    /// Append one clip: its trajectory points as a trajectory chunk (emptying
    /// `trajectory`) and its frames as a pose chunk.
    pub fn append_clip(&mut self, trajectory: &mut Vec<Q>, frames: Vec<P>, loopable: bool)
        requires
            old(self).wf(),
            old(trajectory)@.len() >= old(self).spec_trajectory_data().spec_config().point_len,
            old(self).spec_trajectory_data().spec_items().len() + old(trajectory)@.len() <= usize::MAX,
            old(self).spec_pose_data().spec_items().len() + frames@.len() <= usize::MAX,
        ensures
            final(self).wf(),
            final(self).spec_joints() == old(self).spec_joints(),
            final(self).spec_trajectory_data().spec_items() == old(self).spec_trajectory_data().spec_items()
                + old(trajectory)@,
            final(self).spec_trajectory_data().spec_offsets()@ == old(
                self,
            ).spec_trajectory_data().spec_offsets()@.push(
                (old(self).spec_trajectory_data().spec_items().len() + old(trajectory)@.len()) as usize,
            ),
            final(self).spec_trajectory_data().spec_config() == old(self).spec_trajectory_data().spec_config(),
            final(self).spec_pose_data().spec_items() == old(self).spec_pose_data().spec_items() + frames@,
            final(self).spec_pose_data().spec_offsets()@ == old(self).spec_pose_data().spec_offsets()@.push(
                (old(self).spec_pose_data().spec_items().len() + frames@.len()) as usize,
            ),
            final(self).spec_pose_data().spec_loopables() == old(self).spec_pose_data().spec_loopables().push(
                loopable,
            ),
            final(self).spec_pose_data().spec_interval_time() == old(self).spec_pose_data().spec_interval_time(),
            final(trajectory)@ == Seq::<Q>::empty(),
    {
        self.trajectory_data.append_trajectory_chunk(trajectory);
        self.pose_data.append_frames(frames, loopable);
    }

    /// Trajectory data for trajectory matching.
    pub fn trajectory_data(&self) -> (data: &TrajectoryData<Q, I>)
        ensures
            *data == self.spec_trajectory_data(),
    {
        &self.trajectory_data
    }

    /// Pose data for pose matching and animation sampling.
    pub fn pose_data(&self) -> (data: &PoseData<P, I>)
        ensures
            *data == self.spec_pose_data(),
    {
        &self.pose_data
    }

    /// Joint data.
    pub fn joints(&self) -> (joints: &[J])
        ensures
            joints@ == self.spec_joints(),
    {
        self.joints.as_slice()
    }

    /// The joint at `index`, or `None` when there is no such joint.
    pub fn get_joint(&self, index: usize) -> (joint: Option<&J>)
        ensures
            joint == (if index < self.spec_joints().len() {
                Some(&self.spec_joints()[index as int])
            } else {
                None
            }),
    {
        if index < self.joints.len() {
            Some(&self.joints[index])
        } else {
            None
        }
    }
}

/// Number of trajectory points to sample from a clip that spans `point_len`
/// points, when at least `min_point_len` points are wanted per chunk:
/// `None` (skip the clip) when it spans no point, or when it is shorter than
/// `min_point_len` and cannot loop; otherwise the larger of both counts (a
/// loopable clip is sampled past its end by looping).
pub fn trajectory_point_count(point_len: usize, loopable: bool, min_point_len: usize) -> (count:
    Option<usize>)
    ensures
        count == (if point_len < 1 || (!loopable && point_len < min_point_len) {
            None::<usize>
        } else if point_len < min_point_len {
            Some(min_point_len)
        } else {
            Some(point_len)
        }),
        count matches Some(n) ==> n >= min_point_len && n >= point_len,
{
    if point_len < 1 {
        return None;
    }
    if !loopable && point_len < min_point_len {
        return None;
    }
    if point_len < min_point_len {
        Some(min_point_len)
    } else {
        Some(point_len)
    }
}

} // verus!
