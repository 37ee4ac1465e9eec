//! Chunks of poses, one chunk per animation clip.
use vstd::prelude::*;

use super::chunk::{ChunkIterator, ChunkOffsets};

verus! {

/// Stores chunks of poses.
///
/// `P` is the pose type and `I` the type of the interval time between two
/// poses; neither is inspected here.
#[derive(Debug)]
pub struct PoseData<P, I> {
    /// Pose data, chunk after chunk.
    poses: Vec<P>,
    /// Offset index of the pose chunks.
    offsets: ChunkOffsets,
    /// Is a chunk loopable?
    loopables: Vec<bool>,
    /// Duration between each pose.
    interval_time: I,
}

impl<P, I> ChunkIterator for PoseData<P, I> {
    type Item = P;

    closed spec fn spec_offsets(&self) -> ChunkOffsets {
        self.offsets
    }

    closed spec fn spec_items(&self) -> Seq<P> {
        self.poses@
    }

    fn offsets(&self) -> (offsets: &ChunkOffsets) {
        &self.offsets
    }

    fn items(&self) -> (items: &[P]) {
        self.poses.as_slice()
    }
}

impl<P, I> PoseData<P, I> {
    /// Whether each chunk is loopable, chunk by chunk.
    pub closed spec fn spec_loopables(&self) -> Seq<bool> {
        self.loopables@
    }

    /// Duration between each pose.
    pub closed spec fn spec_interval_time(&self) -> I {
        self.interval_time
    }

    /// The offsets cover exactly the poses, and there is one loopable flag
    /// per chunk.
    pub open spec fn wf(&self) -> bool {
        &&& self.spec_offsets().wf()
        &&& self.spec_offsets().spec_total_len() == self.spec_items().len()
        &&& self.spec_loopables().len() == self.spec_offsets().spec_num_chunks()
    }

    /// Empty pose data with the given interval between poses.
    pub fn new(interval: I) -> (data: Self)
        ensures
            data.wf(),
            data.spec_items() == Seq::<P>::empty(),
            data.spec_offsets()@ == seq![0usize],
            data.spec_loopables() == Seq::<bool>::empty(),
            data.spec_interval_time() == interval,
    {
        PoseData {
            poses: Vec::new(),
            offsets: ChunkOffsets::new(),
            loopables: Vec::new(),
            interval_time: interval,
        }
    }

    /// Append the frames of one animation clip as a new chunk.
    pub fn append_frames(&mut self, frames: Vec<P>, loopable: bool)
        requires
            old(self).wf(),
            old(self).spec_items().len() + frames@.len() <= usize::MAX,
        ensures
            final(self).wf(),
            final(self).spec_items() == old(self).spec_items() + frames@,
            final(self).spec_offsets()@ == old(self).spec_offsets()@.push(
                (old(self).spec_items().len() + frames@.len()) as usize,
            ),
            final(self).spec_loopables() == old(self).spec_loopables().push(loopable),
            final(self).spec_interval_time() == old(self).spec_interval_time(),
    {
        let mut frames = frames;
        self.offsets.push_chunk(frames.len());
        self.poses.append(&mut frames);
        self.loopables.push(loopable);
    }

    /// Whether the chunk `chunk_index` is loopable, or `None` when there is
    /// no such chunk.
    pub fn is_chunk_loopable(&self, chunk_index: usize) -> (loopable: Option<bool>)
        ensures
            loopable == (if chunk_index < self.spec_loopables().len() {
                Some(self.spec_loopables()[chunk_index as int])
            } else {
                None
            }),
    {
        if chunk_index < self.loopables.len() {
            Some(self.loopables[chunk_index])
        } else {
            None
        }
    }

    /// Whether the chunk `chunk_index`, which must exist, is loopable.
    pub fn is_chunk_loopable_unchecked(&self, chunk_index: usize) -> (loopable: bool)
        requires
            chunk_index < self.spec_loopables().len(),
        ensures
            loopable == self.spec_loopables()[chunk_index as int],
    {
        self.loopables[chunk_index]
    }

    /// Duration between each pose.
    pub fn interval_time(&self) -> (interval: &I)
        ensures
            *interval == self.spec_interval_time(),
    {
        &self.interval_time
    }

    /// Loopable flag of each chunk, chunk by chunk.
    pub fn loopables(&self) -> (loopables: &[bool])
        ensures
            loopables@ == self.spec_loopables(),
    {
        self.loopables.as_slice()
    }

    /// Rebuild pose data from its parts, as stored; [`Self::is_valid`] tells
    /// whether they fit together.
    pub fn from_parts(poses: Vec<P>, offsets: ChunkOffsets, loopables: Vec<bool>, interval: I) -> (data: Self)
        ensures
            data.spec_items() == poses@,
            data.spec_offsets() == offsets,
            data.spec_loopables() == loopables@,
            data.spec_interval_time() == interval,
    {
        PoseData { poses, offsets, loopables, interval_time: interval }
    }

    /// Whether the offsets are valid, cover exactly the poses, and there is
    /// one loopable flag per chunk.
    pub fn is_valid(&self) -> (valid: bool)
        ensures
            valid == self.wf(),
    {
        self.offsets.is_valid() && self.offsets.total_len() == self.poses.len()
            && self.loopables.len() == self.offsets.num_chunks()
    }
}

} // verus!
