//! Chunks of trajectory points, one chunk per animation clip.
use vstd::prelude::*;

use super::chunk::{ChunkIterator, ChunkOffsets, lemma_chunk_bounds, spec_chunk_items};

verus! {

/// Configuration of the trajectory data.
///
/// `I` is the type of the interval time between two points.
#[derive(Clone, Copy, Debug)]
pub struct TrajectoryDataConfig<I> {
    /// Interval time between each data point.
    pub interval_time: I,
    /// Number of data points per trajectory.
    pub point_len: usize,
}

/// Stores chunks of trajectory points.
///
/// `P` is the point type; it is not inspected here.
#[derive(Debug)]
pub struct TrajectoryData<P, I> {
    /// Trajectory points, chunk after chunk.
    points: Vec<P>,
    /// Offset index of the point chunks.
    offsets: ChunkOffsets,
    /// Interval time and minimum chunk length.
    config: TrajectoryDataConfig<I>,
}

impl<P, I> ChunkIterator for TrajectoryData<P, I> {
    type Item = P;

    closed spec fn spec_offsets(&self) -> ChunkOffsets {
        self.offsets
    }

    closed spec fn spec_items(&self) -> Seq<P> {
        self.points@
    }

    fn offsets(&self) -> (offsets: &ChunkOffsets) {
        &self.offsets
    }

    fn items(&self) -> (items: &[P]) {
        self.points.as_slice()
    }
}

/// Every chunk of the offsets holds at least `min_len` items.
pub open spec fn chunks_at_least(offsets: ChunkOffsets, min_len: usize) -> bool {
    forall|i: int|
        0 <= i < offsets.spec_num_chunks() ==> #[trigger] offsets.spec_chunk(i).1 - offsets.spec_chunk(
            i,
        ).0 >= min_len
}

impl<P, I> TrajectoryData<P, I> {
    /// The configuration the data was created with.
    pub closed spec fn spec_config(&self) -> TrajectoryDataConfig<I> {
        self.config
    }

    /// The offsets cover exactly the points, and every chunk holds at least
    /// the configured number of points.
    pub open spec fn wf(&self) -> bool {
        &&& self.spec_offsets().wf()
        &&& self.spec_offsets().spec_total_len() == self.spec_items().len()
        &&& chunks_at_least(self.spec_offsets(), self.spec_config().point_len)
    }

    /// Empty trajectory data with the given configuration.
    pub fn new(config: TrajectoryDataConfig<I>) -> (data: Self)
        ensures
            data.wf(),
            data.spec_items() == Seq::<P>::empty(),
            data.spec_offsets()@ == seq![0usize],
            data.spec_config() == config,
    {
        TrajectoryData { points: Vec::new(), offsets: ChunkOffsets::new(), config }
    }

    /// Append the trajectory points as a chunk while emptying the passed in
    /// points. The trajectory must have at least the configured length.
    pub fn append_trajectory_chunk(&mut self, trajectory: &mut Vec<P>)
        requires
            old(self).wf(),
            old(trajectory)@.len() >= old(self).spec_config().point_len,
            old(self).spec_items().len() + old(trajectory)@.len() <= usize::MAX,
        ensures
            final(self).wf(),
            final(self).spec_items() == old(self).spec_items() + old(trajectory)@,
            final(self).spec_offsets()@ == old(self).spec_offsets()@.push(
                (old(self).spec_items().len() + old(trajectory)@.len()) as usize,
            ),
            final(self).spec_config() == old(self).spec_config(),
            final(trajectory)@ == Seq::<P>::empty(),
    {
        let chunk_len = trajectory.len();
        self.offsets.push_chunk(chunk_len);
        self.points.append(trajectory);
    }

    /// The configuration the data was created with.
    pub fn config(&self) -> (config: &TrajectoryDataConfig<I>)
        ensures
            *config == self.spec_config(),
    {
        &self.config
    }

    /// Rebuild trajectory data from its parts, as stored; [`Self::is_valid`]
    /// tells whether they fit together.
    pub fn from_parts(points: Vec<P>, offsets: ChunkOffsets, config: TrajectoryDataConfig<I>) -> (data: Self)
        ensures
            data.spec_items() == points@,
            data.spec_offsets() == offsets,
            data.spec_config() == config,
    {
        TrajectoryData { points, offsets, config }
    }

    /// Whether the offsets are valid, cover exactly the points, and every
    /// chunk holds at least the configured number of points.
    pub fn is_valid(&self) -> (valid: bool)
        ensures
            valid == self.wf(),
    {
        let offsets = &self.offsets;
        if !offsets.is_valid() {
            return false;
        }
        if offsets.total_len() != self.points.len() {
            return false;
        }
        let num_chunks = offsets.num_chunks();
        let mut i: usize = 0;
        while i < num_chunks
            invariant
                offsets.wf(),
                *offsets == self.spec_offsets(),
                num_chunks == offsets.spec_num_chunks(),
                i <= num_chunks,
                forall|k: int|
                    0 <= k < i ==> #[trigger] offsets.spec_chunk(k).1 - offsets.spec_chunk(k).0
                        >= self.config.point_len,
            decreases num_chunks - i,
        {
            let (start, end) = offsets.get_chunk_unchecked(i);
            if end < start || end - start < self.config.point_len {
                return false;
            }
            i = i + 1;
        }
        true
    }
}


/// A trajectory must have at least the configured length: every chunk of
/// well-formed trajectory data holds at least `point_len` points.
pub proof fn lemma_trajectory_chunks_long_enough<P, I>(data: TrajectoryData<P, I>, index: int)
    requires
        data.wf(),
        0 <= index < data.spec_offsets().spec_num_chunks(),
    ensures
        spec_chunk_items(data.spec_offsets(), data.spec_items(), index).len()
            >= data.spec_config().point_len,
{
    lemma_chunk_bounds(data.spec_offsets(), index);
    assert(data.spec_offsets().spec_chunk(index).1 - data.spec_offsets().spec_chunk(index).0
        >= data.spec_config().point_len);
}

} // verus!
