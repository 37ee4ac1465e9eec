//! Layout of a trajectory: history points, the current point, then the
//! prediction points.
use vstd::prelude::*;

verus! {

/// Configuration for all trajectories.
///
/// A trajectory holds `history_count` history points, the current point and
/// `predict_count` prediction points, in this order from the oldest to the
/// furthest predicted. `I` is the type of the time between two points.
#[derive(Debug)]
pub struct TrajectoryConfig<I> {
    /// Time between each trajectory point.
    pub interval_time: I,
    /// Number of prediction points.
    pub predict_count: usize,
    /// Number of history points.
    pub history_count: usize,
}

impl<I> TrajectoryConfig<I> {
    /// Number of trajectory segments in a trajectory.
    pub open spec fn spec_num_segments(&self) -> int {
        self.predict_count + self.history_count
    }

    /// Number of trajectory points in a trajectory.
    pub open spec fn spec_num_points(&self) -> int {
        self.spec_num_segments() + 1
    }

    /// The counts are small enough for the number of points to be a `usize`.
    pub open spec fn fits(&self) -> bool {
        self.spec_num_points() <= usize::MAX
    }

    /// Number of trajectory segments in a trajectory.
    pub fn num_segments(&self) -> (n: usize)
        requires
            self.spec_num_segments() <= usize::MAX,
        ensures
            n == self.spec_num_segments(),
    {
        self.predict_count + self.history_count
    }

    /// Number of trajectory points in a trajectory.
    pub fn num_points(&self) -> (n: usize)
        requires
            self.fits(),
        ensures
            n == self.spec_num_points(),
    {
        self.num_segments() + 1
    }

    /// Number of points of the prediction part, counted from the current
    /// point on.
    pub fn num_predict_points(&self) -> (n: usize)
        requires
            self.predict_count + 1 <= usize::MAX,
        ensures
            n == self.predict_count + 1,
    {
        self.predict_count + 1
    }

    /// Index in the trajectory of the history point `i` steps in the past
    /// (`1 <= i <= history_count`).
    pub fn history_point_index(&self, i: usize) -> (index: usize)
        requires
            1 <= i <= self.history_count,
        ensures
            index == history_index(*self, i as int),
    {
        self.history_count - i
    }

    /// Index in the trajectory of the current point.
    pub fn current_point_index(&self) -> (index: usize)
        ensures
            index == self.history_count,
    {
        self.history_count
    }

    /// Index in the trajectory of the prediction point `i + 1` steps ahead
    /// (`i < predict_count`).
    pub fn prediction_point_index(&self, i: usize) -> (index: usize)
        requires
            i < self.predict_count,
            self.fits(),
        ensures
            index == prediction_index(*self, i as int),
    {
        i + self.history_count + 1
    }
}

/// Resize a trajectory to `num_points` points: a longer trajectory loses
/// its last points, a shorter one is padded with `default` points, one of
/// the right length is left as it is.
pub fn resize_trajectory<T: Copy>(trajectory: &mut Vec<T>, num_points: usize, default: T)
    ensures
        num_points <= old(trajectory)@.len() ==> final(trajectory)@ == old(trajectory)@.take(
            num_points as int,
        ),
        num_points > old(trajectory)@.len() ==> final(trajectory)@ == old(trajectory)@ + Seq::new(
            (num_points - old(trajectory)@.len()) as nat,
            |i: int| default,
        ),
        final(trajectory)@.len() == num_points,
{
    let len = trajectory.len();
    if len != num_points {
        if num_points < len {
            trajectory.truncate(num_points);
        } else {
            let ghost original = trajectory@;
            let mut i: usize = len;
            while i < num_points
                invariant
                    len == original.len(),
                    len <= i <= num_points,
                    trajectory@ == original + Seq::new((i - len) as nat, |k: int| default),
                decreases num_points - i,
            {
                trajectory.push(default);
                i = i + 1;
                assert(trajectory@ =~= original + Seq::new((i - len) as nat, |k: int| default));
            }
        }
    } else {
        assert(trajectory@.take(num_points as int) =~= trajectory@);
    }
}

/// Index in the trajectory of the history point `i` steps in the past.
pub open spec fn history_index<I>(config: TrajectoryConfig<I>, i: int) -> int {
    config.history_count - i
}

/// Index in the trajectory of the prediction point `i + 1` steps ahead.
pub open spec fn prediction_index<I>(config: TrajectoryConfig<I>, i: int) -> int {
    i + config.history_count + 1
}

/// The history points come first (furthest in the past at index `0`), then
/// the current point, then the prediction points; every index of the
/// trajectory is exactly one of them.
pub proof fn lemma_trajectory_layout<I>(config: TrajectoryConfig<I>, index: int)
    requires
        config.fits(),
        0 <= index < config.spec_num_points(),
    ensures
        index < config.history_count ==> {
            let i = config.history_count - index;
            &&& 1 <= i <= config.history_count
            &&& history_index(config, i) == index
        },
        index > config.history_count ==> {
            let i = index - config.history_count - 1;
            &&& 0 <= i < config.predict_count
            &&& prediction_index(config, i) == index
        },
        forall|i: int|
            1 <= i <= config.history_count ==> 0 <= #[trigger] history_index(config, i)
                < config.history_count,
        forall|i: int|
            0 <= i < config.predict_count ==> config.history_count < #[trigger] prediction_index(
                config,
                i,
            ) < config.spec_num_points(),
{
}

} // verus!
