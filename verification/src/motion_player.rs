//! Which of the two trajectory poses a motion player blends towards.
use vstd::prelude::*;

verus! {

/// Blends between a pair of trajectory poses.
///
/// `F` is the type of the interpolation factor between the pair.
#[derive(Debug)]
pub struct MotionPlayer<F> {
    /// Interpolation factor between the pair of trajectory poses.
    interp_factor: F,
    /// The target index of the pair; also denotes which direction the
    /// interpolation factor is going towards.
    target_pair_index: usize,
}

impl<F> MotionPlayer<F> {
    /// The pair has two slots, so the target index is `0` or `1`.
    #[verifier::type_invariant]
    closed spec fn inv(self) -> bool {
        self.target_pair_index < 2
    }

    /// The target index of the pair.
    pub closed spec fn spec_target_pair_index(&self) -> usize {
        self.target_pair_index
    }

    /// Interpolation factor between the pair.
    pub closed spec fn spec_interp_factor(&self) -> F {
        self.interp_factor
    }

    /// A player targeting the first slot of the pair.
    pub fn new(interp_factor: F) -> (player: Self)
        ensures
            player.spec_target_pair_index() == 0,
            player.spec_interp_factor() == interp_factor,
    {
        MotionPlayer { interp_factor, target_pair_index: 0 }
    }

    /// Target the other slot of the pair.
    pub fn switch_target_index(&mut self)
        ensures
            final(self).spec_target_pair_index() == (old(self).spec_target_pair_index() + 1) % 2,
            final(self).spec_target_pair_index() < 2,
            final(self).spec_target_pair_index() != old(self).spec_target_pair_index(),
            final(self).spec_interp_factor() == old(self).spec_interp_factor(),
    {
        proof {
            use_type_invariant(&*self);
        }
        self.target_pair_index = (self.target_pair_index + 1) % 2;
    }

    /// The target index of the pair, `0` or `1`.
    pub fn target_pair_index(&self) -> (index: usize)
        ensures
            index == self.spec_target_pair_index(),
            index < 2,
    {
        proof {
            use_type_invariant(self);
        }
        self.target_pair_index
    }

    /// Interpolation factor between the pair.
    pub fn interp_factor(&self) -> (factor: &F)
        ensures
            *factor == self.spec_interp_factor(),
    {
        &self.interp_factor
    }

    /// Replace the interpolation factor.
    pub fn set_interp_factor(&mut self, interp_factor: F)
        ensures
            final(self).spec_interp_factor() == interp_factor,
            final(self).spec_target_pair_index() == old(self).spec_target_pair_index(),
    {
        proof {
            use_type_invariant(&*self);
        }
        self.interp_factor = interp_factor;
    }
}

} // verus!
