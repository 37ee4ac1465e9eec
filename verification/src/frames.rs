//! Which frames surround a playback position.
use vstd::prelude::*;

verus! {

/// Index of the frame after `current`, held at the last frame of a clip of
/// `frame_count` frames; the clip must have a frame.
pub fn next_frame_index_clamped(current: usize, frame_count: usize) -> (next: usize)
    requires
        frame_count > 0,
        current < usize::MAX,
    ensures
        next == (if current + 1 < frame_count {
            current + 1
        } else {
            frame_count - 1
        }),
        next < frame_count,
{
    let next = current + 1;
    if next < frame_count {
        next
    } else {
        frame_count - 1
    }
}

/// Index of the frame after `current`, looping back to the first frame at
/// the end of a clip of `frame_count` frames; the clip must have a frame.
pub fn next_frame_index_looped(current: usize, frame_count: usize) -> (next: usize)
    requires
        frame_count > 0,
        current < usize::MAX,
    ensures
        next == (current + 1) % (frame_count as int),
        next < frame_count,
{
    (current + 1) % frame_count
}

/// The two poses to blend between at `offset` in a chunk of `len` poses:
/// the pose at `offset` and the next one, or the pose at `offset` twice at
/// the last pose; `None` past the end of the chunk.
pub fn surrounding_pose_indices(len: usize, offset: usize) -> (indices: Option<(usize, usize)>)
    ensures
        indices == (if offset < len {
            if offset + 1 < len {
                Some((offset, (offset + 1) as usize))
            } else {
                Some((offset, offset))
            }
        } else {
            None::<(usize, usize)>
        }),
        indices matches Some((start, end)) ==> start <= end < len,
{
    if offset < len {
        if offset + 1 < len {
            Some((offset, offset + 1))
        } else {
            Some((offset, offset))
        }
    } else {
        None
    }
}

} // verus!
