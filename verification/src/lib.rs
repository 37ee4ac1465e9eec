//! Verified core of a motion-matching animation library: chunked motion
//! data, trajectory layout and the nearest-trajectory bookkeeping.
pub mod motion_data;
pub mod motion_matching;
pub mod ranking;
pub mod trajectory;
pub mod motion_player;
pub mod record;
pub mod bvh_asset;
pub mod bvh_check;
pub mod bvh_skeleton;
pub mod frames;
pub mod ui_state;
