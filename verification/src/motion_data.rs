//! Motion data stored chunk by chunk: poses, trajectories and their index.
pub mod chunk;
pub mod pose_data;
pub mod trajectory_data;
pub mod motion_data_asset;
