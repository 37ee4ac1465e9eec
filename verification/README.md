# motion_matching

The verified core of a motion-matching character animation library, written
in Verus.

Motion data holds the trajectory points and poses of several animation clips
back to back, split into one chunk per clip by an offset index. The library
proves that the index stays consistent with the data it splits, which
trajectory windows a search visits, that the kept matches are the nearest
ones, and how trajectories are laid out.

Layout:

- `src/motion_data/` — chunk offsets, pose and trajectory data, the motion
  data asset.
- `src/motion_matching.rs` — trajectory windows, keeping the nearest
  matches, prediction windows, best pose, cluster groups, agreement scores.
- `src/trajectory.rs` — history, current and prediction points of a
  trajectory.
- `src/motion_player.rs`, `src/frames.rs`, `src/record.rs`,
  `src/ui_state.rs` — playback indices, histories and interface state.
- `src/bvh_asset.rs`, `src/bvh_check.rs` — bvh clips parsed with `bvh_anim`,
  after a check of their hierarchy and header on the bytes.
- `src/ranking.rs` — ranks of `f32` distances computed from their bits.
- `app/` — the floating point side (pose sampling, distances, kd-tree and
  k-means search), json files and a command line front end.
