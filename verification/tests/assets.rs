use motion_matching::bvh_asset::{BvhAssetLoader, BvhAssetLoaderError, BvhAssetSettings};
use motion_matching::motion_data::chunk::ChunkIterator;
use motion_matching::motion_data::motion_data_asset::{trajectory_point_count, MotionDataAsset};
use motion_matching::motion_data::pose_data::PoseData;
use motion_matching::motion_data::trajectory_data::{TrajectoryData, TrajectoryDataConfig};

const BVH: &[u8] = br#"
HIERARCHY
ROOT Hips
{
    OFFSET 0.0 0.0 0.0
    CHANNELS 3 Xposition Yposition Zposition
    End Site
    {
        OFFSET 0.0 0.0 0.0
    }
}
MOTION
Frames: 2
Frame Time: 0.033333333
0.0 0.0 0.0
1.0 2.0 3.0
"#;

#[test]
fn valid_bvh_loads_with_its_settings() {
    let loader = BvhAssetLoader::default();
    let settings = BvhAssetSettings { loopable: true };
    let asset = match loader.load(BVH, &settings, "walk.bvh".to_string()) {
        Ok(asset) => asset,
        Err(_) => panic!("the bvh should parse"),
    };
    assert!(asset.loopable());
    assert_eq!(asset.name(), "walk.bvh");
    assert_eq!(asset.bvh().num_frames(), 2);
    assert_eq!(loader.extensions(), &["bvh"]);
}

#[test]
fn bytes_without_a_hierarchy_are_a_load_error() {
    let loader = BvhAssetLoader::default();
    let result = loader.load(b"not a bvh file", &BvhAssetSettings::default(), String::new());
    assert!(matches!(result, Err(BvhAssetLoaderError::BvhLoadError(_))));
}

#[test]
fn unparsable_offset_is_a_load_error() {
    let bytes = String::from_utf8(BVH.to_vec()).unwrap().replacen("OFFSET 0.0", "OFFSET x", 1);
    let loader = BvhAssetLoader::default();
    let result = loader.load(bytes.as_bytes(), &BvhAssetSettings::default(), String::new());
    assert!(matches!(result, Err(BvhAssetLoaderError::BvhLoadError(_))));
}

fn load(bytes: &str) -> Result<motion_matching::bvh_asset::BvhAsset, BvhAssetLoaderError> {
    BvhAssetLoader::default().load(bytes.as_bytes(), &BvhAssetSettings::default(), String::new())
}

fn rejected(bytes: &str) -> bool {
    matches!(load(bytes), Err(BvhAssetLoaderError::Rejected))
}

fn with_hierarchy(hierarchy: &str) -> String {
    format!("{hierarchy}\nMOTION\nFrames: 1\nFrame Time: 0.03\n0.0 0.0 0.0\n")
}

const GOOD: &str = "HIERARCHY\nROOT Hips\n{\nOFFSET 0 0 0\nCHANNELS 3 Xposition Yposition Zposition\nEnd Site\n{\nOFFSET 0 0 0\n}\n}";

#[test]
fn hierarchies_on_which_the_parser_would_panic_are_rejected() {
    assert!(load(&with_hierarchy(GOOD)).is_ok());
    // A second HIERARCHY line.
    assert!(rejected(&with_hierarchy(&format!("HIERARCHY\n{GOOD}"))));
    // A ROOT line without a name, or before the hierarchy.
    assert!(rejected(&with_hierarchy(&GOOD.replacen("ROOT Hips", "ROOT", 1))));
    assert!(rejected(&with_hierarchy(&format!("ROOT Hips\n{GOOD}"))));
    // A name made of white space only is trimmed away with the line.
    assert!(rejected(&with_hierarchy(&GOOD.replacen("ROOT Hips", "ROOT \u{a0}", 1))));
    // A JOINT line without a name.
    let joint = "HIERARCHY\nROOT Hips\n{\nCHANNELS 3 Xposition Yposition Zposition\nJOINT\n{\nEnd Site\n{\n}\n}\n}";
    assert!(rejected(&with_hierarchy(joint)));
    // End not followed by Site.
    assert!(rejected(&with_hierarchy(&GOOD.replacen("End Site", "End", 1))));
    // A closing brace without an opening one.
    assert!(rejected(&with_hierarchy(&format!("}}\n{GOOD}"))));
    // A channel count whose room cannot be reserved.
    assert!(rejected(&with_hierarchy(&GOOD.replacen("CHANNELS 3", "CHANNELS 300000000000000000", 1))));
    // More motion values declared than the file could hold.
    let many_frames = with_hierarchy(GOOD).replacen("Frames: 1", "Frames: 4000000", 1);
    assert!(rejected(&many_frames));
}

#[test]
fn files_the_parser_loads_pass_the_check() {
    let joint = "HIERARCHY\nROOT Hips\n{\nCHANNELS 3 Xposition Yposition Zposition\nJOINT Spine\n{\nEnd Site\n{\n}\n}\n}";
    assert!(load(&with_hierarchy(joint)).is_ok());
    // Names and white space outside ASCII.
    assert!(load(&with_hierarchy(&GOOD.replacen("Hips", "H\u{e9}ps", 1))).is_ok());
    assert!(load(&with_hierarchy(&GOOD.replacen("ROOT Hips", "\u{3000}ROOT Hips\u{a0}", 1))).is_ok());
    // A channel count larger than the channels named.
    let asset = load(&with_hierarchy(&GOOD.replacen("CHANNELS 3", "CHANNELS 1000", 1))).ok().expect("loads");
    assert_eq!(asset.bvh().num_frames(), 1);
    // A frame count with a sign.
    assert!(load(&with_hierarchy(GOOD).replacen("Frames: 1", "Frames: +1", 1)).is_ok());
    // Without channels any frame count holds no value.
    let no_channels = "HIERARCHY\nROOT Hips\n{\nOFFSET 0 0 0\nEnd Site\n{\nOFFSET 0 0 0\n}\n}\nMOTION\nFrames: 5000000000\nFrame Time: 0.03\n";
    let asset = load(no_channels).ok().expect("loads");
    assert_eq!(asset.bvh().num_frames(), 5000000000);
}

#[test]
fn clip_point_counts() {
    // Long enough clips keep their own length.
    assert_eq!(trajectory_point_count(10, false, 7), Some(10));
    // Short clips are sampled up to the minimum only when loopable.
    assert_eq!(trajectory_point_count(4, true, 7), Some(7));
    assert_eq!(trajectory_point_count(4, false, 7), None);
    // A clip without any point is skipped.
    assert_eq!(trajectory_point_count(0, true, 7), None);
}

#[test]
fn clips_add_one_trajectory_chunk_and_one_pose_chunk() {
    let config = TrajectoryDataConfig { interval_time: 0.1f32, point_len: 2 };
    let mut asset: MotionDataAsset<&str, u8, i16, f32> =
        MotionDataAsset::new(vec!["Hips", "Spine"], config, 0.0333);
    let mut points = vec![1i16, 2, 3];
    asset.append_clip(&mut points, vec![7u8, 8], true);
    let mut points = vec![4i16, 5];
    asset.append_clip(&mut points, vec![9u8], false);
    assert_eq!(asset.trajectory_data().offsets().num_chunks(), 2);
    assert_eq!(asset.pose_data().offsets().num_chunks(), 2);
    assert_eq!(asset.trajectory_data().get_chunk(1), Some(&[4i16, 5][..]));
    assert_eq!(asset.pose_data().get_chunk(1), Some(&[9u8][..]));
    assert_eq!(asset.pose_data().is_chunk_loopable(1), Some(false));
    assert_eq!(asset.joints(), &["Hips", "Spine"]);
    assert_eq!(asset.get_joint(1), Some(&"Spine"));
    assert_eq!(asset.get_joint(2), None);
}

#[test]
fn asset_parts_must_hold_as_many_chunks() {
    let config = TrajectoryDataConfig { interval_time: 0.1f32, point_len: 0 };
    let trajectory: TrajectoryData<u8, f32> = TrajectoryData::new(config);
    let mut poses: PoseData<u8, f32> = PoseData::new(0.1);
    poses.append_frames(vec![1], false);
    assert!(!MotionDataAsset::<(), u8, u8, f32>::from_parts(vec![], trajectory, poses).is_valid());
    let trajectory: TrajectoryData<u8, f32> = TrajectoryData::new(config);
    let poses: PoseData<u8, f32> = PoseData::new(0.1);
    assert!(MotionDataAsset::<(), u8, u8, f32>::from_parts(vec![], trajectory, poses).is_valid());
}
