use motion_matching::trajectory::resize_trajectory;
use motion_matching::ui_state::{CameraFocus, DrawBvhTrail, DrawTrajectory, MouseInUi};

#[test]
fn trajectory_is_resized_to_the_number_of_points() {
    let mut trajectory = vec![1, 2, 3];
    resize_trajectory(&mut trajectory, 5, 0);
    assert_eq!(trajectory, vec![1, 2, 3, 0, 0]);
    resize_trajectory(&mut trajectory, 2, 0);
    assert_eq!(trajectory, vec![1, 2]);
    resize_trajectory(&mut trajectory, 2, 9);
    assert_eq!(trajectory, vec![1, 2]);
}

#[test]
fn mouse_in_ui_is_set_then_reset() {
    let mut mouse = MouseInUi::default();
    assert!(!mouse.get());
    mouse.set_is_inside();
    assert!(mouse.get());
    mouse.reset();
    assert!(!mouse.get());
}

#[test]
fn drawing_toggles_are_on_by_default() {
    assert!(DrawBvhTrail::default().get());
    assert!(DrawTrajectory::default().get());
    assert!(!DrawTrajectory(false).get());
}

#[test]
fn camera_focus_toggles_between_none_and_the_scene() {
    let mut focus: CameraFocus<u32> = CameraFocus::default();
    assert_eq!(focus.get(), None);
    focus.toggle(Some(7));
    assert_eq!(focus.get(), Some(7));
    focus.toggle(Some(8));
    assert_eq!(focus.get(), None);
    focus.toggle(None);
    assert_eq!(focus.get(), None);
    focus.set(3);
    assert_eq!(focus.get(), Some(3));
    focus.clear();
    assert_eq!(focus.get(), None);
}
