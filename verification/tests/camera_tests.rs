use evolution_sim::my_utils::{camera_movement, key_h_go_home, CameraStep, CAMERA_SPEED};

#[test]
fn one_key_moves_the_camera_by_the_speed() {
    assert_eq!(CAMERA_SPEED, 5);
    assert_eq!(camera_movement(true, false, false, false), CameraStep { dx: 0, dy: 5 });
    assert_eq!(camera_movement(false, true, false, false), CameraStep { dx: 0, dy: -5 });
    assert_eq!(camera_movement(false, false, true, false), CameraStep { dx: 5, dy: 0 });
    assert_eq!(camera_movement(false, false, false, true), CameraStep { dx: -5, dy: 0 });
    assert_eq!(camera_movement(false, false, false, false), CameraStep { dx: 0, dy: 0 });
}

#[test]
fn only_the_first_held_key_counts() {
    assert_eq!(camera_movement(true, true, true, true), CameraStep { dx: 0, dy: 5 });
    assert_eq!(camera_movement(false, true, true, true), CameraStep { dx: 0, dy: -5 });
    assert_eq!(camera_movement(false, false, true, true), CameraStep { dx: 5, dy: 0 });
}

#[test]
fn home_needs_the_key_and_one_camera() {
    assert!(key_h_go_home(1, true));
    assert!(!key_h_go_home(1, false));
    assert!(!key_h_go_home(0, true));
    assert!(!key_h_go_home(2, true));
}
