//! What the keyboard does to the camera.

use vstd::prelude::*;

verus! {

/// How far the camera moves in one frame while a movement key is held.
pub const CAMERA_SPEED: i32 = 5;

/// A displacement of the camera within one frame.
#[derive(Clone, Copy, Debug, PartialEq, Eq, Structural)]
pub struct CameraStep {
    pub dx: i32,
    pub dy: i32,
}

/// The step for the keys that are held. One key counts per frame: up
/// before down, down before right, right before left.
pub open spec fn spec_camera_movement(up: bool, down: bool, right: bool, left: bool) -> CameraStep {
    if up {
        CameraStep { dx: 0, dy: CAMERA_SPEED }
    } else if down {
        CameraStep { dx: 0, dy: (-CAMERA_SPEED) as i32 }
    } else if right {
        CameraStep { dx: CAMERA_SPEED, dy: 0 }
    } else if left {
        CameraStep { dx: (-CAMERA_SPEED) as i32, dy: 0 }
    } else {
        CameraStep { dx: 0, dy: 0 }
    }
}

/// Where the camera moves in this frame, given which of the keys for up,
/// down, right and left are held.
#[verifier::when_used_as_spec(spec_camera_movement)]
pub fn camera_movement(up: bool, down: bool, right: bool, left: bool) -> (step: CameraStep)
    ensures
        step == spec_camera_movement(up, down, right, left),
        step.dx == 0 || step.dy == 0,
{
    if up {
        CameraStep { dx: 0, dy: CAMERA_SPEED }
    } else if down {
        CameraStep { dx: 0, dy: -CAMERA_SPEED }
    } else if right {
        CameraStep { dx: CAMERA_SPEED, dy: 0 }
    } else if left {
        CameraStep { dx: -CAMERA_SPEED, dy: 0 }
    } else {
        CameraStep { dx: 0, dy: 0 }
    }
}

/// Whether the camera goes back to the origin in this frame: the key for
/// home is held, and there is exactly one camera to move.
pub fn key_h_go_home(cameras: usize, home_pressed: bool) -> (go_home: bool)
    ensures
        go_home == (cameras == 1 && home_pressed),
{
    cameras == 1 && home_pressed
}

} // verus!
