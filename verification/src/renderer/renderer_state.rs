use vstd::prelude::*;
use crate::scene::camera::KeyCode;

verus! {

/// Where a key event goes.
#[derive(Debug, Clone, Copy, PartialEq, Eq, Structural)]
pub enum KeyRoute {
    /// Close the application.
    Exit,
    /// Hand the event to the camera controller.
    Camera,
}

/// Pressing Escape closes the application; every other key event goes to the
/// camera controller.
pub fn route_key(code: KeyCode, is_pressed: bool) -> (route: KeyRoute)
    ensures
        route == (if code == KeyCode::Escape && is_pressed {
            KeyRoute::Exit
        } else {
            KeyRoute::Camera
        }),
{
    match (code, is_pressed) {
        (KeyCode::Escape, true) => KeyRoute::Exit,
        _ => KeyRoute::Camera,
    }
}

} // verus!
