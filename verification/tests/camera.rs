use pathtracer::scene::camera::{CameraController, CameraMoves, KeyCode};

fn no_moves() -> CameraMoves {
    CameraMoves { forward: false, backward: false, left: false, right: false }
}

#[test]
fn new_controller_has_no_pending_move() {
    let mut c = CameraController::new();
    let m = c.take_pending_moves();
    assert_eq!(m, no_moves());
    assert!(!m.any());
}

#[test]
fn movement_keys_are_handled() {
    let mut c = CameraController::new();
    assert!(c.handle_key(KeyCode::KeyW, true));
    assert!(c.handle_key(KeyCode::ArrowLeft, true));
    assert!(c.handle_key(KeyCode::KeyS, true));
    assert!(c.handle_key(KeyCode::ArrowRight, true));
    let m = c.take_pending_moves();
    assert_eq!(m, CameraMoves { forward: true, backward: true, left: true, right: true });
    assert!(m.any());
}

#[test]
fn other_keys_are_not_handled() {
    let mut c = CameraController::new();
    assert!(!c.handle_key(KeyCode::Escape, true));
    assert!(!c.handle_key(KeyCode::Other, true));
    assert_eq!(c.take_pending_moves(), no_moves());
}

#[test]
fn each_key_maps_to_its_direction() {
    let cases = [
        (KeyCode::KeyW, CameraMoves { forward: true, ..no_moves() }),
        (KeyCode::ArrowUp, CameraMoves { forward: true, ..no_moves() }),
        (KeyCode::KeyS, CameraMoves { backward: true, ..no_moves() }),
        (KeyCode::ArrowDown, CameraMoves { backward: true, ..no_moves() }),
        (KeyCode::KeyA, CameraMoves { left: true, ..no_moves() }),
        (KeyCode::ArrowLeft, CameraMoves { left: true, ..no_moves() }),
        (KeyCode::KeyD, CameraMoves { right: true, ..no_moves() }),
        (KeyCode::ArrowRight, CameraMoves { right: true, ..no_moves() }),
    ];
    for (key, expected) in cases {
        let mut c = CameraController::new();
        assert!(c.handle_key(key, true));
        assert_eq!(c.take_pending_moves(), expected);
    }
}

#[test]
fn release_clears_and_take_empties() {
    let mut c = CameraController::new();
    c.handle_key(KeyCode::KeyD, true);
    c.handle_key(KeyCode::KeyD, false);
    assert_eq!(c.take_pending_moves(), no_moves());
    c.handle_key(KeyCode::KeyA, true);
    assert!(c.take_pending_moves().left);
    assert_eq!(c.take_pending_moves(), no_moves());
}

#[test]
fn repeated_key_event_is_idempotent() {
    let mut a = CameraController::new();
    let mut b = CameraController::new();
    a.handle_key(KeyCode::KeyW, true);
    b.handle_key(KeyCode::KeyW, true);
    b.handle_key(KeyCode::KeyW, true);
    assert_eq!(a.take_pending_moves(), b.take_pending_moves());
}

#[test]
fn keys_of_different_directions_commute() {
    let mut a = CameraController::new();
    let mut b = CameraController::new();
    a.handle_key(KeyCode::KeyW, true);
    a.handle_key(KeyCode::KeyA, true);
    b.handle_key(KeyCode::KeyA, true);
    b.handle_key(KeyCode::KeyW, true);
    assert_eq!(a.take_pending_moves(), b.take_pending_moves());
}
