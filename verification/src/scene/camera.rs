use vstd::prelude::*;

verus! {

/// The keys the renderer reacts to; every other key is `Other`.
#[derive(Debug, Clone, Copy, PartialEq, Eq, Structural)]
pub enum KeyCode {
    KeyW,
    KeyA,
    KeyS,
    KeyD,
    ArrowUp,
    ArrowLeft,
    ArrowDown,
    ArrowRight,
    Escape,
    Other,
}

/// A direction in which the camera can be moved.
#[derive(Debug, Clone, Copy, PartialEq, Eq, Structural)]
pub enum MoveDirection {
    Forward,
    Backward,
    Left,
    Right,
}

/// Which moves are pending: one flag per direction.
#[derive(Debug, Clone, Copy, PartialEq, Eq, Structural)]
pub struct CameraMoves {
    pub forward: bool,
    pub backward: bool,
    pub left: bool,
    pub right: bool,
}

impl CameraMoves {
    /// No move pending.
    pub open spec fn none() -> CameraMoves {
        CameraMoves { forward: false, backward: false, left: false, right: false }
    }

    /// Some move is pending.
    pub open spec fn spec_any(&self) -> bool {
        self.forward || self.backward || self.left || self.right
    }

    /// Whether a move is pending, that is whether the camera transform changes.
    #[verifier::when_used_as_spec(spec_any)]
    pub fn any(&self) -> (r: bool)
        ensures
            r == self.spec_any(),
    {
        self.forward || self.backward || self.left || self.right
    }

    /// The flag of direction `d` set to `pressed`, the others unchanged.
    pub open spec fn with(self, d: MoveDirection, pressed: bool) -> CameraMoves {
        match d {
            MoveDirection::Forward => CameraMoves { forward: pressed, ..self },
            MoveDirection::Backward => CameraMoves { backward: pressed, ..self },
            MoveDirection::Left => CameraMoves { left: pressed, ..self },
            MoveDirection::Right => CameraMoves { right: pressed, ..self },
        }
    }
}

/// The direction a key moves the camera in: W and the up arrow forward, S and the
/// down arrow backward, A and the left arrow left, D and the right arrow right.
pub open spec fn key_direction(code: KeyCode) -> Option<MoveDirection> {
    match code {
        KeyCode::KeyW | KeyCode::ArrowUp => Some(MoveDirection::Forward),
        KeyCode::KeyA | KeyCode::ArrowLeft => Some(MoveDirection::Left),
        KeyCode::KeyS | KeyCode::ArrowDown => Some(MoveDirection::Backward),
        KeyCode::KeyD | KeyCode::ArrowRight => Some(MoveDirection::Right),
        _ => None,
    }
}

/// The pending moves after a key event.
pub open spec fn after_key(moves: CameraMoves, code: KeyCode, is_pressed: bool) -> CameraMoves {
    match key_direction(code) {
        Some(d) => moves.with(d, is_pressed),
        None => moves,
    }
}

/// Keyboard state of the camera: which movement keys are held.
#[derive(Debug, Clone, Copy)]
pub struct CameraController {
    is_forward_pressed: bool,
    is_backward_pressed: bool,
    is_right_pressed: bool,
    is_left_pressed: bool,
}

impl View for CameraController {
    type V = CameraMoves;

    closed spec fn view(&self) -> CameraMoves {
        CameraMoves {
            forward: self.is_forward_pressed,
            backward: self.is_backward_pressed,
            left: self.is_left_pressed,
            right: self.is_right_pressed,
        }
    }
}

impl CameraController {
    /// A controller with no key held.
    pub fn new() -> (c: Self)
        ensures
            c@ == CameraMoves::none(),
    {
        Self {
            is_forward_pressed: false,
            is_backward_pressed: false,
            is_left_pressed: false,
            is_right_pressed: false,
        }
    }

    /// Records a key press or release; returns whether the key is a movement key.
    pub fn handle_key(&mut self, code: KeyCode, is_pressed: bool) -> (handled: bool)
        ensures
            handled == key_direction(code).is_some(),
            final(self)@ == after_key(old(self)@, code, is_pressed),
            handled == (code == KeyCode::KeyW || code == KeyCode::ArrowUp || code == KeyCode::KeyA || code
                == KeyCode::ArrowLeft || code == KeyCode::KeyS || code == KeyCode::ArrowDown || code
                == KeyCode::KeyD || code == KeyCode::ArrowRight),
            (code == KeyCode::KeyW || code == KeyCode::ArrowUp) ==> final(self)@ == (CameraMoves {
                forward: is_pressed,
                backward: old(self)@.backward,
                left: old(self)@.left,
                right: old(self)@.right,
            }),
            (code == KeyCode::KeyS || code == KeyCode::ArrowDown) ==> final(self)@ == (CameraMoves {
                forward: old(self)@.forward,
                backward: is_pressed,
                left: old(self)@.left,
                right: old(self)@.right,
            }),
            (code == KeyCode::KeyA || code == KeyCode::ArrowLeft) ==> final(self)@ == (CameraMoves {
                forward: old(self)@.forward,
                backward: old(self)@.backward,
                left: is_pressed,
                right: old(self)@.right,
            }),
            (code == KeyCode::KeyD || code == KeyCode::ArrowRight) ==> final(self)@ == (CameraMoves {
                forward: old(self)@.forward,
                backward: old(self)@.backward,
                left: old(self)@.left,
                right: is_pressed,
            }),
            !handled ==> final(self)@ == old(self)@,
    {
        match code {
            KeyCode::KeyW | KeyCode::ArrowUp => {
                self.is_forward_pressed = is_pressed;
                true
            },
            KeyCode::KeyA | KeyCode::ArrowLeft => {
                self.is_left_pressed = is_pressed;
                true
            },
            KeyCode::KeyS | KeyCode::ArrowDown => {
                self.is_backward_pressed = is_pressed;
                true
            },
            KeyCode::KeyD | KeyCode::ArrowRight => {
                self.is_right_pressed = is_pressed;
                true
            },
            _ => false,
        }
    }

    /// Hands out the pending moves and clears them: the camera is moved along each
    /// returned direction once, and it moved if any is set.
    pub fn take_pending_moves(&mut self) -> (moves: CameraMoves)
        ensures
            moves == old(self)@,
            final(self)@ == CameraMoves::none(),
            !final(self)@.forward && !final(self)@.backward && !final(self)@.left && !final(self)@.right,
    {
        let moves = CameraMoves {
            forward: self.is_forward_pressed,
            backward: self.is_backward_pressed,
            left: self.is_left_pressed,
            right: self.is_right_pressed,
        };
        self.is_forward_pressed = false;
        self.is_backward_pressed = false;
        self.is_right_pressed = false;
        self.is_left_pressed = false;
        moves
    }
}

/// Repeating a key event changes nothing more: the state after it is the same
/// whether it arrives once or twice in a row.
pub proof fn lemma_key_event_idempotent(moves: CameraMoves, code: KeyCode, is_pressed: bool)
    ensures
        after_key(after_key(moves, code, is_pressed), code, is_pressed) == after_key(moves, code, is_pressed),
{
}

/// Events of keys that move in different directions, or of keys that do not move
/// the camera, can arrive in either order with the same result.
pub proof fn lemma_key_events_commute(moves: CameraMoves, c1: KeyCode, p1: bool, c2: KeyCode, p2: bool)
    requires
        key_direction(c1) != key_direction(c2) || key_direction(c1).is_none(),
    ensures
        after_key(after_key(moves, c1, p1), c2, p2) == after_key(after_key(moves, c2, p2), c1, p1),
{
}

/// A key event that does not move the camera leaves the pending moves unchanged.
pub proof fn lemma_other_keys_change_nothing(moves: CameraMoves, code: KeyCode, is_pressed: bool)
    requires
        key_direction(code).is_none(),
    ensures
        after_key(moves, code, is_pressed) == moves,
{
}

/// Releasing a movement key clears its direction whatever came before.
pub proof fn lemma_key_release_clears(moves: CameraMoves, code: KeyCode, d: MoveDirection)
    requires
        key_direction(code) == Some(d),
    ensures
        after_key(moves, code, false) == moves.with(d, false),
        !after_key(CameraMoves::none(), code, false).spec_any(),
{
}

/// Once the pending moves are taken, none is left: a second take in a row moves
/// nothing.
pub proof fn lemma_take_leaves_nothing()
    ensures
        !CameraMoves::none().spec_any(),
{
}

/// A key event sets the flag of its key's direction to whether the key is down
/// and leaves the other flags; a key that moves nothing changes no flag.
pub proof fn lemma_key_event_sets_its_flag(moves: CameraMoves, code: KeyCode, is_pressed: bool)
    ensures
        (code == KeyCode::KeyW || code == KeyCode::ArrowUp) ==> {
            let m = after_key(moves, code, is_pressed);
            m.forward == is_pressed && m.backward == moves.backward && m.left == moves.left && m.right
                == moves.right
        },
        (code == KeyCode::KeyS || code == KeyCode::ArrowDown) ==> {
            let m = after_key(moves, code, is_pressed);
            m.forward == moves.forward && m.backward == is_pressed && m.left == moves.left && m.right
                == moves.right
        },
        (code == KeyCode::KeyA || code == KeyCode::ArrowLeft) ==> {
            let m = after_key(moves, code, is_pressed);
            m.forward == moves.forward && m.backward == moves.backward && m.left == is_pressed && m.right
                == moves.right
        },
        (code == KeyCode::KeyD || code == KeyCode::ArrowRight) ==> {
            let m = after_key(moves, code, is_pressed);
            m.forward == moves.forward && m.backward == moves.backward && m.left == moves.left && m.right
                == is_pressed
        },
        (code == KeyCode::Escape || code == KeyCode::Other) ==> after_key(moves, code, is_pressed) == moves,
{
}

} // verus!
