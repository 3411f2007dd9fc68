use vstd::prelude::*;

verus! {

/// A key pressed on the keyboard. The keys that the game reacts to have names of
/// their own; every other key is `Other`, with its code in the window system.
#[derive(Clone, Copy, Debug, PartialEq, Eq, Structural)]
pub enum KeyCode {
    Grave,
    Key1,
    Key2,
    Key3,
    Other(u32),
}

/// How fast the simulation runs.
#[derive(Clone, Copy, Debug, PartialEq, Eq, Structural)]
pub enum RunState {
    Paused,
    SlowMo,
    Running,
    FullSpeed,
}

/// Per-frame input state shared with the game systems.
pub struct GameStateResource {
    pub keycode: Option<KeyCode>,
    pub camera_changed: bool,
}

impl GameStateResource {
    /// No key pressed and the camera unchanged.
    pub fn new() -> (s: Self)
        ensures
            s.keycode == None::<KeyCode>,
            !s.camera_changed,
    {
        Self { keycode: None, camera_changed: false }
    }

    /// Records the key pressed during the frame that starts.
    pub fn frame_update(&mut self, keycode: Option<KeyCode>)
        ensures
            final(self).keycode == keycode,
            final(self).camera_changed == old(self).camera_changed,
    {
        self.keycode = keycode;
    }

    /// The key pressed during the current frame, if any.
    pub fn keycode(&self) -> (k: Option<KeyCode>)
        ensures
            k == self.keycode,
    {
        self.keycode
    }
}

/// The speed that a key selects: grave pauses, 1 slows down, 2 runs, 3 runs at full speed.
pub open spec fn speed_for_key(key: KeyCode) -> Option<RunState> {
    match key {
        KeyCode::Grave => Some(RunState::Paused),
        KeyCode::Key1 => Some(RunState::SlowMo),
        KeyCode::Key2 => Some(RunState::Running),
        KeyCode::Key3 => Some(RunState::FullSpeed),
        KeyCode::Other(_) => None,
    }
}

/// Changes the simulation speed when the key of the frame selects one; leaves it
/// as it was otherwise.
pub fn pause_control(state: &mut GameStateResource, run_state: &mut RunState)
    ensures
        final(state).keycode == old(state).keycode,
        final(state).camera_changed == old(state).camera_changed,
        *final(run_state) == match old(state).keycode {
            Some(key) => match speed_for_key(key) {
                Some(speed) => speed,
                None => *old(run_state),
            },
            None => *old(run_state),
        },
{
    if let Some(key) = state.keycode {
        match key {
            KeyCode::Grave => *run_state = RunState::Paused,
            KeyCode::Key1 => *run_state = RunState::SlowMo,
            KeyCode::Key2 => *run_state = RunState::Running,
            KeyCode::Key3 => *run_state = RunState::FullSpeed,
            _ => {},
        }
    }
}

} // verus!
