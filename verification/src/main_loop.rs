use vstd::prelude::*;

verus! {

use crate::playgame::KeyCode;

/// What the window system reports to the main loop.
#[derive(Clone, Copy, Debug, PartialEq, Eq, Structural)]
pub enum LoopEvent {
    /// A new batch of events begins.
    NewEvents,
    /// All pending events have been handled.
    MainEventsCleared,
    /// The window was resized.
    Resized { width: u32, height: u32 },
    /// The window must be drawn; `gui_wants_keyboard` says whether the user
    /// interface has the keyboard focus.
    RedrawRequested { gui_wants_keyboard: bool },
    /// The user asked to close the window.
    CloseRequested,
    /// A key was pressed.
    KeyPressed(KeyCode),
    /// Anything else.
    Other,
}

/// What the main loop has to do in answer to an event.
#[derive(Clone, Copy, Debug, PartialEq, Eq)]
pub enum LoopAction {
    /// Advance the user interface clock.
    UpdateFrameTime,
    /// Ask the window for a redraw.
    RequestRedraw,
    /// Rebuild the swap chain and depth texture for the new size, then tell the game.
    Resize { width: u32, height: u32 },
    /// Run one frame of the game with this key and mouse position.
    Frame { keycode: Option<KeyCode>, mouse_world_pos: (usize, usize, usize) },
    /// Leave the loop.
    Exit,
    /// Nothing to do.
    Nothing,
}

/// State that the main loop keeps between events.
pub struct LoopState {
    /// Key pressed since the last frame.
    pub keycode: Option<KeyCode>,
    /// World position under the mouse, as read back after the last frame.
    pub mouse_world_pos: (usize, usize, usize),
    /// Whether the loop has been told to stop.
    pub exiting: bool,
}

/// The action for an event, given the key pressed since the last frame and the
/// mouse position.
pub open spec fn action_for(
    event: LoopEvent,
    keycode: Option<KeyCode>,
    mouse_world_pos: (usize, usize, usize),
) -> LoopAction {
    match event {
        LoopEvent::NewEvents => LoopAction::UpdateFrameTime,
        LoopEvent::MainEventsCleared => LoopAction::RequestRedraw,
        LoopEvent::Resized { width, height } => LoopAction::Resize { width, height },
        LoopEvent::RedrawRequested { gui_wants_keyboard } => LoopAction::Frame {
            keycode: if gui_wants_keyboard { None } else { keycode },
            mouse_world_pos,
        },
        LoopEvent::CloseRequested => LoopAction::Exit,
        LoopEvent::KeyPressed(_) => LoopAction::Nothing,
        LoopEvent::Other => LoopAction::Nothing,
    }
}

/// The key remembered after an event: a key press replaces it, a frame consumes
/// it, anything else keeps it.
pub open spec fn key_after(event: LoopEvent, keycode: Option<KeyCode>) -> Option<KeyCode> {
    match event {
        LoopEvent::KeyPressed(key) => Some(key),
        LoopEvent::RedrawRequested { .. } => None,
        _ => keycode,
    }
}

impl LoopState {
    /// The state of a loop that has just started.
    pub open spec fn new_spec() -> LoopState {
        LoopState { keycode: None, mouse_world_pos: (0, 0, 0), exiting: false }
    }

    /// No key pressed, the mouse at the origin, not exiting.
    pub fn new() -> (s: Self)
        ensures
            s == LoopState::new_spec(),
    {
        LoopState { keycode: None, mouse_world_pos: (0, 0, 0), exiting: false }
    }

    /// Handles one event and says what to do about it.
    pub fn on_event(&mut self, event: LoopEvent) -> (action: LoopAction)
        ensures
            action == action_for(event, old(self).keycode, old(self).mouse_world_pos),
            final(self).keycode == key_after(event, old(self).keycode),
            final(self).mouse_world_pos == old(self).mouse_world_pos,
            final(self).exiting == (old(self).exiting || event == LoopEvent::CloseRequested),
            *final(self) == state_after(*old(self), LoopInput::Event(event)),
            action == action_after(*old(self), LoopInput::Event(event)),
    {
        match event {
            LoopEvent::NewEvents => LoopAction::UpdateFrameTime,
            LoopEvent::MainEventsCleared => LoopAction::RequestRedraw,
            LoopEvent::Resized { width, height } => LoopAction::Resize { width, height },
            LoopEvent::RedrawRequested { gui_wants_keyboard } => {
                let keycode = if !gui_wants_keyboard { self.keycode } else { None };
                self.keycode = None;
                LoopAction::Frame { keycode, mouse_world_pos: self.mouse_world_pos }
            },
            LoopEvent::CloseRequested => {
                self.exiting = true;
                LoopAction::Exit
            },
            LoopEvent::KeyPressed(key) => {
                self.keycode = Some(key);
                LoopAction::Nothing
            },
            LoopEvent::Other => LoopAction::Nothing,
        }
    }

    /// Handles the end of a frame: the game asked to go on or to stop.
    pub fn on_frame_done(&mut self, should_continue: bool) -> (action: LoopAction)
        ensures
            action == (if should_continue { LoopAction::Nothing } else { LoopAction::Exit }),
            final(self).exiting == (old(self).exiting || !should_continue),
            final(self).keycode == old(self).keycode,
            final(self).mouse_world_pos == old(self).mouse_world_pos,
            *final(self) == state_after(*old(self), LoopInput::FrameDone(should_continue)),
            action == action_after(*old(self), LoopInput::FrameDone(should_continue)),
    {
        if !should_continue {
            self.exiting = true;
            LoopAction::Exit
        } else {
            LoopAction::Nothing
        }
    }

    /// Records the world position read back from the mouse buffer, given as the
    /// buffer's first, second and third coordinates; the world position takes
    /// them in the order first, third, second.
    pub fn on_mouse_read(&mut self, first: usize, second: usize, third: usize)
        ensures
            final(self).mouse_world_pos == (first, third, second),
            final(self).keycode == old(self).keycode,
            final(self).exiting == old(self).exiting,
    {
        self.mouse_world_pos = (first, third, second);
    }
}

/// A key pressed before a frame is handed to that frame, unless the user interface
/// holds the keyboard, and to no later frame unless pressed again.
pub proof fn lemma_key_reaches_one_frame(
    keycode: Option<KeyCode>,
    key: KeyCode,
    gui_wants_keyboard: bool,
    mouse_world_pos: (usize, usize, usize),
)
    ensures
        action_for(
            LoopEvent::RedrawRequested { gui_wants_keyboard },
            key_after(LoopEvent::KeyPressed(key), keycode),
            mouse_world_pos,
        ) == (LoopAction::Frame {
            keycode: if gui_wants_keyboard { None } else { Some(key) },
            mouse_world_pos,
        }),
        key_after(
            LoopEvent::RedrawRequested { gui_wants_keyboard },
            key_after(LoopEvent::KeyPressed(key), keycode),
        ) == None::<KeyCode>,
{
}


/// One thing that happens to the main loop: a window event, or the end of a frame
/// in which the game asked to go on (`true`) or to stop (`false`).
#[derive(Clone, Copy, Debug, PartialEq, Eq, Structural)]
pub enum LoopInput {
    Event(LoopEvent),
    FrameDone(bool),
}

/// The state after one input, as `on_event` and `on_frame_done` leave it.
pub open spec fn state_after(s: LoopState, input: LoopInput) -> LoopState {
    match input {
        LoopInput::Event(event) => LoopState {
            keycode: key_after(event, s.keycode),
            mouse_world_pos: s.mouse_world_pos,
            exiting: s.exiting || event == LoopEvent::CloseRequested,
        },
        LoopInput::FrameDone(should_continue) => LoopState {
            keycode: s.keycode,
            mouse_world_pos: s.mouse_world_pos,
            exiting: s.exiting || !should_continue,
        },
    }
}

/// The action for one input, as `on_event` and `on_frame_done` return it.
pub open spec fn action_after(s: LoopState, input: LoopInput) -> LoopAction {
    match input {
        LoopInput::Event(event) => action_for(event, s.keycode, s.mouse_world_pos),
        LoopInput::FrameDone(should_continue) => if should_continue {
            LoopAction::Nothing
        } else {
            LoopAction::Exit
        },
    }
}

/// The state after a sequence of inputs, handled in order.
pub open spec fn state_after_all(s: LoopState, inputs: Seq<LoopInput>) -> LoopState
    decreases inputs.len(),
{
    if inputs.len() == 0 {
        s
    } else {
        state_after(state_after_all(s, inputs.drop_last()), inputs.last())
    }
}

/// Input `i` is a key press with no frame and no other key press after it.
pub open spec fn pending_press(inputs: Seq<LoopInput>, i: int) -> bool {
    &&& 0 <= i < inputs.len()
    &&& inputs[i] matches LoopInput::Event(LoopEvent::KeyPressed(_))
    &&& forall|j: int| i < j < inputs.len() ==> {
        &&& !(#[trigger] inputs[j] matches LoopInput::Event(LoopEvent::KeyPressed(_)))
        &&& !(inputs[j] matches LoopInput::Event(LoopEvent::RedrawRequested { .. }))
    }
}

/// Input `i` asks the loop to stop: a close request, or a frame that asked to stop.
pub open spec fn stops(input: LoopInput) -> bool {
    input == LoopInput::Event(LoopEvent::CloseRequested) || input == LoopInput::FrameDone(false)
}

/// The key remembered after a sequence of inputs is the key of the press still
/// pending, if there is one; else none if a frame came, else the key it started with.
pub proof fn lemma_remembered_key(s: LoopState, inputs: Seq<LoopInput>)
    ensures
        forall|i: int, k: KeyCode| pending_press(inputs, i)
            && inputs[i] == LoopInput::Event(LoopEvent::KeyPressed(k))
            ==> state_after_all(s, inputs).keycode == Some(k),
        (forall|i: int| !pending_press(inputs, i)) ==> state_after_all(s, inputs).keycode == (
            if exists|r: int| 0 <= r < inputs.len()
                && (#[trigger] inputs[r] matches LoopInput::Event(LoopEvent::RedrawRequested { .. })) {
                None
            } else {
                s.keycode
            }),
    decreases inputs.len(),
{
    if inputs.len() > 0 {
        let front = inputs.drop_last();
        let last = inputs.last();
        let n = inputs.len() - 1;
        lemma_remembered_key(s, front);
        assert forall|i: int| #![trigger pending_press(front, i)]
            0 <= i < n && pending_press(inputs, i) implies pending_press(front, i) by {
            assert forall|j: int| i < j < front.len() implies {
                &&& !(#[trigger] front[j] matches LoopInput::Event(LoopEvent::KeyPressed(_)))
                &&& !(front[j] matches LoopInput::Event(LoopEvent::RedrawRequested { .. }))
            } by {
                assert(front[j] == inputs[j]);
            }
        }
        if last matches LoopInput::Event(LoopEvent::KeyPressed(k)) {
            assert(pending_press(inputs, n));
            assert forall|i: int| 0 <= i < n implies !pending_press(inputs, i) by {
                assert(inputs[n] == last);
            }
        } else if last matches LoopInput::Event(LoopEvent::RedrawRequested { .. }) {
            assert forall|i: int| !pending_press(inputs, i) by {
                if 0 <= i < n {
                    assert(inputs[n] == last);
                }
            }
            assert(inputs[n] matches LoopInput::Event(LoopEvent::RedrawRequested { .. }));
        } else {
            assert(!pending_press(inputs, n));
            assert forall|i: int| #![trigger pending_press(inputs, i)]
                0 <= i < n && pending_press(front, i) implies pending_press(inputs, i) by {
                assert forall|j: int| i < j < inputs.len() implies {
                    &&& !(#[trigger] inputs[j] matches LoopInput::Event(LoopEvent::KeyPressed(_)))
                    &&& !(inputs[j] matches LoopInput::Event(LoopEvent::RedrawRequested { .. }))
                } by {
                    if j < n {
                        assert(front[j] == inputs[j]);
                    }
                }
            }
            assert forall|i: int, k: KeyCode| pending_press(inputs, i)
                && inputs[i] == LoopInput::Event(LoopEvent::KeyPressed(k))
                implies state_after_all(s, inputs).keycode == Some(k) by {
                assert(front[i] == inputs[i]);
            }
            if forall|i: int| !pending_press(inputs, i) {
                assert forall|i: int| !pending_press(front, i) by {
                    if 0 <= i < n && pending_press(front, i) {
                        assert(pending_press(inputs, i));
                    }
                }
            }
            if exists|r: int| 0 <= r < inputs.len()
                && (#[trigger] inputs[r] matches LoopInput::Event(LoopEvent::RedrawRequested { .. })) {
                let r = choose|r: int| 0 <= r < inputs.len()
                    && (#[trigger] inputs[r] matches LoopInput::Event(LoopEvent::RedrawRequested { .. }));
                assert(front[r] == inputs[r]);
            } else {
                assert forall|r: int| 0 <= r < front.len() implies
                    !(#[trigger] front[r] matches LoopInput::Event(LoopEvent::RedrawRequested { .. })) by {
                    assert(front[r] == inputs[r]);
                }
            }
        }
    }
}

/// Each frame gets the key pressed since the previous frame, none if the user
/// interface holds the keyboard or no key was pressed since; a key press is handed
/// to the first frame after it and to no later one.
pub proof fn lemma_frame_key(inputs: Seq<LoopInput>, j: int, gui_wants_keyboard: bool)
    requires
        0 <= j < inputs.len(),
        inputs[j] == LoopInput::Event(LoopEvent::RedrawRequested { gui_wants_keyboard }),
    ensures
        forall|i: int, k: KeyCode| pending_press(inputs.take(j), i)
            && inputs[i] == LoopInput::Event(LoopEvent::KeyPressed(k))
            ==> action_after(state_after_all(LoopState::new_spec(), inputs.take(j)), inputs[j]) == (
                LoopAction::Frame {
                    keycode: if gui_wants_keyboard { None } else { Some(k) },
                    mouse_world_pos: (0usize, 0usize, 0usize),
                }),
        (forall|i: int| !pending_press(inputs.take(j), i)) ==> action_after(
            state_after_all(LoopState::new_spec(), inputs.take(j)), inputs[j]) == (LoopAction::Frame {
                keycode: None,
                mouse_world_pos: (0usize, 0usize, 0usize),
            }),
        forall|i: int, j2: int| 0 <= i < j < j2 <= inputs.len()
            ==> !#[trigger] pending_press(inputs.take(j2), i),
{
    let front = inputs.take(j);
    lemma_remembered_key(LoopState::new_spec(), front);
    lemma_mouse_unchanged(LoopState::new_spec(), front);
    assert forall|i: int, k: KeyCode| pending_press(front, i)
        && inputs[i] == LoopInput::Event(LoopEvent::KeyPressed(k))
        implies state_after_all(LoopState::new_spec(), front).keycode == Some(k) by {
        assert(front[i] == inputs[i]);
    }
    assert forall|i: int, j2: int| 0 <= i < j < j2 <= inputs.len()
        implies !#[trigger] pending_press(inputs.take(j2), i) by {
        assert(inputs.take(j2)[j] == inputs[j]);
    }
}

/// The mouse position is changed by none of the inputs.
pub proof fn lemma_mouse_unchanged(s: LoopState, inputs: Seq<LoopInput>)
    ensures
        state_after_all(s, inputs).mouse_world_pos == s.mouse_world_pos,
    decreases inputs.len(),
{
    if inputs.len() > 0 {
        lemma_mouse_unchanged(s, inputs.drop_last());
    }
}

/// The loop is stopping after a sequence of inputs exactly when it was before, or
/// one of them was a close request or a frame that asked to stop; the inputs whose
/// action is to leave the loop are exactly those; and once stopping, the loop
/// stays so.
pub proof fn lemma_exit(s: LoopState, inputs: Seq<LoopInput>)
    ensures
        state_after_all(s, inputs).exiting == (s.exiting
            || exists|i: int| 0 <= i < inputs.len() && #[trigger] stops(inputs[i])),
        forall|i: int| 0 <= i < inputs.len() ==> (action_after(
            state_after_all(s, #[trigger] inputs.take(i)), inputs[i]) == LoopAction::Exit
            <==> stops(inputs[i])),
        forall|i: int| 0 <= i <= inputs.len() && #[trigger] state_after_all(s, inputs.take(i)).exiting
            ==> state_after_all(s, inputs).exiting,
    decreases inputs.len(),
{
    if inputs.len() > 0 {
        let front = inputs.drop_last();
        let n = inputs.len() - 1;
        lemma_exit(s, front);
        if exists|i: int| 0 <= i < front.len() && #[trigger] stops(front[i]) {
            let i = choose|i: int| 0 <= i < front.len() && #[trigger] stops(front[i]);
            assert(stops(inputs[i]));
        }
        if exists|i: int| 0 <= i < inputs.len() && #[trigger] stops(inputs[i]) {
            let i = choose|i: int| 0 <= i < inputs.len() && #[trigger] stops(inputs[i]);
            if i < n {
                assert(stops(front[i]));
            }
        }
        assert forall|i: int| 0 <= i < inputs.len() implies (action_after(
            state_after_all(s, #[trigger] inputs.take(i)), inputs[i]) == LoopAction::Exit
            <==> stops(inputs[i])) by {
            if i < n {
                assert(inputs.take(i) == front.take(i));
                assert(front[i] == inputs[i]);
            } else {
                assert(inputs.take(i) == front);
            }
            match inputs[i] {
                LoopInput::Event(e) => {
                    match e {
                        LoopEvent::RedrawRequested { gui_wants_keyboard } => {},
                        _ => {},
                    }
                },
                LoopInput::FrameDone(c) => {},
            }
        }
        assert forall|i: int| 0 <= i <= inputs.len() && #[trigger] state_after_all(s, inputs.take(i)).exiting
            implies state_after_all(s, inputs).exiting by {
            if i <= n {
                assert(inputs.take(i) == front.take(i));
                assert(state_after_all(s, front.take(i)).exiting);
            } else {
                assert(inputs.take(i) == inputs);
            }
        }
    }
}


/// Whatever the state, a redraw runs one frame with the mouse position read back
/// after the last frame, and with the key pressed since then unless the user
/// interface holds the keyboard; the key is then forgotten and the rest kept.
pub proof fn lemma_redraw_frame(s: LoopState, gui_wants_keyboard: bool)
    ensures
        action_after(s, LoopInput::Event(LoopEvent::RedrawRequested { gui_wants_keyboard })) == (
            LoopAction::Frame {
                keycode: if gui_wants_keyboard { None } else { s.keycode },
                mouse_world_pos: s.mouse_world_pos,
            }),
        state_after(s, LoopInput::Event(LoopEvent::RedrawRequested { gui_wants_keyboard })) == (
            LoopState { keycode: None, mouse_world_pos: s.mouse_world_pos, exiting: s.exiting }),
{
}

/// Reading the mouse back changes what the next frame is told, and only that.
pub proof fn lemma_mouse_reaches_frame(
    s: LoopState,
    first: usize,
    second: usize,
    third: usize,
    gui_wants_keyboard: bool,
)
    ensures
        action_after(
            LoopState { mouse_world_pos: (first, third, second), ..s },
            LoopInput::Event(LoopEvent::RedrawRequested { gui_wants_keyboard }),
        ) == (LoopAction::Frame {
            keycode: if gui_wants_keyboard { None } else { s.keycode },
            mouse_world_pos: (first, third, second),
        }),
{
}

} // verus!
