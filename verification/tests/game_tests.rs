use nox::components::{component_registration, ComponentKind, TagKind, Tint, MyTurn, JobType, LumberjackSteps, ScheduleTime, WorkOrder};
use nox::playgame::{pause_control, GameStateResource, KeyCode, RunState};
use nox::main_loop::{LoopAction, LoopEvent, LoopState};

#[test]
fn new_game_state_has_no_key() {
    let s = GameStateResource::new();
    assert_eq!(s.keycode(), None);
    assert!(!s.camera_changed);
}

#[test]
fn frame_update_records_key() {
    let mut s = GameStateResource::new();
    s.frame_update(Some(KeyCode::Key2));
    assert_eq!(s.keycode(), Some(KeyCode::Key2));
    s.frame_update(None);
    assert_eq!(s.keycode(), None);
}

#[test]
fn pause_control_maps_keys_to_speeds() {
    let cases = [
        (KeyCode::Grave, RunState::Paused),
        (KeyCode::Key1, RunState::SlowMo),
        (KeyCode::Key2, RunState::Running),
        (KeyCode::Key3, RunState::FullSpeed),
    ];
    for (key, speed) in cases.iter() {
        let mut s = GameStateResource::new();
        s.frame_update(Some(*key));
        let mut run = RunState::Running;
        if *speed == RunState::Running {
            run = RunState::Paused;
        }
        pause_control(&mut s, &mut run);
        assert_eq!(run, *speed);
    }
}

#[test]
fn pause_control_ignores_other_keys_and_no_key() {
    let mut s = GameStateResource::new();
    let mut run = RunState::SlowMo;
    pause_control(&mut s, &mut run);
    assert_eq!(run, RunState::SlowMo);
    s.frame_update(Some(KeyCode::Other(42)));
    pause_control(&mut s, &mut run);
    assert_eq!(run, RunState::SlowMo);
}

#[test]
fn registration_lists_each_type_once() {
    let (comps, tags) = component_registration();
    assert_eq!(comps.len(), 20);
    assert_eq!(comps[0], ComponentKind::Position);
    assert_eq!(comps[8], ComponentKind::Tint);
    assert_eq!(comps[19], ComponentKind::Initiative);
    assert_eq!(tags, vec![TagKind::Cordex, TagKind::Building, TagKind::Item, TagKind::Sentient, TagKind::MyTurn]);
    for i in 0..comps.len() {
        for j in i + 1..comps.len() {
            assert_ne!(comps[i], comps[j]);
        }
    }
}

#[test]
fn components_compare_by_value() {
    let t = Tint { color: 3 };
    assert_eq!(t, Tint { color: 3 });
    let turn = MyTurn {
        active: true,
        shift: ScheduleTime::Work,
        job: JobType::FellTree { tree_id: 1, tree_pos: 2, tool_id: None, step: LumberjackSteps::FindAxe },
        order: WorkOrder::Lumberjack,
    };
    assert_eq!(turn.clone(), turn);
    assert_ne!(turn.job, JobType::Idle);
}

#[test]
fn loop_hands_key_to_next_frame_once() {
    let mut s = LoopState::new();
    assert_eq!(s.on_event(LoopEvent::KeyPressed(KeyCode::Key1)), LoopAction::Nothing);
    assert_eq!(
        s.on_event(LoopEvent::RedrawRequested { gui_wants_keyboard: false }),
        LoopAction::Frame { keycode: Some(KeyCode::Key1), mouse_world_pos: (0, 0, 0) }
    );
    assert_eq!(
        s.on_event(LoopEvent::RedrawRequested { gui_wants_keyboard: false }),
        LoopAction::Frame { keycode: None, mouse_world_pos: (0, 0, 0) }
    );
}

#[test]
fn loop_withholds_key_when_gui_has_keyboard() {
    let mut s = LoopState::new();
    s.on_event(LoopEvent::KeyPressed(KeyCode::Grave));
    assert_eq!(
        s.on_event(LoopEvent::RedrawRequested { gui_wants_keyboard: true }),
        LoopAction::Frame { keycode: None, mouse_world_pos: (0, 0, 0) }
    );
    assert_eq!(s.keycode, None);
}

#[test]
fn loop_routes_window_events() {
    let mut s = LoopState::new();
    assert_eq!(s.on_event(LoopEvent::NewEvents), LoopAction::UpdateFrameTime);
    assert_eq!(s.on_event(LoopEvent::MainEventsCleared), LoopAction::RequestRedraw);
    assert_eq!(
        s.on_event(LoopEvent::Resized { width: 800, height: 600 }),
        LoopAction::Resize { width: 800, height: 600 }
    );
    assert_eq!(s.on_event(LoopEvent::Other), LoopAction::Nothing);
    assert!(!s.exiting);
    assert_eq!(s.on_event(LoopEvent::CloseRequested), LoopAction::Exit);
    assert!(s.exiting);
}

#[test]
fn loop_exits_when_game_stops_and_swizzles_mouse() {
    let mut s = LoopState::new();
    s.on_mouse_read(1, 2, 3);
    assert_eq!(s.mouse_world_pos, (1, 3, 2));
    assert_eq!(s.on_frame_done(true), LoopAction::Nothing);
    assert!(!s.exiting);
    assert_eq!(s.on_frame_done(false), LoopAction::Exit);
    assert!(s.exiting);
}

#[test]
fn loop_hands_a_key_to_one_frame_only() {
    let mut s = LoopState::new();
    s.on_event(LoopEvent::KeyPressed(KeyCode::Key1));
    s.on_event(LoopEvent::KeyPressed(KeyCode::Other(7)));
    s.on_event(LoopEvent::MainEventsCleared);
    assert_eq!(
        s.on_event(LoopEvent::RedrawRequested { gui_wants_keyboard: false }),
        LoopAction::Frame { keycode: Some(KeyCode::Other(7)), mouse_world_pos: (0, 0, 0) }
    );
    assert_eq!(s.on_frame_done(true), LoopAction::Nothing);
    assert_eq!(
        s.on_event(LoopEvent::RedrawRequested { gui_wants_keyboard: false }),
        LoopAction::Frame { keycode: None, mouse_world_pos: (0, 0, 0) }
    );
}

#[test]
fn loop_stays_exiting_once_a_frame_stops() {
    let mut s = LoopState::new();
    assert_eq!(s.on_frame_done(false), LoopAction::Exit);
    assert_eq!(s.on_event(LoopEvent::NewEvents), LoopAction::UpdateFrameTime);
    assert_eq!(s.on_frame_done(true), LoopAction::Nothing);
    assert!(s.exiting);
}
