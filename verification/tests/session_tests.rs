use wallfacer::control::Command;
use wallfacer::session::{
    next_effect, prev_effect, start_slot, Action, AppMode, InputEvent, Key, MouseButtonKind, Session,
    SessionConfig,
};

fn cfg(keyboard_cursor: bool, benchmark: bool) -> SessionConfig {
    SessionConfig { effect_count: 3, width: 100, height: 50, keyboard_cursor, benchmark }
}

#[test]
fn slots_cycle_through_the_test_pattern() {
    assert_eq!(next_effect(Some(0), 3), Some(1));
    assert_eq!(next_effect(Some(2), 3), None);
    assert_eq!(next_effect(None, 3), Some(0));
    assert_eq!(prev_effect(Some(0), 3), None);
    assert_eq!(prev_effect(None, 3), Some(2));
    assert_eq!(prev_effect(Some(2), 3), Some(1));
    // four steps forward over three effects and the test pattern come back
    let mut s = Some(1);
    for _ in 0..4 {
        s = next_effect(s, 3);
    }
    assert_eq!(s, Some(1));
}

#[test]
fn start_slot_is_clamped() {
    assert_eq!(start_slot(Some(0), 3), Some(0));
    assert_eq!(start_slot(Some(7), 3), Some(2));
    assert_eq!(start_slot(None, 3), None);
}

#[test]
fn new_session_starts_in_effect_mode_with_centred_cursor() {
    let c = cfg(false, false);
    let s = Session::new(&c, Some(9));
    assert_eq!(s.mode, AppMode::Effect);
    assert_eq!(s.current_effect, Some(2));
    assert!(!s.show_fps && !s.shift_held);
    assert_eq!(s.cursor, (50, 25));
}

#[test]
fn escape_and_window_close_quit_even_in_benchmarks() {
    let c = cfg(false, true);
    let mut s = Session::new(&c, Some(0));
    assert_eq!(s.handle_event(&c, InputEvent::KeyDown(Key::Escape)), vec![Action::Quit]);
    assert_eq!(s.handle_event(&c, InputEvent::Quit), vec![Action::Quit]);
    // other keys do nothing during a benchmark
    let before = s;
    assert!(s.handle_event(&c, InputEvent::KeyDown(Key::Right)).is_empty());
    assert!(s.handle_event(&c, InputEvent::KeyDown(Key::F)).is_empty());
    assert_eq!(s, before);
}

#[test]
fn keys_switch_effects_and_toggles() {
    let c = cfg(false, false);
    let mut s = Session::new(&c, Some(0));
    s.handle_event(&c, InputEvent::KeyDown(Key::Left));
    assert_eq!(s.current_effect, None);
    s.handle_event(&c, InputEvent::KeyDown(Key::Left));
    assert_eq!(s.current_effect, Some(2));
    s.handle_event(&c, InputEvent::KeyDown(Key::Right));
    assert_eq!(s.current_effect, None);
    s.handle_event(&c, InputEvent::KeyDown(Key::F));
    assert!(s.show_fps);
    s.handle_event(&c, InputEvent::KeyDown(Key::Tab));
    assert_eq!(s.mode, AppMode::Calibration);
    assert_eq!(s.handle_event(&c, InputEvent::KeyDown(Key::S)), vec![Action::SaveScene]);
    assert_eq!(s.handle_event(&c, InputEvent::KeyDown(Key::L)), vec![Action::LoadScene]);
    assert_eq!(s.handle_event(&c, InputEvent::KeyDown(Key::Delete)), vec![Action::DeleteSelected]);
    s.handle_event(&c, InputEvent::KeyDown(Key::Tab));
    assert!(s.handle_event(&c, InputEvent::KeyDown(Key::Backspace)).is_empty());
}

#[test]
fn mouse_events_go_to_calibration_without_keyboard_cursor() {
    let c = cfg(false, false);
    let mut s = Session::new(&c, Some(0));
    let mv = InputEvent::MouseMove { x: 3, y: 4 };
    assert_eq!(s.handle_event(&c, mv), vec![Action::MouseActivity]);
    s.handle_event(&c, InputEvent::KeyDown(Key::Tab));
    assert_eq!(s.handle_event(&c, mv), vec![Action::MouseActivity, Action::Calibrate(mv)]);
    let up = InputEvent::MouseUp { x: 3, y: 4, button: MouseButtonKind::Left };
    assert_eq!(s.handle_event(&c, up), vec![Action::Calibrate(up)]);
    let other = InputEvent::KeyDown(Key::Other);
    assert_eq!(s.handle_event(&c, other), vec![Action::Calibrate(other)]);
}

#[test]
fn keyboard_cursor_moves_and_clicks_in_calibration() {
    let c = cfg(true, false);
    let mut s = Session::new(&c, Some(0));
    // in effect mode the arrows still switch effects
    s.handle_event(&c, InputEvent::KeyDown(Key::Right));
    assert_eq!(s.current_effect, Some(1));
    s.handle_event(&c, InputEvent::KeyDown(Key::Tab));
    let a = s.handle_event(&c, InputEvent::KeyDown(Key::Right));
    assert_eq!(s.cursor, (55, 25));
    assert_eq!(a, vec![Action::Calibrate(InputEvent::MouseMove { x: 55, y: 25 })]);
    assert_eq!(s.current_effect, Some(1));
    s.handle_event(&c, InputEvent::KeyDown(Key::LShift));
    for _ in 0..5 {
        s.handle_event(&c, InputEvent::KeyDown(Key::Right));
        s.handle_event(&c, InputEvent::KeyDown(Key::Down));
    }
    assert_eq!(s.cursor, (99, 49));
    s.handle_event(&c, InputEvent::KeyUp(Key::LShift));
    assert!(!s.shift_held);
    s.handle_event(&c, InputEvent::KeyDown(Key::Up));
    assert_eq!(s.cursor, (99, 44));
    for _ in 0..30 {
        s.handle_event(&c, InputEvent::KeyDown(Key::Left));
    }
    assert_eq!(s.cursor.0, 0);
    let clicks = s.handle_event(&c, InputEvent::KeyDown(Key::Return));
    assert_eq!(
        clicks,
        vec![
            Action::Calibrate(InputEvent::MouseDown { x: 0, y: 44, button: MouseButtonKind::Left }),
            Action::Calibrate(InputEvent::MouseUp { x: 0, y: 44, button: MouseButtonKind::Left }),
        ]
    );
    // mouse events are not forwarded when the keyboard cursor is in use
    assert!(s.handle_event(&c, InputEvent::MouseMove { x: 1, y: 1 }).is_empty());
}

#[test]
fn remote_commands() {
    let c = cfg(false, false);
    let mut s = Session::new(&c, None);
    assert_eq!(s.handle_command(&c, Command::Right), None);
    assert_eq!(s.current_effect, Some(0));
    s.handle_command(&c, Command::Effect(2));
    assert_eq!(s.current_effect, Some(2));
    s.handle_command(&c, Command::Effect(3));
    assert_eq!(s.current_effect, Some(2));
    s.handle_command(&c, Command::Left);
    assert_eq!(s.current_effect, Some(1));
    s.handle_command(&c, Command::Tab);
    assert_eq!(s.mode, AppMode::Calibration);
    s.handle_command(&c, Command::ToggleFps);
    assert!(s.show_fps);
    assert_eq!(s.handle_command(&c, Command::Save), Some(Action::SaveScene));
    assert_eq!(s.handle_command(&c, Command::Load), Some(Action::LoadScene));
    assert_eq!(s.handle_command(&c, Command::Quit), Some(Action::Quit));
}
