use granite::input::InputState;

#[test]
fn keys_follow_presses_and_releases() {
    let mut input = InputState::new();
    assert!(!input.key_pressed(30));
    input.handle_key(30, true, false);
    input.handle_key(31, true, false);
    assert!(input.key_pressed(30) && input.key_pressed(31));
    input.handle_key(30, true, false);
    input.handle_key(30, false, false);
    assert!(!input.key_pressed(30));
    assert!(input.key_pressed(31));
}

#[test]
fn key_repeats_change_nothing() {
    let mut input = InputState::new();
    input.handle_key(7, true, true);
    assert!(!input.key_pressed(7));
    input.handle_key(7, true, false);
    input.handle_key(7, false, true);
    assert!(input.key_pressed(7));
}

#[test]
fn mouse_buttons_follow_presses_and_releases() {
    let mut input = InputState::new();
    input.handle_mouse_button(0, true);
    assert!(input.mouse_pressed(0));
    assert!(!input.mouse_pressed(1));
    input.handle_mouse_button(0, false);
    assert!(!input.mouse_pressed(0));
}

#[test]
fn cursor_delta_is_movement_since_last_position() {
    let mut input = InputState::new();
    input.handle_cursor_moved(10, -4);
    assert_eq!(input.mouse_position(), (10, -4));
    assert_eq!(input.mouse_delta(), (10, -4));
    input.handle_cursor_moved(i32::MIN, i32::MAX);
    assert_eq!(input.mouse_delta(), (i32::MIN as i64 - 10, i32::MAX as i64 + 4));
    input.reset_current_frame();
    assert_eq!(input.mouse_delta(), (0, 0));
    assert_eq!(input.mouse_position(), (i32::MIN, i32::MAX));
}
