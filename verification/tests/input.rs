use rust4d::{ActionMap, CameraAction, MovementKeys, NamedKey, PointerButton, PointerState};
use winit::event::MouseButton;
use winit::keyboard::KeyCode;

#[test]
fn default_bindings_match_legacy_controls() {
    let map = ActionMap::default();
    assert_eq!(map.actions_for_key(KeyCode::KeyW), vec![CameraAction::MoveForward]);
    assert_eq!(map.actions_for_key(KeyCode::KeyQ), vec![CameraAction::MoveAna]);
    assert_eq!(map.actions_for_key(KeyCode::ShiftRight), vec![CameraAction::MoveDown]);
}

#[test]
fn bind_and_unbind_key() {
    let mut map = ActionMap::empty();
    map.bind(KeyCode::ArrowUp, CameraAction::MoveForward);
    map.bind(KeyCode::ArrowUp, CameraAction::MoveForward);
    assert_eq!(map.bindings().len(), 1, "duplicate bindings are ignored");
    assert!(map.handles_key(KeyCode::ArrowUp));
    map.unbind_key(KeyCode::ArrowUp);
    assert!(!map.handles_key(KeyCode::ArrowUp));
}

#[test]
fn one_key_can_drive_multiple_actions() {
    let mut map = ActionMap::empty();
    map.bind(KeyCode::KeyR, CameraAction::MoveForward);
    map.bind(KeyCode::KeyR, CameraAction::MoveAna);
    assert_eq!(
        map.actions_for_key(KeyCode::KeyR),
        vec![CameraAction::MoveForward, CameraAction::MoveAna]
    );
    map.unbind(KeyCode::KeyR, CameraAction::MoveForward);
    assert_eq!(map.actions_for_key(KeyCode::KeyR), vec![CameraAction::MoveAna]);
}

#[test]
fn default_table_has_all_movement_keys() {
    let map = ActionMap::new();
    assert_eq!(map.bindings().len(), 9);
    assert_eq!(map.actions_for_key(KeyCode::Space), vec![CameraAction::MoveUp]);
    assert_eq!(map.actions_for_key(KeyCode::ShiftLeft), vec![CameraAction::MoveDown]);
    assert!(!map.handles_key(KeyCode::KeyZ));
}

#[test]
fn movement_keys_follow_presses() {
    let mut keys = MovementKeys::new();
    assert!(!keys.is_moving());
    assert!(keys.process_keyboard(KeyCode::KeyW, true));
    assert!(keys.is_moving());
    assert_eq!(keys.movement_axes(), (1, 0));
    assert!(keys.process_keyboard(KeyCode::KeyA, true));
    assert_eq!(keys.movement_axes(), (1, -1));
    assert!(keys.process_keyboard(KeyCode::KeyQ, true));
    assert_eq!(keys.w_axis(), 1);
    assert!(keys.process_keyboard(KeyCode::Space, true));
    assert_eq!(keys.vertical_axis(), 1);
    assert!(keys.consume_jump());
    assert!(!keys.consume_jump());
    assert!(keys.process_keyboard(KeyCode::Space, false));
    assert!(!keys.consume_jump());
    assert!(!keys.process_keyboard(KeyCode::KeyZ, true));
    assert!(keys.apply_key(Some(NamedKey::ShiftRight), true));
    assert_eq!(keys.vertical_axis(), -1);
}

#[test]
fn pointer_buttons_track_left_and_right() {
    let mut p = PointerState::new();
    p.process_mouse_button(MouseButton::Left, true);
    assert!(p.mouse_pressed);
    assert!(!p.w_rotation_mode);
    p.process_mouse_button(MouseButton::Right, true);
    assert!(p.w_rotation_mode);
    p.process_mouse_button(MouseButton::Middle, false);
    assert!(p.mouse_pressed && p.w_rotation_mode);
    p.process_mouse_button(MouseButton::Left, false);
    assert!(!p.mouse_pressed);
    p.apply_button(Some(PointerButton::Right), false);
    assert!(!p.w_rotation_mode);
}
