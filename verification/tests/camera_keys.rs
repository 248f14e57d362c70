use rust4d::{MovementKeys, PointerState};
use winit::event::MouseButton;
use winit::keyboard::KeyCode;

fn axes(k: &MovementKeys) -> (f32, f32) {
    let (f, r) = k.movement_axes();
    (f as f32, r as f32)
}

fn w_input(k: &MovementKeys) -> f32 {
    k.w_axis() as f32
}

#[test]
fn test_initial_state_not_moving() {
    let controller = MovementKeys::new();
    assert!(!controller.is_moving());
}

#[test]
fn test_key_pressed_w() {
    let mut controller = MovementKeys::new();
    assert!(!controller.is_moving());
    let handled = controller.process_keyboard(KeyCode::KeyW, true);
    assert!(handled);
    assert!(controller.is_moving());
    let handled = controller.process_keyboard(KeyCode::KeyW, false);
    assert!(handled);
    assert!(!controller.is_moving());
}

#[test]
fn test_key_pressed_s() {
    let mut controller = MovementKeys::new();
    controller.process_keyboard(KeyCode::KeyS, true);
    assert!(controller.is_moving());
    controller.process_keyboard(KeyCode::KeyS, false);
    assert!(!controller.is_moving());
}

#[test]
fn test_key_pressed_a() {
    let mut controller = MovementKeys::new();
    controller.process_keyboard(KeyCode::KeyA, true);
    assert!(controller.is_moving());
}

#[test]
fn test_key_pressed_d() {
    let mut controller = MovementKeys::new();
    controller.process_keyboard(KeyCode::KeyD, true);
    assert!(controller.is_moving());
}

#[test]
fn test_key_pressed_q() {
    let mut controller = MovementKeys::new();
    controller.process_keyboard(KeyCode::KeyQ, true);
    assert!(controller.is_moving());
    assert_eq!(w_input(&controller), 1.0);
}

#[test]
fn test_key_pressed_e() {
    let mut controller = MovementKeys::new();
    controller.process_keyboard(KeyCode::KeyE, true);
    assert!(controller.is_moving());
    assert_eq!(w_input(&controller), -1.0);
}

#[test]
fn test_key_pressed_space() {
    let mut controller = MovementKeys::new();
    controller.process_keyboard(KeyCode::Space, true);
    assert!(controller.is_moving());
}

#[test]
fn test_key_pressed_shift() {
    let mut controller = MovementKeys::new();
    controller.process_keyboard(KeyCode::ShiftLeft, true);
    assert!(controller.is_moving());
    controller.process_keyboard(KeyCode::ShiftLeft, false);
    assert!(!controller.is_moving());
    controller.process_keyboard(KeyCode::ShiftRight, true);
    assert!(controller.is_moving());
}

#[test]
fn test_unhandled_key() {
    let mut controller = MovementKeys::new();
    let handled = controller.process_keyboard(KeyCode::KeyX, true);
    assert!(!handled);
    assert!(!controller.is_moving());
}

#[test]
fn test_multiple_keys() {
    let mut controller = MovementKeys::new();
    controller.process_keyboard(KeyCode::KeyW, true);
    controller.process_keyboard(KeyCode::KeyA, true);
    assert!(controller.is_moving());
    controller.process_keyboard(KeyCode::KeyW, false);
    assert!(controller.is_moving());
    controller.process_keyboard(KeyCode::KeyA, false);
    assert!(!controller.is_moving());
}

#[test]
fn test_forward_movement() {
    let mut controller = MovementKeys::new();
    controller.process_keyboard(KeyCode::KeyW, true);
    let (forward, right) = axes(&controller);
    assert_eq!(forward, 1.0);
    assert_eq!(right, 0.0);
}

#[test]
fn test_backward_movement() {
    let mut controller = MovementKeys::new();
    controller.process_keyboard(KeyCode::KeyS, true);
    let (forward, right) = axes(&controller);
    assert_eq!(forward, -1.0);
    assert_eq!(right, 0.0);
}

#[test]
fn test_right_movement() {
    let mut controller = MovementKeys::new();
    controller.process_keyboard(KeyCode::KeyD, true);
    let (forward, right) = axes(&controller);
    assert_eq!(forward, 0.0);
    assert_eq!(right, 1.0);
}

#[test]
fn test_left_movement() {
    let mut controller = MovementKeys::new();
    controller.process_keyboard(KeyCode::KeyA, true);
    let (forward, right) = axes(&controller);
    assert_eq!(forward, 0.0);
    assert_eq!(right, -1.0);
}

#[test]
fn test_diagonal_movement_forward_right() {
    let mut controller = MovementKeys::new();
    controller.process_keyboard(KeyCode::KeyW, true);
    controller.process_keyboard(KeyCode::KeyD, true);
    let (forward, right) = axes(&controller);
    assert_eq!(forward, 1.0);
    assert_eq!(right, 1.0);
}

#[test]
fn test_opposing_keys_cancel_forward_backward() {
    let mut controller = MovementKeys::new();
    controller.process_keyboard(KeyCode::KeyW, true);
    controller.process_keyboard(KeyCode::KeyS, true);
    let (forward, _) = axes(&controller);
    assert_eq!(forward, 0.0);
}

#[test]
fn test_opposing_keys_cancel_left_right() {
    let mut controller = MovementKeys::new();
    controller.process_keyboard(KeyCode::KeyA, true);
    controller.process_keyboard(KeyCode::KeyD, true);
    let (_, right) = axes(&controller);
    assert_eq!(right, 0.0);
}

#[test]
fn test_w_axis_input_ana() {
    let mut controller = MovementKeys::new();
    controller.process_keyboard(KeyCode::KeyQ, true);
    assert_eq!(w_input(&controller), 1.0);
}

#[test]
fn test_w_axis_input_kata() {
    let mut controller = MovementKeys::new();
    controller.process_keyboard(KeyCode::KeyE, true);
    assert_eq!(w_input(&controller), -1.0);
}

#[test]
fn test_w_axis_input_cancel() {
    let mut controller = MovementKeys::new();
    controller.process_keyboard(KeyCode::KeyQ, true);
    controller.process_keyboard(KeyCode::KeyE, true);
    assert_eq!(w_input(&controller), 0.0);
}

#[test]
fn test_jump_initial_state() {
    let mut controller = MovementKeys::new();
    assert!(!controller.consume_jump());
}

#[test]
fn test_jump_pressed() {
    let mut controller = MovementKeys::new();
    controller.process_keyboard(KeyCode::Space, true);
    assert!(controller.consume_jump());
    assert!(!controller.consume_jump());
}

#[test]
fn test_jump_press_and_release() {
    let mut controller = MovementKeys::new();
    controller.process_keyboard(KeyCode::Space, true);
    controller.process_keyboard(KeyCode::Space, false);
    assert!(controller.consume_jump());
    assert!(!controller.consume_jump());
}

#[test]
fn test_jump_multiple_presses() {
    let mut controller = MovementKeys::new();
    controller.process_keyboard(KeyCode::Space, true);
    controller.process_keyboard(KeyCode::Space, false);
    controller.process_keyboard(KeyCode::Space, true);
    assert!(controller.consume_jump());
    assert!(!controller.consume_jump());
}

#[test]
fn test_mouse_button_left() {
    let mut controller = PointerState::new();
    controller.process_mouse_button(MouseButton::Left, true);
    assert!(controller.mouse_pressed);
    controller.process_mouse_button(MouseButton::Left, false);
    assert!(!controller.mouse_pressed);
}

#[test]
fn test_mouse_button_right() {
    let mut controller = PointerState::new();
    controller.process_mouse_button(MouseButton::Right, true);
    assert!(controller.w_rotation_mode);
    controller.process_mouse_button(MouseButton::Right, false);
    assert!(!controller.w_rotation_mode);
}

#[test]
fn test_mouse_button_other() {
    let mut controller = PointerState::new();
    controller.process_mouse_button(MouseButton::Middle, true);
    assert!(!controller.mouse_pressed);
    assert!(!controller.w_rotation_mode);
}
