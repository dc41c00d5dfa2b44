use weaver::highlight::as_byte_range;
use weaver::input::{Input, WindowEvent};

#[test]
fn a_press_is_new_once() {
    let mut input = Input::default();
    input.update_window(WindowEvent::KeyboardInput { code: Some(4), pressed: true, is_synthetic: false });
    assert!(input.key_just_pressed(4));
    assert!(input.key_pressed(4));
    input.prepare_for_update();
    assert!(!input.key_just_pressed(4));
    assert!(input.key_pressed(4));
    input.update_window(WindowEvent::KeyboardInput { code: Some(4), pressed: true, is_synthetic: false });
    assert!(!input.key_just_pressed(4));
    input.update_window(WindowEvent::KeyboardInput { code: Some(4), pressed: false, is_synthetic: false });
    assert!(!input.key_pressed(4));
}

#[test]
fn synthetic_and_unknown_keys_are_ignored() {
    let mut input = Input::default();
    input.update_window(WindowEvent::KeyboardInput { code: Some(1), pressed: true, is_synthetic: true });
    input.update_window(WindowEvent::KeyboardInput { code: None, pressed: true, is_synthetic: false });
    input.update_window(WindowEvent::Other);
    assert!(!input.key_pressed(1));
    assert!(!input.key_just_pressed(1));
}

#[test]
fn mouse_buttons() {
    let mut input = Input::default();
    input.update_window(WindowEvent::MouseInput { button: 0, pressed: true });
    assert!(input.mouse_button_just_pressed(0));
    assert!(input.mouse_button_pressed(0));
    assert!(!input.mouse_button_pressed(1));
    input.update_window(WindowEvent::MouseInput { button: 0, pressed: false });
    assert!(!input.mouse_button_pressed(0));
    assert!(input.mouse_button_just_pressed(0));
    input.prepare_for_update();
    assert!(!input.mouse_button_just_pressed(0));
}

#[test]
fn disabled_input_ignores_events() {
    let mut input = Input::default();
    assert!(input.is_input_enabled());
    input.disable_input();
    assert!(!input.is_input_enabled());
    input.update_window(WindowEvent::MouseInput { button: 2, pressed: true });
    assert!(!input.mouse_button_pressed(2));
    input.enable_input();
    input.update_window(WindowEvent::MouseInput { button: 2, pressed: true });
    assert!(input.mouse_button_pressed(2));
}

#[test]
fn byte_range_of_a_slice() {
    assert_eq!(as_byte_range(1000, 20, 1005, 3), 5..8);
    assert_eq!(as_byte_range(1000, 20, 1000, 20), 0..20);
    assert_eq!(as_byte_range(1000, 20, 1020, 0), 20..20);
}

#[test]
fn a_clone_keeps_the_state() {
    let mut input = Input::default();
    input.update_window(WindowEvent::KeyboardInput { code: Some(9), pressed: true, is_synthetic: false });
    input.update_window(WindowEvent::MouseInput { button: 2, pressed: true });
    let copy = input.clone();
    assert!(copy.key_pressed(9));
    assert!(copy.key_just_pressed(9));
    assert!(copy.mouse_button_pressed(2));
    assert!(copy.is_input_enabled());
    input.prepare_for_update();
    assert!(copy.key_just_pressed(9));
}
