use engine_core::input::action::{
    ActionBinding, GamepadAxis, GamepadButton, InputSource, KeyCode, MouseButton,
};
use engine_core::input::{
    ButtonState, GamepadFrame, InputManager, RegisteredInput, ScrollDirection, TouchPhase,
};

const W: KeyCode = KeyCode(17);
const S: KeyCode = KeyCode(31);

fn frame(buttons: Vec<GamepadButton>, before: Vec<GamepadAxis>, now: Vec<GamepadAxis>) -> GamepadFrame {
    GamepadFrame { buttons_pressed: buttons, axes_active_before: before, axes_active_now: now }
}

#[test]
fn key_press_release_cycle() {
    let mut input = InputManager::new();
    input.keyboard_input(W, ButtonState::Pressed, false);
    assert!(input.key_pressed(W));
    assert!(input.key_just_pressed(W));
    input.keyboard_input(W, ButtonState::Released, false);
    assert!(!input.key_pressed(W));
    assert!(input.key_just_released(W));
    assert!(input.key_just_pressed(W));
    input.update(None);
    assert!(!input.key_just_pressed(W));
    assert!(!input.key_just_released(W));
}

#[test]
fn repeated_press_is_not_just_pressed() {
    let mut input = InputManager::new();
    input.keyboard_input(W, ButtonState::Pressed, true);
    assert!(input.key_pressed(W));
    assert!(!input.key_just_pressed(W));
    input.update(None);
    input.keyboard_input(W, ButtonState::Pressed, false);
    assert!(!input.key_just_pressed(W));
}

#[test]
fn releasing_an_unheld_key_is_not_just_released() {
    let mut input = InputManager::new();
    input.keyboard_input(S, ButtonState::Released, false);
    assert!(!input.key_just_released(S));
}

#[test]
fn mouse_buttons() {
    let mut input = InputManager::new();
    input.mouse_button_input(MouseButton::Left, ButtonState::Pressed);
    assert!(input.mouse_button_pressed(MouseButton::Left));
    assert!(input.mouse_button_just_pressed(MouseButton::Left));
    input.update(None);
    input.mouse_button_input(MouseButton::Left, ButtonState::Released);
    assert!(input.mouse_button_just_released(MouseButton::Left));
    assert!(!input.mouse_button_pressed(MouseButton::Left));
}

#[test]
fn gamepad_frames_give_pressed_and_released() {
    let mut input = InputManager::new();
    input.update(Some(frame(vec![GamepadButton::South], vec![], vec![GamepadAxis::LeftStickX])));
    assert!(input.gamepad_button_pressed(GamepadButton::South));
    assert!(input.gamepad_button_just_pressed(GamepadButton::South));
    assert!(input.source_pressed(&InputSource::GamepadAxis(GamepadAxis::LeftStickX)));
    input.update(Some(frame(vec![GamepadButton::South], vec![GamepadAxis::LeftStickX], vec![])));
    assert!(!input.gamepad_button_just_pressed(GamepadButton::South));
    assert!(input.gamepad_button_pressed(GamepadButton::South));
    assert!(!input.source_pressed(&InputSource::GamepadAxis(GamepadAxis::LeftStickX)));
    input.update(Some(frame(vec![], vec![], vec![])));
    assert!(input.gamepad_button_just_released(GamepadButton::South));
    input.update(Some(frame(vec![GamepadButton::East], vec![], vec![])));
    input.update(None);
    assert!(!input.gamepad_button_pressed(GamepadButton::East));
    assert!(!input.gamepad_button_just_released(GamepadButton::East));
}

#[test]
fn touches_are_tracked() {
    let mut input = InputManager::new();
    assert!(!input.is_touching());
    input.touch_input(4, TouchPhase::Started);
    assert!(input.is_touching());
    assert!(input.touch(4));
    assert_eq!(input.any_source_just_pressed(), Some(InputSource::Touch));
    input.update(None);
    assert_eq!(input.any_source_just_pressed(), None);
    input.touch_input(5, TouchPhase::Moved);
    assert!(input.touch(5));
    input.touch_input(4, TouchPhase::Ended);
    input.touch_input(5, TouchPhase::Cancelled);
    assert!(!input.is_touching());
}

#[test]
fn any_source_prefers_keyboard_then_mouse_then_gamepad() {
    let mut input = InputManager::new();
    input.scroll_input(ScrollDirection::Down);
    assert_eq!(input.any_source_just_pressed(), Some(InputSource::MouseWheelDown));
    input.scroll_input(ScrollDirection::Up);
    assert_eq!(input.any_source_just_pressed(), Some(InputSource::MouseWheelUp));
    input.update(Some(frame(vec![], vec![], vec![GamepadAxis::RightZ])));
    assert_eq!(input.any_source_just_pressed(), Some(InputSource::GamepadAxis(GamepadAxis::RightZ)));
    input.update(Some(frame(vec![GamepadButton::North], vec![], vec![])));
    assert_eq!(input.any_source_just_pressed(), Some(InputSource::GamepadButton(GamepadButton::North)));
    input.mouse_button_input(MouseButton::Right, ButtonState::Pressed);
    assert_eq!(input.any_source_just_pressed(), Some(InputSource::Mouse(MouseButton::Right)));
    input.keyboard_input(S, ButtonState::Pressed, false);
    assert_eq!(input.any_source_just_pressed(), Some(InputSource::Keyboard(S)));
}

#[test]
fn actions_follow_their_sources() {
    let mut input = InputManager::new();
    input.bind_action("MoveForward".to_string(), ActionBinding::button(InputSource::Keyboard(W)));
    assert!(input.has_action("MoveForward"));
    assert!(!input.pressed("MoveForward"));
    input.keyboard_input(W, ButtonState::Pressed, false);
    assert!(input.pressed("MoveForward"));
    assert!(input.just_pressed("MoveForward"));
    input.update(None);
    assert!(input.pressed("MoveForward"));
    assert!(!input.just_pressed("MoveForward"));
    input.keyboard_input(W, ButtonState::Released, false);
    assert!(input.just_released("MoveForward"));
    assert!(!input.pressed("Unknown"));
    assert!(!input.just_pressed("Unknown"));
    assert!(!input.just_released("Unknown"));
}

#[test]
fn negative_sources_count_as_held_but_not_just_pressed() {
    let mut input = InputManager::new();
    input.add_negative_source("Move".to_string(), InputSource::Keyboard(S));
    input.keyboard_input(S, ButtonState::Pressed, false);
    assert!(input.pressed("Move"));
    assert!(!input.just_pressed("Move"));
}

#[test]
fn binding_edits() {
    let mut input = InputManager::new();
    input.add_source("Jump".to_string(), InputSource::Keyboard(W));
    input.add_source("Jump".to_string(), InputSource::Mouse(MouseButton::Left));
    input.add_negative_source("Jump".to_string(), InputSource::Keyboard(W));
    let b = input.binding("Jump").unwrap();
    assert_eq!(b.positive, vec![InputSource::Keyboard(W), InputSource::Mouse(MouseButton::Left)]);
    assert_eq!(b.negative, vec![InputSource::Keyboard(W)]);
    assert!(input.remove_binding("Jump", InputSource::Keyboard(W)));
    let b = input.binding("Jump").unwrap();
    assert_eq!(b.positive, vec![InputSource::Mouse(MouseButton::Left)]);
    assert!(b.negative.is_empty());
    assert!(!input.remove_binding("Jump", InputSource::Keyboard(W)));
    assert!(!input.remove_binding("Missing", InputSource::Keyboard(W)));
    assert!(input.rebind_action("Jump", InputSource::Touch));
    assert_eq!(input.binding("Jump").unwrap().positive, vec![InputSource::Touch]);
    assert!(!input.rebind_action("Missing", InputSource::Touch));
    let removed = input.unbind_action("Jump").unwrap();
    assert_eq!(removed.positive, vec![InputSource::Touch]);
    assert!(!input.has_action("Jump"));
    assert!(input.unbind_action("Jump").is_none());
    assert!(input.binding("Jump").is_none());
}

#[test]
fn register_inputs_seeds_only_unbound_actions() {
    let mut input = InputManager::new();
    input.bind_action("Jump".to_string(), ActionBinding::button(InputSource::Keyboard(S)));
    input.register_inputs(vec![
        RegisteredInput { name: "Jump", default: ActionBinding::button(InputSource::Keyboard(W)) },
        RegisteredInput { name: "Crouch", default: ActionBinding::button(InputSource::Keyboard(KeyCode(29))) },
    ]);
    assert_eq!(input.binding("Jump").unwrap().positive, vec![InputSource::Keyboard(S)]);
    assert_eq!(input.binding("Crouch").unwrap().positive, vec![InputSource::Keyboard(KeyCode(29))]);
    assert_eq!(input.registered_inputs().len(), 2);
    assert_eq!(input.registered_inputs()[0].name, "Jump");
}

#[test]
fn action_binding_builders() {
    let b = ActionBinding::new();
    assert!(b.is_empty());
    let b = ActionBinding::axis(InputSource::Keyboard(W), InputSource::Keyboard(S));
    assert_eq!(b.positive, vec![InputSource::Keyboard(W)]);
    assert_eq!(b.negative, vec![InputSource::Keyboard(S)]);
    let mut b = b.with_positive(InputSource::Touch).with_negative(InputSource::Touch);
    b.bind(InputSource::Keyboard(W));
    assert_eq!(b.positive.len(), 3);
    b.unbind(&InputSource::Keyboard(W));
    assert_eq!(b.positive, vec![InputSource::Touch]);
    assert_eq!(b.negative, vec![InputSource::Keyboard(S), InputSource::Touch]);
    assert!(!b.is_empty());
    assert!(InputSource::GamepadAxis(GamepadAxis::DPadX).is_axis());
    assert!(!InputSource::Touch.is_axis());
}

#[test]
fn scroll_and_touch_sources() {
    let mut input = InputManager::new();
    input.bind_action("Zoom".to_string(), ActionBinding::button(InputSource::MouseWheelUp));
    input.scroll_input(ScrollDirection::Up);
    assert!(input.pressed("Zoom"));
    assert!(input.just_pressed("Zoom"));
    assert!(!input.just_released("Zoom"));
    input.update(None);
    assert!(!input.pressed("Zoom"));
    assert!(!input.source_pressed(&InputSource::Noop));
}
