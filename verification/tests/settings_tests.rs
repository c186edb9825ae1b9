use engine_core::client::registry::AppliedRegistryVersion;
use engine_core::client::settings::{
    render_settings_tab, shown_source, SettingsState, SettingsTab,
};
use engine_core::ecs::term::Access;
use engine_core::input::action::{ActionBinding, InputSource, KeyCode, MouseButton};
use engine_core::input::{ButtonState, InputManager, RegisteredInput};
use engine_core::logging::Level;
use engine_core::physics::raycast::{Direction, LocalAxis};

const ESCAPE: KeyCode = KeyCode(1);
const E: KeyCode = KeyCode(18);
const W: KeyCode = KeyCode(17);

fn manager() -> InputManager {
    let mut input = InputManager::new();
    input.register_inputs(vec![
        RegisteredInput { name: "Jump", default: ActionBinding::button(InputSource::Keyboard(W)) },
        RegisteredInput { name: "Use", default: ActionBinding::button(InputSource::Keyboard(E)) },
    ]);
    input
}

#[test]
fn capture_skips_first_frame_then_binds() {
    let mut input = manager();
    let mut state = SettingsState::default();
    state.start_rebinding("Jump".to_string());
    assert!(state.is_rebinding(&"Jump".to_string()));
    input.mouse_button_input(MouseButton::Left, ButtonState::Pressed);
    state.poll_rebinding(&mut input, ESCAPE);
    assert!(state.is_rebinding(&"Jump".to_string()));
    assert!(!state.rebinding_skip_frame);
    input.update(None);
    state.poll_rebinding(&mut input, ESCAPE);
    assert!(state.is_rebinding(&"Jump".to_string()));
    input.keyboard_input(E, ButtonState::Pressed, false);
    state.poll_rebinding(&mut input, ESCAPE);
    assert!(state.rebinding.is_none());
    assert_eq!(input.binding("Jump").unwrap().positive, vec![InputSource::Keyboard(E)]);
    assert!(input.just_pressed("Jump"));
}

#[test]
fn escape_cancels_capture() {
    let mut input = manager();
    let mut state = SettingsState::default();
    state.start_rebinding("Jump".to_string());
    state.poll_rebinding(&mut input, ESCAPE);
    input.keyboard_input(ESCAPE, ButtonState::Pressed, false);
    state.poll_rebinding(&mut input, ESCAPE);
    assert!(state.rebinding.is_none());
    assert_eq!(input.binding("Jump").unwrap().positive, vec![InputSource::Keyboard(W)]);
}

#[test]
fn clear_and_reset_bindings() {
    let mut input = manager();
    let mut state = SettingsState::default();
    state.clear_binding(&mut input, "Jump".to_string());
    assert!(input.binding("Jump").unwrap().is_empty());
    assert_eq!(shown_source(input.binding("Jump").unwrap()), None);
    input.rebind_action("Use", InputSource::Touch);
    state.start_rebinding("Use".to_string());
    state.reset_to_defaults(&mut input);
    assert!(state.rebinding.is_none());
    assert_eq!(shown_source(input.binding("Jump").unwrap()), Some(InputSource::Keyboard(W)));
    assert_eq!(shown_source(input.binding("Use").unwrap()), Some(InputSource::Keyboard(E)));
}

#[test]
fn rows_fall_back_to_defaults() {
    let mut input = manager();
    input.unbind_action("Use");
    input.rebind_action("Jump", InputSource::Touch);
    let rows = SettingsState::binding_rows(&input);
    assert_eq!(rows.len(), 2);
    assert_eq!(rows[0].0, "Jump");
    assert_eq!(rows[0].1.positive, vec![InputSource::Touch]);
    assert_eq!(rows[1].0, "Use");
    assert_eq!(rows[1].1.positive, vec![InputSource::Keyboard(E)]);
}

#[test]
fn tabs_and_default_state() {
    let mut state = SettingsState::default();
    assert_eq!(state.tab, SettingsTab::Rendering);
    assert!(!state.advanced_on);
    state.select_tab(SettingsTab::Inputs);
    assert_eq!(state.tab, SettingsTab::Inputs);
}

#[test]
fn render_sections_follow_flags() {
    let s = render_settings_tab(false, true, false);
    assert!(!s.depth && !s.raster && !s.line_width && s.image && !s.anisotropy_amount);
    let s = render_settings_tab(true, true, true);
    assert!(s.depth && s.raster && s.line_width && s.image && s.anisotropy_amount);
    let s = render_settings_tab(true, false, false);
    assert!(!s.line_width);
}

#[test]
fn registry_versions_apply_only_when_newer() {
    let mut applied = AppliedRegistryVersion(0);
    assert!(!applied.accepts(0));
    assert!(applied.accepts(1));
    applied.record(3);
    assert!(!applied.accepts(2));
    assert!(!applied.accepts(3));
    assert!(applied.accepts(4));
}

#[test]
fn level_labels() {
    assert_eq!(Level::Error.label(), "ERROR");
    assert_eq!(Level::Warn.label(), "WARN");
    assert_eq!(Level::Info.label(), "INFO");
    assert_eq!(Level::Debug.label(), "DEBUG");
    assert_eq!(Level::Trace.label(), "TRACE");
}

#[test]
fn access_noop() {
    assert!(Access::default().is_noop());
    assert!(!Access::Read.is_noop());
}

#[test]
fn ray_directions() {
    assert_eq!(Direction::Forward.basis(), (LocalAxis::Forward, false));
    assert_eq!(Direction::Backwards.basis(), (LocalAxis::Forward, true));
    assert_eq!(Direction::Left.basis(), (LocalAxis::Right, false));
    assert_eq!(Direction::Right.basis(), (LocalAxis::Right, true));
    assert_eq!(Direction::Up.basis(), (LocalAxis::Up, false));
    assert_eq!(Direction::Down.basis(), (LocalAxis::Up, true));
}

#[test]
fn capture_takes_the_key_pressed_first() {
    let mut input = manager();
    let mut state = SettingsState::default();
    state.start_rebinding("Jump".to_string());
    state.poll_rebinding(&mut input, ESCAPE);
    input.update(None);
    input.keyboard_input(E, ButtonState::Pressed, false);
    input.keyboard_input(W, ButtonState::Pressed, false);
    assert_eq!(input.any_source_just_pressed(), Some(InputSource::Keyboard(E)));
    state.poll_rebinding(&mut input, ESCAPE);
    assert_eq!(input.binding("Jump").unwrap().positive, vec![InputSource::Keyboard(E)]);
}
