use lifewall::camera::Camera;
use lifewall::config::{DEFAULT_SPEED_EXPONENT, MAX_SPEED_EXPONENT, MIN_SPEED_EXPONENT};
use lifewall::controls::ControlState;
use lifewall::input::{key_to_bit, KeyState};

#[test]
fn key_names_map_to_flags() {
    assert_eq!(key_to_bit("k"), KeyState::K);
    assert_eq!(key_to_bit("K"), KeyState::K);
    assert_eq!(key_to_bit("ArrowUp"), KeyState::UP);
    assert_eq!(key_to_bit("ArrowDown"), KeyState::DOWN);
    assert_eq!(key_to_bit("ArrowLeft"), KeyState::LEFT);
    assert_eq!(key_to_bit("ArrowRight"), KeyState::RIGHT);
    assert_eq!(key_to_bit("r"), KeyState::R);
    assert_eq!(key_to_bit("t"), 0);
    assert_eq!(key_to_bit("n"), 0);
    assert_eq!(key_to_bit("b"), 0);
    assert_eq!(key_to_bit("Arrow"), 0);
    assert_eq!(key_to_bit("q"), 0);
    assert_eq!(key_to_bit(""), 0);
    assert_eq!(key_to_bit("kk"), 0);
}

#[test]
fn key_down_sets_held_and_just_pressed_once() {
    let mut s = KeyState::default();
    s.key_down(KeyState::Z);
    assert!(s.is_pressed(KeyState::Z));
    assert!(s.is_just_pressed(KeyState::Z));
    let frame = s.take_frame();
    assert!(frame.is_just_pressed(KeyState::Z));
    assert!(!s.is_just_pressed(KeyState::Z));
    // Key repeat while held does not count as a new press.
    s.key_down(KeyState::Z);
    assert!(!s.is_just_pressed(KeyState::Z));
    s.key_up(KeyState::Z);
    assert!(!s.is_pressed(KeyState::Z));
    s.key_down(0);
    assert_eq!((s.pressed, s.just_pressed), (0, 0));
}

#[test]
fn quick_tap_still_counts_as_just_pressed() {
    let mut s = KeyState::default();
    s.key_down(KeyState::P);
    s.key_up(KeyState::P);
    let frame = s.take_frame();
    assert!(!frame.is_pressed(KeyState::P));
    assert!(frame.is_just_pressed(KeyState::P));
}

#[test]
fn controls_pan_zoom_pause_speed_and_reload() {
    let mut controls = ControlState::new();
    let mut camera = Camera::new();
    let keys = KeyState {
        pressed: KeyState::L | KeyState::UP,
        just_pressed: KeyState::Z | KeyState::P | KeyState::O | KeyState::R,
    };
    let r = controls.handle_input(&keys, &mut camera);
    assert_eq!((r.dx, r.dy, r.reload), (1, -1, true));
    assert_eq!(camera.scale(), -5);
    assert!(controls.paused);
    assert_eq!(controls.speed.exponent(), DEFAULT_SPEED_EXPONENT + 1);
    let keys = KeyState { pressed: KeyState::H | KeyState::L, just_pressed: KeyState::P | KeyState::I };
    let r = controls.handle_input(&keys, &mut camera);
    assert_eq!((r.dx, r.dy, r.reload), (0, 0, false));
    assert!(!controls.paused);
    assert_eq!(controls.speed.exponent(), DEFAULT_SPEED_EXPONENT);
}

#[test]
fn speed_is_clamped() {
    let mut controls = ControlState::new();
    for _ in 0..40 {
        controls.speed.faster();
    }
    assert_eq!(controls.speed.exponent(), MAX_SPEED_EXPONENT);
    for _ in 0..40 {
        controls.speed.slower();
    }
    assert_eq!(controls.speed.exponent(), MIN_SPEED_EXPONENT);
}

#[test]
fn speed_up_then_down_returns_to_same_speed() {
    let mut controls = ControlState::new();
    controls.speed.faster();
    controls.speed.slower();
    assert_eq!(controls.speed.exponent(), DEFAULT_SPEED_EXPONENT);
    controls.speed.slower();
    controls.speed.faster();
    assert_eq!(controls.speed.exponent(), DEFAULT_SPEED_EXPONENT);
}

#[test]
fn hud_toggle_and_steps_only_while_paused() {
    let mut controls = ControlState::new();
    let mut camera = Camera::new();
    assert!(controls.hud_visible);
    let keys = KeyState {
        pressed: 0,
        just_pressed: KeyState::T | KeyState::STEP_FORWARD | KeyState::STEP_BACK,
    };
    let r = controls.handle_input(&keys, &mut camera);
    assert!(!controls.hud_visible);
    assert!(!r.step_forward && !r.step_back);
    // Pausing and stepping in the same frame steps.
    let keys = KeyState { pressed: 0, just_pressed: KeyState::P | KeyState::STEP_FORWARD };
    let r = controls.handle_input(&keys, &mut camera);
    assert!(controls.paused);
    assert!(r.step_forward && !r.step_back);
    let keys = KeyState { pressed: 0, just_pressed: KeyState::STEP_BACK | KeyState::T };
    let r = controls.handle_input(&keys, &mut camera);
    assert!(!r.step_forward && r.step_back);
    assert!(controls.hud_visible);
}
