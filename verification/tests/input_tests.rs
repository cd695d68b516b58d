use sol1::input::{
    autopilot_acts, map_key_code, route_key_action, InputAction, KeyState, KEY_A, KEY_B, KEY_DOWN, KEY_E, KEY_LEFT,
    KEY_RIGHT, KEY_UP,
};

#[test]
fn browser_keys_map_to_slots() {
    assert_eq!(map_key_code("ArrowUp"), Some(KEY_UP));
    assert_eq!(map_key_code("ArrowDown"), Some(KEY_DOWN));
    assert_eq!(map_key_code("ArrowLeft"), Some(KEY_LEFT));
    assert_eq!(map_key_code("ArrowRight"), Some(KEY_RIGHT));
    assert_eq!(map_key_code("e"), Some(KEY_E));
    assert_eq!(map_key_code("E"), Some(KEY_E));
    assert_eq!(map_key_code("b"), Some(KEY_B));
    assert_eq!(map_key_code("B"), Some(KEY_B));
    assert_eq!(map_key_code("a"), Some(KEY_A));
    assert_eq!(map_key_code("A"), Some(KEY_A));
    assert_eq!(map_key_code("x"), None);
    assert_eq!(map_key_code(""), None);
    assert_eq!(map_key_code("ArrowUpp"), None);
    assert_eq!(map_key_code("Arrow"), None);
}

#[test]
fn each_control_key_asks_for_its_action() {
    let cases = [
        ("ArrowUp", InputAction::MoveUp),
        ("ArrowDown", InputAction::MoveDown),
        ("ArrowLeft", InputAction::MoveLeft),
        ("ArrowRight", InputAction::MoveRight),
        ("E", InputAction::Collect),
        ("B", InputAction::PlaceChargingStation),
        ("A", InputAction::ToggleAI),
    ];
    for (key, action) in cases {
        let mut keys = KeyState::new();
        assert_eq!(keys.get_action(), None);
        keys.press(map_key_code(key).unwrap());
        assert_eq!(keys.get_action(), Some(action));
    }
}

#[test]
fn held_key_acts_only_once() {
    let mut keys = KeyState::new();
    keys.press(KEY_E);
    assert_eq!(keys.get_action(), Some(InputAction::Collect));
    keys.clear_just_pressed();
    assert_eq!(keys.get_action(), None);
    keys.press(KEY_E);
    assert_eq!(keys.get_action(), None);
    keys.release(KEY_E);
    keys.press(KEY_E);
    assert_eq!(keys.get_action(), Some(InputAction::Collect));
}

#[test]
fn movement_keys_take_priority() {
    let mut keys = KeyState::new();
    keys.press(KEY_A);
    keys.press(KEY_LEFT);
    assert_eq!(keys.get_action(), Some(InputAction::MoveLeft));
    keys.press(KEY_UP);
    assert_eq!(keys.get_action(), Some(InputAction::MoveUp));
}

#[test]
fn toggle_key_switches_the_autopilot_and_other_keys_act_only_without_it() {
    let r = route_key_action(false, Some(InputAction::ToggleAI));
    assert!(r.ai_enabled && r.toggled && r.manual_action.is_none());
    let r = route_key_action(true, Some(InputAction::ToggleAI));
    assert!(!r.ai_enabled && r.toggled);
    let r = route_key_action(false, Some(InputAction::MoveUp));
    assert_eq!(r.manual_action, Some(InputAction::MoveUp));
    assert!(!r.ai_enabled && !r.toggled);
    let r = route_key_action(true, Some(InputAction::Collect));
    assert_eq!(r.manual_action, None);
    assert!(r.ai_enabled);
    let r = route_key_action(true, None);
    assert!(r.ai_enabled && !r.toggled && r.manual_action.is_none());
}

#[test]
fn autopilot_acts_only_when_on_powered_and_playing() {
    assert!(autopilot_acts(true, false, false));
    assert!(!autopilot_acts(false, false, false));
    assert!(!autopilot_acts(true, true, false));
    assert!(!autopilot_acts(true, false, true));
}
