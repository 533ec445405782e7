use spark::input::{key_code, mouse_button, Binding, Input, Key, MouseButton, NamedKey, StickDirs};

const SPACE: Key = Key::Named(NamedKey::Space);

#[test]
fn key_edges() {
    let mut i = Input::new();
    i.end_frame();
    i.on_key(SPACE, true);
    assert!(i.key_pressed("Space"));
    assert!(i.key_held("Space"));
    assert!(!i.key_released("Space"));

    i.end_frame();
    assert!(!i.key_pressed("Space"));
    assert!(i.key_held("Space"));

    i.on_key(SPACE, false);
    assert!(i.key_released("Space"));
    assert!(!i.key_held("Space"));
}

#[test]
fn actions() {
    let mut i = Input::new();
    let map = vec![(
        "jump".to_string(),
        vec![Binding::Key("Space".into()), Binding::Pad("South".into())],
    )];
    i.set_actions(map);
    i.end_frame();
    i.on_key(SPACE, true);
    assert!(i.action_pressed("jump"));
    assert!(i.action_held("jump"));
    assert!(!i.action_pressed("nope"));
}

#[test]
fn key_repeat_does_not_press_again() {
    let mut i = Input::new();
    i.on_key(SPACE, true);
    i.end_frame();
    i.on_key(SPACE, true);
    assert!(!i.key_pressed("Space"));
    assert!(i.key_held("Space"));
}

#[test]
fn blur_releases_everything() {
    let mut i = Input::new();
    i.on_key(Key::Letter('W'), true);
    i.on_mouse_button(MouseButton::Left, true);
    i.on_pad_button("South", true);
    i.pad_left = StickDirs { left: true, ..Default::default() };
    i.blur();
    assert!(!i.key_held("KeyW"));
    assert!(!i.key_pressed("KeyW"));
    assert!(!i.mouse_held(MouseButton::Left));
    assert!(!i.mouse_pressed(MouseButton::Left));
    assert_eq!(i.pad_left, StickDirs::default());
}

#[test]
fn key_names_resolve() {
    assert_eq!(key_code("Space"), Some(Key::Named(NamedKey::Space)));
    assert_eq!(key_code("Esc"), Some(Key::Named(NamedKey::Escape)));
    assert_eq!(key_code("Escape"), Some(Key::Named(NamedKey::Escape)));
    assert_eq!(key_code("Ctrl"), Some(Key::Named(NamedKey::ControlLeft)));
    assert_eq!(key_code("Left"), Some(Key::Named(NamedKey::ArrowLeft)));
    assert_eq!(key_code("ArrowDown"), Some(Key::Named(NamedKey::ArrowDown)));
    assert_eq!(key_code("Backslash"), Some(Key::Named(NamedKey::Backslash)));
    assert_eq!(key_code("KeyA"), Some(Key::Letter('A')));
    assert_eq!(key_code("KeyZ"), Some(Key::Letter('Z')));
    assert_eq!(key_code("Keya"), None);
    assert_eq!(key_code("KeyAB"), None);
    assert_eq!(key_code("Digit0"), Some(Key::Digit('0')));
    assert_eq!(key_code("Digit9"), Some(Key::Digit('9')));
    assert_eq!(key_code("DigitX"), None);
    assert_eq!(key_code("F1"), Some(Key::Function(1)));
    assert_eq!(key_code("F9"), Some(Key::Function(9)));
    assert_eq!(key_code("F10"), Some(Key::Function(10)));
    assert_eq!(key_code("F12"), Some(Key::Function(12)));
    assert_eq!(key_code("F13"), None);
    assert_eq!(key_code("F0"), None);
    assert_eq!(key_code("F0"), None);
    assert_eq!(key_code("space"), None);
    assert_eq!(key_code(""), None);
}

#[test]
fn mouse_names_and_edges() {
    assert_eq!(mouse_button("Left"), Some(MouseButton::Left));
    assert_eq!(mouse_button("Right"), Some(MouseButton::Right));
    assert_eq!(mouse_button("Middle"), Some(MouseButton::Middle));
    assert_eq!(mouse_button("Back"), None);
    let mut i = Input::new();
    i.set_actions(vec![("fire".to_string(), vec![Binding::Mouse("Left".into())])]);
    i.on_mouse_button(MouseButton::Left, true);
    assert!(i.action_pressed("fire") && i.action_held("fire"));
    i.end_frame();
    i.on_mouse_button(MouseButton::Left, false);
    assert!(i.action_released("fire"));
    assert!(!i.action_held("fire"));
}

#[test]
fn pad_and_stick_bindings() {
    let mut i = Input::new();
    i.set_actions(vec![
        ("jump".to_string(), vec![Binding::Pad("South".into())]),
        ("walk_left".to_string(), vec![Binding::Stick("LeftStickLeft".into())]),
        ("walk_up".to_string(), vec![Binding::Stick("Up".into())]),
    ]);
    i.on_pad_button("South", true);
    assert!(i.action_pressed("jump") && i.action_held("jump"));
    i.end_frame();
    assert!(!i.action_pressed("jump") && i.action_held("jump"));
    i.on_pad_button("South", false);
    assert!(!i.action_held("jump"));
    // Pads track no release edge.
    assert!(!i.action_released("jump"));

    i.pad_right = StickDirs { left: true, ..Default::default() };
    // A stick name is checked against both sticks.
    assert!(i.action_held("walk_left"));
    assert!(!i.action_pressed("walk_left"));
    assert!(!i.action_held("walk_up"));
    i.pad_left = StickDirs { up: true, ..Default::default() };
    assert!(i.action_held("walk_up"));
}

#[test]
fn first_binding_list_wins_for_a_repeated_name() {
    let mut i = Input::new();
    i.set_actions(vec![
        ("a".to_string(), vec![Binding::Key("KeyQ".into())]),
        ("a".to_string(), vec![Binding::Key("KeyE".into())]),
    ]);
    i.on_key(Key::Letter('E'), true);
    assert!(!i.action_held("a"));
    i.on_key(Key::Letter('Q'), true);
    assert!(i.action_held("a"));
}

#[test]
fn gamepad_flag() {
    let mut i = Input::new();
    assert!(!i.gamepad_connected());
    i.set_gamepad_connected(true);
    assert!(i.gamepad_connected());
}

#[test]
fn default_input_is_idle() {
    let i = Input::default();
    assert!(!i.key_held("Space") && !i.gamepad_connected());
    assert_eq!(spark::input::pad_button_name(spark::input::PadButton::South), Some("South"));
    assert_eq!(spark::input::pad_button_name(spark::input::PadButton::C), None);
}

#[test]
fn key_name_down_follows_held_state() {
    let mut i = Input::new();
    assert!(!i.key_name_down("KeyA"));
    i.on_key(Key::Letter('A'), true);
    assert!(i.key_name_down("KeyA"));
    i.end_frame();
    assert!(i.key_name_down("KeyA"));
    i.on_key(Key::Letter('A'), false);
    assert!(!i.key_name_down("KeyA"));
}

#[test]
fn function_keys_up_to_f12_are_held_and_pressed() {
    let mut i = Input::new();
    i.on_key(Key::Function(10), true);
    assert!(i.key_held("F10") && i.key_pressed("F10"));
    i.on_key(Key::Function(12), true);
    assert!(i.key_held("F12"));
}
