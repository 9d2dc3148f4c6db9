use archetype_ecs::builtin::input::{Input, KeyCode, MouseButton};

#[test]
fn test_input_press_release() {
    let mut input = Input::<KeyCode>::new();

    // Press key
    input.press(KeyCode::Space);
    assert!(input.pressed(KeyCode::Space));
    assert!(input.just_pressed(KeyCode::Space));

    // Clear just_pressed
    input.clear_just_changed();
    assert!(input.pressed(KeyCode::Space));
    assert!(!input.just_pressed(KeyCode::Space));

    // Release key
    input.release(KeyCode::Space);
    assert!(!input.pressed(KeyCode::Space));
    assert!(input.just_released(KeyCode::Space));
}

#[test]
fn pressing_twice_is_not_just_pressed_again() {
    let mut input = Input::<MouseButton>::new();
    input.press(MouseButton::Left);
    input.clear_just_changed();
    input.press(MouseButton::Left);
    assert!(!input.just_pressed(MouseButton::Left));
    assert_eq!(input.get_pressed().count(), 1);
}

#[test]
fn releasing_an_unpressed_key_is_not_just_released() {
    let mut input = Input::<KeyCode>::new();
    input.release(KeyCode::A);
    assert!(!input.just_released(KeyCode::A));
    assert!(!input.pressed(KeyCode::A));
}

#[test]
fn reset_clears_everything() {
    let mut input = Input::<KeyCode>::default();
    input.press(KeyCode::A);
    input.press(KeyCode::B);
    input.release(KeyCode::A);
    input.reset();
    assert!(!input.pressed(KeyCode::B));
    assert!(!input.just_pressed(KeyCode::B));
    assert!(!input.just_released(KeyCode::A));
    assert_eq!(input.get_pressed().count(), 0);
}
