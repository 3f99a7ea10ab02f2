use sky_menu::hotkey::{chord, default_shortcuts, release_of, KeyboardShortcut, KeyboardState, ShortcutAction};

#[test]
fn ctrl_space_toggles_once_at_second_press() {
    let shortcuts = default_shortcuts();
    let mut state = KeyboardState::new();
    let first = state.dispatch(29, true, &shortcuts);
    assert!(first.is_empty());
    let second = state.dispatch(57, true, &shortcuts);
    assert_eq!(second, vec![ShortcutAction::ToggleLauncher]);
}

#[test]
fn releasing_alt_hides_switcher_once() {
    let shortcuts = default_shortcuts();
    let mut state = KeyboardState::new();
    assert!(state.dispatch(56, true, &shortcuts).is_empty());
    assert_eq!(state.dispatch(15, true, &shortcuts), vec![ShortcutAction::ShowSwitcher]);
    assert!(state.dispatch(15, false, &shortcuts).is_empty());
    assert_eq!(state.dispatch(56, false, &shortcuts), vec![ShortcutAction::HideSwitcher]);
    assert!(!state.is_held(56));
}

#[test]
fn release_of_other_key_does_not_hide() {
    let shortcuts = default_shortcuts();
    let mut state = KeyboardState::new();
    assert!(state.dispatch(30, false, &shortcuts).is_empty());
}

#[test]
fn held_chord_fires_on_every_transition() {
    let shortcuts = default_shortcuts();
    let mut state = KeyboardState::new();
    state.dispatch(29, true, &shortcuts);
    state.dispatch(57, true, &shortcuts);
    assert_eq!(state.dispatch(30, true, &shortcuts), vec![ShortcutAction::ToggleLauncher]);
    assert!(state.dispatch(57, false, &shortcuts).is_empty());
}

#[test]
fn codes_past_range_are_ignored() {
    let shortcuts = vec![KeyboardShortcut::new(chord(vec![]), ShortcutAction::ShowSwitcher)];
    let mut state = KeyboardState::new();
    assert!(state.dispatch(300, true, &shortcuts).is_empty());
    assert_eq!(state.dispatch(3, true, &shortcuts), vec![ShortcutAction::ShowSwitcher]);
}

#[test]
fn several_shortcuts_fire_in_registration_order() {
    let shortcuts = vec![
        KeyboardShortcut::new(release_of(1), ShortcutAction::HideSwitcher),
        KeyboardShortcut::new(chord(vec![]), ShortcutAction::ToggleLauncher),
    ];
    let mut state = KeyboardState::new();
    assert_eq!(
        state.dispatch(1, false, &shortcuts),
        vec![ShortcutAction::HideSwitcher, ShortcutAction::ToggleLauncher]
    );
}
