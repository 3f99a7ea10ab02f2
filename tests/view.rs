use sky_menu::entry::Entry;
use sky_menu::hotkey::ShortcutAction;
use sky_menu::view::{LauncherError, LauncherState, ListType, Message, SearchMessage, Styles};

fn app(name: &str, select: &str) -> Entry {
    Entry::new(name.into(), "".into(), format!("run-{}", name), select.into())
}

#[test]
fn toggle_flips_visibility_and_selects_launcher() {
    let mut s = LauncherState::new();
    assert!(!s.is_visible());
    assert!(s.on_shortcut(ShortcutAction::ToggleLauncher));
    assert!(s.is_visible());
    assert_eq!(s.list_type(), ListType::Launcher);
    assert!(s.on_shortcut(ShortcutAction::ToggleLauncher));
    assert!(!s.is_visible());
}

#[test]
fn show_switcher_is_idempotent_and_release_hides() {
    let mut s = LauncherState::new();
    assert!(s.on_shortcut(ShortcutAction::ShowSwitcher));
    assert!(s.is_visible());
    assert_eq!(s.list_type(), ListType::Switcher);
    assert!(!s.on_shortcut(ShortcutAction::ShowSwitcher));
    assert!(s.is_visible());
    assert!(!s.on_shortcut(ShortcutAction::HideSwitcher));
    assert!(!s.is_visible());
}

#[test]
fn selection_wraps_and_returns_focus_command() {
    let mut s = LauncherState::new();
    let first = s.set_items(vec![app("A", "fa"), app("B", ""), app("C", "fc")]);
    assert_eq!(first, Some("fa".to_string()));
    assert_eq!(s.selected(), 0);
    assert_eq!(s.up(), Some("fc".to_string()));
    assert_eq!(s.selected(), 2);
    assert_eq!(s.down(), Some("fa".to_string()));
    assert_eq!(s.selected(), 0);
    assert_eq!(s.down(), None);
    assert_eq!(s.selected(), 1);
}

#[test]
fn empty_list_ignores_moves_and_launch() {
    let mut s = LauncherState::new();
    assert_eq!(s.up(), None);
    assert_eq!(s.down(), None);
    s.show();
    assert!(s.is_visible());
    assert!(s.launch().is_none());
    assert!(s.is_visible());
}

#[test]
fn set_items_keeps_nine() {
    let mut s = LauncherState::new();
    let items: Vec<Entry> = (0..12).map(|i| app(&format!("a{}", i), "")).collect();
    s.set_items(items);
    assert_eq!(s.item_count(), 9);
    assert_eq!(s.item(8).name, "a8");
}

#[test]
fn launch_takes_selected_and_hides() {
    let mut s = LauncherState::new();
    s.on_shortcut(ShortcutAction::ToggleLauncher);
    s.set_items(vec![app("A", ""), app("B", "")]);
    s.down();
    let e = s.launch().unwrap();
    assert_eq!(e.name, "B");
    assert!(!s.is_visible());
}

#[test]
fn dismiss_if_launcher_keeps_switcher() {
    let mut s = LauncherState::new();
    s.on_shortcut(ShortcutAction::ShowSwitcher);
    s.dismiss_if_launcher();
    assert!(s.is_visible());
    s.on_shortcut(ShortcutAction::HideSwitcher);
    s.on_shortcut(ShortcutAction::ToggleLauncher);
    s.dismiss_if_launcher();
    assert!(!s.is_visible());
}

#[test]
fn messages_edit_query_and_launch() {
    let mut s = LauncherState::new();
    s.set_items(vec![app("A", ""), app("B", "")]);
    s.update(Message::Search(SearchMessage::Append('f')));
    s.update(Message::Search(SearchMessage::Append('i')));
    s.update(Message::Search(SearchMessage::Append('\u{7}')));
    s.update(Message::Search(SearchMessage::Append('é')));
    assert_eq!(s.query(), "fi");
    s.update(Message::Search(SearchMessage::Append('\x08')));
    assert_eq!(s.query(), "f");
    s.update(Message::Search(SearchMessage::Append('\x08')));
    s.update(Message::Search(SearchMessage::Append('\x08')));
    assert_eq!(s.query(), "");
    s.update(Message::MoveSelectedDown);
    assert_eq!(s.selected(), 1);
    s.update(Message::ResetSelected);
    assert_eq!(s.selected(), 0);
    s.update(Message::MoveSelectedUp);
    assert_eq!(s.selected(), 1);
    assert_eq!(s.update(Message::Launch).unwrap().name, "B");
}

#[test]
fn styles_and_error_message() {
    assert_eq!(Styles::for_row(2, 2), Styles::Highlighted);
    assert_eq!(Styles::for_row(2, 1), Styles::Transparent);
    assert_eq!(LauncherError::ResolveIconThemeError.message(), "Unable to resolve icon theme");
}
