use sky_menu::entry::Entry;
use sky_menu::index::{generate_application_list, get_xdg_application_dirs, join_path, split_fields, ApplicationIndex, WatchEvent};

fn app(name: &str, exec: &str) -> Entry {
    Entry::new(name.into(), "icon".into(), exec.into(), "".into())
}

fn sorted_names(v: &[Entry]) -> Vec<String> {
    let mut n: Vec<String> = v.iter().map(|e| e.name.clone()).collect();
    n.sort();
    n
}

#[test]
fn later_entries_override_earlier_ones_by_name() {
    let list = generate_application_list(&vec![app("A", "old"), app("B", "b"), app("A", "new")]);
    assert_eq!(sorted_names(&list), vec!["A".to_string(), "B".to_string()]);
    let a = list.iter().find(|e| e.name == "A").unwrap();
    assert_eq!(a.exec_command, "new");
}

#[test]
fn listing_keeps_order_of_first_appearance() {
    let list = generate_application_list(&vec![app("B", "b"), app("A", "a"), app("B", "b2"), app("C", "c")]);
    let names: Vec<&str> = list.iter().map(|e| e.name.as_str()).collect();
    assert_eq!(names, vec!["B", "A", "C"]);
    assert_eq!(list[0].exec_command, "b2");
}

#[test]
fn entries_without_name_are_dropped() {
    let list = generate_application_list(&vec![Entry::default(), app("", "x"), app("C", "c")]);
    assert_eq!(sorted_names(&list), vec!["C".to_string()]);
}

#[test]
fn no_valid_entry_files_gives_empty_listing() {
    let list = generate_application_list(&vec![Entry::default(), Entry::default()]);
    assert!(list.is_empty());
    let mut idx = ApplicationIndex::new();
    idx.set_scan(vec![]);
    assert!(idx.list().is_empty());
    idx.set_scan(vec!["/d/broken.desktop".into()]);
    idx.store("/d/broken.desktop".into(), Entry::default());
    assert!(idx.list().is_empty());
}

#[test]
fn index_parses_pending_files_then_lists() {
    let mut idx = ApplicationIndex::new();
    assert!(idx.needs_scan());
    assert!(idx.pending().is_empty());
    idx.set_scan(vec!["/a/x.desktop".into(), "/b/x.desktop".into()]);
    assert!(!idx.needs_scan());
    assert_eq!(idx.pending(), vec!["/a/x.desktop".to_string(), "/b/x.desktop".to_string()]);
    idx.store("/a/x.desktop".into(), app("X", "from-a"));
    assert_eq!(idx.pending(), vec!["/b/x.desktop".to_string()]);
    idx.store("/b/x.desktop".into(), app("X", "from-b"));
    assert!(idx.pending().is_empty());
    let list = idx.list();
    assert_eq!(list.len(), 1);
    assert_eq!(list[0].exec_command, "from-b");
}

#[test]
fn modification_event_forces_reparse_and_new_content_is_listed() {
    let mut idx = ApplicationIndex::new();
    idx.set_scan(vec!["/a/ed.desktop".into(), "/a/vi.desktop".into()]);
    idx.store("/a/ed.desktop".into(), app("Ed", "ed"));
    idx.store("/a/vi.desktop".into(), app("Vi", "vi"));
    idx.apply(WatchEvent::Modified("/a/ed.desktop".into()));
    assert_eq!(idx.pending(), vec!["/a/ed.desktop".to_string()]);
    assert!(!idx.needs_scan());
    idx.store("/a/ed.desktop".into(), app("Ed", "ed --new"));
    let list = idx.list();
    let ed = list.iter().find(|e| e.name == "Ed").unwrap();
    assert_eq!(ed.exec_command, "ed --new");
    assert_eq!(sorted_names(&list), vec!["Ed".to_string(), "Vi".to_string()]);
}

#[test]
fn creation_event_invalidates_everything() {
    let mut idx = ApplicationIndex::new();
    idx.set_scan(vec!["/a/ed.desktop".into()]);
    idx.store("/a/ed.desktop".into(), app("Ed", "ed"));
    idx.apply(WatchEvent::Created);
    assert!(idx.needs_scan());
    assert!(idx.list().is_empty());
    idx.set_scan(vec!["/a/ed.desktop".into()]);
    assert_eq!(idx.pending(), vec!["/a/ed.desktop".to_string()]);
}

#[test]
fn default_application_dirs() {
    let dirs = get_xdg_application_dirs(None);
    assert_eq!(
        dirs,
        vec!["/usr/local/share/applications".to_string(), "/usr/share/applications".to_string()]
    );
}

#[test]
fn configured_application_dirs() {
    let dirs = get_xdg_application_dirs(Some("/opt/share:/home/u/.local/share/".into()));
    assert_eq!(
        dirs,
        vec!["/opt/share/applications".to_string(), "/home/u/.local/share/applications".to_string()]
    );
    let dirs = get_xdg_application_dirs(Some("".into()));
    assert_eq!(dirs, vec!["applications".to_string()]);
}

#[test]
fn split_and_join() {
    assert_eq!(split_fields("a::b:", ':'), vec!["a", "", "b", ""]);
    assert_eq!(split_fields("", ':'), vec![""]);
    assert_eq!(join_path("/usr/share", "x.desktop"), "/usr/share/x.desktop");
    assert_eq!(join_path("/usr/share/", "x.desktop"), "/usr/share/x.desktop");
}
