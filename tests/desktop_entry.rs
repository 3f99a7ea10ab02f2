use sky_menu::desktop_entry::{entry_from_sections, filter_exec, parse_desktop_entry, RawAttr, RawSection};
use sky_menu::entry::Entry;

#[test]
fn it_filters_exec() {
    assert_eq!(
        filter_exec("howdy!".into(), "".into(), "".into(), "".into()),
        "howdy!"
    );
    assert_eq!(
        filter_exec("howdy!%F".into(), "".into(), "".into(), "".into()),
        "howdy!"
    );
    assert_eq!(
        filter_exec("ho%fwdy!".into(), "".into(), "".into(), "".into()),
        "howdy!"
    );
    assert_eq!(
        filter_exec(
            "%f%F%u%U%d%D%n%N%v%m".into(),
            "".into(),
            "".into(),
            "".into()
        ),
        ""
    );
    assert_eq!(
        filter_exec("%i".into(), "application".into(), "".into(), "".into()),
        "application"
    );
    assert_eq!(
        filter_exec("%c".into(), "".into(), "Files".into(), "".into()),
        "Files"
    );
    assert_eq!(
        filter_exec(
            "%k".into(),
            "".into(),
            "".into(),
            "/usr/share/applications/firefox.desktop".into()
        ),
        "/usr/share/applications/firefox.desktop"
    );
}

#[test]
fn filter_exec_removes_parameter_codes_after_command() {
    let r = filter_exec(
        "cmd %f %F %u %U %d %D %n %N %v %m".into(),
        "icon".into(),
        "Name".into(),
        "/a/b.desktop".into(),
    );
    assert_eq!(r, "cmd");
}

#[test]
fn filter_exec_substitutes_in_order() {
    let r = filter_exec(
        "run %i --name %c --file %k  ".into(),
        "pic".into(),
        "App".into(),
        "/x.desktop".into(),
    );
    assert_eq!(r, "run pic --name App --file /x.desktop");
}

#[test]
fn filter_exec_trims_trailing_unicode_whitespace_only() {
    let r = filter_exec("  go\t\u{3000}\n".into(), "".into(), "".into(), "".into());
    assert_eq!(r, "  go");
}

#[test]
fn filter_exec_double_percent_leaves_one_code() {
    // "%%FF": removing "%F" once leaves "%F", which no later step removes.
    let r = filter_exec("%%FF".into(), "".into(), "".into(), "".into());
    assert_eq!(r, "%F");
}

fn parse(text: &str, path: &str) -> Entry {
    parse_desktop_entry(text.as_bytes(), path)
}

#[test]
fn parses_a_desktop_entry() {
    let e = parse(
        "[Desktop Entry]\nName=Firefox\nGenericName=Web Browser\nExec=firefox %u\nIcon=firefox\n",
        "/usr/share/applications/firefox.desktop",
    );
    assert_eq!(e.name, "Firefox");
    assert_eq!(e.icon, "firefox");
    assert_eq!(e.exec_command, "firefox");
    assert_eq!(e.select, "");
}

#[test]
fn parsed_exec_drops_all_parameter_codes() {
    let e = parse(
        "[Desktop Entry]\nName=Tool\nExec=cmd %f %F %u %U %d %D %n %N %v %m\n",
        "/p/tool.desktop",
    );
    assert_eq!(e.exec_command, "cmd");
}

#[test]
fn parsed_exec_icon_code_gives_icon() {
    let e = parse("[Desktop Entry]\nName=Tool\nIcon=foo\nExec=%i\n", "/p/tool.desktop");
    assert_eq!(e.exec_command, "foo");
}

#[test]
fn parsed_exec_name_and_location_codes() {
    let e = parse("[Desktop Entry]\nName=Files\nExec=%c\n", "/p/files.desktop");
    assert_eq!(e.exec_command, "Files");
    let e = parse("[Desktop Entry]\nName=Files\nExec=%k\n", "/p/files.desktop");
    assert_eq!(e.exec_command, "/p/files.desktop");
}

#[test]
fn missing_icon_defaults_to_generic_executable() {
    let e = parse("[Desktop Entry]\nName=NoIcon\nExec=noicon\n", "/p/n.desktop");
    assert_eq!(e.icon, "application-x-executable");
    assert_eq!(e.exec_command, "noicon");
}

#[test]
fn missing_exec_is_not_launchable() {
    let e = parse("[Desktop Entry]\nName=NoExec\nIcon=x\n", "/p/n.desktop");
    assert_eq!(e.exec_command, "");
    assert_eq!(e.try_exec(), None);
}

#[test]
fn other_sections_are_skipped() {
    let e = parse(
        "[Desktop Action New]\nName=New Window\nExec=new\n\n[Desktop Entry]\nName=Main\nExec=main\n",
        "/p/m.desktop",
    );
    assert_eq!(e.name, "Main");
    assert_eq!(e.exec_command, "main");
}

#[test]
fn file_without_desktop_entry_gives_blank_entry() {
    let e = parse("[Something Else]\nName=X\n", "/p/x.desktop");
    assert_eq!(e, Entry::default());
    let e = parse("", "/p/empty.desktop");
    assert_eq!(e, Entry::default());
}

#[test]
fn later_attribute_of_same_key_wins() {
    let sec = RawSection {
        title: b"Desktop Entry".to_vec(),
        attrs: vec![
            RawAttr { name: b"Name".to_vec(), value: b"First".to_vec() },
            RawAttr { name: b"Name".to_vec(), value: b"Second".to_vec() },
        ],
    };
    let e = entry_from_sections(&vec![None, Some(sec)], "/p/d.desktop");
    assert_eq!(e.name, "Second");
}

#[test]
fn invalid_utf8_value_is_replaced() {
    let sec = RawSection {
        title: b"Desktop Entry".to_vec(),
        attrs: vec![RawAttr { name: b"Name".to_vec(), value: vec![b'A', 0xff, b'B'] }],
    };
    let e = entry_from_sections(&vec![Some(sec)], "/p/d.desktop");
    assert_eq!(e.name, "A\u{fffd}B");
}

#[test]
fn first_desktop_entry_section_is_used() {
    let a = RawSection {
        title: b"Desktop Entry".to_vec(),
        attrs: vec![RawAttr { name: b"Name".to_vec(), value: b"A".to_vec() }],
    };
    let b = RawSection {
        title: b"Desktop Entry".to_vec(),
        attrs: vec![RawAttr { name: b"Name".to_vec(), value: b"B".to_vec() }],
    };
    let e = entry_from_sections(&vec![Some(a), Some(b)], "/p/d.desktop");
    assert_eq!(e.name, "A");
}

#[test]
fn entry_try_exec_and_try_select() {
    let e = Entry::new("A".into(), "i".into(), "run".into(), "".into());
    assert_eq!(e.try_exec(), Some("run".to_string()));
    assert_eq!(e.try_select(), None);
    let w = Entry::new("W".into(), "".into(), "".into(), "focus".into());
    assert_eq!(w.try_exec(), None);
    assert_eq!(w.try_select(), Some("focus".to_string()));
    assert_eq!(w.duplicate(), w);
}
