use sky_menu::windows::{focus_command_for, get_running_applications, WindowNode};

fn node(name: &str, window: Option<i32>, class: Option<&str>, nodes: Vec<WindowNode>) -> WindowNode {
    WindowNode {
        name: Some(name.into()),
        window,
        class: class.map(|c| c.to_string()),
        nodes,
    }
}

fn output(children: Vec<WindowNode>) -> WindowNode {
    node("output", None, None, children)
}

#[test]
fn focus_command_text() {
    assert_eq!(
        focus_command_for(4194307),
        "i3-msg  [id=4194307] focus;i3-msg [title=Launcher] move workspace current; i3-msg [title=Launcher] focus;"
    );
    assert!(focus_command_for(-12).starts_with("i3-msg  [id=-12]"));
    assert!(focus_command_for(0).starts_with("i3-msg  [id=0]"));
}

#[test]
fn collects_windows_under_content_workspaces() {
    let ws1 = node(
        "1",
        None,
        None,
        vec![
            node("Firefox", Some(11), Some("firefox"), vec![]),
            node("split", None, None, vec![node("Term", Some(12), None, vec![])]),
        ],
    );
    let ws2 = node("2", None, None, vec![node("Editor", Some(13), Some("code"), vec![])]);
    let root = node(
        "root",
        None,
        None,
        vec![
            output(vec![node("content", None, None, vec![node("Hidden", Some(1), None, vec![])])]),
            output(vec![node("topdock", None, None, vec![]), node("content", None, None, vec![ws1, ws2])]),
        ],
    );
    let r = get_running_applications(&root);
    let names: Vec<&str> = r.iter().map(|e| e.name.as_str()).collect();
    assert_eq!(names, vec!["Firefox", "Term", "Editor"]);
    assert_eq!(r[0].icon, "firefox");
    assert_eq!(r[1].icon, "");
    assert_eq!(r[0].exec_command, "");
    assert_eq!(r[0].select, focus_command_for(11));
    assert_eq!(r[0].try_exec(), None);
}

#[test]
fn window_node_is_not_searched_further() {
    let win = node("Outer", Some(5), None, vec![node("Inner", Some(6), None, vec![])]);
    let root = node(
        "root",
        None,
        None,
        vec![output(vec![]), output(vec![node("content", None, None, vec![win])])],
    );
    let r = get_running_applications(&root);
    assert_eq!(r.len(), 1);
    assert_eq!(r[0].name, "Outer");
}

#[test]
fn tree_without_content_gives_no_windows() {
    let root = node(
        "root",
        None,
        None,
        vec![output(vec![]), output(vec![node("workspaces", None, None, vec![node("W", Some(3), None, vec![])])])],
    );
    assert!(get_running_applications(&root).is_empty());
    let bare = node("root", None, None, vec![]);
    assert!(get_running_applications(&bare).is_empty());
}

#[test]
fn untitled_window_has_empty_name() {
    let w = WindowNode { name: None, window: Some(9), class: None, nodes: vec![] };
    let root = node(
        "root",
        None,
        None,
        vec![output(vec![]), output(vec![node("content", None, None, vec![w])])],
    );
    let r = get_running_applications(&root);
    assert_eq!(r[0].name, "");
}
