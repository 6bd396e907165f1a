use sola::panel::{input_prompt, EntryCommand, InputAction, PanelState, SidebarMode};
use sola::tree::{
    build_tree, collect_visible, input_name, is_ignored_name, sort_entries, toggle_directory, Entry,
    ScannedEntry,
};

fn file(path: &str, name: &str) -> Entry {
    Entry { path: path.to_string(), is_dir: false, name: name.to_string(), children: None }
}

fn dir(path: &str, name: &str, children: Vec<Entry>) -> Entry {
    Entry { path: path.to_string(), is_dir: true, name: name.to_string(), children: Some(children) }
}

fn scanned(path: &str, parent: &str, name: &str, is_dir: bool) -> ScannedEntry {
    ScannedEntry { path: path.to_string(), parent: parent.to_string(), name: name.to_string(), is_dir }
}

#[test]
fn directories_come_first_then_names_in_order() {
    let sorted = sort_entries(vec![
        file("/r/b.md", "b.md"),
        dir("/r/src", "src", vec![]),
        file("/r/a.md", "a.md"),
        dir("/r/docs", "docs", vec![]),
        file("/r/B.md", "B.md"),
    ]);
    let names: Vec<&str> = sorted.iter().map(|e| e.name.as_str()).collect();
    assert_eq!(names, vec!["docs", "src", "B.md", "a.md", "b.md"]);
}

#[test]
fn ties_keep_their_order() {
    let sorted = sort_entries(vec![file("/x/same", "same"), file("/y/same", "same")]);
    assert_eq!(sorted[0].path, "/x/same");
    assert_eq!(sorted[1].path, "/y/same");
}

#[test]
fn scan_builds_a_sorted_tree_without_ignored_names() {
    let tree = build_tree(
        "/r".to_string(),
        "r".to_string(),
        vec![
            scanned("/r/z.md", "/r", "z.md", false),
            scanned("/r/src", "/r", "src", true),
            scanned("/r/src/main.rs", "/r/src", "main.rs", false),
            scanned("/r/target", "/r", "target", true),
            scanned("/r/.git", "/r", ".git", true),
            scanned("/r/src/lib.rs", "/r/src", "lib.rs", false),
        ],
    );
    assert_eq!(tree.path, "/r");
    assert!(tree.is_dir);
    let top = tree.children.as_ref().unwrap();
    let names: Vec<&str> = top.iter().map(|e| e.name.as_str()).collect();
    assert_eq!(names, vec!["src", "z.md"]);
    let src = top[0].children.as_ref().unwrap();
    let names: Vec<&str> = src.iter().map(|e| e.name.as_str()).collect();
    assert_eq!(names, vec!["lib.rs", "main.rs"]);
    assert!(top[1].children.is_none());
}

#[test]
fn every_directory_holds_what_the_scan_found_in_it() {
    let tree = build_tree(
        "/r".to_string(),
        "r".to_string(),
        vec![
            scanned("/r/a/b/c.txt", "/r/a/b", "c.txt", false),
            scanned("/r/a/b", "/r/a", "b", true),
            scanned("/r/a/x.md", "/r/a", "x.md", false),
            scanned("/r/a", "/r", "a", true),
            scanned("/r/a/b/d", "/r/a/b", "d", true),
        ],
    );
    let top = tree.children.as_ref().unwrap();
    assert_eq!(top.len(), 1);
    let a = top[0].children.as_ref().unwrap();
    let names: Vec<&str> = a.iter().map(|e| e.name.as_str()).collect();
    assert_eq!(names, vec!["b", "x.md"]);
    let b = a[0].children.as_ref().unwrap();
    let names: Vec<&str> = b.iter().map(|e| e.name.as_str()).collect();
    assert_eq!(names, vec!["d", "c.txt"]);
    assert_eq!(b[0].children.as_ref().unwrap().len(), 0);
}

#[test]
fn visible_rows_follow_expanded_directories() {
    let entries = vec![
        dir("/r/src", "src", vec![file("/r/src/lib.rs", "lib.rs"), dir("/r/src/bin", "bin", vec![file("/r/src/bin/m.rs", "m.rs")])]),
        file("/r/a.md", "a.md"),
    ];
    let rows = collect_visible(&entries, 0, &vec![]);
    assert_eq!(rows.len(), 2);

    let expanded = vec!["/r/src".to_string()];
    let rows = collect_visible(&entries, 0, &expanded);
    let shown: Vec<(usize, &str)> = rows.iter().map(|r| (r.depth, r.name.as_str())).collect();
    assert_eq!(shown, vec![(0, "src"), (1, "lib.rs"), (1, "bin"), (0, "a.md")]);

    let expanded = vec!["/r/src".to_string(), "/r/src/bin".to_string()];
    let rows = collect_visible(&entries, 0, &expanded);
    let shown: Vec<(usize, &str)> = rows.iter().map(|r| (r.depth, r.name.as_str())).collect();
    assert_eq!(shown, vec![(0, "src"), (1, "lib.rs"), (1, "bin"), (2, "m.rs"), (0, "a.md")]);
}

#[test]
fn toggling_a_directory_twice_collapses_it_again() {
    let mut expanded: Vec<String> = Vec::new();
    toggle_directory(&mut expanded, "/r/src".to_string());
    assert_eq!(expanded, vec!["/r/src".to_string()]);
    toggle_directory(&mut expanded, "/r/docs".to_string());
    toggle_directory(&mut expanded, "/r/src".to_string());
    assert_eq!(expanded, vec!["/r/docs".to_string()]);
}

#[test]
fn ignored_names_and_typed_names() {
    assert!(is_ignored_name("target"));
    assert!(is_ignored_name(".git"));
    assert!(!is_ignored_name("src"));
    assert_eq!(input_name("  notes.md \n").as_deref(), Some("notes.md"));
    assert_eq!(input_name("   "), None);
}

#[test]
fn the_panel_turns_typed_names_into_commands() {
    use_panel();
}

fn use_panel() {
    let mut panel = PanelState::new();
    panel.show_context_menu("/r/src".to_string());
    assert_eq!(panel.context_menu.as_deref(), Some("/r/src"));
    panel.start_input(InputAction::CreateFile { parent: "/r/src".to_string() }, "  main.rs ".to_string());
    assert!(panel.context_menu.is_none());
    match panel.finish_input() {
        Some(EntryCommand::CreateFile { parent, name }) => {
            assert_eq!(parent, "/r/src");
            assert_eq!(name, "main.rs");
        }
        other => panic!("unexpected command {other:?}"),
    }
    assert!(panel.input.is_none());
    panel.start_input(InputAction::Rename { path: "/r/a.md".to_string() }, "   ".to_string());
    assert!(panel.finish_input().is_none());
    assert!(panel.finish_input().is_none());
    panel.toggle_directory("/r/src".to_string());
    assert_eq!(panel.expanded_dirs, vec!["/r/src".to_string()]);
    panel.set_mode(SidebarMode::Outline);
    assert_eq!(panel.mode, SidebarMode::Outline);
}

#[test]
fn input_prompts_name_the_action() {
    assert_eq!(input_prompt(&InputAction::CreateFile { parent: "/r".to_string() }), "New File Name:");
    assert_eq!(input_prompt(&InputAction::CreateDir { parent: "/r".to_string() }), "New Folder Name:");
    assert_eq!(input_prompt(&InputAction::Rename { path: "/r/a".to_string() }), "Rename to:");
}

#[test]
fn input_keys_type_erase_finish_and_cancel() {
    let mut panel = PanelState::new();
    assert!(panel.handle_input_key("a", Some("a")).is_none());
    assert!(panel.input.is_none());

    panel.start_input(InputAction::CreateFile { parent: "/r".to_string() }, String::new());
    assert!(panel.handle_input_key("n", Some("n")).is_none());
    assert!(panel.handle_input_key("o", Some("o")).is_none());
    assert!(panel.handle_input_key("x", Some("x")).is_none());
    assert!(panel.handle_input_key("backspace", None).is_none());
    assert!(panel.handle_input_key("shift", None).is_none());
    assert_eq!(panel.input.as_ref().unwrap().1, "no");
    assert!(panel.handle_input_key(".", Some(".md")).is_none());
    match panel.handle_input_key("enter", None) {
        Some(EntryCommand::CreateFile { parent, name }) => {
            assert_eq!(parent, "/r");
            assert_eq!(name, "no.md");
        },
        other => panic!("unexpected {:?}", other),
    }
    assert!(panel.input.is_none());

    panel.start_input(InputAction::CreateDir { parent: "/r".to_string() }, "d".to_string());
    assert!(panel.handle_input_key("escape", None).is_none());
    assert!(panel.input.is_none());
}

#[test]
fn a_directory_is_expanded_by_any_path_naming_it() {
    let entries = vec![dir("/r/src", "src", vec![file("/r/src/lib.rs", "lib.rs")])];
    let expanded = vec!["/r//src/".to_string()];
    let rows = collect_visible(&entries, 0, &expanded);
    assert_eq!(rows.len(), 2);

    let mut expanded = vec!["/r/src".to_string(), "/r/docs".to_string()];
    toggle_directory(&mut expanded, "/r/./src/".to_string());
    assert_eq!(expanded, vec!["/r/docs".to_string()]);
    toggle_directory(&mut expanded, "/r/src/".to_string());
    assert_eq!(expanded, vec!["/r/docs".to_string(), "/r/src/".to_string()]);
}
