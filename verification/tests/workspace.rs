use sola::document::DocumentModel;
use sola::theme::Theme;
use sola::workspace::{AppConfig, ThemeMode, Workspace, WorkspaceEvent};

fn doc(text: &str) -> DocumentModel {
    DocumentModel::from_markdown(text)
}

#[test]
fn theme_mode_toggles_and_labels() {
    assert_eq!(ThemeMode::Dark.toggle(), ThemeMode::Light);
    assert_eq!(ThemeMode::Light.toggle(), ThemeMode::Dark);
    assert_eq!(ThemeMode::Dark.toggle().toggle(), ThemeMode::Dark);
    assert_eq!(ThemeMode::Dark.label(), "dark");
    assert_eq!(ThemeMode::Light.label(), "light");
}

#[test]
fn new_workspace_is_empty_and_dark() {
    let workspace = Workspace::new();
    assert!(workspace.documents().is_empty());
    assert_eq!(workspace.active_document_index(), None);
    assert!(workspace.active_document_ref().is_none());
    assert_eq!(workspace.theme_mode(), ThemeMode::Dark);
    assert_eq!(workspace.theme(), &Theme::sola_dark());
    assert!(workspace.recent_paths().is_empty());
    assert!(workspace.current_path().is_none());
}

#[test]
fn toggling_the_theme_swaps_the_built_in_theme() {
    let mut workspace = Workspace::new();
    let events = workspace.toggle_theme();
    assert_eq!(events, vec![WorkspaceEvent::ThemeChanged]);
    assert_eq!(workspace.theme_mode(), ThemeMode::Light);
    assert_eq!(workspace.theme(), &Theme::sola_light());
    workspace.toggle_theme();
    assert_eq!(workspace.theme(), &Theme::sola_dark());
}

#[test]
fn opening_files_adds_tabs_and_recent_paths() {
    let mut workspace = Workspace::new();
    let events = workspace.open_file("/a.md".to_string(), doc("# A"));
    assert_eq!(events, vec![WorkspaceEvent::DocumentChanged, WorkspaceEvent::ActiveTabChanged]);
    workspace.open_file("/b.md".to_string(), doc("# B"));
    assert_eq!(workspace.documents().len(), 2);
    assert_eq!(workspace.active_document_index(), Some(1));
    assert_eq!(workspace.current_path().map(|p| p.as_str()), Some("/b.md"));
    assert_eq!(workspace.recent_paths(), &["/b.md".to_string(), "/a.md".to_string()]);

    workspace.open_file("/a.md".to_string(), doc("# other"));
    assert_eq!(workspace.documents().len(), 2);
    assert_eq!(workspace.active_document_index(), Some(0));
    assert_eq!(workspace.active_document_ref().unwrap().source(), "# A");
    assert_eq!(workspace.recent_paths(), &["/a.md".to_string(), "/b.md".to_string()]);
}

#[test]
fn recent_paths_keep_the_ten_newest() {
    let mut workspace = Workspace::new();
    for i in 0..12 {
        workspace.open_file(format!("/f{i}.md"), doc("x"));
    }
    let recent = workspace.recent_paths();
    assert_eq!(recent.len(), 10);
    assert_eq!(recent[0], "/f11.md");
    assert_eq!(recent[9], "/f2.md");
    workspace.clear_recent_paths();
    assert!(workspace.recent_paths().is_empty());
}

#[test]
fn templates_switching_and_closing_tabs() {
    let mut workspace = Workspace::new();
    workspace.open_template(doc("one"));
    workspace.open_template(doc("two"));
    workspace.open_template(doc("three"));
    assert_eq!(workspace.active_document_index(), Some(2));
    assert!(workspace.current_path().is_none());

    assert_eq!(workspace.switch_tab(0), vec![WorkspaceEvent::ActiveTabChanged, WorkspaceEvent::DocumentChanged]);
    assert_eq!(workspace.active_document_index(), Some(0));
    assert!(workspace.switch_tab(7).is_empty());
    assert_eq!(workspace.active_document_index(), Some(0));

    workspace.switch_tab(2);
    workspace.close_tab(2);
    assert_eq!(workspace.active_document_index(), Some(1));
    workspace.close_tab(0);
    assert_eq!(workspace.active_document_index(), Some(0));
    assert_eq!(workspace.active_document_ref().unwrap().source(), "two");
    assert!(workspace.close_tab(5).is_empty());
    workspace.close_tab(0);
    assert_eq!(workspace.active_document_index(), None);
    assert!(workspace.documents().is_empty());
}

#[test]
fn saving_reports_the_path_and_source() {
    let mut workspace = Workspace::new();
    assert!(workspace.save_request().is_none());
    workspace.open_template(doc("draft text"));
    assert!(workspace.save_request().is_none());
    assert_eq!(workspace.save_as_content().as_deref(), Some("draft text"));
    let events = workspace.complete_save_as("/saved.md".to_string());
    assert_eq!(events, vec![WorkspaceEvent::DocumentChanged]);
    let request = workspace.save_request().unwrap();
    assert_eq!(request.path, "/saved.md");
    assert_eq!(request.content, "draft text");
    assert_eq!(workspace.recent_paths(), &["/saved.md".to_string()]);
}

#[test]
fn the_active_document_can_be_edited() {
    let mut workspace = Workspace::new();
    assert!(workspace.active_document_mut().is_none());
    workspace.open_template(doc("# A\n\nText"));
    let document = workspace.active_document_mut().unwrap();
    assert!(document.focus_next());
    assert_eq!(workspace.active_document_ref().unwrap().focused_block(), 1);
}

#[test]
fn default_config_is_dark_without_recent_paths() {
    let config = AppConfig::default();
    assert_eq!(config.theme_mode, ThemeMode::Dark);
    assert!(config.recent_paths.is_empty());
}

#[test]
fn paths_naming_the_same_place_share_a_tab_and_a_recent_entry() {
    let mut workspace = Workspace::new();
    workspace.open_file("docs/a.md".to_string(), doc("# A"));
    workspace.open_file("docs/b.md".to_string(), doc("# B"));
    workspace.open_file("docs//./a.md".to_string(), doc("# other"));
    assert_eq!(workspace.documents().len(), 2);
    assert_eq!(workspace.active_document_index(), Some(0));
    let recent: Vec<&str> = workspace.recent_paths().iter().map(|p| p.as_str()).collect();
    assert_eq!(recent, vec!["docs//./a.md", "docs/b.md"]);
}
