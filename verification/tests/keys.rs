use sola::document::DocumentModel;
use sola::keys::{apply_key_action, plan_focused_key, KeyAction, KeyModifiers};

fn mods(control: bool, alt: bool, shift: bool, platform: bool) -> KeyModifiers {
    KeyModifiers { control, alt, shift, platform }
}

const NONE: KeyModifiers = KeyModifiers { control: false, alt: false, shift: false, platform: false };

#[test]
fn command_keys_map_to_actions() {
    let ctrl = mods(true, false, false, false);
    let cmd = mods(false, false, false, true);
    assert_eq!(plan_focused_key("t", ctrl, None), KeyAction::ToggleTheme);
    assert_eq!(plan_focused_key("T", cmd, None), KeyAction::ToggleTheme);
    assert_eq!(plan_focused_key("z", mods(true, false, true, false), None), KeyAction::Redo);
    assert_eq!(plan_focused_key("y", ctrl, None), KeyAction::Redo);
    assert_eq!(plan_focused_key("z", ctrl, None), KeyAction::Undo);
    assert_eq!(plan_focused_key("a", ctrl, None), KeyAction::SelectAll);
    assert_eq!(plan_focused_key("n", ctrl, None), KeyAction::InsertParagraph);
    assert_eq!(plan_focused_key("d", ctrl, None), KeyAction::DuplicateBlock);
    assert_eq!(plan_focused_key("backspace", ctrl, None), KeyAction::DeleteBlock);
    assert_eq!(plan_focused_key("s", ctrl, None), KeyAction::Save);
}

#[test]
fn navigation_keys_map_to_moves() {
    assert_eq!(plan_focused_key("up", mods(false, true, false, false), None), KeyAction::FocusPrevious);
    assert_eq!(plan_focused_key("down", mods(false, true, false, false), None), KeyAction::FocusNext);
    assert_eq!(plan_focused_key("left", NONE, None), KeyAction::MoveLeft { extend: false });
    assert_eq!(plan_focused_key("Right", mods(false, false, true, false), None), KeyAction::MoveRight { extend: true });
    assert_eq!(plan_focused_key("up", NONE, None), KeyAction::MoveUp { extend: false });
    assert_eq!(plan_focused_key("down", mods(false, false, true, false), None), KeyAction::MoveDown { extend: true });
    assert_eq!(plan_focused_key("home", NONE, None), KeyAction::LineStart { extend: false });
    assert_eq!(plan_focused_key("end", NONE, None), KeyAction::LineEnd { extend: false });
}

#[test]
fn editing_keys_and_typing() {
    assert_eq!(plan_focused_key("escape", NONE, None), KeyAction::RevertDraft);
    assert_eq!(plan_focused_key("backspace", NONE, None), KeyAction::DeleteBackward);
    assert_eq!(plan_focused_key("enter", NONE, Some("\n")), KeyAction::InsertNewline);
    assert_eq!(plan_focused_key("x", NONE, Some("x")), KeyAction::InsertChar { ch: 'x' });
    assert_eq!(plan_focused_key("x", mods(false, false, true, false), Some("X")), KeyAction::InsertChar { ch: 'X' });
    assert_eq!(plan_focused_key("x", mods(true, false, false, false), Some("x")), KeyAction::Ignore);
    assert_eq!(plan_focused_key("f1", NONE, None), KeyAction::Ignore);
    assert_eq!(plan_focused_key("a", NONE, Some("ab")), KeyAction::Ignore);
}

#[test]
fn key_actions_edit_the_document() {
    let mut document = DocumentModel::from_markdown("# Title\n\nHello");
    assert!(apply_key_action(&mut document, KeyAction::FocusNext));
    assert_eq!(document.focused_block(), 1);
    assert!(apply_key_action(&mut document, KeyAction::MoveRight { extend: false }));
    assert!(apply_key_action(&mut document, KeyAction::InsertChar { ch: 'X' }));
    assert_eq!(document.focused_text(), Some("HXello"));
    assert!(apply_key_action(&mut document, KeyAction::DeleteBackward));
    assert_eq!(document.focused_text(), Some("Hello"));
    assert!(apply_key_action(&mut document, KeyAction::InsertChar { ch: '!' }));
    assert!(apply_key_action(&mut document, KeyAction::FocusPrevious));
    assert_eq!(document.focused_block(), 0);
    assert_eq!(document.blocks()[1].rendered, "H!ello");
    assert!(apply_key_action(&mut document, KeyAction::Undo));
    assert!(!apply_key_action(&mut document, KeyAction::LineEnd { extend: false }));
    assert!(!apply_key_action(&mut document, KeyAction::Ignore));
    assert!(apply_key_action(&mut document, KeyAction::InsertParagraph));
    assert_eq!(
        document.blocks()[document.focused_block()].rendered,
        "Inserted via keyboard shortcut as a structure-editing prototype."
    );
}
