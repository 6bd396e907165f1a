//! Keyboard handling of the focused editor: which editing action a key
//! press stands for.
use vstd::prelude::*;
use crate::text::{chars_of, lower_seq, to_ascii_lowercase};
use crate::document::{
    apply_draft_spec, delete_block_spec, delete_ok, delete_spec, duplicate_spec, focus_next_spec,
    focus_previous_spec, focused_of, insert_ok, insert_paragraph_spec, insert_text_spec,
    move_left_spec, move_ok, move_right_spec, redo_spec, revert_spec, select_all_spec, undo_spec,
    vertical_ok, vertical_spec, DocumentModel, DocumentView,
};

verus! {

/// The modifier keys held during a key press.
#[derive(Debug, Clone, Copy, PartialEq, Eq, Structural)]
pub struct KeyModifiers {
    pub control: bool,
    pub alt: bool,
    pub shift: bool,
    pub platform: bool,
}

/// What a key press in the focused editor does.
#[derive(Debug, Clone, Copy, PartialEq, Eq, Structural)]
pub enum KeyAction {
    ToggleTheme,
    Redo,
    Undo,
    /// Applies a pending draft, then focuses the previous block.
    FocusPrevious,
    /// Applies a pending draft, then focuses the next block.
    FocusNext,
    MoveLeft { extend: bool },
    MoveRight { extend: bool },
    MoveUp { extend: bool },
    MoveDown { extend: bool },
    LineStart { extend: bool },
    LineEnd { extend: bool },
    SelectAll,
    InsertParagraph,
    DuplicateBlock,
    DeleteBlock,
    /// Applies a pending draft, then saves the file.
    Save,
    RevertDraft,
    DeleteBackward,
    InsertNewline,
    InsertChar { ch: char },
    Ignore,
}

/// `str::eq_ignore_ascii_case` against a lower-case name.
pub open spec fn key_is(key: Seq<char>, name: Seq<char>) -> bool {
    lower_seq(key) == name
}

/// The text a key press types, when it is a single character.
pub open spec fn single_char(typed: Option<Seq<char>>) -> Option<char> {
    match typed {
        Some(t) => if t.len() == 1 {
            Some(t[0])
        } else {
            None
        },
        None => None,
    }
}

/// The action of a key press, tried in order: theme, redo, undo, block
/// focus, cursor moves, selection, block editing, save, revert, deletion,
/// new line, and last a typed character when no command modifier is held.
pub open spec fn key_action_spec(key: Seq<char>, m: KeyModifiers, typed: Option<Seq<char>>) -> KeyAction {
    let primary = m.control || m.platform;
    if primary && key_is(key, "t"@) {
        KeyAction::ToggleTheme
    } else if primary && m.shift && key_is(key, "z"@) {
        KeyAction::Redo
    } else if primary && key_is(key, "y"@) {
        KeyAction::Redo
    } else if primary && key_is(key, "z"@) {
        KeyAction::Undo
    } else if m.alt && key_is(key, "up"@) {
        KeyAction::FocusPrevious
    } else if m.alt && key_is(key, "down"@) {
        KeyAction::FocusNext
    } else if key_is(key, "left"@) {
        KeyAction::MoveLeft { extend: m.shift }
    } else if key_is(key, "right"@) {
        KeyAction::MoveRight { extend: m.shift }
    } else if key_is(key, "up"@) {
        KeyAction::MoveUp { extend: m.shift }
    } else if key_is(key, "down"@) {
        KeyAction::MoveDown { extend: m.shift }
    } else if key_is(key, "home"@) {
        KeyAction::LineStart { extend: m.shift }
    } else if key_is(key, "end"@) {
        KeyAction::LineEnd { extend: m.shift }
    } else if primary && key_is(key, "a"@) {
        KeyAction::SelectAll
    } else if primary && key_is(key, "n"@) {
        KeyAction::InsertParagraph
    } else if primary && key_is(key, "d"@) {
        KeyAction::DuplicateBlock
    } else if primary && key_is(key, "backspace"@) {
        KeyAction::DeleteBlock
    } else if primary && key_is(key, "s"@) {
        KeyAction::Save
    } else if key_is(key, "escape"@) {
        KeyAction::RevertDraft
    } else if key_is(key, "backspace"@) {
        KeyAction::DeleteBackward
    } else if key_is(key, "enter"@) {
        KeyAction::InsertNewline
    } else if !m.control && !m.alt && !m.platform && single_char(typed) is Some {
        KeyAction::InsertChar { ch: single_char(typed)->0 }
    } else {
        KeyAction::Ignore
    }
}

fn is_key(lowered: &Vec<char>, name: &str) -> (r: bool)
    ensures
        r == (lowered@ == name@),
{
    crate::text::chars_eq(lowered, &chars_of(name))
}

/// The editing action a key press in the focused editor stands for; `key`
/// is the key's name and `typed` the text it types, if any.
pub fn plan_focused_key(key: &str, modifiers: KeyModifiers, typed: Option<&str>) -> (r: KeyAction)
    ensures
        r == key_action_spec(
            key@,
            modifiers,
            match typed {
                Some(t) => Some(t@),
                None => None,
            },
        ),
{
    let k = to_ascii_lowercase(&chars_of(key));
    let m = modifiers;
    let primary = m.control || m.platform;
    if primary && is_key(&k, "t") {
        return KeyAction::ToggleTheme;
    }
    if primary && m.shift && is_key(&k, "z") {
        return KeyAction::Redo;
    }
    if primary && is_key(&k, "y") {
        return KeyAction::Redo;
    }
    if primary && is_key(&k, "z") {
        return KeyAction::Undo;
    }
    if m.alt && is_key(&k, "up") {
        return KeyAction::FocusPrevious;
    }
    if m.alt && is_key(&k, "down") {
        return KeyAction::FocusNext;
    }
    if is_key(&k, "left") {
        return KeyAction::MoveLeft { extend: m.shift };
    }
    if is_key(&k, "right") {
        return KeyAction::MoveRight { extend: m.shift };
    }
    if is_key(&k, "up") {
        return KeyAction::MoveUp { extend: m.shift };
    }
    if is_key(&k, "down") {
        return KeyAction::MoveDown { extend: m.shift };
    }
    if is_key(&k, "home") {
        return KeyAction::LineStart { extend: m.shift };
    }
    if is_key(&k, "end") {
        return KeyAction::LineEnd { extend: m.shift };
    }
    if primary && is_key(&k, "a") {
        return KeyAction::SelectAll;
    }
    if primary && is_key(&k, "n") {
        return KeyAction::InsertParagraph;
    }
    if primary && is_key(&k, "d") {
        return KeyAction::DuplicateBlock;
    }
    if primary && is_key(&k, "backspace") {
        return KeyAction::DeleteBlock;
    }
    if primary && is_key(&k, "s") {
        return KeyAction::Save;
    }
    if is_key(&k, "escape") {
        return KeyAction::RevertDraft;
    }
    if is_key(&k, "backspace") {
        return KeyAction::DeleteBackward;
    }
    if is_key(&k, "enter") {
        return KeyAction::InsertNewline;
    }
    if !m.control && !m.alt && !m.platform {
        match typed {
            Some(t) => {
                let chars = chars_of(t);
                if chars.len() == 1 {
                    return KeyAction::InsertChar { ch: chars[0] };
                }
            },
            None => {},
        }
    }
    KeyAction::Ignore
}

/// The paragraph a keyboard shortcut inserts.
pub const SHORTCUT_PARAGRAPH: &'static str = "Inserted via keyboard shortcut as a structure-editing prototype.";

/// Whether the focused block holds edits not yet applied.
pub open spec fn has_draft(d: DocumentView) -> bool {
    focused_of(d.current) is Some && focused_of(d.current)->0.draft is Some
}

/// The document once a pending draft of the focused block is applied.
pub open spec fn draft_applied(d: DocumentView) -> DocumentView {
    if has_draft(d) {
        apply_draft_spec(d).0
    } else {
        d
    }
}

/// What the editor needs of the document before it applies an action.
pub open spec fn key_action_ok(d: DocumentView, action: KeyAction) -> bool {
    match action {
        KeyAction::MoveLeft { extend } => move_ok(d, extend, false),
        KeyAction::MoveRight { extend } => move_ok(d, extend, true),
        KeyAction::MoveUp { .. } => vertical_ok(d, -1isize),
        KeyAction::MoveDown { .. } => vertical_ok(d, 1isize),
        KeyAction::DeleteBackward => delete_ok(d),
        KeyAction::InsertNewline => insert_ok(d, seq!['\n']),
        KeyAction::InsertChar { ch } => insert_ok(d, seq![ch]),
        _ => true,
    }
}

/// The document after an action and whether the key was handled, when no
/// visual layout is at hand: the line edges then stay where they are, and
/// vertical moves go by explicit lines. Theme toggling and saving are the
/// workspace's part; here a save applies the pending draft.
pub open spec fn key_effect_spec(d: DocumentView, action: KeyAction) -> (DocumentView, bool) {
    match action {
        KeyAction::ToggleTheme => (d, true),
        KeyAction::Redo => redo_spec(d),
        KeyAction::Undo => undo_spec(d),
        KeyAction::FocusPrevious => focus_previous_spec(draft_applied(d)),
        KeyAction::FocusNext => focus_next_spec(draft_applied(d)),
        KeyAction::MoveLeft { extend } => move_left_spec(d, extend),
        KeyAction::MoveRight { extend } => move_right_spec(d, extend),
        KeyAction::MoveUp { extend } => vertical_spec(d, -1isize, extend),
        KeyAction::MoveDown { extend } => vertical_spec(d, 1isize, extend),
        KeyAction::LineStart { .. } => (d, false),
        KeyAction::LineEnd { .. } => (d, false),
        KeyAction::SelectAll => (select_all_spec(d).0, true),
        KeyAction::InsertParagraph => insert_paragraph_spec(d, SHORTCUT_PARAGRAPH@),
        KeyAction::DuplicateBlock => duplicate_spec(d),
        KeyAction::DeleteBlock => delete_block_spec(d),
        KeyAction::Save => (apply_draft_spec(d).0, true),
        KeyAction::RevertDraft => (revert_spec(d).0, true),
        KeyAction::DeleteBackward => delete_spec(d),
        KeyAction::InsertNewline => insert_text_spec(d, seq!['\n']),
        KeyAction::InsertChar { ch } => insert_text_spec(d, seq![ch]),
        KeyAction::Ignore => (d, false),
    }
}

/// Applies a key action to the document; returns whether the key was
/// handled.
pub fn apply_key_action(document: &mut DocumentModel, action: KeyAction) -> (r: bool)
    requires
        old(document).wf(),
        key_action_ok(old(document)@, action),
    ensures
        final(document).wf(),
        (final(document)@, r) == key_effect_spec(old(document)@, action),
{
    match action {
        KeyAction::ToggleTheme => true,
        KeyAction::Redo => document.redo(),
        KeyAction::Undo => document.undo(),
        KeyAction::FocusPrevious => {
            if document.focused_has_draft() {
                document.apply_focused_draft();
            }
            document.focus_previous()
        },
        KeyAction::FocusNext => {
            if document.focused_has_draft() {
                document.apply_focused_draft();
            }
            document.focus_next()
        },
        KeyAction::MoveLeft { extend } => document.move_cursor_left(extend),
        KeyAction::MoveRight { extend } => document.move_cursor_right(extend),
        KeyAction::MoveUp { extend } => document.move_cursor_up(extend),
        KeyAction::MoveDown { extend } => document.move_cursor_down(extend),
        KeyAction::LineStart { .. } => false,
        KeyAction::LineEnd { .. } => false,
        KeyAction::SelectAll => {
            document.select_all();
            true
        },
        KeyAction::InsertParagraph => document.insert_paragraph_after_focused(SHORTCUT_PARAGRAPH),
        KeyAction::DuplicateBlock => document.duplicate_focused_block(),
        KeyAction::DeleteBlock => document.delete_focused_block(),
        KeyAction::Save => {
            document.apply_focused_draft();
            true
        },
        KeyAction::RevertDraft => {
            document.revert_focused_draft();
            true
        },
        KeyAction::DeleteBackward => document.delete_at_cursor_in_focused_draft(),
        KeyAction::InsertNewline => document.push_char_to_focused_draft('\n'),
        KeyAction::InsertChar { ch } => document.push_char_to_focused_draft(ch),
        KeyAction::Ignore => false,
    }
}

} // verus!
