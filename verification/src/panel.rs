//! The side panel's state: which directories are expanded, whether it
//! shows files or the outline, its context menu, and the name being typed
//! for a new file, a new directory or a rename.
use vstd::prelude::*;
use crate::text::{chars_eq, chars_of, string_of, trim};
use crate::tree::{input_name, toggle_directory, toggled_dirs};
use crate::workspace::path_views;
use crate::paths::path_keys;

verus! {

/// What the side panel lists.
#[derive(Debug, Clone, Copy, PartialEq, Eq, Structural)]
pub enum SidebarMode {
    Files,
    Outline,
}

/// What a typed name is for.
#[derive(Debug)]
pub enum InputAction {
    CreateFile { parent: String },
    CreateDir { parent: String },
    Rename { path: String },
}

pub enum InputActionView {
    CreateFile { parent: Seq<char> },
    CreateDir { parent: Seq<char> },
    Rename { path: Seq<char> },
}

impl View for InputAction {
    type V = InputActionView;

    open spec fn view(&self) -> InputActionView {
        match self {
            InputAction::CreateFile { parent } => InputActionView::CreateFile { parent: parent@ },
            InputAction::CreateDir { parent } => InputActionView::CreateDir { parent: parent@ },
            InputAction::Rename { path } => InputActionView::Rename { path: path@ },
        }
    }
}

/// A change to the project directory the panel asks for.
#[derive(Debug)]
pub enum EntryCommand {
    CreateFile { parent: String, name: String },
    CreateDir { parent: String, name: String },
    Rename { path: String, new_name: String },
}

pub enum EntryCommandView {
    CreateFile { parent: Seq<char>, name: Seq<char> },
    CreateDir { parent: Seq<char>, name: Seq<char> },
    Rename { path: Seq<char>, new_name: Seq<char> },
}

impl View for EntryCommand {
    type V = EntryCommandView;

    open spec fn view(&self) -> EntryCommandView {
        match self {
            EntryCommand::CreateFile { parent, name } => EntryCommandView::CreateFile {
                parent: parent@,
                name: name@,
            },
            EntryCommand::CreateDir { parent, name } => EntryCommandView::CreateDir {
                parent: parent@,
                name: name@,
            },
            EntryCommand::Rename { path, new_name } => EntryCommandView::Rename {
                path: path@,
                new_name: new_name@,
            },
        }
    }
}

/// The command a finished input stands for: the action with the trimmed
/// name, unless nothing is left of the name.
pub open spec fn command_for(action: InputActionView, value: Seq<char>) -> Option<EntryCommandView> {
    let name = trim(value);
    if name.len() == 0 {
        None
    } else {
        Some(
            match action {
                InputActionView::CreateFile { parent } => EntryCommandView::CreateFile { parent, name },
                InputActionView::CreateDir { parent } => EntryCommandView::CreateDir { parent, name },
                InputActionView::Rename { path } => EntryCommandView::Rename { path, new_name: name },
            },
        )
    }
}

/// The prompt shown while a name is typed.
pub open spec fn input_prompt_spec(action: InputActionView) -> Seq<char> {
    match action {
        InputActionView::CreateFile { .. } => "New File Name:"@,
        InputActionView::CreateDir { .. } => "New Folder Name:"@,
        InputActionView::Rename { .. } => "Rename to:"@,
    }
}

/// The prompt shown while a name is typed for `action`.
pub fn input_prompt(action: &InputAction) -> (r: &'static str)
    ensures
        r@ == input_prompt_spec(action@),
{
    match action {
        InputAction::CreateFile { .. } => "New File Name:",
        InputAction::CreateDir { .. } => "New Folder Name:",
        InputAction::Rename { .. } => "Rename to:",
    }
}

/// A key pressed while a name is typed: Enter finishes the input, Escape
/// drops it, Backspace removes the last character, and any other key adds
/// the text it types. With no input open, nothing happens.
pub open spec fn input_key_spec(p: PanelView, key: Seq<char>, typed: Option<Seq<char>>) -> (
    PanelView,
    Option<EntryCommandView>,
) {
    match p.input {
        None => (p, None),
        Some((a, v)) => if key == "enter"@ {
            (PanelView { input: None, ..p }, command_for(a, v))
        } else if key == "escape"@ {
            (PanelView { input: None, ..p }, None)
        } else if key == "backspace"@ {
            (PanelView { input: Some((a, if v.len() > 0 { v.drop_last() } else { v })), ..p }, None)
        } else {
            match typed {
                Some(t) => (PanelView { input: Some((a, v + t)), ..p }, None),
                None => (p, None),
            }
        },
    }
}

/// The panel's state.
pub struct PanelState {
    pub expanded_dirs: Vec<String>,
    pub context_menu: Option<String>,
    pub input: Option<(InputAction, String)>,
    pub mode: SidebarMode,
}

pub struct PanelView {
    pub expanded_dirs: Seq<Seq<char>>,
    pub context_menu: Option<Seq<char>>,
    pub input: Option<(InputActionView, Seq<char>)>,
    pub mode: SidebarMode,
}

impl View for PanelState {
    type V = PanelView;

    open spec fn view(&self) -> PanelView {
        PanelView {
            expanded_dirs: path_views(self.expanded_dirs@),
            context_menu: match self.context_menu {
                Some(p) => Some(p@),
                None => None,
            },
            input: match self.input {
                Some((a, v)) => Some((a@, v@)),
                None => None,
            },
            mode: self.mode,
        }
    }
}

impl PanelState {
    /// Nothing expanded, no menu, no input, listing files.
    pub fn new() -> (r: PanelState)
        ensures
            r@.expanded_dirs.len() == 0,
            r@.context_menu is None,
            r@.input is None,
            r@.mode == SidebarMode::Files,
    {
        let r = PanelState { expanded_dirs: Vec::new(), context_menu: None, input: None, mode: SidebarMode::Files };
        assert(path_views(r.expanded_dirs@) =~= Seq::<Seq<char>>::empty());
        r
    }

    /// Expands or collapses a directory.
    pub fn toggle_directory(&mut self, path: String)
        requires
            path_keys(old(self)@.expanded_dirs).no_duplicates(),
        ensures
            final(self)@ == (PanelView {
                expanded_dirs: toggled_dirs(old(self)@.expanded_dirs, path@),
                ..old(self)@
            }),
            path_keys(final(self)@.expanded_dirs).no_duplicates(),
    {
        toggle_directory(&mut self.expanded_dirs, path);
    }

    /// Opens the context menu of an entry.
    pub fn show_context_menu(&mut self, path: String)
        ensures
            final(self)@ == (PanelView { context_menu: Some(path@), ..old(self)@ }),
    {
        self.context_menu = Some(path);
    }

    pub fn hide_context_menu(&mut self)
        ensures
            final(self)@ == (PanelView { context_menu: None, ..old(self)@ }),
    {
        self.context_menu = None;
    }

    /// Starts typing a name; the context menu closes.
    pub fn start_input(&mut self, action: InputAction, initial_value: String)
        ensures
            final(self)@ == (PanelView {
                input: Some((action@, initial_value@)),
                context_menu: None,
                ..old(self)@
            }),
    {
        self.input = Some((action, initial_value));
        self.context_menu = None;
    }

    /// Ends typing: the command the typed name stands for, if any.
    pub fn finish_input(&mut self) -> (r: Option<EntryCommand>)
        ensures
            final(self)@ == (PanelView { input: None, ..old(self)@ }),
            match old(self)@.input {
                Some((a, v)) => match r {
                    Some(c) => command_for(a, v) == Some(c@),
                    None => command_for(a, v) is None,
                },
                None => r is None,
            },
    {
        let taken = self.input.take();
        match taken {
            Some((action, value)) => {
                match input_name(value.as_str()) {
                    Some(name) => Some(
                        match action {
                            InputAction::CreateFile { parent } => EntryCommand::CreateFile { parent, name },
                            InputAction::CreateDir { parent } => EntryCommand::CreateDir { parent, name },
                            InputAction::Rename { path } => EntryCommand::Rename { path, new_name: name },
                        },
                    ),
                    None => None,
                }
            },
            None => None,
        }
    }

    /// Handles a key pressed while a name is typed (see `input_key_spec`);
    /// `typed` is the text the key types, if any. Returns the command a
    /// finished input stands for.
    pub fn handle_input_key(&mut self, key: &str, typed: Option<&str>) -> (r: Option<EntryCommand>)
        ensures
            ({
                let (p, c) = input_key_spec(
                    old(self)@,
                    key@,
                    match typed {
                        Some(t) => Some(t@),
                        None => None,
                    },
                );
                &&& final(self)@ == p
                &&& match r {
                    Some(x) => c == Some(x@),
                    None => c is None,
                }
            }),
    {
        if self.input.is_none() {
            return None;
        }
        let k = chars_of(key);
        if chars_eq(&k, &chars_of("enter")) {
            return self.finish_input();
        }
        if chars_eq(&k, &chars_of("escape")) {
            self.cancel_input();
            return None;
        }
        let taken = self.input.take();
        match taken {
            Some((action, value)) => {
                let mut v = chars_of(value.as_str());
                if chars_eq(&k, &chars_of("backspace")) {
                    if v.len() > 0 {
                        let ghost before = v@;
                        v.pop();
                        assert(v@ =~= before.drop_last());
                    }
                    self.input = Some((action, string_of(&v)));
                } else {
                    match typed {
                        Some(t) => {
                            crate::text::append_chars(&mut v, &chars_of(t));
                            self.input = Some((action, string_of(&v)));
                        },
                        None => {
                            self.input = Some((action, value));
                        },
                    }
                }
                None
            },
            None => None,
        }
    }

    /// Drops what was being typed.
    pub fn cancel_input(&mut self)
        ensures
            final(self)@ == (PanelView { input: None, ..old(self)@ }),
    {
        self.input = None;
    }

    /// Lists files or the outline.
    pub fn set_mode(&mut self, mode: SidebarMode)
        ensures
            final(self)@ == (PanelView { mode, ..old(self)@ }),
    {
        self.mode = mode;
    }
}

} // verus!
