//! The workspace: the open documents as tabs, the active tab, the theme
//! mode and its theme, and the list of recently opened paths.
use vstd::prelude::*;
use crate::document::{DocumentModel, DocumentView};
use crate::text::copy_string;
use crate::paths::{path_key, path_keys, same_path};
use crate::theme::{is_sola_dark, is_sola_light, Theme};

verus! {

/// The theme the editor is shown in.
#[derive(Debug, Clone, Copy, PartialEq, Eq, Structural)]
pub enum ThemeMode {
    Dark,
    Light,
}

pub open spec fn toggled(m: ThemeMode) -> ThemeMode {
    match m {
        ThemeMode::Dark => ThemeMode::Light,
        ThemeMode::Light => ThemeMode::Dark,
    }
}

pub open spec fn mode_label(m: ThemeMode) -> Seq<char> {
    match m {
        ThemeMode::Dark => seq!['d', 'a', 'r', 'k'],
        ThemeMode::Light => seq!['l', 'i', 'g', 'h', 't'],
    }
}

impl ThemeMode {
    /// The other mode.
    pub fn toggle(&self) -> (r: ThemeMode)
        ensures
            r == toggled(*self),
    {
        match self {
            ThemeMode::Dark => ThemeMode::Light,
            ThemeMode::Light => ThemeMode::Dark,
        }
    }

    /// `dark` or `light`.
    pub fn label(&self) -> (r: &'static str)
        ensures
            r@ == mode_label(*self),
    {
        proof {
            reveal_strlit("dark");
            reveal_strlit("light");
        }
        match self {
            ThemeMode::Dark => "dark",
            ThemeMode::Light => "light",
        }
    }
}

/// Toggling the theme mode twice gives the mode back.
pub proof fn law_toggle_involution(m: ThemeMode)
    ensures
        toggled(toggled(m)) == m,
        toggled(m) != m,
{
}

/// What changed in the workspace, for whoever shows it.
#[derive(Debug, Clone, Copy, PartialEq, Eq, Structural)]
pub enum WorkspaceEvent {
    DocumentChanged,
    ThemeChanged,
    WorktreeChanged,
    ActiveTabChanged,
}

/// A document open in a tab, with the path it was opened from if any.
pub struct OpenDocument {
    pub path: Option<String>,
    pub document: DocumentModel,
}

pub struct OpenDocumentView {
    pub path: Option<Seq<char>>,
    pub document: DocumentView,
}

impl View for OpenDocument {
    type V = OpenDocumentView;

    open spec fn view(&self) -> OpenDocumentView {
        OpenDocumentView {
            path: match self.path {
                Some(p) => Some(p@),
                None => None,
            },
            document: self.document@,
        }
    }
}

pub open spec fn open_views(v: Seq<OpenDocument>) -> Seq<OpenDocumentView> {
    v.map_values(|d: OpenDocument| d@)
}

pub open spec fn path_views(v: Seq<String>) -> Seq<Seq<char>> {
    v.map_values(|p: String| p@)
}

/// The open tabs, the active one, the theme and the recent paths.
pub struct Workspace {
    documents: Vec<OpenDocument>,
    active_document_index: Option<usize>,
    theme: Theme,
    theme_mode: ThemeMode,
    recent_paths: Vec<String>,
}

pub struct WorkspaceView {
    pub documents: Seq<OpenDocumentView>,
    pub active: Option<usize>,
    pub theme_mode: ThemeMode,
    pub recent_paths: Seq<Seq<char>>,
}

impl View for Workspace {
    type V = WorkspaceView;

    closed spec fn view(&self) -> WorkspaceView {
        WorkspaceView {
            documents: open_views(self.documents@),
            active: self.active_document_index,
            theme_mode: self.theme_mode,
            recent_paths: path_views(self.recent_paths@),
        }
    }
}

/// The most recent paths kept.
pub open spec fn recent_limit() -> nat {
    10
}

/// The theme that goes with a mode.
pub open spec fn theme_for(t: Theme, m: ThemeMode) -> bool {
    match m {
        ThemeMode::Dark => is_sola_dark(t),
        ThemeMode::Light => is_sola_light(t),
    }
}

/// The active tab exists exactly when a tab is open, and is one of them;
/// every document is well formed; the recent paths name distinct places
/// and are at most ten.
pub open spec fn workspace_wf(w: WorkspaceView) -> bool {
    &&& (w.active is None <==> w.documents.len() == 0)
    &&& (w.active matches Some(i) ==> i < w.documents.len())
    &&& forall|i: int| 0 <= i < w.documents.len() ==> crate::document::doc_wf(#[trigger] w.documents[i].document)
    &&& path_keys(w.recent_paths).no_duplicates()
    &&& w.recent_paths.len() <= recent_limit()
}

/// `add_recent_path`: the path moves to the front, in place of the first
/// entry that names the same place, and the list keeps its ten most recent
/// entries.
pub open spec fn with_recent(recent: Seq<Seq<char>>, path: Seq<char>) -> Seq<Seq<char>> {
    let rest = match path_keys(recent).index_of_first(path_key(path)) {
        Some(i) => recent.remove(i),
        None => recent,
    };
    let r = seq![path] + rest;
    if r.len() > recent_limit() {
        r.take(recent_limit() as int)
    } else {
        r
    }
}

/// The components of the path a tab was opened from, if any.
pub open spec fn tab_keys(docs: Seq<OpenDocumentView>) -> Seq<Option<(bool, bool, Seq<Seq<char>>)>> {
    docs.map_values(
        |d: OpenDocumentView|
            match d.path {
                Some(q) => Some(path_key(q)),
                None => None,
            },
    )
}

/// The first tab opened from a path naming the same place as `path`.
pub open spec fn tab_of_path(docs: Seq<OpenDocumentView>, path: Seq<char>) -> Option<int> {
    tab_keys(docs).index_of_first(Some(path_key(path)))
}

pub open spec fn open_file_spec(w: WorkspaceView, path: Seq<char>, doc: DocumentView) -> WorkspaceView {
    let recent = with_recent(w.recent_paths, path);
    match tab_of_path(w.documents, path) {
        Some(i) => WorkspaceView { active: Some(i as usize), recent_paths: recent, ..w },
        None => WorkspaceView {
            documents: w.documents.push(OpenDocumentView { path: Some(path), document: doc }),
            active: Some(w.documents.len() as usize),
            recent_paths: recent,
            ..w
        },
    }
}

pub open spec fn close_tab_spec(w: WorkspaceView, index: usize) -> WorkspaceView {
    if index >= w.documents.len() {
        w
    } else {
        let docs = w.documents.remove(index as int);
        let active = if docs.len() == 0 {
            None
        } else {
            let a = match w.active {
                Some(a) => a,
                None => 0,
            };
            Some(if a <= docs.len() - 1 { a } else { (docs.len() - 1) as usize })
        };
        WorkspaceView { documents: docs, active, ..w }
    }
}

pub open spec fn tab_events() -> Seq<WorkspaceEvent> {
    seq![WorkspaceEvent::ActiveTabChanged, WorkspaceEvent::DocumentChanged]
}

pub open spec fn open_events() -> Seq<WorkspaceEvent> {
    seq![WorkspaceEvent::DocumentChanged, WorkspaceEvent::ActiveTabChanged]
}

/// What saving the active tab writes: its path and its source.
pub struct SaveRequest {
    pub path: String,
    pub content: String,
}

fn position_of(v: &Vec<String>, s: &String) -> (r: Option<usize>)
    ensures
        match r {
            Some(i) => path_keys(path_views(v@)).index_of_first(path_key(s@)) == Some(i as int),
            None => path_keys(path_views(v@)).index_of_first(path_key(s@)) is None,
        },
{
    let ghost pv = path_keys(path_views(v@));
    let ghost k = path_key(s@);
    proof {
        pv.index_of_first_ensures(k);
    }
    let mut i: usize = 0;
    while i < v.len()
        invariant
            pv == path_keys(path_views(v@)),
            k == path_key(s@),
            pv.len() == v@.len(),
            i <= v@.len(),
            forall|j: int| 0 <= j < i ==> pv[j] != k,
            match pv.index_of_first(k) {
                Some(index) => {
                    &&& pv.contains(k)
                    &&& 0 <= index < pv.len()
                    &&& pv[index] == k
                    &&& forall|j: int| 0 <= j < index < pv.len() ==> pv[j] != k
                },
                None => !pv.contains(k),
            },
        decreases v.len() - i,
    {
        assert(pv[i as int] == path_key(v@[i as int]@));
        if same_path(v[i].as_str(), s.as_str()) {
            assert(pv[i as int] == k);
            return Some(i);
        }
        i += 1;
    }
    None
}

fn tab_index_of(docs: &Vec<OpenDocument>, path: &String) -> (r: Option<usize>)
    ensures
        r matches Some(i) ==> i < docs@.len(),
        match r {
            Some(i) => tab_of_path(open_views(docs@), path@) == Some(i as int),
            None => tab_of_path(open_views(docs@), path@) is None,
        },
{
    let ghost keys = tab_keys(open_views(docs@));
    let ghost k = Some(path_key(path@));
    proof {
        keys.index_of_first_ensures(k);
    }
    let mut i: usize = 0;
    while i < docs.len()
        invariant
            keys == tab_keys(open_views(docs@)),
            k == Some(path_key(path@)),
            keys.len() == docs@.len(),
            i <= docs@.len(),
            forall|j: int| 0 <= j < i ==> keys[j] != k,
            match keys.index_of_first(k) {
                Some(index) => {
                    &&& keys.contains(k)
                    &&& 0 <= index < keys.len()
                    &&& keys[index] == k
                    &&& forall|j: int| 0 <= j < index < keys.len() ==> keys[j] != k
                },
                None => !keys.contains(k),
            },
        decreases docs.len() - i,
    {
        assert(open_views(docs@)[i as int] == docs@[i as int]@);
        let same = match &docs[i].path {
            Some(p) => same_path(p.as_str(), path.as_str()),
            None => false,
        };
        if same {
            assert(keys[i as int] == k);
            return Some(i);
        }
        i += 1;
    }
    None
}

impl Workspace {
    pub open spec fn wf(&self) -> bool {
        &&& workspace_wf(self@)
        &&& theme_for(self.theme_spec(), self@.theme_mode)
    }

    /// The theme that is shown: the built-in one for the current mode.
    pub closed spec fn theme_spec(&self) -> Theme {
        self.theme
    }

    /// An empty workspace in the dark theme.
    pub fn new() -> (r: Workspace)
        ensures
            r.wf(),
            r@.documents.len() == 0,
            r@.active is None,
            r@.theme_mode == ThemeMode::Dark,
            r@.recent_paths.len() == 0,
    {
        let r = Workspace {
            documents: Vec::new(),
            active_document_index: None,
            theme: Theme::sola_dark(),
            theme_mode: ThemeMode::Dark,
            recent_paths: Vec::new(),
        };
        assert(open_views(r.documents@) =~= Seq::<OpenDocumentView>::empty());
        assert(path_views(r.recent_paths@) =~= Seq::<Seq<char>>::empty());
        r
    }

    pub fn documents(&self) -> (r: &[OpenDocument])
        ensures
            open_views(r@) == self@.documents,
    {
        self.documents.as_slice()
    }

    pub fn active_document_index(&self) -> (r: Option<usize>)
        ensures
            r == self@.active,
    {
        self.active_document_index
    }

    /// The document of the active tab.
    pub fn active_document_ref(&self) -> (r: Option<&DocumentModel>)
        requires
            self.wf(),
        ensures
            match self@.active {
                Some(i) => r matches Some(d) && d@ == self@.documents[i as int].document,
                None => r is None,
            },
    {
        match self.active_document_index {
            Some(i) => {
                assert(open_views(self.documents@)[i as int] == self.documents@[i as int]@);
                Some(&self.documents[i].document)
            },
            None => None,
        }
    }

    /// The document of the active tab, to change it.
    pub fn active_document_mut(&mut self) -> (r: Option<&mut DocumentModel>)
        requires
            old(self).wf(),
        ensures
            match old(self)@.active {
                Some(i) => r matches Some(d) && {
                    &&& d@ == old(self)@.documents[i as int].document
                    &&& final(self)@.documents =~= old(self)@.documents.update(
                        i as int,
                        OpenDocumentView { document: final(d)@, ..old(self)@.documents[i as int] },
                    )
                    &&& final(self)@.active == old(self)@.active
                    &&& final(self)@.theme_mode == old(self)@.theme_mode
                    &&& final(self)@.recent_paths == old(self)@.recent_paths
                    &&& final(self).theme_spec() == old(self).theme_spec()
                    &&& (final(d).wf() ==> final(self).wf())
                },
                None => r is None && final(self)@ == old(self)@ && final(self).wf(),
            },
    {
        match self.active_document_index {
            Some(i) => {
                assert(open_views(self.documents@)[i as int] == self.documents@[i as int]@);
                let ghost docs0 = open_views(self.documents@);
                let tab = &mut self.documents[i];
                Some(&mut tab.document)
            },
            None => None,
        }
    }

    pub fn theme(&self) -> (r: &Theme)
        ensures
            *r == self.theme_spec(),
    {
        &self.theme
    }

    pub fn theme_mode(&self) -> (r: ThemeMode)
        ensures
            r == self@.theme_mode,
    {
        self.theme_mode
    }

    /// Switches between the dark and the light theme.
    pub fn toggle_theme(&mut self) -> (events: Vec<WorkspaceEvent>)
        requires
            old(self).wf(),
        ensures
            final(self).wf(),
            final(self)@ == (WorkspaceView { theme_mode: toggled(old(self)@.theme_mode), ..old(self)@ }),
            events@ == seq![WorkspaceEvent::ThemeChanged],
    {
        self.theme_mode = self.theme_mode.toggle();
        self.theme = match self.theme_mode {
            ThemeMode::Dark => Theme::sola_dark(),
            ThemeMode::Light => Theme::sola_light(),
        };
        vec![WorkspaceEvent::ThemeChanged]
    }

    /// The path of the active tab, if it has one.
    pub fn current_path(&self) -> (r: Option<&String>)
        requires
            self.wf(),
        ensures
            match self@.active {
                Some(i) => match self@.documents[i as int].path {
                    Some(p) => r matches Some(s) && s@ == p,
                    None => r is None,
                },
                None => r is None,
            },
    {
        match self.active_document_index {
            Some(i) => {
                assert(open_views(self.documents@)[i as int] == self.documents@[i as int]@);
                match &self.documents[i].path {
                    Some(p) => Some(p),
                    None => None,
                }
            },
            None => None,
        }
    }

    pub fn recent_paths(&self) -> (r: &[String])
        ensures
            path_views(r@) == self@.recent_paths,
    {
        self.recent_paths.as_slice()
    }

    pub fn clear_recent_paths(&mut self)
        requires
            old(self).wf(),
        ensures
            final(self).wf(),
            final(self)@ == (WorkspaceView { recent_paths: seq![], ..old(self)@ }),
    {
        self.recent_paths.clear();
        assert(path_views(self.recent_paths@) =~= Seq::<Seq<char>>::empty());
    }

    #[verifier::spinoff_prover]
    #[verifier::rlimit(30)]
    fn add_recent_path(&mut self, path: String)
        requires
            old(self).wf(),
        ensures
            final(self).wf(),
            final(self)@ == (WorkspaceView {
                recent_paths: with_recent(old(self)@.recent_paths, path@),
                ..old(self)@
            }),
    {
        let ghost r0 = path_views(self.recent_paths@);
        let ghost pv = path@;
        proof {
            path_keys(r0).index_of_first_ensures(path_key(pv));
        }
        let ghost rest = match path_keys(r0).index_of_first(path_key(pv)) {
            Some(i) => r0.remove(i),
            None => r0,
        };
        match position_of(&self.recent_paths, &path) {
            Some(pos) => {
                self.recent_paths.remove(pos);
                assert(path_views(self.recent_paths@) =~= r0.remove(pos as int));
            },
            None => {},
        }
        assert(path_views(self.recent_paths@) == rest);
        self.recent_paths.insert(0, path);
        assert(path_views(self.recent_paths@) =~= seq![pv] + rest);
        if self.recent_paths.len() > 10 {
            self.recent_paths.truncate(10);
            assert(path_views(self.recent_paths@) =~= (seq![pv] + rest).take(10));
        }
        assert(path_views(self.recent_paths@) == with_recent(r0, pv));
        proof {
            lemma_keys_with_recent(r0, pv);
            lemma_to_front(path_keys(r0), path_key(pv), recent_limit());
        }
    }

    /// Opens a document read from `path` in a new tab, or switches to the
    /// tab already opened from that path; the path becomes the most recent.
    pub fn open_file(&mut self, path: String, document: DocumentModel) -> (events: Vec<WorkspaceEvent>)
        requires
            old(self).wf(),
            document.wf(),
        ensures
            final(self).wf(),
            final(self)@ == open_file_spec(old(self)@, path@, document@),
            events@ == open_events(),
    {
        let ghost w0 = self@;
        let key = copy_string(&path);
        self.add_recent_path(key);
        let ghost d1 = open_views(self.documents@);
        match tab_index_of(&self.documents, &path) {
            Some(index) => {
                self.active_document_index = Some(index);
            },
            None => {
                let ghost pv = path@;
                let ghost dv = document@;
                self.documents.push(OpenDocument { path: Some(path), document });
                assert(open_views(self.documents@) =~= d1.push(OpenDocumentView { path: Some(pv), document: dv }));
                self.active_document_index = Some(self.documents.len() - 1);
            },
        }
        vec![WorkspaceEvent::DocumentChanged, WorkspaceEvent::ActiveTabChanged]
    }

    /// Opens a document that has no path yet in a new tab.
    pub fn open_template(&mut self, document: DocumentModel) -> (events: Vec<WorkspaceEvent>)
        requires
            old(self).wf(),
            document.wf(),
        ensures
            final(self).wf(),
            final(self)@ == (WorkspaceView {
                documents: old(self)@.documents.push(OpenDocumentView { path: None, document: document@ }),
                active: Some(old(self)@.documents.len() as usize),
                ..old(self)@
            }),
            events@ == open_events(),
    {
        let ghost d0 = open_views(self.documents@);
        let ghost dv = document@;
        self.documents.push(OpenDocument { path: None, document });
        assert(open_views(self.documents@) =~= d0.push(OpenDocumentView { path: None, document: dv }));
        self.active_document_index = Some(self.documents.len() - 1);
        vec![WorkspaceEvent::DocumentChanged, WorkspaceEvent::ActiveTabChanged]
    }

    /// Makes tab `index` the active one, if there is such a tab.
    pub fn switch_tab(&mut self, index: usize) -> (events: Vec<WorkspaceEvent>)
        requires
            old(self).wf(),
        ensures
            final(self).wf(),
            index < old(self)@.documents.len() ==> final(self)@ == (WorkspaceView {
                active: Some(index),
                ..old(self)@
            }) && events@ == tab_events(),
            index >= old(self)@.documents.len() ==> final(self)@ == old(self)@ && events@.len() == 0,
    {
        if index < self.documents.len() {
            self.active_document_index = Some(index);
            vec![WorkspaceEvent::ActiveTabChanged, WorkspaceEvent::DocumentChanged]
        } else {
            Vec::new()
        }
    }

    /// Closes tab `index`; the active tab stays where it was, or moves to
    /// the last tab when it was past the end.
    pub fn close_tab(&mut self, index: usize) -> (events: Vec<WorkspaceEvent>)
        requires
            old(self).wf(),
        ensures
            final(self).wf(),
            final(self)@ == close_tab_spec(old(self)@, index),
            index < old(self)@.documents.len() ==> events@ == tab_events(),
            index >= old(self)@.documents.len() ==> events@.len() == 0,
    {
        if index < self.documents.len() {
            let ghost d0 = open_views(self.documents@);
            let _closed = self.documents.remove(index);
            assert(open_views(self.documents@) =~= d0.remove(index as int));
            if self.documents.len() == 0 {
                self.active_document_index = None;
            } else {
                let a = match self.active_document_index {
                    Some(a) => a,
                    None => 0,
                };
                let last = self.documents.len() - 1;
                self.active_document_index = Some(if a <= last { a } else { last });
            }
            proof {
                let dn = open_views(self.documents@);
                assert forall|i: int| 0 <= i < dn.len() implies crate::document::doc_wf(#[trigger] dn[i].document) by {
                    if i < index {
                        assert(dn[i] == d0[i]);
                    } else {
                        assert(dn[i] == d0[i + 1]);
                    }
                }
            }
            vec![WorkspaceEvent::ActiveTabChanged, WorkspaceEvent::DocumentChanged]
        } else {
            Vec::new()
        }
    }

    /// What saving the active tab writes, when it has a path.
    pub fn save_request(&self) -> (r: Option<SaveRequest>)
        requires
            self.wf(),
        ensures
            match self@.active {
                Some(i) => match self@.documents[i as int].path {
                    Some(p) => r matches Some(q) && q.path@ == p && q.content@
                        == self@.documents[i as int].document.current.source,
                    None => r is None,
                },
                None => r is None,
            },
    {
        match self.active_document_index {
            Some(i) => {
                assert(open_views(self.documents@)[i as int] == self.documents@[i as int]@);
                let tab = &self.documents[i];
                match &tab.path {
                    Some(p) => Some(
                        SaveRequest {
                            path: copy_string(p),
                            content: crate::text::string_from(tab.document.source()),
                        },
                    ),
                    None => None,
                }
            },
            None => None,
        }
    }

    /// The source of the active tab, to be saved under a new path.
    pub fn save_as_content(&self) -> (r: Option<String>)
        requires
            self.wf(),
        ensures
            match self@.active {
                Some(i) => r matches Some(c) && c@ == self@.documents[i as int].document.current.source,
                None => r is None,
            },
    {
        match self.active_document_index {
            Some(i) => {
                assert(open_views(self.documents@)[i as int] == self.documents@[i as int]@);
                Some(crate::text::string_from(self.documents[i].document.source()))
            },
            None => None,
        }
    }

    /// Records that the active tab was saved under `path`: the tab takes
    /// the path, and the path becomes the most recent.
    pub fn complete_save_as(&mut self, path: String) -> (events: Vec<WorkspaceEvent>)
        requires
            old(self).wf(),
        ensures
            final(self).wf(),
            match old(self)@.active {
                Some(i) => final(self)@ == (WorkspaceView {
                    documents: old(self)@.documents.update(
                        i as int,
                        OpenDocumentView { path: Some(path@), ..old(self)@.documents[i as int] },
                    ),
                    recent_paths: with_recent(old(self)@.recent_paths, path@),
                    ..old(self)@
                }) && events@ == seq![WorkspaceEvent::DocumentChanged],
                None => final(self)@ == old(self)@ && events@.len() == 0,
            },
    {
        match self.active_document_index {
            Some(i) => {
                let ghost d0 = open_views(self.documents@);
                let ghost p = path@;
                assert(d0[i as int] == self.documents@[i as int]@);
                let key = copy_string(&path);
                self.documents[i].path = Some(path);
                assert(open_views(self.documents@) =~= d0.update(
                    i as int,
                    OpenDocumentView { path: Some(p), ..d0[i as int] },
                ));
                proof {
                    let dn = open_views(self.documents@);
                    assert forall|j: int| 0 <= j < dn.len() implies crate::document::doc_wf(#[trigger] dn[j].document) by {
                        if j != i {
                            assert(dn[j] == d0[j]);
                        }
                    }
                }
                self.add_recent_path(key);
                vec![WorkspaceEvent::DocumentChanged]
            },
            None => Vec::new(),
        }
    }
}

/// `k` moved to the front of `ks` in place of its first occurrence, and the
/// result cut to `limit` entries.
pub open spec fn to_front<K>(ks: Seq<K>, k: K, limit: nat) -> Seq<K> {
    let rest = match ks.index_of_first(k) {
        Some(i) => ks.remove(i),
        None => ks,
    };
    let r = seq![k] + rest;
    if r.len() > limit {
        r.take(limit as int)
    } else {
        r
    }
}

proof fn lemma_to_front<K>(ks: Seq<K>, k: K, limit: nat)
    requires
        ks.no_duplicates(),
        ks.len() <= limit,
        limit >= 1,
    ensures
        to_front(ks, k, limit).no_duplicates(),
        to_front(ks, k, limit).len() <= limit,
        to_front(ks, k, limit).len() >= 1,
        to_front(ks, k, limit)[0] == k,
        ks.contains(k) ==> to_front(ks, k, limit).len() == ks.len(),
{
    ks.index_of_first_ensures(k);
    let rest = match ks.index_of_first(k) {
        Some(i) => ks.remove(i),
        None => ks,
    };
    let r = seq![k] + rest;
    assert(!rest.contains(k)) by {
        if rest.contains(k) {
            let j = choose|j: int| 0 <= j < rest.len() && rest[j] == k;
            match ks.index_of_first(k) {
                Some(p) => {
                    if j < p {
                        assert(rest[j] == ks[j]);
                    } else {
                        assert(rest[j] == ks[j + 1]);
                    }
                },
                None => {},
            }
        }
    }
    assert(rest.no_duplicates()) by {
        match ks.index_of_first(k) {
            Some(p) => {
                assert forall|a: int, b: int| 0 <= a < rest.len() && 0 <= b < rest.len() && a != b implies rest[a] != rest[b] by {
                    let a0 = if a < p { a } else { a + 1 };
                    let b0 = if b < p { b } else { b + 1 };
                    assert(rest[a] == ks[a0]);
                    assert(rest[b] == ks[b0]);
                }
            },
            None => {},
        }
    }
    let out = to_front(ks, k, limit);
    assert forall|a: int, b: int| 0 <= a < out.len() && 0 <= b < out.len() && a != b implies out[a] != out[b] by {
        assert(out[a] == r[a]);
        assert(out[b] == r[b]);
        if a > 0 {
            assert(r[a] == rest[a - 1]);
        }
        if b > 0 {
            assert(r[b] == rest[b - 1]);
        }
    }
    assert(out[0] == r[0]);
}

/// The components of the recent paths after `with_recent` are those of the
/// recent paths with the new path's moved to the front.
proof fn lemma_keys_with_recent(recent: Seq<Seq<char>>, path: Seq<char>)
    ensures
        path_keys(with_recent(recent, path)) == to_front(path_keys(recent), path_key(path), recent_limit()),
{
    let ks = path_keys(recent);
    let k = path_key(path);
    ks.index_of_first_ensures(k);
    let rest = match ks.index_of_first(k) {
        Some(i) => recent.remove(i),
        None => recent,
    };
    let krest = match ks.index_of_first(k) {
        Some(i) => ks.remove(i),
        None => ks,
    };
    match ks.index_of_first(k) {
        Some(i) => {
            recent.remove_ensures(i);
            ks.remove_ensures(i);
            assert(path_keys(rest) =~= krest);
        },
        None => {
            assert(path_keys(rest) =~= krest);
        },
    }
    let r = seq![path] + rest;
    assert(path_keys(r) =~= seq![k] + krest);
    if r.len() > recent_limit() {
        assert(path_keys(r.take(recent_limit() as int)) =~= path_keys(r).take(recent_limit() as int));
    }
}

/// Opening a path puts it first among the recent paths, keeps the paths
/// naming distinct places, and keeps at most ten; reopening a place already
/// listed keeps the count.
pub proof fn law_recent_paths(recent: Seq<Seq<char>>, path: Seq<char>)
    requires
        path_keys(recent).no_duplicates(),
        recent.len() <= recent_limit(),
    ensures
        with_recent(recent, path)[0] == path,
        path_keys(with_recent(recent, path)).no_duplicates(),
        with_recent(recent, path).len() <= recent_limit(),
        with_recent(recent, path).len() >= 1,
        path_keys(recent).contains(path_key(path)) ==> with_recent(recent, path).len() == recent.len(),
{
    lemma_keys_with_recent(recent, path);
    lemma_to_front(path_keys(recent), path_key(path), recent_limit());
    let w = with_recent(recent, path);
    assert(path_keys(w).len() == w.len());
    assert(path_keys(w)[0] == path_key(w[0]));
    let rest = match path_keys(recent).index_of_first(path_key(path)) {
        Some(i) => recent.remove(i),
        None => recent,
    };
    assert((seq![path] + rest)[0] == path);
}

/// The user's settings that outlive a session.
pub struct AppConfig {
    pub theme_mode: ThemeMode,
    pub recent_paths: Vec<String>,
}

impl Default for AppConfig {
    /// The dark theme, and no recent paths.
    fn default() -> (r: Self)
        ensures
            r.theme_mode == ThemeMode::Dark,
            r.recent_paths@.len() == 0,
    {
        AppConfig { theme_mode: ThemeMode::Dark, recent_paths: Vec::new() }
    }
}

} // verus!
