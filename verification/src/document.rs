//! The document model: parsed blocks, the focused block with its draft and
//! cursor, derived metadata (source, outline, statistics) and undo history.
use vstd::prelude::*;
use crate::text::{
    byte_offset, char_index, chars_of, copy_string, is_boundary, join, join_chars, string_of,
    trim, utf8_len, views_of,
};
use crate::blocks::{
    block_html_spec, new_block_spec, render_spec, typst_for_spec, typst_opt_view, BlockKindView,
    BlockView, CursorState, DocumentBlock, TypstAdapter, TypstAdapterView,
};
use crate::outline::{build_outline, outline_spec, outline_views, OutlineEntry, OutlineEntryView};
use crate::parser::{block_views, parse_blocks, parse_blocks_spec};

verus! {

// ---------------------------------------------------------------------------
// Statistics
// ---------------------------------------------------------------------------

#[derive(Debug, Clone, Copy, PartialEq, Eq, Structural)]
pub struct DocumentStats {
    pub headings: usize,
    pub paragraphs: usize,
    pub code_blocks: usize,
    pub list_items: usize,
    pub quotes: usize,
}

impl Default for DocumentStats {
    fn default() -> (r: Self)
        ensures
            r == (DocumentStats { headings: 0, paragraphs: 0, code_blocks: 0, list_items: 0, quotes: 0 }),
    {
        DocumentStats { headings: 0, paragraphs: 0, code_blocks: 0, list_items: 0, quotes: 0 }
    }
}

/// Which statistic a block kind counts towards: 0 headings, 1 paragraphs,
/// 2 code blocks (fences and Typst blocks), 3 list items, 4 quotes; math
/// blocks count towards none.
pub open spec fn stat_class(k: BlockKindView) -> int {
    match k {
        BlockKindView::Heading { .. } => 0,
        BlockKindView::Paragraph => 1,
        BlockKindView::CodeFence { .. } => 2,
        BlockKindView::TypstBlock => 2,
        BlockKindView::ListItem { .. } => 3,
        BlockKindView::Quote => 4,
        BlockKindView::MathBlock => 5,
    }
}

/// Number of blocks whose kind falls in class `c`.
pub open spec fn class_count(blocks: Seq<BlockView>, c: int) -> nat
    decreases blocks.len(),
{
    if blocks.len() == 0 {
        0
    } else {
        class_count(blocks.drop_last(), c) + if stat_class(blocks.last().kind) == c {
            1nat
        } else {
            0nat
        }
    }
}

/// `build_stats`: the statistics are the counts of each class of block.
pub open spec fn stats_of(stats: DocumentStats, blocks: Seq<BlockView>) -> bool {
    &&& stats.headings == class_count(blocks, 0)
    &&& stats.paragraphs == class_count(blocks, 1)
    &&& stats.code_blocks == class_count(blocks, 2)
    &&& stats.list_items == class_count(blocks, 3)
    &&& stats.quotes == class_count(blocks, 4)
}

proof fn lemma_class_count_le(blocks: Seq<BlockView>, c: int)
    ensures
        class_count(blocks, c) <= blocks.len(),
    decreases blocks.len(),
{
    if blocks.len() > 0 {
        lemma_class_count_le(blocks.drop_last(), c);
    }
}

pub fn build_stats(blocks: &Vec<DocumentBlock>) -> (r: DocumentStats)
    ensures
        stats_of(r, block_views(blocks@)),
{
    let mut stats = DocumentStats::default();
    let mut i: usize = 0;
    while i < blocks.len()
        invariant
            i <= blocks@.len(),
            stats_of(stats, block_views(blocks@.take(i as int))),
        decreases blocks.len() - i,
    {
        let ghost prev = block_views(blocks@.take(i as int));
        let ghost next = block_views(blocks@.take(i + 1));
        assert(next.drop_last() =~= prev);
        assert(next.last() == blocks@[i as int]@);
        proof {
            lemma_class_count_le(prev, 0);
            lemma_class_count_le(prev, 1);
            lemma_class_count_le(prev, 2);
            lemma_class_count_le(prev, 3);
            lemma_class_count_le(prev, 4);
        }
        match &blocks[i].kind {
            crate::blocks::BlockKind::Heading { .. } => stats.headings += 1,
            crate::blocks::BlockKind::Paragraph => stats.paragraphs += 1,
            crate::blocks::BlockKind::ListItem { .. } => stats.list_items += 1,
            crate::blocks::BlockKind::Quote => stats.quotes += 1,
            crate::blocks::BlockKind::CodeFence { .. } => stats.code_blocks += 1,
            crate::blocks::BlockKind::TypstBlock => stats.code_blocks += 1,
            crate::blocks::BlockKind::MathBlock => {},
        }
        i += 1;
    }
    assert(blocks@.take(blocks@.len() as int) =~= blocks@);
    stats
}

// ---------------------------------------------------------------------------
// Serialization
// ---------------------------------------------------------------------------

pub open spec fn block_separator() -> Seq<char> {
    seq!['\n', '\n']
}

pub open spec fn sources_of(blocks: Seq<BlockView>) -> Seq<Seq<char>> {
    blocks.map_values(|b: BlockView| b.source)
}

/// `serialize_blocks`: the block sources separated by blank lines.
pub open spec fn serialize_spec(blocks: Seq<BlockView>) -> Seq<char> {
    join(sources_of(blocks), block_separator())
}

pub fn serialize_blocks(blocks: &Vec<DocumentBlock>) -> (r: String)
    ensures
        r@ == serialize_spec(block_views(blocks@)),
{
    let mut parts: Vec<Vec<char>> = Vec::new();
    let mut i: usize = 0;
    while i < blocks.len()
        invariant
            i <= blocks@.len(),
            views_of(parts@) == sources_of(block_views(blocks@.take(i as int))),
        decreases blocks.len() - i,
    {
        let ghost before = views_of(parts@);
        parts.push(chars_of(blocks[i].source.as_str()));
        assert(views_of(parts@) =~= before.push(blocks@[i as int]@.source));
        assert(sources_of(block_views(blocks@.take(i + 1))) =~= sources_of(
            block_views(blocks@.take(i as int)),
        ).push(blocks@[i as int]@.source));
        i += 1;
    }
    assert(blocks@.take(blocks@.len() as int) =~= blocks@);
    let sep = vec!['\n', '\n'];
    assert(sep@ =~= block_separator());
    let joined = join_chars(&parts, &sep);
    string_of(&joined)
}

// ---------------------------------------------------------------------------
// The model and its views
// ---------------------------------------------------------------------------

#[derive(Debug, Clone, PartialEq, Eq)]
struct DocumentSnapshot {
    source: String,
    blocks: Vec<DocumentBlock>,
    outline: Vec<OutlineEntry>,
    stats: DocumentStats,
    focused_block: usize,
}

/// The document state that undo and redo save and restore.
pub struct SnapshotView {
    pub source: Seq<char>,
    pub blocks: Seq<BlockView>,
    pub outline: Seq<OutlineEntryView>,
    pub stats: DocumentStats,
    pub focused_block: usize,
}

/// A document: its current state and its undo and redo histories (the
/// most recent entry last).
pub struct DocumentView {
    pub current: SnapshotView,
    pub undo: Seq<SnapshotView>,
    pub redo: Seq<SnapshotView>,
}

impl View for DocumentSnapshot {
    type V = SnapshotView;

    closed spec fn view(&self) -> SnapshotView {
        SnapshotView {
            source: self.source@,
            blocks: block_views(self.blocks@),
            outline: outline_views(self.outline@),
            stats: self.stats,
            focused_block: self.focused_block,
        }
    }
}

pub open spec fn snapshot_views(v: Seq<DocumentSnapshot>) -> Seq<SnapshotView> {
    v.map_values(|s: DocumentSnapshot| s@)
}

#[derive(Debug, Clone, PartialEq, Eq)]
pub struct DocumentModel {
    source: String,
    blocks: Vec<DocumentBlock>,
    outline: Vec<OutlineEntry>,
    stats: DocumentStats,
    focused_block: usize,
    undo_stack: Vec<DocumentSnapshot>,
    redo_stack: Vec<DocumentSnapshot>,
}

impl View for DocumentModel {
    type V = DocumentView;

    closed spec fn view(&self) -> DocumentView {
        DocumentView {
            current: SnapshotView {
                source: self.source@,
                blocks: block_views(self.blocks@),
                outline: outline_views(self.outline@),
                stats: self.stats,
                focused_block: self.focused_block,
            },
            undo: snapshot_views(self.undo_stack@),
            redo: snapshot_views(self.redo_stack@),
        }
    }
}

/// The focused index is in range, or zero when there are no blocks.
pub open spec fn focus_ok(s: SnapshotView) -> bool {
    &&& s.blocks.len() == 0 ==> s.focused_block == 0
    &&& s.blocks.len() > 0 ==> s.focused_block < s.blocks.len()
}

/// Well-formedness: the current state and every saved state keep their
/// focus in range.
pub open spec fn doc_wf(d: DocumentView) -> bool {
    &&& focus_ok(d.current)
    &&& forall|i: int| 0 <= i < d.undo.len() ==> #[trigger] focus_ok(d.undo[i])
    &&& forall|i: int| 0 <= i < d.redo.len() ==> #[trigger] focus_ok(d.redo[i])
}

/// The focused block, if there is one.
pub open spec fn focused_of(s: SnapshotView) -> Option<BlockView> {
    if s.focused_block < s.blocks.len() {
        Some(s.blocks[s.focused_block as int])
    } else {
        None
    }
}

/// The state with the focused block replaced.
pub open spec fn with_focused(s: SnapshotView, b: BlockView) -> SnapshotView {
    SnapshotView { blocks: s.blocks.update(s.focused_block as int, b), ..s }
}

/// An edit that can be undone: the current state is saved on the undo
/// history, the redo history is dropped, and `next` becomes current.
pub open spec fn record(d: DocumentView, next: SnapshotView) -> DocumentView {
    DocumentView { current: next, undo: d.undo.push(d.current), redo: seq![] }
}

/// The document `from_markdown` builds.
pub open spec fn from_markdown_spec(source: Seq<char>) -> DocumentView {
    let blocks = parse_blocks_spec(source);
    DocumentView {
        current: SnapshotView {
            source,
            blocks,
            outline: outline_spec(source),
            stats: DocumentStats {
                headings: class_count(blocks, 0) as usize,
                paragraphs: class_count(blocks, 1) as usize,
                code_blocks: class_count(blocks, 2) as usize,
                list_items: class_count(blocks, 3) as usize,
                quotes: class_count(blocks, 4) as usize,
            },
            focused_block: 0,
        },
        undo: seq![],
        redo: seq![],
    }
}

pub open spec fn undo_spec(d: DocumentView) -> (DocumentView, bool) {
    if d.undo.len() == 0 {
        (d, false)
    } else {
        (DocumentView { current: d.undo.last(), undo: d.undo.drop_last(), redo: d.redo.push(d.current) }, true)
    }
}

pub open spec fn redo_spec(d: DocumentView) -> (DocumentView, bool) {
    if d.redo.len() == 0 {
        (d, false)
    } else {
        (DocumentView { current: d.redo.last(), undo: d.undo.push(d.current), redo: d.redo.drop_last() }, true)
    }
}

pub open spec fn with_focus_index(d: DocumentView, index: usize) -> DocumentView {
    DocumentView { current: SnapshotView { focused_block: index, ..d.current }, ..d }
}

pub open spec fn focus_block_spec(d: DocumentView, index: usize) -> (DocumentView, bool) {
    if index >= d.current.blocks.len() {
        (d, false)
    } else {
        (with_focus_index(d, index), true)
    }
}

pub open spec fn focus_next_spec(d: DocumentView) -> (DocumentView, bool) {
    let f = d.current.focused_block;
    if d.current.blocks.len() == 0 || f + 1 >= d.current.blocks.len() {
        (d, false)
    } else {
        (with_focus_index(d, (f + 1) as usize), true)
    }
}

pub open spec fn focus_previous_spec(d: DocumentView) -> (DocumentView, bool) {
    let f = d.current.focused_block;
    if d.current.blocks.len() == 0 || f == 0 {
        (d, false)
    } else {
        (with_focus_index(d, (f - 1) as usize), true)
    }
}

impl DocumentSnapshot {
    fn deep_copy(&self) -> (r: DocumentSnapshot)
        ensures
            r@ == self@,
    {
        DocumentSnapshot {
            source: copy_string(&self.source),
            blocks: copy_blocks(&self.blocks),
            outline: copy_outline(&self.outline),
            stats: self.stats,
            focused_block: self.focused_block,
        }
    }
}

pub fn copy_blocks(v: &Vec<DocumentBlock>) -> (r: Vec<DocumentBlock>)
    ensures
        block_views(r@) == block_views(v@),
{
    let mut out: Vec<DocumentBlock> = Vec::new();
    let mut i: usize = 0;
    while i < v.len()
        invariant
            i <= v@.len(),
            block_views(out@) == block_views(v@.take(i as int)),
        decreases v.len() - i,
    {
        let b = v[i].deep_copy();
        let ghost before = block_views(out@);
        out.push(b);
        assert(block_views(out@) =~= before.push(v@[i as int]@));
        assert(block_views(v@.take(i + 1)) =~= block_views(v@.take(i as int)).push(v@[i as int]@));
        i += 1;
    }
    assert(v@.take(v@.len() as int) =~= v@);
    out
}

fn copy_outline(v: &Vec<OutlineEntry>) -> (r: Vec<OutlineEntry>)
    ensures
        outline_views(r@) == outline_views(v@),
{
    let mut out: Vec<OutlineEntry> = Vec::new();
    let mut i: usize = 0;
    while i < v.len()
        invariant
            i <= v@.len(),
            outline_views(out@) == outline_views(v@.take(i as int)),
        decreases v.len() - i,
    {
        let e = v[i].deep_copy();
        let ghost before = outline_views(out@);
        out.push(e);
        assert(outline_views(out@) =~= before.push(v@[i as int]@));
        assert(outline_views(v@.take(i + 1)) =~= outline_views(v@.take(i as int)).push(v@[i as int]@));
        i += 1;
    }
    assert(v@.take(v@.len() as int) =~= v@);
    out
}

impl DocumentModel {
    /// Well-formedness (see `doc_wf`).
    pub open spec fn wf(&self) -> bool {
        doc_wf(self@)
    }

    /// Parses a Markdown source into a document focused on its first block.
    pub fn from_markdown(source: &str) -> (r: Self)
        ensures
            r@ == from_markdown_spec(source@),
            r.wf(),
    {
        let chars = chars_of(source);
        let blocks = parse_blocks(&chars);
        let outline = build_outline(source);
        let stats = build_stats(&blocks);
        let r = DocumentModel {
            source: crate::text::string_from(source),
            blocks,
            outline,
            stats,
            focused_block: 0,
            undo_stack: Vec::new(),
            redo_stack: Vec::new(),
        };
        proof {
            lemma_class_count_le(block_views(r.blocks@), 0);
            lemma_class_count_le(block_views(r.blocks@), 1);
            lemma_class_count_le(block_views(r.blocks@), 2);
            lemma_class_count_le(block_views(r.blocks@), 3);
            lemma_class_count_le(block_views(r.blocks@), 4);
        }
        assert(r@.undo =~= Seq::<SnapshotView>::empty());
        assert(r@.redo =~= Seq::<SnapshotView>::empty());
        r
    }

    pub fn source(&self) -> (r: &str)
        ensures
            r@ == self@.current.source,
    {
        self.source.as_str()
    }

    pub fn blocks(&self) -> (r: &[DocumentBlock])
        ensures
            block_views(r@) == self@.current.blocks,
    {
        self.blocks.as_slice()
    }

    pub fn outline(&self) -> (r: &[OutlineEntry])
        ensures
            outline_views(r@) == self@.current.outline,
    {
        self.outline.as_slice()
    }

    pub fn stats(&self) -> (r: &DocumentStats)
        ensures
            *r == self@.current.stats,
    {
        &self.stats
    }

    pub fn focused_block(&self) -> (r: usize)
        ensures
            r == self@.current.focused_block,
    {
        self.focused_block
    }

    pub fn focused_block_ref(&self) -> (r: Option<&DocumentBlock>)
        ensures
            match r {
                Some(b) => focused_of(self@.current) == Some(b@),
                None => focused_of(self@.current) is None,
            },
    {
        if self.focused_block < self.blocks.len() {
            Some(&self.blocks[self.focused_block])
        } else {
            None
        }
    }

    /// Mutable access to the focused block; nothing else changes.
    pub fn focused_block_mut(&mut self) -> (r: Option<&mut DocumentBlock>)
        ensures
            match r {
                Some(b) => {
                    &&& focused_of(old(self)@.current) == Some(b@)
                    &&& final(self)@.current.blocks =~= old(self)@.current.blocks.update(
                        old(self)@.current.focused_block as int,
                        final(b)@,
                    )
                    &&& final(self)@.current.source == old(self)@.current.source
                    &&& final(self)@.current.outline == old(self)@.current.outline
                    &&& final(self)@.current.stats == old(self)@.current.stats
                    &&& final(self)@.current.focused_block == old(self)@.current.focused_block
                    &&& final(self)@.undo == old(self)@.undo
                    &&& final(self)@.redo == old(self)@.redo
                },
                None => focused_of(old(self)@.current) is None && final(self)@ == old(self)@,
            },
            old(self).wf() ==> final(self).wf(),
    {
        if self.focused_block < self.blocks.len() {
            let i = self.focused_block;
            Some(&mut self.blocks[i])
        } else {
            None
        }
    }

    pub fn block_count(&self) -> (r: usize)
        ensures
            r == self@.current.blocks.len(),
    {
        self.blocks.len()
    }

    pub fn can_undo(&self) -> (r: bool)
        ensures
            r == (self@.undo.len() > 0),
    {
        self.undo_stack.len() > 0
    }

    pub fn can_redo(&self) -> (r: bool)
        ensures
            r == (self@.redo.len() > 0),
    {
        self.redo_stack.len() > 0
    }

    fn snapshot(&self) -> (r: DocumentSnapshot)
        ensures
            r@ == self@.current,
    {
        DocumentSnapshot {
            source: copy_string(&self.source),
            blocks: copy_blocks(&self.blocks),
            outline: copy_outline(&self.outline),
            stats: self.stats,
            focused_block: self.focused_block,
        }
    }

    fn restore_snapshot(&mut self, snapshot: DocumentSnapshot)
        ensures
            final(self)@ == (DocumentView { current: snapshot@, ..old(self)@ }),
    {
        self.source = snapshot.source;
        self.blocks = snapshot.blocks;
        self.outline = snapshot.outline;
        self.stats = snapshot.stats;
        self.focused_block = snapshot.focused_block;
    }

    /// Saves the current state for undo and drops the redo history.
    fn push_undo_snapshot(&mut self)
        ensures
            final(self)@ == record(old(self)@, old(self)@.current),
    {
        let s = self.snapshot();
        let ghost before = snapshot_views(self.undo_stack@);
        self.undo_stack.push(s);
        assert(snapshot_views(self.undo_stack@) =~= before.push(s@));
        self.redo_stack = Vec::new();
        assert(snapshot_views(self.redo_stack@) =~= Seq::<SnapshotView>::empty());
    }

    /// Restores the most recently saved state; the state it replaces can be
    /// redone.
    pub fn undo(&mut self) -> (r: bool)
        requires
            old(self).wf(),
        ensures
            (final(self)@, r) == undo_spec(old(self)@),
            final(self).wf(),
    {
        let snapshot = match self.undo_stack.pop() {
            Some(s) => s,
            None => {
                return false;
            },
        };
        assert(snapshot_views(self.undo_stack@) =~= snapshot_views(old(self).undo_stack@).drop_last());
        let current = self.snapshot();
        let ghost before = snapshot_views(self.redo_stack@);
        self.redo_stack.push(current);
        assert(snapshot_views(self.redo_stack@) =~= before.push(current@));
        self.restore_snapshot(snapshot);
        proof {
            let d = old(self)@;
            assert(focus_ok(d.undo[d.undo.len() - 1]));
            assert forall|i: int| 0 <= i < self@.redo.len() implies #[trigger] focus_ok(self@.redo[i]) by {
                if i < d.redo.len() {
                    assert(self@.redo[i] == d.redo[i]);
                }
            }
            assert forall|i: int| 0 <= i < self@.undo.len() implies #[trigger] focus_ok(self@.undo[i]) by {
                assert(self@.undo[i] == d.undo[i]);
            }
        }
        true
    }

    /// Re-applies the most recently undone state.
    pub fn redo(&mut self) -> (r: bool)
        requires
            old(self).wf(),
        ensures
            (final(self)@, r) == redo_spec(old(self)@),
            final(self).wf(),
    {
        let snapshot = match self.redo_stack.pop() {
            Some(s) => s,
            None => {
                return false;
            },
        };
        assert(snapshot_views(self.redo_stack@) =~= snapshot_views(old(self).redo_stack@).drop_last());
        let current = self.snapshot();
        let ghost before = snapshot_views(self.undo_stack@);
        self.undo_stack.push(current);
        assert(snapshot_views(self.undo_stack@) =~= before.push(current@));
        self.restore_snapshot(snapshot);
        proof {
            let d = old(self)@;
            assert(focus_ok(d.redo[d.redo.len() - 1]));
            assert forall|i: int| 0 <= i < self@.undo.len() implies #[trigger] focus_ok(self@.undo[i]) by {
                if i < d.undo.len() {
                    assert(self@.undo[i] == d.undo[i]);
                }
            }
            assert forall|i: int| 0 <= i < self@.redo.len() implies #[trigger] focus_ok(self@.redo[i]) by {
                assert(self@.redo[i] == d.redo[i]);
            }
        }
        true
    }

    pub fn focus_block(&mut self, index: usize) -> (r: bool)
        requires
            old(self).wf(),
        ensures
            (final(self)@, r) == focus_block_spec(old(self)@, index),
            final(self).wf(),
    {
        if index >= self.blocks.len() {
            return false;
        }
        self.focused_block = index;
        true
    }

    pub fn focus_next(&mut self) -> (r: bool)
        requires
            old(self).wf(),
        ensures
            (final(self)@, r) == focus_next_spec(old(self)@),
            final(self).wf(),
    {
        if self.blocks.len() == 0 || self.focused_block + 1 >= self.blocks.len() {
            return false;
        }
        self.focused_block += 1;
        true
    }

    pub fn focus_previous(&mut self) -> (r: bool)
        requires
            old(self).wf(),
        ensures
            (final(self)@, r) == focus_previous_spec(old(self)@),
            final(self).wf(),
    {
        if self.blocks.len() == 0 || self.focused_block == 0 {
            return false;
        }
        self.focused_block -= 1;
        assert(self@.undo == old(self)@.undo);
        assert(self@.redo == old(self)@.redo);
        assert(focus_ok(self@.current));
        true
    }
}

// ---------------------------------------------------------------------------
// Laws of the undo history
// ---------------------------------------------------------------------------

/// Redo undoes an undo: after an undo that succeeded, redo gives back the
/// document exactly as it was.
pub proof fn law_redo_after_undo(d: DocumentView)
    requires
        undo_spec(d).1,
    ensures
        redo_spec(undo_spec(d).0).1,
        redo_spec(undo_spec(d).0).0 == d,
{
    let u = undo_spec(d).0;
    assert(u.redo.drop_last() =~= d.redo);
    assert(u.undo.push(u.current) =~= d.undo);
}

/// Undo undoes a redo: after a redo that succeeded, undo gives back the
/// document exactly as it was.
pub proof fn law_undo_after_redo(d: DocumentView)
    requires
        redo_spec(d).1,
    ensures
        undo_spec(redo_spec(d).0).1,
        undo_spec(redo_spec(d).0).0 == d,
{
    let r = redo_spec(d).0;
    assert(r.undo.drop_last() =~= d.undo);
    assert(r.redo.push(r.current) =~= d.redo);
}

/// Undo after a recorded edit restores the state before the edit, with the
/// edited state left to redo.
pub proof fn law_undo_after_edit(d: DocumentView, next: SnapshotView)
    ensures
        undo_spec(record(d, next)).1,
        undo_spec(record(d, next)).0 == (DocumentView { current: d.current, undo: d.undo, redo: seq![next] }),
{
    assert(record(d, next).undo.drop_last() =~= d.undo);
    assert(Seq::<SnapshotView>::empty().push(next) =~= seq![next]);
}

/// A recorded edit leaves nothing to redo.
pub proof fn law_edit_clears_redo(d: DocumentView, next: SnapshotView)
    ensures
        !redo_spec(record(d, next)).1,
{
}

// ---------------------------------------------------------------------------
// Drafts and the cursor: specifications
// ---------------------------------------------------------------------------

/// Byte length of a text, as `str::len` returns it.
pub open spec fn text_len(t: Seq<char>) -> usize {
    utf8_len(t) as usize
}

pub open spec fn min_usize(a: usize, b: usize) -> usize {
    if a <= b {
        a
    } else {
        b
    }
}

pub open spec fn max_usize(a: usize, b: usize) -> usize {
    if a >= b {
        a
    } else {
        b
    }
}

/// The cursor moved back inside a text of `len` bytes.
pub open spec fn clamp_cursor(c: CursorState, len: usize) -> CursorState {
    CursorState {
        head: min_usize(c.head, len),
        anchor: match c.anchor {
            Some(a) => Some(min_usize(a, len)),
            None => None,
        },
    }
}

/// The draft a block holds once its text becomes `t`: none when `t` is its
/// source.
pub open spec fn draft_for(b: BlockView, t: Seq<char>) -> Option<Seq<char>> {
    if t == b.source {
        None
    } else {
        Some(t)
    }
}

/// The selected byte range: from the smaller to the larger of head and
/// anchor, or the empty range at the head.
pub open spec fn selection(c: CursorState) -> (usize, usize) {
    match c.anchor {
        Some(a) => (min_usize(c.head, a), max_usize(c.head, a)),
        None => (c.head, c.head),
    }
}

/// `t` with the bytes `start..end` replaced by `ins`.
pub open spec fn splice(t: Seq<char>, start: int, end: int, ins: Seq<char>) -> Seq<char> {
    t.take(char_index(t, start)) + ins + t.skip(char_index(t, end))
}

/// The cursor after placing it at `offset` (clamped to the text); with
/// `shift` the selection anchor stays (or starts at the old head), and a
/// selection that becomes empty is dropped.
pub open spec fn placed_cursor(c: CursorState, clamped: usize, shift: bool) -> CursorState {
    if shift {
        let anchor = match c.anchor {
            Some(a) => Some(a),
            None => Some(c.head),
        };
        CursorState {
            head: clamped,
            anchor: if anchor == Some(clamped) {
                None
            } else {
                anchor
            },
        }
    } else {
        CursorState { head: clamped, anchor: None }
    }
}

pub open spec fn with_cursor(b: BlockView, c: CursorState) -> BlockView {
    BlockView { cursor: c, ..b }
}

pub open spec fn set_cursor_spec(d: DocumentView, offset: usize, shift: bool) -> (DocumentView, bool) {
    match focused_of(d.current) {
        None => (d, false),
        Some(b) => {
            let c = placed_cursor(b.cursor, min_usize(offset, text_len(b.text())), shift);
            (
                DocumentView { current: with_focused(d.current, with_cursor(b, c)), ..d },
                c.head != b.cursor.head || c.anchor != b.cursor.anchor,
            )
        },
    }
}

pub open spec fn set_draft_spec(d: DocumentView, draft: Seq<char>) -> (DocumentView, bool) {
    match focused_of(d.current) {
        None => (d, false),
        Some(b) => {
            let next = draft_for(b, draft);
            if b.draft == next {
                (d, false)
            } else {
                let nb = BlockView { draft: next, ..b };
                let nb = with_cursor(nb, clamp_cursor(b.cursor, text_len(nb.text())));
                (record(d, with_focused(d.current, nb)), true)
            }
        },
    }
}

/// What `insert_text_at_cursor` needs: the selection's ends fall on
/// character boundaries, and the new head offset fits in a `usize`.
pub open spec fn insert_ok(d: DocumentView, ins: Seq<char>) -> bool {
    match focused_of(d.current) {
        None => true,
        Some(b) => {
            let (start, end) = selection(b.cursor);
            &&& is_boundary(b.text(), start as int)
            &&& is_boundary(b.text(), end as int)
            &&& start + utf8_len(ins) <= usize::MAX
        },
    }
}

pub open spec fn insert_text_spec(d: DocumentView, ins: Seq<char>) -> (DocumentView, bool) {
    match focused_of(d.current) {
        None => (d, false),
        Some(b) => {
            let (start, end) = selection(b.cursor);
            let t = splice(b.text(), start as int, end as int, ins);
            let nb = BlockView {
                draft: draft_for(b, t),
                cursor: CursorState { head: (start + utf8_len(ins)) as usize, anchor: None },
                ..b
            };
            (record(d, with_focused(d.current, nb)), true)
        },
    }
}

/// The document with the focused cursor moved to the end of its text.
pub open spec fn cursor_to_end(d: DocumentView) -> DocumentView {
    match focused_of(d.current) {
        None => d,
        Some(b) => DocumentView {
            current: with_focused(
                d.current,
                with_cursor(b, CursorState { head: text_len(b.text()), anchor: None }),
            ),
            ..d
        },
    }
}

/// What `delete_at_cursor_in_focused_draft` needs: the selection's ends
/// (or the head) fall on character boundaries.
pub open spec fn delete_ok(d: DocumentView) -> bool {
    match focused_of(d.current) {
        None => true,
        Some(b) => {
            let (start, end) = selection(b.cursor);
            is_boundary(b.text(), start as int) && is_boundary(b.text(), end as int)
        },
    }
}

pub open spec fn delete_spec(d: DocumentView) -> (DocumentView, bool) {
    match focused_of(d.current) {
        None => (d, false),
        Some(b) => {
            let c = b.cursor;
            let t = b.text();
            if c.anchor is None && c.head == 0 {
                (d, false)
            } else {
                let (start, end) = selection(c);
                let (nt, head) = if c.anchor is Some {
                    (splice(t, start as int, end as int, seq![]), start)
                } else {
                    let k = char_index(t, c.head as int);
                    (t.take(k - 1) + t.skip(k), byte_offset(t, k - 1) as usize)
                };
                let nb = BlockView { draft: draft_for(b, nt), cursor: CursorState { head, anchor: None }, ..b };
                (record(d, with_focused(d.current, nb)), true)
            }
        },
    }
}

/// What moving the cursor sideways needs: a block to move in, and a head
/// on a character boundary, unless a selection is collapsed instead (or,
/// moving right, the head is already at the end); moving right, the text's
/// byte length fits in a `usize`.
pub open spec fn move_ok(d: DocumentView, shift: bool, right: bool) -> bool {
    &&& d.current.blocks.len() > 0
    &&& match focused_of(d.current) {
        None => true,
        Some(b) => {
            &&& (!shift && b.cursor.anchor is Some) || (right && b.cursor.head >= text_len(
                b.text(),
            )) || is_boundary(b.text(), b.cursor.head as int)
            &&& right ==> utf8_len(b.text()) <= usize::MAX
        },
    }
}

/// The anchor after a sideways move: kept (or started at `head`) with
/// `shift`, dropped without.
pub open spec fn moved_anchor(c: CursorState, shift: bool) -> Option<usize> {
    if shift {
        match c.anchor {
            Some(a) => Some(a),
            None => Some(c.head),
        }
    } else {
        None
    }
}

pub open spec fn move_left_spec(d: DocumentView, shift: bool) -> (DocumentView, bool) {
    match focused_of(d.current) {
        None => (d, false),
        Some(b) => {
            let c = b.cursor;
            if !shift && c.anchor is Some {
                let nc = CursorState { head: min_usize(c.head, c.anchor->0), anchor: None };
                (DocumentView { current: with_focused(d.current, with_cursor(b, nc)), ..d }, true)
            } else {
                let k = char_index(b.text(), c.head as int);
                if k == 0 {
                    (d, false)
                } else {
                    let nc = CursorState {
                        head: byte_offset(b.text(), k - 1) as usize,
                        anchor: moved_anchor(c, shift),
                    };
                    (DocumentView { current: with_focused(d.current, with_cursor(b, nc)), ..d }, true)
                }
            }
        },
    }
}

pub open spec fn move_right_spec(d: DocumentView, shift: bool) -> (DocumentView, bool) {
    match focused_of(d.current) {
        None => (d, false),
        Some(b) => {
            let c = b.cursor;
            let t = b.text();
            if !shift && c.anchor is Some {
                let nc = CursorState { head: max_usize(c.head, c.anchor->0), anchor: None };
                (DocumentView { current: with_focused(d.current, with_cursor(b, nc)), ..d }, true)
            } else if c.head >= text_len(t) {
                (d, false)
            } else {
                let k = char_index(t, c.head as int);
                let nc = CursorState {
                    head: byte_offset(t, k + 1) as usize,
                    anchor: moved_anchor(c, shift),
                };
                (DocumentView { current: with_focused(d.current, with_cursor(b, nc)), ..d }, true)
            }
        },
    }
}

pub open spec fn select_all_spec(d: DocumentView) -> (DocumentView, bool) {
    match focused_of(d.current) {
        None => (d, false),
        Some(b) => if b.text().len() == 0 {
            (d, false)
        } else {
            let nc = CursorState { head: text_len(b.text()), anchor: Some(0) };
            (DocumentView { current: with_focused(d.current, with_cursor(b, nc)), ..d }, true)
        },
    }
}

pub open spec fn revert_spec(d: DocumentView) -> (DocumentView, bool) {
    match focused_of(d.current) {
        None => (d, false),
        Some(b) => if b.draft is None {
            (d, false)
        } else {
            (record(d, with_focused(d.current, BlockView { draft: None, ..b })), true)
        },
    }
}

// ---------------------------------------------------------------------------
// Drafts and the cursor: operations
// ---------------------------------------------------------------------------

/// Byte length of a block's text.
fn block_text_len(b: &DocumentBlock) -> (r: usize)
    ensures
        r == text_len(b@.text()),
{
    match &b.draft {
        Some(d) => crate::text::str_byte_len(d.as_str()),
        None => crate::text::str_byte_len(b.source.as_str()),
    }
}

fn opt_string_eq(a: &Option<String>, b: &Option<String>) -> (r: bool)
    ensures
        r == (crate::blocks::str_opt_view(*a) == crate::blocks::str_opt_view(*b)),
{
    match (a, b) {
        (Some(x), Some(y)) => *x == *y,
        (None, None) => true,
        _ => false,
    }
}

fn opt_usize_eq(a: Option<usize>, b: Option<usize>) -> (r: bool)
    ensures
        r == (a == b),
{
    match (a, b) {
        (Some(x), Some(y)) => x == y,
        (None, None) => true,
        _ => false,
    }
}

/// The draft a block holds once its text is `t`.
fn draft_of(b: &DocumentBlock, t: &Vec<char>) -> (r: Option<String>)
    ensures
        crate::blocks::str_opt_view(r) == draft_for(b@, t@),
{
    let src = chars_of(b.source.as_str());
    if crate::text::chars_eq(t, &src) {
        None
    } else {
        Some(string_of(t))
    }
}

/// The character index at a byte offset known to be a boundary.
fn boundary_index(t: &Vec<char>, b: usize) -> (k: usize)
    requires
        is_boundary(t@, b as int),
    ensures
        k <= t@.len(),
        byte_offset(t@, k as int) == b,
        k == char_index(t@, b as int),
{
    match crate::text::char_index_of(t, b) {
        Some(k) => {
            proof {
                crate::text::lemma_char_index_unique(t@, k as int);
            }
            k
        },
        None => {
            assert(false);
            0
        },
    }
}

/// The byte offset of character `k`, known to fit in a `usize`.
fn offset_of(t: &Vec<char>, k: usize) -> (b: usize)
    requires
        k <= t@.len(),
        byte_offset(t@, k as int) <= usize::MAX,
    ensures
        b == byte_offset(t@, k as int),
{
    let prefix = crate::text::subrange(t, 0, k);
    assert(prefix@ =~= t@.take(k as int));
    crate::text::byte_len(&prefix)
}

impl DocumentModel {
    /// Replaces the focused block.
    fn set_focused(&mut self, b: DocumentBlock)
        requires
            old(self).focused_block < old(self).blocks@.len(),
        ensures
            final(self)@ == (DocumentView { current: with_focused(old(self)@.current, b@), ..old(self)@ }),
    {
        let i = self.focused_block;
        let ghost bv = b@;
        self.blocks.set(i, b);
        assert(block_views(self.blocks@) =~= block_views(old(self).blocks@).update(i as int, bv));
    }

    /// The text of the focused block: its draft, else its source.
    pub fn focused_text(&self) -> (r: Option<&str>)
        ensures
            match r {
                Some(t) => focused_of(self@.current) is Some && t@ == focused_of(self@.current)->0.text(),
                None => focused_of(self@.current) is None,
            },
    {
        if self.focused_block >= self.blocks.len() {
            return None;
        }
        let b = &self.blocks[self.focused_block];
        match &b.draft {
            Some(d) => Some(d.as_str()),
            None => Some(b.source.as_str()),
        }
    }

    pub fn focused_has_draft(&self) -> (r: bool)
        ensures
            r == (focused_of(self@.current) is Some && focused_of(self@.current)->0.draft is Some),
    {
        if self.focused_block >= self.blocks.len() {
            return false;
        }
        self.blocks[self.focused_block].draft.is_some()
    }

    pub fn focused_cursor(&self) -> (r: Option<&CursorState>)
        ensures
            match r {
                Some(c) => focused_of(self@.current) is Some && *c == focused_of(self@.current)->0.cursor,
                None => focused_of(self@.current) is None,
            },
    {
        if self.focused_block >= self.blocks.len() {
            return None;
        }
        Some(&self.blocks[self.focused_block].cursor)
    }

    /// Places the focused cursor at a byte offset, clamped to the text;
    /// returns whether the cursor changed.
    pub fn set_focused_cursor(&mut self, offset: usize, shift: bool) -> (r: bool)
        requires
            old(self).wf(),
        ensures
            (final(self)@, r) == set_cursor_spec(old(self)@, offset, shift),
            final(self).wf(),
    {
        let index = self.focused_block;
        if index >= self.blocks.len() {
            return false;
        }
        let len = block_text_len(&self.blocks[index]);
        let clamped = if offset <= len { offset } else { len };
        let mut b = self.blocks[index].deep_copy();
        let previous_head = b.cursor.head;
        let previous_anchor = b.cursor.anchor;
        if shift {
            if b.cursor.anchor.is_none() {
                b.cursor.anchor = Some(previous_head);
            }
            b.cursor.head = clamped;
            if opt_usize_eq(b.cursor.anchor, Some(b.cursor.head)) {
                b.cursor.anchor = None;
            }
        } else {
            b.cursor.head = clamped;
            b.cursor.anchor = None;
        }
        let changed = b.cursor.head != previous_head || !opt_usize_eq(b.cursor.anchor, previous_anchor);
        self.set_focused(b);
        changed
    }

    /// Sets the focused draft; a draft equal to the source clears it.
    /// Returns whether the draft changed (and an undo step was recorded).
    pub fn set_focused_draft(&mut self, draft: String) -> (r: bool)
        requires
            old(self).wf(),
        ensures
            (final(self)@, r) == set_draft_spec(old(self)@, draft@),
            final(self).wf(),
    {
        let index = self.focused_block;
        if index >= self.blocks.len() {
            return false;
        }
        let next_draft = if draft == self.blocks[index].source {
            None
        } else {
            Some(draft)
        };
        if opt_string_eq(&self.blocks[index].draft, &next_draft) {
            return false;
        }
        self.push_undo_snapshot();
        let mut b = self.blocks[index].deep_copy();
        b.draft = next_draft;
        let len = block_text_len(&b);
        if b.cursor.head > len {
            b.cursor.head = len;
        }
        if let Some(anchor) = b.cursor.anchor {
            if anchor > len {
                b.cursor.anchor = Some(len);
            }
        }
        self.set_focused(b);
        true
    }

    /// Replaces the selection (or inserts at the head) with `text_to_insert`,
    /// recording an undo step; the head lands after the inserted text.
    pub fn insert_text_at_cursor(&mut self, text_to_insert: &str) -> (r: bool)
        requires
            old(self).wf(),
            insert_ok(old(self)@, text_to_insert@),
        ensures
            (final(self)@, r) == insert_text_spec(old(self)@, text_to_insert@),
            final(self).wf(),
    {
        let index = self.focused_block;
        if index >= self.blocks.len() {
            return false;
        }
        let t = self.blocks[index].text_chars();
        let cursor = self.blocks[index].cursor;
        self.push_undo_snapshot();
        let (start, end) = match cursor.anchor {
            Some(a) => (if cursor.head <= a { cursor.head } else { a }, if cursor.head >= a { cursor.head } else { a }),
            None => (cursor.head, cursor.head),
        };
        let ks = boundary_index(&t, start);
        let ke = boundary_index(&t, end);
        let ins = chars_of(text_to_insert);
        let mut new_text = crate::text::subrange(&t, 0, ks);
        crate::text::append_chars(&mut new_text, &ins);
        let tail = crate::text::subrange(&t, ke, t.len());
        crate::text::append_chars(&mut new_text, &tail);
        assert(new_text@ =~= splice(t@, start as int, end as int, text_to_insert@));
        let new_head = start + crate::text::str_byte_len(text_to_insert);
        let mut b = self.blocks[index].deep_copy();
        b.cursor = CursorState { head: new_head, anchor: None };
        b.draft = draft_of(&b, &new_text);
        self.set_focused(b);
        true
    }

    /// Moves the cursor to the end of the focused text and inserts there.
    pub fn append_to_focused_draft(&mut self, suffix: &str) -> (r: bool)
        requires
            old(self).wf(),
            insert_ok(cursor_to_end(old(self)@), suffix@),
        ensures
            (final(self)@, r) == (if focused_of(old(self)@.current) is None {
                (old(self)@, false)
            } else {
                insert_text_spec(cursor_to_end(old(self)@), suffix@)
            }),
            final(self).wf(),
    {
        let index = self.focused_block;
        if index >= self.blocks.len() {
            return false;
        }
        let end = block_text_len(&self.blocks[index]);
        let mut b = self.blocks[index].deep_copy();
        b.cursor.head = end;
        b.cursor.anchor = None;
        self.set_focused(b);
        assert(self@ == cursor_to_end(old(self)@));
        self.insert_text_at_cursor(suffix)
    }

    /// Types one character at the cursor.
    pub fn push_char_to_focused_draft(&mut self, ch: char) -> (r: bool)
        requires
            old(self).wf(),
            insert_ok(old(self)@, seq![ch]),
        ensures
            (final(self)@, r) == insert_text_spec(old(self)@, seq![ch]),
            final(self).wf(),
    {
        let mut s = String::new();
        crate::text::push_char(&mut s, ch);
        assert(s@ =~= seq![ch]);
        self.insert_text_at_cursor(s.as_str())
    }

    /// Deletes the selection, or the character before the head; records an
    /// undo step unless there is nothing before the head.
    pub fn delete_at_cursor_in_focused_draft(&mut self) -> (r: bool)
        requires
            old(self).wf(),
            delete_ok(old(self)@),
        ensures
            (final(self)@, r) == delete_spec(old(self)@),
            final(self).wf(),
    {
        let index = self.focused_block;
        if index >= self.blocks.len() {
            return false;
        }
        let t = self.blocks[index].text_chars();
        let cursor = self.blocks[index].cursor;
        if cursor.anchor.is_none() && cursor.head == 0 {
            return false;
        }
        self.push_undo_snapshot();
        let (new_text, new_head) = match cursor.anchor {
            Some(a) => {
                let start = if cursor.head <= a { cursor.head } else { a };
                let end = if cursor.head >= a { cursor.head } else { a };
                let ks = boundary_index(&t, start);
                let ke = boundary_index(&t, end);
                let mut nt = crate::text::subrange(&t, 0, ks);
                let tail = crate::text::subrange(&t, ke, t.len());
                crate::text::append_chars(&mut nt, &tail);
                assert(nt@ =~= splice(t@, start as int, end as int, seq![]));
                (nt, start)
            },
            None => {
                let k = boundary_index(&t, cursor.head);
                assert(k != 0) by {
                    assert(byte_offset(t@, 0) == 0) by {
                        assert(t@.take(0) =~= Seq::<char>::empty());
                    }
                }
                proof {
                    crate::text::lemma_prefix_bytes_strict(t@, k - 1, k as int);
                }
                let prev = offset_of(&t, k - 1);
                let mut nt = crate::text::subrange(&t, 0, k - 1);
                let tail = crate::text::subrange(&t, k, t.len());
                crate::text::append_chars(&mut nt, &tail);
                assert(nt@ =~= t@.take(k - 1) + t@.skip(k as int));
                (nt, prev)
            },
        };
        let mut b = self.blocks[index].deep_copy();
        b.cursor = CursorState { head: new_head, anchor: None };
        b.draft = draft_of(&b, &new_text);
        self.set_focused(b);
        true
    }

    pub fn delete_last_char_from_focused_draft(&mut self) -> (r: bool)
        requires
            old(self).wf(),
            delete_ok(old(self)@),
        ensures
            (final(self)@, r) == delete_spec(old(self)@),
            final(self).wf(),
    {
        self.delete_at_cursor_in_focused_draft()
    }

    /// Moves the cursor one character left (with `shift`, extending the
    /// selection); without `shift` a selection collapses to its start.
    pub fn move_cursor_left(&mut self, shift: bool) -> (r: bool)
        requires
            old(self).wf(),
            move_ok(old(self)@, shift, false),
        ensures
            (final(self)@, r) == move_left_spec(old(self)@, shift),
            final(self).wf(),
    {
        let index = self.focused_block;
        let head = self.blocks[index].cursor.head;
        let anchor = self.blocks[index].cursor.anchor;
        if !shift && anchor.is_some() {
            let mut b = self.blocks[index].deep_copy();
            let a = match anchor {
                Some(a) => a,
                None => 0,
            };
            b.cursor.head = if head <= a { head } else { a };
            b.cursor.anchor = None;
            self.set_focused(b);
            return true;
        }
        let t = self.blocks[index].text_chars();
        let k = boundary_index(&t, head);
        if k == 0 {
            return false;
        }
        proof {
            crate::text::lemma_prefix_bytes_strict(t@, k - 1, k as int);
        }
        let prev = offset_of(&t, k - 1);
        let mut b = self.blocks[index].deep_copy();
        if shift && b.cursor.anchor.is_none() {
            b.cursor.anchor = Some(head);
        }
        b.cursor.head = prev;
        if !shift {
            b.cursor.anchor = None;
        }
        self.set_focused(b);
        true
    }

    /// Moves the cursor one character right (with `shift`, extending the
    /// selection); without `shift` a selection collapses to its end.
    pub fn move_cursor_right(&mut self, shift: bool) -> (r: bool)
        requires
            old(self).wf(),
            move_ok(old(self)@, shift, true),
        ensures
            (final(self)@, r) == move_right_spec(old(self)@, shift),
            final(self).wf(),
    {
        let index = self.focused_block;
        let head = self.blocks[index].cursor.head;
        let anchor = self.blocks[index].cursor.anchor;
        if !shift && anchor.is_some() {
            let mut b = self.blocks[index].deep_copy();
            let a = match anchor {
                Some(a) => a,
                None => 0,
            };
            b.cursor.head = if head >= a { head } else { a };
            b.cursor.anchor = None;
            self.set_focused(b);
            return true;
        }
        let len = block_text_len(&self.blocks[index]);
        if head >= len {
            return false;
        }
        let t = self.blocks[index].text_chars();
        let k = boundary_index(&t, head);
        proof {
            crate::text::lemma_prefix_bytes_bound(t@, k as int);
            if k == t@.len() {
                assert(t@.take(k as int) =~= t@);
            }
            assert(t@.take(k + 1) =~= t@.take(k as int).push(t@[k as int]));
            crate::text::lemma_utf8_len_push(t@.take(k as int), t@[k as int]);
            crate::text::lemma_prefix_bytes_bound(t@, k + 1);
        }
        let next = head + crate::text::char_len_utf8(t[k]);
        let mut b = self.blocks[index].deep_copy();
        if shift && b.cursor.anchor.is_none() {
            b.cursor.anchor = Some(head);
        }
        b.cursor.head = next;
        if !shift {
            b.cursor.anchor = None;
        }
        self.set_focused(b);
        true
    }

    /// Selects the whole focused text (unless it is empty).
    pub fn select_all(&mut self) -> (r: bool)
        requires
            old(self).wf(),
        ensures
            (final(self)@, r) == select_all_spec(old(self)@),
            final(self).wf(),
    {
        let index = self.focused_block;
        if index >= self.blocks.len() {
            return false;
        }
        let empty = match &self.blocks[index].draft {
            Some(d) => d.as_str().is_empty(),
            None => self.blocks[index].source.as_str().is_empty(),
        };
        if empty {
            return false;
        }
        let len = block_text_len(&self.blocks[index]);
        let mut b = self.blocks[index].deep_copy();
        b.cursor.anchor = Some(0);
        b.cursor.head = len;
        self.set_focused(b);
        true
    }

    /// Drops the focused draft, recording an undo step.
    pub fn revert_focused_draft(&mut self) -> (r: bool)
        requires
            old(self).wf(),
        ensures
            (final(self)@, r) == revert_spec(old(self)@),
            final(self).wf(),
    {
        let index = self.focused_block;
        if index >= self.blocks.len() {
            return false;
        }
        if self.blocks[index].draft.is_none() {
            return false;
        }
        self.push_undo_snapshot();
        let mut b = self.blocks[index].deep_copy();
        b.draft = None;
        self.set_focused(b);
        true
    }
}

// ---------------------------------------------------------------------------
// Structural edits and derived metadata
// ---------------------------------------------------------------------------

/// `preserve_typst_adapter`: a block whose render state would restart as
/// pending keeps the state it had (rendered, failed, or pending).
pub open spec fn preserve_typst_spec(
    previous: Option<TypstAdapterView>,
    next: Option<TypstAdapterView>,
) -> Option<TypstAdapterView> {
    match (previous, next) {
        (Some(p), Some(TypstAdapterView::Pending)) => Some(p),
        (_, n) => n,
    }
}

pub fn preserve_typst_adapter(previous: Option<TypstAdapter>, next: Option<TypstAdapter>) -> (r:
    Option<TypstAdapter>)
    ensures
        typst_opt_view(r) == preserve_typst_spec(typst_opt_view(previous), typst_opt_view(next)),
{
    match (previous, next) {
        (Some(previous), Some(TypstAdapter::Pending)) => Some(previous),
        (_, next) => next,
    }
}

/// A block after metadata is rebuilt at index `i`: its id, rendered text
/// and HTML are recomputed from its source, its render state restarts
/// unless preserved, and its cursor is clamped to its text.
pub open spec fn rebuilt_block(i: usize, b: BlockView) -> BlockView {
    let rendered = render_spec(b.kind, b.source);
    BlockView {
        id: i,
        rendered,
        html: block_html_spec(b.kind, b.source),
        typst: preserve_typst_spec(b.typst, typst_for_spec(b.kind, rendered)),
        cursor: clamp_cursor(b.cursor, text_len(b.text())),
        ..b
    }
}

/// Statistics as stored: the class counts.
pub open spec fn stats_value(blocks: Seq<BlockView>) -> DocumentStats {
    DocumentStats {
        headings: class_count(blocks, 0) as usize,
        paragraphs: class_count(blocks, 1) as usize,
        code_blocks: class_count(blocks, 2) as usize,
        list_items: class_count(blocks, 3) as usize,
        quotes: class_count(blocks, 4) as usize,
    }
}

/// `rebuild_metadata`: every block rebuilt, then the source serialized from
/// the blocks, the outline parsed from that source and the statistics
/// counted.
pub open spec fn rebuild_spec(s: SnapshotView) -> SnapshotView {
    let blocks = Seq::new(s.blocks.len(), |i: int| rebuilt_block(i as usize, s.blocks[i]));
    let source = serialize_spec(blocks);
    SnapshotView {
        source,
        blocks,
        outline: outline_spec(source),
        stats: stats_value(blocks),
        focused_block: s.focused_block,
    }
}

pub open spec fn apply_draft_spec(d: DocumentView) -> (DocumentView, bool) {
    match focused_of(d.current) {
        None => (d, false),
        Some(b) => match b.draft {
            None => (d, false),
            Some(draft) => {
                let rendered = render_spec(b.kind, draft);
                let nb = BlockView {
                    draft: None,
                    source: draft,
                    rendered,
                    typst: typst_for_spec(b.kind, rendered),
                    ..b
                };
                (record(d, rebuild_spec(with_focused(d.current, nb))), true)
            },
        },
    }
}

pub open spec fn insert_paragraph_spec(d: DocumentView, text: Seq<char>) -> (DocumentView, bool) {
    let t = trim(text);
    if t.len() == 0 {
        (d, false)
    } else {
        let at: usize = if d.current.blocks.len() == 0 {
            0
        } else {
            (d.current.focused_block + 1) as usize
        };
        let s = SnapshotView {
            blocks: d.current.blocks.insert(at as int, new_block_spec(at, BlockKindView::Paragraph, t)),
            focused_block: at,
            ..d.current
        };
        (record(d, rebuild_spec(s)), true)
    }
}

pub open spec fn duplicate_spec(d: DocumentView) -> (DocumentView, bool) {
    match focused_of(d.current) {
        None => (d, false),
        Some(b) => {
            let at = (d.current.focused_block + 1) as usize;
            let dup = BlockView { typst: b.typst, ..new_block_spec(at, b.kind, b.source) };
            let s = SnapshotView {
                blocks: d.current.blocks.insert(at as int, dup),
                focused_block: at,
                ..d.current
            };
            (record(d, rebuild_spec(s)), true)
        },
    }
}

pub open spec fn delete_block_spec(d: DocumentView) -> (DocumentView, bool) {
    let n = d.current.blocks.len();
    let f = d.current.focused_block;
    if n <= 1 || f >= n {
        (d, false)
    } else {
        let blocks = d.current.blocks.remove(f as int);
        let focused = if f >= blocks.len() {
            (blocks.len() - 1) as usize
        } else {
            f
        };
        let s = SnapshotView { blocks, focused_block: focused, ..d.current };
        (record(d, rebuild_spec(s)), true)
    }
}

impl DocumentModel {
    /// Recomputes every block's derived fields, the source, the outline and
    /// the statistics (see `rebuild_spec`).
    fn rebuild_metadata(&mut self)
        ensures
            final(self)@ == (DocumentView { current: rebuild_spec(old(self)@.current), ..old(self)@ }),
    {
        let ghost old_blocks = block_views(self.blocks@);
        let mut new_blocks: Vec<DocumentBlock> = Vec::new();
        let mut i: usize = 0;
        while i < self.blocks.len()
            invariant
                i <= self.blocks@.len(),
                self.blocks == old(self).blocks,
                old_blocks == block_views(self.blocks@),
                block_views(new_blocks@) == Seq::new(
                    i as nat,
                    |j: int| rebuilt_block(j as usize, old_blocks[j]),
                ),
            decreases self.blocks.len() - i,
        {
            let b = &self.blocks[i];
            let src = chars_of(b.source.as_str());
            let rendered = crate::blocks::render_block_source(&b.kind, &src);
            let html = crate::blocks::adapt_block_html(&b.kind, &src);
            let next = crate::blocks::typst_adapter_for_block(&b.kind, &rendered);
            let typst = preserve_typst_adapter(crate::blocks::copy_typst_opt(&b.typst), next);
            let len = block_text_len(b);
            let mut cursor = b.cursor;
            if cursor.head > len {
                cursor.head = len;
            }
            if let Some(anchor) = cursor.anchor {
                if anchor > len {
                    cursor.anchor = Some(len);
                }
            }
            let nb = DocumentBlock {
                id: i,
                kind: b.kind.deep_copy(),
                source: copy_string(&b.source),
                rendered: string_of(&rendered),
                html,
                typst,
                draft: crate::blocks::copy_str_opt(&b.draft),
                cursor,
            };
            assert(nb@ == rebuilt_block(i, old_blocks[i as int]));
            let ghost before = block_views(new_blocks@);
            new_blocks.push(nb);
            assert(block_views(new_blocks@) =~= Seq::new(
                (i + 1) as nat,
                |j: int| rebuilt_block(j as usize, old_blocks[j]),
            )) by {
                assert(block_views(new_blocks@) =~= before.push(nb@));
            }
            i += 1;
        }
        self.blocks = new_blocks;
        self.source = serialize_blocks(&self.blocks);
        self.outline = build_outline(self.source.as_str());
        self.stats = build_stats(&self.blocks);
        proof {
            lemma_class_count_le(block_views(self.blocks@), 0);
            lemma_class_count_le(block_views(self.blocks@), 1);
            lemma_class_count_le(block_views(self.blocks@), 2);
            lemma_class_count_le(block_views(self.blocks@), 3);
            lemma_class_count_le(block_views(self.blocks@), 4);
        }
        assert(self@.current =~= rebuild_spec(old(self)@.current));
    }

    /// Makes the focused draft the block's source and rebuilds the derived
    /// metadata, recording an undo step.
    pub fn apply_focused_draft(&mut self) -> (r: bool)
        requires
            old(self).wf(),
        ensures
            (final(self)@, r) == apply_draft_spec(old(self)@),
            final(self).wf(),
    {
        let index = self.focused_block;
        if index >= self.blocks.len() {
            return false;
        }
        let draft = match &self.blocks[index].draft {
            Some(d) => copy_string(d),
            None => {
                return false;
            },
        };
        self.push_undo_snapshot();
        let mut b = self.blocks[index].deep_copy();
        let dv = chars_of(draft.as_str());
        let rendered = crate::blocks::render_block_source(&b.kind, &dv);
        b.typst = crate::blocks::typst_adapter_for_block(&b.kind, &rendered);
        b.rendered = string_of(&rendered);
        b.draft = None;
        b.source = draft;
        self.set_focused(b);
        self.rebuild_metadata();
        true
    }

    /// Inserts a paragraph with the trimmed text after the focused block
    /// (or as the first block) and focuses it.
    pub fn insert_paragraph_after_focused(&mut self, text: &str) -> (r: bool)
        requires
            old(self).wf(),
        ensures
            (final(self)@, r) == insert_paragraph_spec(old(self)@, text@),
            final(self).wf(),
    {
        let tv = chars_of(text);
        let t = crate::text::trim_chars(&tv);
        if t.len() == 0 {
            return false;
        }
        let insert_at = if self.blocks.len() == 0 {
            0
        } else {
            self.focused_block + 1
        };
        self.push_undo_snapshot();
        let nb = crate::blocks::new_block(insert_at, crate::blocks::BlockKind::Paragraph, &t);
        let ghost before = block_views(self.blocks@);
        let ghost nbv = nb@;
        self.blocks.insert(insert_at, nb);
        assert(block_views(self.blocks@) =~= before.insert(insert_at as int, nbv));
        self.focused_block = insert_at;
        self.rebuild_metadata();
        true
    }

    /// Inserts a copy of the focused block (keeping its render state) after
    /// it and focuses the copy.
    pub fn duplicate_focused_block(&mut self) -> (r: bool)
        requires
            old(self).wf(),
        ensures
            (final(self)@, r) == duplicate_spec(old(self)@),
            final(self).wf(),
    {
        let index = self.focused_block;
        if index >= self.blocks.len() {
            return false;
        }
        let insert_at = index + 1;
        self.push_undo_snapshot();
        let src = chars_of(self.blocks[index].source.as_str());
        let mut duplicated = crate::blocks::new_block(insert_at, self.blocks[index].kind.deep_copy(), &src);
        duplicated.typst = crate::blocks::copy_typst_opt(&self.blocks[index].typst);
        let ghost before = block_views(self.blocks@);
        let ghost dv = duplicated@;
        self.blocks.insert(insert_at, duplicated);
        assert(block_views(self.blocks@) =~= before.insert(insert_at as int, dv));
        self.focused_block = insert_at;
        self.rebuild_metadata();
        true
    }

    /// Deletes the focused block when more than one block exists.
    pub fn delete_focused_block(&mut self) -> (r: bool)
        requires
            old(self).wf(),
        ensures
            (final(self)@, r) == delete_block_spec(old(self)@),
            final(self).wf(),
    {
        if self.blocks.len() <= 1 || self.focused_block >= self.blocks.len() {
            return false;
        }
        self.push_undo_snapshot();
        let ghost before = block_views(self.blocks@);
        let f = self.focused_block;
        let _removed = self.blocks.remove(f);
        assert(block_views(self.blocks@) =~= before.remove(f as int));
        if self.focused_block >= self.blocks.len() {
            self.focused_block = self.blocks.len() - 1;
        }
        self.rebuild_metadata();
        true
    }
}

// ---------------------------------------------------------------------------
// Moving between lines of the focused text
// ---------------------------------------------------------------------------

/// The character indices where lines start, scanning from `i`: `acc`
/// gains `j + 1` for every newline at `j`.
pub open spec fn starts_from(t: Seq<char>, i: int, acc: Seq<int>) -> Seq<int>
    decreases t.len() - i,
{
    if i < 0 || i >= t.len() {
        acc
    } else {
        starts_from(t, i + 1, if t[i] == '\n' { acc.push(i + 1) } else { acc })
    }
}

/// `split_lines`: line starts, 0 first, then one after every newline.
pub open spec fn line_starts(t: Seq<char>) -> Seq<int> {
    starts_from(t, 0, seq![0])
}

/// Number of entries of `starts` that are at most `k`.
pub open spec fn count_le(starts: Seq<int>, k: int) -> nat
    decreases starts.len(),
{
    if starts.len() == 0 {
        0
    } else {
        count_le(starts.drop_last(), k) + if starts.last() <= k {
            1nat
        } else {
            0nat
        }
    }
}

/// `line_end`: where line `l` ends, before its newline.
pub open spec fn line_end_spec(t: Seq<char>, starts: Seq<int>, l: int) -> int {
    let n = starts.len();
    let next = if l + 1 < n {
        starts[l + 1]
    } else {
        t.len() as int
    };
    if next > 0 && t[next - 1] == '\n' {
        next - 1
    } else {
        next
    }
}

/// The line of character position `k` and its column, as
/// `line_position_for_offset` finds them.
pub open spec fn line_position(t: Seq<char>, k: int) -> (int, int) {
    let starts = line_starts(t);
    let l = count_le(starts, k) - 1;
    let ls = starts[l];
    let le = line_end_spec(t, starts, l);
    let upto = if k <= le { k } else { le };
    (l, if upto >= ls { upto - ls } else { 0 })
}

/// The target line of a vertical move by `delta` from position `k`, when
/// it exists.
pub open spec fn target_line(t: Seq<char>, k: int, delta: isize) -> Option<int> {
    let l = line_position(t, k).0 + delta;
    if 0 <= l < line_starts(t).len() {
        Some(l)
    } else {
        None
    }
}

/// The character position a vertical move lands on: the same column on
/// the target line, or that line's end when it is shorter.
pub open spec fn vertical_target(t: Seq<char>, k: int, delta: isize) -> int {
    let l = target_line(t, k, delta)->0;
    let starts = line_starts(t);
    let ls = starts[l];
    let le = line_end_spec(t, starts, l);
    let col = line_position(t, k).1;
    ls + if col <= le - ls { col } else { le - ls }
}

/// The character position of the focused head (the text's end when the
/// head lies past it).
pub open spec fn head_position(b: BlockView) -> int {
    if b.cursor.head >= text_len(b.text()) {
        b.text().len() as int
    } else {
        char_index(b.text(), b.cursor.head as int)
    }
}

/// What a vertical move needs: a head on a character boundary (or past the
/// end), a target line that is not the empty line after a final newline,
/// and a byte length that fits in a `usize`.
pub open spec fn vertical_ok(d: DocumentView, delta: isize) -> bool {
    match focused_of(d.current) {
        None => true,
        Some(b) => {
            let t = b.text();
            &&& utf8_len(t) <= usize::MAX
            &&& (b.cursor.head >= text_len(t) || is_boundary(t, b.cursor.head as int))
            &&& target_line(t, head_position(b), delta) matches Some(l) ==> line_starts(t)[l]
                <= line_end_spec(t, line_starts(t), l)
        },
    }
}

pub open spec fn vertical_spec(d: DocumentView, delta: isize, shift: bool) -> (DocumentView, bool) {
    match focused_of(d.current) {
        None => (d, false),
        Some(b) => {
            let t = b.text();
            let k = head_position(b);
            match target_line(t, k, delta) {
                None => (d, false),
                Some(_) => set_cursor_spec(d, byte_offset(t, vertical_target(t, k, delta)) as usize, shift),
            }
        },
    }
}

proof fn lemma_starts_from(t: Seq<char>, i: int, acc: Seq<int>)
    requires
        0 <= i <= t.len(),
        acc.len() > 0,
        acc[0] == 0,
        forall|j: int| 0 <= j < acc.len() ==> 0 <= #[trigger] acc[j] <= i,
    ensures
        starts_from(t, i, acc).len() > 0,
        starts_from(t, i, acc)[0] == 0,
        forall|j: int|
            0 <= j < starts_from(t, i, acc).len() ==> 0 <= #[trigger] starts_from(t, i, acc)[j]
                <= t.len(),
    decreases t.len() - i,
{
    if i < t.len() {
        let next = if t[i] == '\n' {
            acc.push(i + 1)
        } else {
            acc
        };
        assert forall|j: int| 0 <= j < next.len() implies 0 <= #[trigger] next[j] <= i + 1 by {
            if j < acc.len() {
                assert(next[j] == acc[j]);
            }
        }
        lemma_starts_from(t, i + 1, next);
    }
}

proof fn lemma_line_starts(t: Seq<char>)
    ensures
        line_starts(t).len() > 0,
        line_starts(t)[0] == 0,
        forall|j: int| 0 <= j < line_starts(t).len() ==> 0 <= #[trigger] line_starts(t)[j] <= t.len(),
{
    lemma_starts_from(t, 0, seq![0]);
}

proof fn lemma_count_le_bounds(starts: Seq<int>, k: int)
    requires
        starts.len() > 0,
        starts[0] <= k,
    ensures
        1 <= count_le(starts, k) <= starts.len(),
    decreases starts.len(),
{
    if starts.len() > 1 {
        assert(starts.drop_last()[0] == starts[0]);
        lemma_count_le_bounds(starts.drop_last(), k);
    } else {
        assert(starts.drop_last().len() == 0);
        assert(count_le(starts.drop_last(), k) == 0);
        assert(starts.last() == starts[0]);
    }
}

pub open spec fn int_views(v: Seq<usize>) -> Seq<int> {
    v.map_values(|x: usize| x as int)
}

fn line_starts_exec(t: &Vec<char>) -> (r: Vec<usize>)
    ensures
        int_views(r@) == line_starts(t@),
{
    let mut starts: Vec<usize> = vec![0];
    assert(int_views(starts@) =~= seq![0int]);
    let mut i: usize = 0;
    while i < t.len()
        invariant
            i <= t@.len(),
            starts_from(t@, i as int, int_views(starts@)) == line_starts(t@),
        decreases t.len() - i,
    {
        if t[i] == '\n' {
            let ghost before = int_views(starts@);
            starts.push(i + 1);
            assert(int_views(starts@) =~= before.push(i + 1));
        }
        i += 1;
    }
    starts
}

fn count_le_exec(starts: &Vec<usize>, k: usize) -> (r: usize)
    ensures
        r == count_le(int_views(starts@), k as int),
{
    let mut n: usize = 0;
    let mut i: usize = 0;
    while i < starts.len()
        invariant
            i <= starts@.len(),
            n == count_le(int_views(starts@.take(i as int)), k as int),
            n <= i,
        decreases starts.len() - i,
    {
        assert(int_views(starts@.take(i + 1)).drop_last() =~= int_views(starts@.take(i as int)));
        if starts[i] <= k {
            n += 1;
        }
        i += 1;
    }
    assert(starts@.take(starts@.len() as int) =~= starts@);
    n
}

fn line_end_exec(t: &Vec<char>, starts: &Vec<usize>, l: usize) -> (r: usize)
    requires
        l < starts@.len(),
        forall|j: int| 0 <= j < starts@.len() ==> #[trigger] starts@[j] <= t@.len(),
    ensures
        r == line_end_spec(t@, int_views(starts@), l as int),
        r <= t@.len(),
{
    let n = starts.len();
    let next = if l + 1 < n {
        starts[l + 1]
    } else {
        t.len()
    };
    if next > 0 && t[next - 1] == '\n' {
        next - 1
    } else {
        next
    }
}

impl DocumentModel {
    fn move_cursor_vertical(&mut self, delta: isize, shift: bool) -> (r: bool)
        requires
            old(self).wf(),
            vertical_ok(old(self)@, delta),
        ensures
            (final(self)@, r) == vertical_spec(old(self)@, delta, shift),
            final(self).wf(),
    {
        let index = self.focused_block;
        if index >= self.blocks.len() {
            return false;
        }
        let t = self.blocks[index].text_chars();
        let len = block_text_len(&self.blocks[index]);
        let head = self.blocks[index].cursor.head;
        let k = if head >= len {
            t.len()
        } else {
            boundary_index(&t, head)
        };
        let starts = line_starts_exec(&t);
        proof {
            lemma_line_starts(t@);
            lemma_count_le_bounds(int_views(starts@), k as int);
            assert forall|j: int| 0 <= j < starts@.len() implies #[trigger] starts@[j] <= t@.len() by {
                assert(int_views(starts@)[j] == starts@[j] as int);
            }
        }
        let count = count_le_exec(&starts, k);
        let line = count - 1;
        let line_start = starts[line];
        let end = line_end_exec(&t, &starts, line);
        let upto = if k <= end { k } else { end };
        let column = if upto >= line_start { upto - line_start } else { 0 };
        let target: usize = if delta >= 0 {
            let d = delta as usize;
            if d >= starts.len() - line {
                return false;
            }
            line + d
        } else {
            let back: u128 = (0i128 - delta as i128) as u128;
            if back > line as u128 {
                return false;
            }
            line - back as usize
        };
        let target_start = starts[target];
        let target_end = line_end_exec(&t, &starts, target);
        let span = target_end - target_start;
        let target_char = target_start + if column <= span { column } else { span };
        proof {
            crate::text::lemma_prefix_bytes_bound(t@, target_char as int);
        }
        let offset = offset_of(&t, target_char);
        self.set_focused_cursor(offset, shift)
    }

    /// Moves the cursor to the same column on the line above.
    pub fn move_cursor_up(&mut self, shift: bool) -> (r: bool)
        requires
            old(self).wf(),
            vertical_ok(old(self)@, -1isize),
        ensures
            (final(self)@, r) == vertical_spec(old(self)@, -1isize, shift),
            final(self).wf(),
    {
        self.move_cursor_vertical(-1, shift)
    }

    /// Moves the cursor to the same column on the line below.
    pub fn move_cursor_down(&mut self, shift: bool) -> (r: bool)
        requires
            old(self).wf(),
            vertical_ok(old(self)@, 1isize),
        ensures
            (final(self)@, r) == vertical_spec(old(self)@, 1isize, shift),
            final(self).wf(),
    {
        self.move_cursor_vertical(1, shift)
    }
}

// ---------------------------------------------------------------------------
// What every edit keeps
// ---------------------------------------------------------------------------

/// No block keeps a draft equal to its own source.
pub open spec fn drafts_clean(blocks: Seq<BlockView>) -> bool {
    forall|i: int| 0 <= i < blocks.len() ==> (#[trigger] blocks[i]).draft != Some(blocks[i].source)
}

/// A state whose block ids are their positions, whose statistics are the
/// counts of its blocks' kinds (`stats_value`), and whose drafts all differ
/// from their blocks' sources.
pub open spec fn snapshot_consistent(s: SnapshotView) -> bool {
    &&& s.stats == stats_value(s.blocks)
    &&& forall|i: int| 0 <= i < s.blocks.len() ==> (#[trigger] s.blocks[i]).id == i as usize
    &&& drafts_clean(s.blocks)
}

/// The current state and every saved state are consistent.
pub open spec fn doc_consistent(d: DocumentView) -> bool {
    &&& snapshot_consistent(d.current)
    &&& forall|i: int| 0 <= i < d.undo.len() ==> #[trigger] snapshot_consistent(d.undo[i])
    &&& forall|i: int| 0 <= i < d.redo.len() ==> #[trigger] snapshot_consistent(d.redo[i])
}

proof fn lemma_class_count_same_kinds(a: Seq<BlockView>, b: Seq<BlockView>, c: int)
    requires
        a.len() == b.len(),
        forall|i: int| 0 <= i < a.len() ==> (#[trigger] a[i]).kind == b[i].kind,
    ensures
        class_count(a, c) == class_count(b, c),
    decreases a.len(),
{
    if a.len() > 0 {
        let a1 = a.drop_last();
        let b1 = b.drop_last();
        assert forall|i: int| 0 <= i < a1.len() implies (#[trigger] a1[i]).kind == b1[i].kind by {
            assert(a1[i] == a[i] && b1[i] == b[i]);
        }
        lemma_class_count_same_kinds(a1, b1, c);
        assert(a[a.len() - 1].kind == b[b.len() - 1].kind);
    }
}

proof fn lemma_stats_same_kinds(a: Seq<BlockView>, b: Seq<BlockView>)
    requires
        a.len() == b.len(),
        forall|i: int| 0 <= i < a.len() ==> (#[trigger] a[i]).kind == b[i].kind,
    ensures
        stats_value(a) == stats_value(b),
{
    lemma_class_count_same_kinds(a, b, 0);
    lemma_class_count_same_kinds(a, b, 1);
    lemma_class_count_same_kinds(a, b, 2);
    lemma_class_count_same_kinds(a, b, 3);
    lemma_class_count_same_kinds(a, b, 4);
}

/// Replacing the focused block by one with the same id and kind and no
/// draft equal to its source keeps a state consistent.
proof fn lemma_replace_focused(s: SnapshotView, nb: BlockView)
    requires
        snapshot_consistent(s),
        s.focused_block < s.blocks.len(),
        nb.id == s.blocks[s.focused_block as int].id,
        nb.kind == s.blocks[s.focused_block as int].kind,
        nb.draft != Some(nb.source),
    ensures
        snapshot_consistent(with_focused(s, nb)),
{
    let t = with_focused(s, nb);
    let f = s.focused_block as int;
    assert forall|i: int| 0 <= i < s.blocks.len() implies (#[trigger] s.blocks[i]).kind == t.blocks[i].kind by {
        if i != f {
            assert(t.blocks[i] == s.blocks[i]);
        }
    }
    lemma_stats_same_kinds(s.blocks, t.blocks);
    assert forall|i: int| 0 <= i < t.blocks.len() implies (#[trigger] t.blocks[i]).id == i as usize by {
        if i != f {
            assert(t.blocks[i] == s.blocks[i]);
        }
    }
    assert forall|i: int| 0 <= i < t.blocks.len() implies (#[trigger] t.blocks[i]).draft != Some(
        t.blocks[i].source,
    ) by {
        if i != f {
            assert(t.blocks[i] == s.blocks[i]);
        }
    }
}

/// Rebuilding the metadata of blocks without stale drafts gives a
/// consistent state.
proof fn lemma_rebuild_consistent(s: SnapshotView)
    requires
        drafts_clean(s.blocks),
    ensures
        snapshot_consistent(rebuild_spec(s)),
{
    let r = rebuild_spec(s);
    assert forall|i: int| 0 <= i < r.blocks.len() implies (#[trigger] r.blocks[i]).draft != Some(
        r.blocks[i].source,
    ) by {
        assert(s.blocks[i].draft != Some(s.blocks[i].source));
    }
}

proof fn lemma_record_consistent(d: DocumentView, next: SnapshotView)
    requires
        doc_consistent(d),
        snapshot_consistent(next),
    ensures
        doc_consistent(record(d, next)),
{
    let r = record(d, next);
    assert forall|i: int| 0 <= i < r.undo.len() implies #[trigger] snapshot_consistent(r.undo[i]) by {
        if i < d.undo.len() {
            assert(r.undo[i] == d.undo[i]);
        }
    }
}

/// Moving the focused cursor keeps a document consistent.
proof fn lemma_cursor_consistent(d: DocumentView, c: CursorState)
    requires
        doc_consistent(d),
        focused_of(d.current) is Some,
    ensures
        doc_consistent(
            DocumentView {
                current: with_focused(d.current, with_cursor(focused_of(d.current)->0, c)),
                ..d
            },
        ),
{
    let b = focused_of(d.current)->0;
    assert(d.current.blocks[d.current.focused_block as int] == b);
    assert(b.draft != Some(b.source));
    lemma_replace_focused(d.current, with_cursor(b, c));
}

proof fn lemma_history_ops(d: DocumentView, index: usize)
    requires
        doc_consistent(d),
    ensures
        doc_consistent(undo_spec(d).0),
        doc_consistent(redo_spec(d).0),
        doc_consistent(focus_block_spec(d, index).0),
        doc_consistent(focus_next_spec(d).0),
        doc_consistent(focus_previous_spec(d).0),
{
    if d.undo.len() > 0 {
        let u = undo_spec(d).0;
        assert(snapshot_consistent(d.undo[d.undo.len() - 1]));
        assert forall|i: int| 0 <= i < u.undo.len() implies #[trigger] snapshot_consistent(u.undo[i]) by {
            assert(u.undo[i] == d.undo[i]);
        }
        assert forall|i: int| 0 <= i < u.redo.len() implies #[trigger] snapshot_consistent(u.redo[i]) by {
            if i < d.redo.len() {
                assert(u.redo[i] == d.redo[i]);
            }
        }
    }
    if d.redo.len() > 0 {
        let r = redo_spec(d).0;
        assert(snapshot_consistent(d.redo[d.redo.len() - 1]));
        assert forall|i: int| 0 <= i < r.redo.len() implies #[trigger] snapshot_consistent(r.redo[i]) by {
            assert(r.redo[i] == d.redo[i]);
        }
        assert forall|i: int| 0 <= i < r.undo.len() implies #[trigger] snapshot_consistent(r.undo[i]) by {
            if i < d.undo.len() {
                assert(r.undo[i] == d.undo[i]);
            }
        }
    }
}

proof fn lemma_cursor_ops(d: DocumentView, offset: usize, shift: bool, delta: isize)
    requires
        doc_consistent(d),
    ensures
        doc_consistent(set_cursor_spec(d, offset, shift).0),
        doc_consistent(move_left_spec(d, shift).0),
        doc_consistent(move_right_spec(d, shift).0),
        doc_consistent(select_all_spec(d).0),
        doc_consistent(vertical_spec(d, delta, shift).0),
        doc_consistent(cursor_to_end(d)),
{
    if focused_of(d.current) is Some {
        let b = focused_of(d.current)->0;
        let c = b.cursor;
        let t = b.text();
        lemma_cursor_consistent(d, placed_cursor(c, min_usize(offset, text_len(t)), shift));
        lemma_cursor_consistent(d, CursorState { head: min_usize(c.head, c.anchor->0), anchor: None });
        lemma_cursor_consistent(d, CursorState { head: max_usize(c.head, c.anchor->0), anchor: None });
        let k = char_index(t, c.head as int);
        lemma_cursor_consistent(
            d,
            CursorState { head: byte_offset(t, k - 1) as usize, anchor: moved_anchor(c, shift) },
        );
        lemma_cursor_consistent(
            d,
            CursorState { head: byte_offset(t, k + 1) as usize, anchor: moved_anchor(c, shift) },
        );
        lemma_cursor_consistent(d, CursorState { head: text_len(t), anchor: Some(0) });
        lemma_cursor_consistent(d, CursorState { head: text_len(t), anchor: None });
        let kk = head_position(b);
        let target = byte_offset(t, vertical_target(t, kk, delta)) as usize;
        lemma_cursor_consistent(d, placed_cursor(c, min_usize(target, text_len(t)), shift));
    }
}

proof fn lemma_draft_ops(d: DocumentView, draft: Seq<char>, ins: Seq<char>)
    requires
        doc_consistent(d),
    ensures
        doc_consistent(set_draft_spec(d, draft).0),
        doc_consistent(insert_text_spec(d, ins).0),
        doc_consistent(delete_spec(d).0),
        doc_consistent(revert_spec(d).0),
{
    if focused_of(d.current) is Some {
        let b = focused_of(d.current)->0;
        assert(d.current.blocks[d.current.focused_block as int] == b);
        if set_draft_spec(d, draft).1 {
            let next = draft_for(b, draft);
            let nb = BlockView { draft: next, ..b };
            let nb = with_cursor(nb, clamp_cursor(b.cursor, text_len(nb.text())));
            lemma_replace_focused(d.current, nb);
            lemma_record_consistent(d, with_focused(d.current, nb));
        }
        let (start, end) = selection(b.cursor);
        let t = splice(b.text(), start as int, end as int, ins);
        let nb = BlockView {
            draft: draft_for(b, t),
            cursor: CursorState { head: (start + utf8_len(ins)) as usize, anchor: None },
            ..b
        };
        lemma_replace_focused(d.current, nb);
        lemma_record_consistent(d, with_focused(d.current, nb));
        if delete_spec(d).1 {
            let c = b.cursor;
            let tt = b.text();
            let (nt, head) = if c.anchor is Some {
                (splice(tt, start as int, end as int, seq![]), start)
            } else {
                let k = char_index(tt, c.head as int);
                (tt.take(k - 1) + tt.skip(k), byte_offset(tt, k - 1) as usize)
            };
            let db = BlockView { draft: draft_for(b, nt), cursor: CursorState { head, anchor: None }, ..b };
            lemma_replace_focused(d.current, db);
            lemma_record_consistent(d, with_focused(d.current, db));
        }
        if revert_spec(d).1 {
            let rb = BlockView { draft: None, ..b };
            lemma_replace_focused(d.current, rb);
            lemma_record_consistent(d, with_focused(d.current, rb));
        }
    }
}

proof fn lemma_structure_ops(d: DocumentView, text: Seq<char>)
    requires
        doc_wf(d),
        doc_consistent(d),
    ensures
        doc_consistent(apply_draft_spec(d).0),
        doc_consistent(insert_paragraph_spec(d, text).0),
        doc_consistent(duplicate_spec(d).0),
        doc_consistent(delete_block_spec(d).0),
{
    let s = d.current;
    let f = s.focused_block as int;
    if apply_draft_spec(d).1 {
        let b = focused_of(s)->0;
        let draft = b.draft->0;
        let rendered = render_spec(b.kind, draft);
        let nb = BlockView { draft: None, source: draft, rendered, typst: typst_for_spec(b.kind, rendered), ..b };
        let w = with_focused(s, nb);
        assert forall|i: int| 0 <= i < w.blocks.len() implies (#[trigger] w.blocks[i]).draft != Some(
            w.blocks[i].source,
        ) by {
            if i != f {
                assert(w.blocks[i] == s.blocks[i]);
            }
        }
        lemma_rebuild_consistent(w);
        lemma_record_consistent(d, rebuild_spec(w));
    }
    if insert_paragraph_spec(d, text).1 {
        let t = trim(text);
        let at: usize = if s.blocks.len() == 0 {
            0
        } else {
            (s.focused_block + 1) as usize
        };
        let nb = new_block_spec(at, BlockKindView::Paragraph, t);
        let bs = s.blocks.insert(at as int, nb);
        s.blocks.insert_ensures(at as int, nb);
        assert forall|i: int| 0 <= i < bs.len() implies (#[trigger] bs[i]).draft != Some(bs[i].source) by {
            if i < at {
                assert(bs[i] == s.blocks[i]);
            } else if i > at {
                assert(bs[i] == s.blocks[i - 1]);
            }
        }
        let w = SnapshotView { blocks: bs, focused_block: at, ..s };
        lemma_rebuild_consistent(w);
        lemma_record_consistent(d, rebuild_spec(w));
    }
    if duplicate_spec(d).1 {
        let b = focused_of(s)->0;
        let at = (s.focused_block + 1) as usize;
        let dup = BlockView { typst: b.typst, ..new_block_spec(at, b.kind, b.source) };
        let bs = s.blocks.insert(at as int, dup);
        s.blocks.insert_ensures(at as int, dup);
        assert forall|i: int| 0 <= i < bs.len() implies (#[trigger] bs[i]).draft != Some(bs[i].source) by {
            if i < at {
                assert(bs[i] == s.blocks[i]);
            } else if i > at {
                assert(bs[i] == s.blocks[i - 1]);
            }
        }
        let w = SnapshotView { blocks: bs, focused_block: at, ..s };
        lemma_rebuild_consistent(w);
        lemma_record_consistent(d, rebuild_spec(w));
    }
    if delete_block_spec(d).1 {
        let bs = s.blocks.remove(f);
        s.blocks.remove_ensures(f);
        assert forall|i: int| 0 <= i < bs.len() implies (#[trigger] bs[i]).draft != Some(bs[i].source) by {
            if i < f {
                assert(bs[i] == s.blocks[i]);
            } else {
                assert(bs[i] == s.blocks[i + 1]);
            }
        }
        let focused = if f >= bs.len() {
            (bs.len() - 1) as usize
        } else {
            f as usize
        };
        let w = SnapshotView { blocks: bs, focused_block: focused, ..s };
        lemma_rebuild_consistent(w);
        lemma_record_consistent(d, rebuild_spec(w));
    }
}

/// A parsed document is consistent: block ids are positions, the
/// statistics count the blocks' kinds, and no block has a draft.
pub proof fn law_parsed_document_consistent(source: Seq<char>)
    ensures
        doc_consistent(from_markdown_spec(source)),
{
    let s = from_markdown_spec(source).current;
    assert forall|i: int| 0 <= i < s.blocks.len() implies (#[trigger] s.blocks[i]).draft != Some(
        s.blocks[i].source,
    ) by {}
}

/// Every operation of a document keeps it consistent, whatever its
/// arguments: block ids stay their positions, the statistics stay the
/// counts of the blocks' kinds, and no draft equal to its block's source is
/// kept; so it holds after any sequence of operations on a parsed document.
pub proof fn law_operations_keep_consistency(
    d: DocumentView,
    index: usize,
    offset: usize,
    shift: bool,
    delta: isize,
    draft: Seq<char>,
    ins: Seq<char>,
    text: Seq<char>,
)
    requires
        doc_wf(d),
        doc_consistent(d),
    ensures
        doc_consistent(undo_spec(d).0),
        doc_consistent(redo_spec(d).0),
        doc_consistent(focus_block_spec(d, index).0),
        doc_consistent(focus_next_spec(d).0),
        doc_consistent(focus_previous_spec(d).0),
        doc_consistent(set_cursor_spec(d, offset, shift).0),
        doc_consistent(move_left_spec(d, shift).0),
        doc_consistent(move_right_spec(d, shift).0),
        doc_consistent(select_all_spec(d).0),
        doc_consistent(vertical_spec(d, delta, shift).0),
        doc_consistent(set_draft_spec(d, draft).0),
        doc_consistent(insert_text_spec(d, ins).0),
        doc_consistent(insert_text_spec(cursor_to_end(d), ins).0),
        doc_consistent(delete_spec(d).0),
        doc_consistent(revert_spec(d).0),
        doc_consistent(apply_draft_spec(d).0),
        doc_consistent(insert_paragraph_spec(d, text).0),
        doc_consistent(duplicate_spec(d).0),
        doc_consistent(delete_block_spec(d).0),
{
    lemma_history_ops(d, index);
    lemma_cursor_ops(d, offset, shift, delta);
    lemma_draft_ops(d, draft, ins);
    lemma_draft_ops(cursor_to_end(d), draft, ins);
    lemma_structure_ops(d, text);
}

/// `e` is `d` after an edit that undo takes back: undoing it gives `d`'s
/// state and history again, with the edited state left to redo.
pub open spec fn undoes_to(e: DocumentView, d: DocumentView) -> bool {
    undo_spec(e) == (DocumentView { current: d.current, undo: d.undo, redo: seq![e.current] }, true)
}

/// Every edit that succeeds can be undone: setting or typing into a draft,
/// deleting, reverting, applying a draft, inserting, duplicating or
/// deleting a block.
pub proof fn law_undo_after_each_edit(d: DocumentView, draft: Seq<char>, ins: Seq<char>, text: Seq<char>)
    ensures
        set_draft_spec(d, draft).1 ==> undoes_to(set_draft_spec(d, draft).0, d),
        insert_text_spec(d, ins).1 ==> undoes_to(insert_text_spec(d, ins).0, d),
        delete_spec(d).1 ==> undoes_to(delete_spec(d).0, d),
        revert_spec(d).1 ==> undoes_to(revert_spec(d).0, d),
        apply_draft_spec(d).1 ==> undoes_to(apply_draft_spec(d).0, d),
        insert_paragraph_spec(d, text).1 ==> undoes_to(insert_paragraph_spec(d, text).0, d),
        duplicate_spec(d).1 ==> undoes_to(duplicate_spec(d).0, d),
        delete_block_spec(d).1 ==> undoes_to(delete_block_spec(d).0, d),
{
    law_undo_after_edit(d, set_draft_spec(d, draft).0.current);
    law_undo_after_edit(d, insert_text_spec(d, ins).0.current);
    law_undo_after_edit(d, delete_spec(d).0.current);
    law_undo_after_edit(d, revert_spec(d).0.current);
    law_undo_after_edit(d, apply_draft_spec(d).0.current);
    law_undo_after_edit(d, insert_paragraph_spec(d, text).0.current);
    law_undo_after_edit(d, duplicate_spec(d).0.current);
    law_undo_after_edit(d, delete_block_spec(d).0.current);
}

/// Typing at the cursor replaces the selection (or inserts at the head) in
/// the focused text, leaves the cursor just after the typed text with no
/// selection, keeps a draft only where the text now differs from the
/// block's source, records an undo step and clears the redo history; the
/// source and every other block stay as they were.
pub proof fn law_insert_text(d: DocumentView, ins: Seq<char>)
    requires
        focused_of(d.current) is Some,
        selection(focused_of(d.current)->0.cursor).0 + utf8_len(ins) <= usize::MAX,
    ensures
        ({
            let b = focused_of(d.current)->0;
            let (start, end) = selection(b.cursor);
            let t = splice(b.text(), start as int, end as int, ins);
            let (e, r) = insert_text_spec(d, ins);
            &&& r
            &&& focused_of(e.current) matches Some(nb) && nb.text() == t
                && nb.cursor == (CursorState { head: (start + utf8_len(ins)) as usize, anchor: None })
                && (nb.draft is None <==> t == b.source)
                && nb.source == b.source && nb.kind == b.kind && nb.id == b.id
            &&& e.undo.len() > 0
            &&& e.redo.len() == 0
            &&& e.current.source == d.current.source
            &&& e.current.blocks.len() == d.current.blocks.len()
            &&& e.current.focused_block == d.current.focused_block
            &&& forall|j: int|
                0 <= j < d.current.blocks.len() && j != d.current.focused_block ==> e.current.blocks[j]
                    == #[trigger] d.current.blocks[j]
        }),
{
}

/// Moving sideways without shift while text is selected drops the
/// selection: left leaves the cursor at the selection's start (the smaller
/// of head and anchor), right at its end (the larger); the text does not
/// change, and moving left puts the cursor where deleting the selection
/// would.
pub proof fn law_collapse_selection(d: DocumentView)
    requires
        focused_of(d.current) matches Some(b) && b.cursor.anchor is Some,
    ensures
        ({
            let b = focused_of(d.current)->0;
            let h = b.cursor.head;
            let a = b.cursor.anchor->0;
            let (l, lr) = move_left_spec(d, false);
            let (r, rr) = move_right_spec(d, false);
            &&& lr && rr
            &&& focused_of(l.current) matches Some(lb) && lb.cursor.anchor is None && lb.cursor.head
                <= h && lb.cursor.head <= a && (lb.cursor.head == h || lb.cursor.head == a)
                && lb.text() == b.text()
            &&& focused_of(r.current) matches Some(rb) && rb.cursor.anchor is None && rb.cursor.head
                >= h && rb.cursor.head >= a && (rb.cursor.head == h || rb.cursor.head == a)
                && rb.text() == b.text()
            &&& focused_of(delete_spec(d).0.current) matches Some(db) && db.cursor.head
                == focused_of(l.current)->0.cursor.head
        }),
{
}

/// Deleting a selection removes exactly its bytes: the text loses as many
/// bytes as were selected, the cursor stands where the selection started,
/// and the result is what typing nothing over the selection gives.
pub proof fn law_delete_selection(d: DocumentView)
    requires
        focused_of(d.current) matches Some(b) && b.cursor.anchor is Some,
        delete_ok(d),
    ensures
        ({
            let b = focused_of(d.current)->0;
            let (start, end) = selection(b.cursor);
            let (e, r) = delete_spec(d);
            &&& r
            &&& e == insert_text_spec(d, seq![]).0
            &&& focused_of(e.current) matches Some(nb) && utf8_len(nb.text()) + (end - start) == utf8_len(
                b.text(),
            ) && nb.cursor == (CursorState { head: start, anchor: None })
        }),
{
    let b = focused_of(d.current)->0;
    let t = b.text();
    let (start, end) = selection(b.cursor);
    let ks = char_index(t, start as int);
    let ke = char_index(t, end as int);
    assert(0 <= ks <= t.len() && byte_offset(t, ks) == start);
    assert(0 <= ke <= t.len() && byte_offset(t, ke) == end);
    let nt = splice(t, start as int, end as int, seq![]);
    assert(nt =~= t.take(ks) + t.skip(ke));
    crate::text::lemma_utf8_len_concat(t.take(ks), t.skip(ke));
    crate::text::lemma_utf8_len_concat(t.take(ke), t.skip(ke));
    assert(t.take(ke) + t.skip(ke) =~= t);
    let nb = BlockView { draft: draft_for(b, nt), cursor: CursorState { head: start, anchor: None }, ..b };
    assert(nb.text() == nt);
    assert(utf8_len(Seq::<char>::empty()) == 0);
}

/// The source of a document is its blocks' sources with a blank line
/// between one block and the next: one block is its own source, and each
/// further block adds `"\n\n"` and its source.
pub proof fn law_blocks_joined_by_blank_line(blocks: Seq<BlockView>, b: BlockView)
    ensures
        serialize_spec(Seq::<BlockView>::empty()) == Seq::<char>::empty(),
        serialize_spec(seq![b]) == b.source,
        blocks.len() > 0 ==> serialize_spec(blocks.push(b)) == serialize_spec(blocks) + seq!['\n', '\n']
            + b.source,
{
    assert(sources_of(seq![b]) =~= seq![b.source]);
    assert(sources_of(blocks.push(b)) =~= sources_of(blocks).push(b.source));
    assert(sources_of(blocks).push(b.source).drop_last() =~= sources_of(blocks));
}

} // verus!
