//! What the document surface shows: the captions of blocks that are not
//! being edited, the state of their previews, the details of inline
//! images, and which editing controls are enabled.
use vstd::prelude::*;
use crate::blocks::{BlockKind, BlockKindView, TypstAdapter, TypstAdapterView, typst_opt_view};
use crate::document::{focused_of, DocumentModel, DocumentView};
use crate::html::{HtmlImage, HtmlStyledText};
use crate::render_jobs::{truncate_for_pill, truncate_spec};
use crate::text::{copy_string, decimal, decimal_u32, decimal_u8, decimal_usize, string_from};
use crate::theme::{parse_hex_color, parse_hex_color_spec, Theme};
use crate::highlight::HighlightKind;

verus! {

pub open spec fn separator() -> Seq<char> {
    " \u{b7} "@
}

/// `Heading level N`.
pub open spec fn heading_caption_spec(level: u8) -> Seq<char> {
    "Heading level "@ + decimal(level as nat)
}

pub fn heading_caption(level: u8) -> (r: String)
    ensures
        r@ == heading_caption_spec(level),
{
    let mut s = string_from("Heading level ");
    s.append(decimal_u8(level).as_str());
    s
}

/// The point size of a heading's text.
pub open spec fn heading_size_spec(level: u8) -> u16 {
    if level == 1 {
        28
    } else if level == 2 {
        24
    } else if level == 3 {
        20
    } else {
        18
    }
}

pub fn heading_font_size(level: u8) -> (r: u16)
    ensures
        r == heading_size_spec(level),
{
    if level == 1 {
        28
    } else if level == 2 {
        24
    } else if level == 3 {
        20
    } else {
        18
    }
}

/// The marker in front of a list item.
pub fn list_marker(ordered: bool) -> (r: &'static str)
    ensures
        r@ == (if ordered { "1."@ } else { "\u{2022}"@ }),
{
    if ordered {
        "1."
    } else {
        "\u{2022}"
    }
}

/// `Code fence`, then ` · ` and the language when there is one.
pub open spec fn code_fence_caption_spec(language: Option<Seq<char>>) -> Seq<char> {
    match language {
        Some(l) => "Code fence"@ + separator() + l,
        None => "Code fence"@,
    }
}

pub fn code_fence_caption(language: &Option<String>) -> (r: String)
    ensures
        r@ == code_fence_caption_spec(
            match language {
                Some(l) => Some(l@),
                None => None,
            },
        ),
{
    let mut s = string_from("Code fence");
    match language {
        Some(l) => {
            s.append(" \u{b7} ");
            s.append(l.as_str());
        },
        None => {},
    }
    s
}

/// The name a Typst preview is shown under; headings and code fences have
/// no preview.
pub open spec fn preview_label_spec(kind: BlockKindView) -> Option<Seq<char>> {
    match kind {
        BlockKindView::Paragraph => Some("Paragraph"@),
        BlockKindView::ListItem { .. } => Some("List item"@),
        BlockKindView::Quote => Some("Quote"@),
        BlockKindView::MathBlock => Some("Math block"@),
        BlockKindView::TypstBlock => Some("Typst block"@),
        _ => None,
    }
}

pub fn typst_preview_label(kind: &BlockKind) -> (r: Option<&'static str>)
    ensures
        match r {
            Some(l) => preview_label_spec(kind@) == Some(l@),
            None => preview_label_spec(kind@) is None,
        },
{
    match kind {
        BlockKind::Paragraph => Some("Paragraph"),
        BlockKind::ListItem { .. } => Some("List item"),
        BlockKind::Quote => Some("Quote"),
        BlockKind::MathBlock => Some("Math block"),
        BlockKind::TypstBlock => Some("Typst block"),
        _ => None,
    }
}

/// The height of a rendered preview: tall for math and Typst blocks.
pub fn typst_preview_height(kind: &BlockKind) -> (r: u16)
    ensures
        r == (if kind@ is MathBlock || kind@ is TypstBlock { 160u16 } else { 56u16 }),
{
    match kind {
        BlockKind::MathBlock | BlockKind::TypstBlock => 160,
        _ => 56,
    }
}

/// The caption above a preview: the label and the render state; `None`
/// when the block takes no part in rendering.
pub open spec fn preview_caption_spec(label: Seq<char>, typst: Option<TypstAdapterView>) -> Option<Seq<char>> {
    match typst {
        Some(TypstAdapterView::Pending) => Some(label + separator() + "rendering"@),
        Some(TypstAdapterView::Rendered { .. }) => Some(label + separator() + "rendered"@),
        Some(TypstAdapterView::Error { .. }) => Some(label + separator() + "error"@),
        None => None,
    }
}

pub fn typst_preview_caption(label: &str, typst: &Option<TypstAdapter>) -> (r: Option<String>)
    ensures
        match r {
            Some(c) => preview_caption_spec(label@, typst_opt_view(*typst)) == Some(c@),
            None => preview_caption_spec(label@, typst_opt_view(*typst)) is None,
        },
{
    let state = match typst {
        Some(TypstAdapter::Pending) => "rendering",
        Some(TypstAdapter::Rendered { .. }) => "rendered",
        Some(TypstAdapter::Error { .. }) => "error",
        None => {
            return None;
        },
    };
    let mut s = string_from(label);
    s.append(" \u{b7} ");
    s.append(state);
    Some(s)
}

pub open spec fn str_opt(o: Option<String>) -> Option<Seq<char>> {
    match o {
        Some(s) => Some(s@),
        None => None,
    }
}

/// What an inline image is called: its alt text, else its source, else
/// `inline image`.
pub open spec fn image_caption_spec(alt: Option<Seq<char>>, src: Option<Seq<char>>) -> Seq<char> {
    match alt {
        Some(a) => a,
        None => match src {
            Some(s) => s,
            None => "inline image"@,
        },
    }
}

pub fn image_caption(image: &HtmlImage) -> (r: String)
    ensures
        r@ == image_caption_spec(str_opt(image.alt), str_opt(image.src)),
{
    match &image.alt {
        Some(a) => copy_string(a),
        None => match &image.src {
            Some(s) => copy_string(s),
            None => string_from("inline image"),
        },
    }
}

/// `width Npx` or `width auto`, then ` · ` and the source when there is
/// one.
pub open spec fn image_details_spec(width: Option<u32>, src: Option<Seq<char>>) -> Seq<char> {
    let w = match width {
        Some(n) => "width "@ + decimal(n as nat) + "px"@,
        None => "width auto"@,
    };
    match src {
        Some(s) => w + separator() + s,
        None => w,
    }
}

pub fn image_details(image: &HtmlImage) -> (r: String)
    ensures
        r@ == image_details_spec(image.width_px, str_opt(image.src)),
{
    let mut s = match image.width_px {
        Some(n) => {
            let mut w = string_from("width ");
            w.append(decimal_u32(n).as_str());
            w.append("px");
            w
        },
        None => string_from("width auto"),
    };
    match &image.src {
        Some(src) => {
            s.append(" \u{b7} ");
            s.append(src.as_str());
        },
        None => {},
    }
    s
}

/// The colour styled text is shown in: its own when it is a valid hex
/// colour, else the default.
pub open spec fn styled_color_spec(color: Option<Seq<char>>, default: Seq<char>) -> Seq<char> {
    match color {
        Some(c) => if parse_hex_color_spec(c) is Some {
            c
        } else {
            default
        },
        None => default,
    }
}

pub fn styled_text_color(styled: &HtmlStyledText, default_color: &str) -> (r: String)
    ensures
        r@ == styled_color_spec(str_opt(styled.color), default_color@),
{
    match &styled.color {
        Some(c) => {
            if parse_hex_color(c.as_str()).is_some() {
                copy_string(c)
            } else {
                string_from(default_color)
            }
        },
        None => string_from(default_color),
    }
}

/// Whether the focused block has edits not yet applied.
pub fn draft_label(document: &DocumentModel) -> (r: &'static str)
    ensures
        r@ == (if focused_of(document@.current) matches Some(b) && b.draft is Some {
            "draft pending"@
        } else {
            "source synced"@
        }),
{
    if document.focused_has_draft() {
        "draft pending"
    } else {
        "source synced"
    }
}

/// The summary pill: the focused block's rendered text, cut to forty
/// characters.
pub open spec fn block_summary_spec(d: DocumentView) -> Seq<char> {
    truncate_spec(
        match focused_of(d.current) {
            Some(b) => b.rendered,
            None => "no focused block"@,
        },
        40,
    )
}

pub fn block_summary(document: &DocumentModel) -> (r: String)
    ensures
        r@ == block_summary_spec(document@),
{
    let summary = match document.focused_block_ref() {
        Some(b) => copy_string(&b.rendered),
        None => string_from("no focused block"),
    };
    truncate_for_pill(summary.as_str(), 40)
}

/// `#N`, the one-based number of the focused block.
pub fn focused_block_number(document: &DocumentModel) -> (r: String)
    requires
        document.wf(),
    ensures
        r@ == "#"@ + decimal((document@.current.focused_block + 1) as nat),
{
    let n = document.focused_block();
    let count = document.block_count();
    let mut s = string_from("#");
    let next = if n < count {
        n + 1
    } else {
        assert(n == 0);
        1
    };
    s.append(decimal_usize(next).as_str());
    s
}

/// Which of the surface's controls can be used.
#[derive(Debug, Clone, Copy, PartialEq, Eq, Structural)]
pub struct SurfaceControls {
    pub previous_block: bool,
    pub next_block: bool,
    pub delete_block: bool,
    pub undo: bool,
    pub redo: bool,
}

pub fn surface_controls(document: &DocumentModel) -> (r: SurfaceControls)
    requires
        document.wf(),
    ensures
        r == (SurfaceControls {
            previous_block: document@.current.focused_block > 0,
            next_block: document@.current.focused_block + 1 < document@.current.blocks.len(),
            delete_block: document@.current.blocks.len() > 1,
            undo: document@.undo.len() > 0,
            redo: document@.redo.len() > 0,
        }),
{
    let focused = document.focused_block();
    let count = document.block_count();
    SurfaceControls {
        previous_block: focused > 0,
        next_block: focused < count && focused + 1 < count,
        delete_block: count > 1,
        undo: document.can_undo(),
        redo: document.can_redo(),
    }
}

/// A row of the outline panel: the heading's block, its level and text.
pub struct HeadingRow {
    pub block_index: usize,
    pub level: u8,
    pub title: String,
}

impl View for HeadingRow {
    type V = (int, u8, Seq<char>);

    open spec fn view(&self) -> (int, u8, Seq<char>) {
        (self.block_index as int, self.level, self.title@)
    }
}

pub open spec fn heading_row_views(v: Seq<HeadingRow>) -> Seq<(int, u8, Seq<char>)> {
    v.map_values(|r: HeadingRow| r@)
}

/// The heading blocks below `n`, in order, with their rendered text.
pub open spec fn heading_rows_spec(blocks: Seq<crate::blocks::BlockView>, n: int) -> Seq<(int, u8, Seq<char>)>
    decreases n,
{
    if n <= 0 {
        seq![]
    } else {
        let rest = heading_rows_spec(blocks, n - 1);
        match blocks[n - 1].kind {
            BlockKindView::Heading { level } => rest.push((n - 1, level, blocks[n - 1].rendered)),
            _ => rest,
        }
    }
}

/// The rows of the outline panel: every heading block of the document.
pub fn heading_rows(document: &DocumentModel) -> (r: Vec<HeadingRow>)
    ensures
        heading_row_views(r@) == heading_rows_spec(document@.current.blocks, document@.current.blocks.len() as int),
{
    let blocks = document.blocks();
    let ghost bv = document@.current.blocks;
    assert(crate::parser::block_views(blocks@).len() == blocks@.len());
    let mut rows: Vec<HeadingRow> = Vec::new();
    let mut i: usize = 0;
    while i < blocks.len()
        invariant
            bv == crate::parser::block_views(blocks@),
            bv.len() == blocks@.len(),
            i <= blocks@.len(),
            heading_row_views(rows@) == heading_rows_spec(bv, i as int),
        decreases blocks.len() - i,
    {
        let block = &blocks[i];
        assert(bv[i as int] == block@);
        match &block.kind {
            BlockKind::Heading { level } => {
                let ghost r0 = heading_row_views(rows@);
                let row = HeadingRow { block_index: i, level: *level, title: copy_string(&block.rendered) };
                let ghost rv = row@;
                rows.push(row);
                assert(heading_row_views(rows@) =~= r0.push(rv));
            },
            _ => {},
        }
        i += 1;
    }
    rows
}

/// The colour a highlighted span is drawn in: its token class's syntax
/// colour, or the primary text colour for plain text.
pub open spec fn span_color_spec(kind: HighlightKind, theme: Theme) -> Seq<char> {
    match kind {
        HighlightKind::Keyword => theme.syntax.keyword@,
        HighlightKind::String => theme.syntax.string@,
        HighlightKind::Comment => theme.syntax.comment@,
        HighlightKind::Function => theme.syntax.function@,
        HighlightKind::Number => theme.syntax.number@,
        HighlightKind::Constant => theme.syntax.constant@,
        HighlightKind::TypeName => theme.syntax.types@,
        HighlightKind::Other => theme.palette.text_primary@,
    }
}

pub fn span_color<'a>(kind: HighlightKind, theme: &'a Theme) -> (r: &'a String)
    ensures
        r@ == span_color_spec(kind, *theme),
{
    match kind {
        HighlightKind::Keyword => &theme.syntax.keyword,
        HighlightKind::String => &theme.syntax.string,
        HighlightKind::Comment => &theme.syntax.comment,
        HighlightKind::Function => &theme.syntax.function,
        HighlightKind::Number => &theme.syntax.number,
        HighlightKind::Constant => &theme.syntax.constant,
        HighlightKind::TypeName => &theme.syntax.types,
        HighlightKind::Other => &theme.palette.text_primary,
    }
}

/// How a block that is not being edited is set: its size relative to the
/// body size in percent, whether it is bold, and its colour.
pub struct BlurredTextStyle {
    pub size_percent: u16,
    pub bold: bool,
    pub color: String,
}

pub open spec fn blurred_style_spec(kind: BlockKindView, theme: Theme) -> (u16, bool, Seq<char>) {
    match kind {
        BlockKindView::Heading { level } => (
            if level == 1 {
                200u16
            } else if level == 2 {
                150u16
            } else if level == 3 {
                125u16
            } else {
                110u16
            },
            true,
            theme.palette.text_primary@,
        ),
        BlockKindView::Quote => (100u16, false, theme.palette.text_muted@),
        _ => (100u16, false, theme.palette.text_primary@),
    }
}

pub fn blurred_text_style(kind: &BlockKind, theme: &Theme) -> (r: BlurredTextStyle)
    ensures
        (r.size_percent, r.bold, r.color@) == blurred_style_spec(kind@, *theme),
{
    match kind {
        BlockKind::Heading { level } => BlurredTextStyle {
            size_percent: if *level == 1 {
                200
            } else if *level == 2 {
                150
            } else if *level == 3 {
                125
            } else {
                110
            },
            bold: true,
            color: copy_string(&theme.palette.text_primary),
        },
        BlockKind::Quote => BlurredTextStyle {
            size_percent: 100,
            bold: false,
            color: copy_string(&theme.palette.text_muted),
        },
        _ => BlurredTextStyle {
            size_percent: 100,
            bold: false,
            color: copy_string(&theme.palette.text_primary),
        },
    }
}

} // verus!
