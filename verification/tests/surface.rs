use sola::blocks::{BlockKind, TypstAdapter};
use sola::highlight::HighlightKind;
use sola::theme::Theme;
use sola::document::DocumentModel;
use sola::html::{HtmlImage, HtmlStyledText};
use sola::surface::{
    block_summary, code_fence_caption, draft_label, focused_block_number, heading_caption,
    heading_font_size, heading_rows, image_caption, image_details, list_marker, styled_text_color,
    surface_controls, blurred_text_style, span_color, typst_preview_caption, typst_preview_height, typst_preview_label,
};

#[test]
fn captions_of_blurred_blocks() {
    assert_eq!(heading_caption(2), "Heading level 2");
    assert_eq!(heading_font_size(1), 28);
    assert_eq!(heading_font_size(3), 20);
    assert_eq!(heading_font_size(6), 18);
    assert_eq!(list_marker(true), "1.");
    assert_eq!(list_marker(false), "\u{2022}");
    assert_eq!(code_fence_caption(&Some("rust".to_string())), "Code fence \u{b7} rust");
    assert_eq!(code_fence_caption(&None), "Code fence");
}

#[test]
fn typst_previews_are_labelled_by_state() {
    assert_eq!(typst_preview_label(&BlockKind::MathBlock), Some("Math block"));
    assert_eq!(typst_preview_label(&BlockKind::ListItem { ordered: false }), Some("List item"));
    assert_eq!(typst_preview_label(&BlockKind::Heading { level: 1 }), None);
    assert_eq!(typst_preview_height(&BlockKind::TypstBlock), 160);
    assert_eq!(typst_preview_height(&BlockKind::Paragraph), 56);
    assert_eq!(
        typst_preview_caption("Math block", &Some(TypstAdapter::Pending)).as_deref(),
        Some("Math block \u{b7} rendering")
    );
    assert_eq!(
        typst_preview_caption("Quote", &Some(TypstAdapter::Error { message: "x".to_string() })).as_deref(),
        Some("Quote \u{b7} error")
    );
    assert_eq!(typst_preview_caption("Quote", &None), None);
}

#[test]
fn images_and_styled_text() {
    let image = HtmlImage { src: Some("a.png".to_string()), alt: None, width_px: Some(320) };
    assert_eq!(image_caption(&image), "a.png");
    assert_eq!(image_details(&image), "width 320px \u{b7} a.png");
    let bare = HtmlImage { src: None, alt: None, width_px: None };
    assert_eq!(image_caption(&bare), "inline image");
    assert_eq!(image_details(&bare), "width auto");

    let styled = HtmlStyledText { text: "t".to_string(), color: Some("#ff6600".to_string()), font_size_px: None };
    assert_eq!(styled_text_color(&styled, "#000000"), "#ff6600");
    let bad = HtmlStyledText { text: "t".to_string(), color: Some("red".to_string()), font_size_px: None };
    assert_eq!(styled_text_color(&bad, "#000000"), "#000000");
}

#[test]
fn document_surface_state() {
    let mut document = DocumentModel::from_markdown("# Title\n\nA paragraph that is rather long, longer than forty characters.");
    assert_eq!(draft_label(&document), "source synced");
    assert_eq!(block_summary(&document), "Title");
    assert_eq!(focused_block_number(&document), "#1");
    let controls = surface_controls(&document);
    assert!(!controls.previous_block);
    assert!(controls.next_block);
    assert!(controls.delete_block);
    assert!(!controls.undo);

    document.focus_next();
    assert_eq!(block_summary(&document), "A paragraph that is rather long, longer \u{2026}");
    assert!(document.append_to_focused_draft("!"));
    assert_eq!(draft_label(&document), "draft pending");
    assert!(surface_controls(&document).undo);
    assert_eq!(focused_block_number(&document), "#2");

    let rows = heading_rows(&document);
    assert_eq!(rows.len(), 1);
    assert_eq!(rows[0].block_index, 0);
    assert_eq!(rows[0].level, 1);
    assert_eq!(rows[0].title, "Title");
}

#[test]
fn span_colors_follow_the_syntax_theme() {
    let theme = Theme::sola_dark();
    assert_eq!(span_color(HighlightKind::Keyword, &theme), "#c678dd");
    assert_eq!(span_color(HighlightKind::TypeName, &theme), "#e5c07b");
    assert_eq!(span_color(HighlightKind::Other, &theme), "#f3f4f6");

    let h1 = blurred_text_style(&BlockKind::Heading { level: 1 }, &theme);
    assert_eq!((h1.size_percent, h1.bold, h1.color.as_str()), (200, true, "#f3f4f6"));
    let h5 = blurred_text_style(&BlockKind::Heading { level: 5 }, &theme);
    assert_eq!(h5.size_percent, 110);
    let quote = blurred_text_style(&BlockKind::Quote, &theme);
    assert_eq!((quote.size_percent, quote.bold, quote.color.as_str()), (100, false, "#94a3b8"));
}
