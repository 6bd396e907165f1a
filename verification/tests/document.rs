use sola::blocks::{BlockKind, TypstAdapter};
use sola::document::DocumentModel;
use sola::html::{HtmlAdapter, HtmlImage, HtmlNode, HtmlStyledText};

#[test]
fn markdown_parser_produces_blocks_for_common_types() {
    let document = DocumentModel::from_markdown(
        r#"# Title

Paragraph

- item

> quote

```rust
fn main() {}
```
"#,
    );

    assert!(!document.blocks().is_empty());
    assert!(matches!(
        document.blocks()[0].kind,
        BlockKind::Heading { level: 1 }
    ));
    assert!(
        document
            .blocks()
            .iter()
            .any(|block| matches!(block.kind, BlockKind::CodeFence { .. }))
    );
}

#[test]
fn outline_comes_from_pulldown_cmark() {
    let document = DocumentModel::from_markdown("# A\n\n## B\n\nText");

    assert_eq!(document.outline().len(), 2);
    assert_eq!(document.outline()[0].title, "A");
    assert_eq!(document.outline()[1].level, 2);
}

#[test]
fn focus_block_bounds_are_checked() {
    let mut document = DocumentModel::from_markdown("# A\n\nText");

    assert!(document.focus_block(1));
    assert_eq!(document.focused_block(), 1);
    assert!(!document.focus_block(99));
    assert_eq!(document.focused_block(), 1);
}

#[test]
fn focus_navigation_moves_between_blocks() {
    let mut document = DocumentModel::from_markdown("# A\n\nText\n\n- item");

    assert_eq!(document.block_count(), 3);
    assert!(document.focus_next());
    assert_eq!(document.focused_block(), 1);
    assert!(document.focus_next());
    assert_eq!(document.focused_block(), 2);
    assert!(!document.focus_next());
    assert!(document.focus_previous());
    assert_eq!(document.focused_block(), 1);
}

#[test]
fn focused_draft_can_be_applied() {
    let mut document = DocumentModel::from_markdown("# Title\n\nParagraph");

    assert!(document.focus_block(1));
    assert!(document.set_focused_draft("Paragraph edited".to_string()));
    assert!(document.focused_has_draft());
    assert_eq!(document.focused_text(), Some("Paragraph edited"));
    assert!(document.apply_focused_draft());
    assert!(!document.focused_has_draft());
    assert_eq!(document.blocks()[1].rendered, "Paragraph edited");
    assert!(document.source().contains("Paragraph edited"));
}

#[test]
fn focused_draft_can_be_reverted() {
    let mut document = DocumentModel::from_markdown("# Title\n\nParagraph");

    assert!(document.focus_block(1));
    assert!(document.append_to_focused_draft("\nprototype edit"));
    assert!(document.focused_has_draft());
    assert!(document.revert_focused_draft());
    assert!(!document.focused_has_draft());
    assert_eq!(document.focused_text(), Some("Paragraph"));
}

#[test]
fn focused_draft_can_be_typed_and_backspaced() {
    let mut document = DocumentModel::from_markdown("# Title\n\nParagraph");

    assert!(document.focus_block(1));
    assert!(document.move_cursor_right(false));
    assert!(document.move_cursor_right(false));
    assert!(document.move_cursor_right(false));
    assert!(document.move_cursor_right(false));
    assert!(document.move_cursor_right(false));
    assert!(document.move_cursor_right(false));
    assert!(document.move_cursor_right(false));
    assert!(document.move_cursor_right(false));
    assert!(document.move_cursor_right(false));

    assert!(document.push_char_to_focused_draft('!'));
    assert_eq!(document.focused_text(), Some("Paragraph!"));
    assert!(document.delete_at_cursor_in_focused_draft());
    assert_eq!(document.focused_text(), Some("Paragraph"));
}

#[test]
fn cursor_navigation_and_selection() {
    let mut document = DocumentModel::from_markdown("ABC");
    assert_eq!(document.focused_cursor().unwrap().head, 0);

    assert!(document.move_cursor_right(false));
    assert_eq!(document.focused_cursor().unwrap().head, 1);

    assert!(document.move_cursor_right(true));
    assert_eq!(document.focused_cursor().unwrap().head, 2);
    assert_eq!(document.focused_cursor().unwrap().anchor, Some(1));

    assert!(document.push_char_to_focused_draft('X'));
    assert_eq!(document.focused_text(), Some("AXC"));
    assert_eq!(document.focused_cursor().unwrap().head, 2);
    assert_eq!(document.focused_cursor().unwrap().anchor, None);
}

#[test]
fn select_all_works() {
    let mut document = DocumentModel::from_markdown("Hello");
    assert!(document.select_all());
    let cursor = document.focused_cursor().unwrap();
    assert_eq!(cursor.anchor, Some(0));
    assert_eq!(cursor.head, 5);
}

#[test]
fn paragraph_can_be_inserted_after_focus() {
    let mut document = DocumentModel::from_markdown("# Title\n\nParagraph");

    assert!(document.insert_paragraph_after_focused("Inserted paragraph"));
    assert_eq!(document.block_count(), 3);
    assert_eq!(document.focused_block(), 1);
    assert_eq!(document.blocks()[1].rendered, "Inserted paragraph");
}

#[test]
fn focused_block_can_be_duplicated() {
    let mut document = DocumentModel::from_markdown("# Title\n\nParagraph");

    assert!(document.focus_block(1));
    assert!(document.duplicate_focused_block());
    assert_eq!(document.block_count(), 3);
    assert_eq!(document.focused_block(), 2);
    assert_eq!(document.blocks()[2].rendered, "Paragraph");
}

#[test]
fn focused_block_can_be_deleted_when_more_than_one_block_exists() {
    let mut document = DocumentModel::from_markdown("# Title\n\nParagraph");

    assert!(document.focus_block(1));
    assert!(document.delete_focused_block());
    assert_eq!(document.block_count(), 1);
    assert_eq!(document.focused_block(), 0);
    assert_eq!(document.blocks()[0].rendered, "Title");
}

#[test]
fn undo_and_redo_restore_focused_draft_edits() {
    let mut document = DocumentModel::from_markdown("# Title\n\nParagraph");

    assert!(document.focus_block(1));
    assert!(document.append_to_focused_draft("!"));
    assert_eq!(document.focused_text(), Some("Paragraph!"));
    assert!(document.can_undo());

    assert!(document.undo());
    assert_eq!(document.focused_text(), Some("Paragraph"));
    assert!(!document.focused_has_draft());
    assert!(document.can_redo());

    assert!(document.redo());
    assert_eq!(document.focused_text(), Some("Paragraph!"));
    assert!(document.focused_has_draft());
}

#[test]
fn undo_and_redo_restore_structural_edits() {
    let mut document = DocumentModel::from_markdown("# Title\n\nParagraph");

    assert!(document.focus_block(1));
    assert!(document.duplicate_focused_block());
    assert_eq!(document.block_count(), 3);
    assert_eq!(document.focused_block(), 2);

    assert!(document.undo());
    assert_eq!(document.block_count(), 2);
    assert_eq!(document.focused_block(), 1);
    assert_eq!(document.blocks()[1].rendered, "Paragraph");

    assert!(document.redo());
    assert_eq!(document.block_count(), 3);
    assert_eq!(document.focused_block(), 2);
    assert_eq!(document.blocks()[2].rendered, "Paragraph");
}

#[test]
fn new_edit_clears_redo_history() {
    let mut document = DocumentModel::from_markdown("# Title\n\nParagraph");

    assert!(document.focus_block(1));
    assert!(document.append_to_focused_draft("!"));
    assert!(document.undo());
    assert!(document.can_redo());

    assert!(document.append_to_focused_draft("?"));
    assert!(!document.can_redo());
    assert_eq!(document.focused_text(), Some("Paragraph?"));
}

#[test]
fn html_adapter_extracts_safe_span_and_image_metadata() {
    let document = DocumentModel::from_markdown(
        "Intro <span style=\"color: #ff6600; font-size: 18px\">warm text</span> tail <img src=\"diagram.png\" alt=\"Diagram\" width=\"320\" />",
    );

    let Some(HtmlAdapter::Adapted { nodes }) = &document.blocks()[0].html else {
        panic!("expected adapted html metadata");
    };

    assert_eq!(
        document.blocks()[0].rendered,
        "Intro warm text tail [image: Diagram]"
    );
    assert!(matches!(&nodes[0], HtmlNode::Text(text) if text == "Intro "));
    assert!(matches!(
        &nodes[1],
        HtmlNode::StyledText(HtmlStyledText {
            text,
            color: Some(color),
            font_size_px: Some(18),
        }) if text == "warm text" && color == "#ff6600"
    ));
    assert!(matches!(
        &nodes[3],
        HtmlNode::Image(HtmlImage {
            src: Some(src),
            alt: Some(alt),
            width_px: Some(320),
        }) if src == "diagram.png" && alt == "Diagram"
    ));
}

#[test]
fn unsupported_html_is_marked_for_degraded_preview() {
    let document = DocumentModel::from_markdown("<table><tr><td>cell</td></tr></table>");

    let Some(HtmlAdapter::Unsupported { raw }) = &document.blocks()[0].html else {
        panic!("expected unsupported html marker");
    };

    assert_eq!(raw, "<table><tr><td>cell</td></tr></table>");
    assert_eq!(
        document.blocks()[0].rendered,
        "<table><tr><td>cell</td></tr></table>"
    );
}

#[test]
fn markdown_parser_recognizes_math_and_typst_blocks() {
    let document = DocumentModel::from_markdown(
        r#"$$
x^2 + y^2
$$

```typst
#set text(fill: red)
Hello
```"#,
    );

    assert_eq!(document.blocks().len(), 2);
    assert_eq!(document.blocks()[0].kind.label(), "math");
    assert_eq!(document.blocks()[0].rendered, "x^2 + y^2");
    assert_eq!(document.blocks()[1].kind.label(), "typst");
    assert_eq!(document.blocks()[1].rendered, "#set text(fill: red)\nHello");
}

#[test]
fn markdown_parser_supports_single_line_math_blocks() {
    let document = DocumentModel::from_markdown("$$e^(i pi) + 1 = 0$$");

    assert_eq!(document.blocks().len(), 1);
    assert_eq!(document.blocks()[0].kind.label(), "math");
    assert_eq!(document.blocks()[0].rendered, "e^(i pi) + 1 = 0");
}

#[test]
fn math_and_typst_blocks_start_with_pending_render_state() {
    let document = DocumentModel::from_markdown(
        r#"$$a + b$$

```typst
#let accent = blue
accent
```

```rust
fn main() {}
```"#,
    );

    assert!(matches!(
        document.blocks()[0].typst,
        Some(TypstAdapter::Pending)
    ));
    assert!(matches!(
        document.blocks()[1].typst,
        Some(TypstAdapter::Pending)
    ));
    assert!(document.blocks()[2].typst.is_none());
}

#[test]
fn rebuild_metadata_reinitializes_pending_typst_state() {
    let mut document = DocumentModel::from_markdown("$$a + b$$");
    document.focused_block_mut().unwrap().typst = None;

    assert!(document.insert_paragraph_after_focused("tail paragraph"));
    assert!(matches!(
        document.blocks()[0].typst,
        Some(TypstAdapter::Pending)
    ));
    assert!(document.blocks()[1].typst.is_none());
}

#[test]
fn inline_math_paragraph_like_blocks_start_with_pending_render_state() {
    let document = DocumentModel::from_markdown(
        r#"Paragraph with $a + b$ inline math.

- List item with $c + d$

> Quote with $e + f$

Plain paragraph without math."#,
    );

    assert!(matches!(
        document.blocks()[0].typst,
        Some(TypstAdapter::Pending)
    ));
    assert!(matches!(
        document.blocks()[1].typst,
        Some(TypstAdapter::Pending)
    ));
    assert!(matches!(
        document.blocks()[2].typst,
        Some(TypstAdapter::Pending)
    ));
    assert!(document.blocks()[3].typst.is_none());
}

#[test]
fn rebuild_metadata_reinitializes_pending_inline_math_state() {
    let mut document = DocumentModel::from_markdown("Paragraph with $a + b$ inline math.");
    document.focused_block_mut().unwrap().typst = None;

    assert!(document.insert_paragraph_after_focused("tail paragraph"));
    assert!(matches!(
        document.blocks()[0].typst,
        Some(TypstAdapter::Pending)
    ));
    assert!(document.blocks()[1].typst.is_none());
}

#[test]
fn rebuild_metadata_preserves_rendered_typst_state_when_source_is_unchanged() {
    let mut document = DocumentModel::from_markdown("$$a + b$$");
    document.focused_block_mut().unwrap().typst = Some(TypstAdapter::Rendered {
        svg: "<svg>stable</svg>".to_string(),
    });

    assert!(document.insert_paragraph_after_focused("tail paragraph"));
    assert!(matches!(
        document.blocks()[0].typst,
        Some(TypstAdapter::Rendered { ref svg }) if svg == "<svg>stable</svg>"
    ));
}

#[test]
fn rebuild_metadata_preserves_error_typst_state_when_source_is_unchanged() {
    let mut document = DocumentModel::from_markdown("Paragraph with $a + b$ inline math.");
    document.focused_block_mut().unwrap().typst = Some(TypstAdapter::Error {
        message: "bad typst".to_string(),
    });

    assert!(document.insert_paragraph_after_focused("tail paragraph"));
    assert!(matches!(
        document.blocks()[0].typst,
        Some(TypstAdapter::Error { ref message }) if message == "bad typst"
    ));
}

#[test]
fn duplicate_focused_block_preserves_rendered_typst_state() {
    let mut document = DocumentModel::from_markdown("$$a + b$$");
    document.focused_block_mut().unwrap().typst = Some(TypstAdapter::Rendered {
        svg: "<svg>stable</svg>".to_string(),
    });

    assert!(document.duplicate_focused_block());
    assert!(matches!(
        document.blocks()[1].typst,
        Some(TypstAdapter::Rendered { ref svg }) if svg == "<svg>stable</svg>"
    ));
}

#[test]
fn duplicate_focused_block_preserves_error_typst_state() {
    let mut document = DocumentModel::from_markdown("Paragraph with $a + b$ inline math.");
    document.focused_block_mut().unwrap().typst = Some(TypstAdapter::Error {
        message: "bad typst".to_string(),
    });

    assert!(document.duplicate_focused_block());
    assert!(matches!(
        document.blocks()[1].typst,
        Some(TypstAdapter::Error { ref message }) if message == "bad typst"
    ));
}

#[test]
fn escaped_dollar_does_not_trigger_inline_math_render_state() {
    let document = DocumentModel::from_markdown(r#"Price is \$42 today."#);

    assert!(document.blocks()[0].typst.is_none());
}

#[test]
fn set_focused_cursor_clamps_to_text_bounds() {
    let mut document = DocumentModel::from_markdown("Hello");

    assert!(document.set_focused_cursor(999, false));
    let cursor = document.focused_cursor().unwrap();
    assert_eq!(cursor.head, 5);
    assert_eq!(cursor.anchor, None);
}

#[test]
fn shift_set_focused_cursor_keeps_selection_anchor() {
    let mut document = DocumentModel::from_markdown("Hello");

    assert!(document.move_cursor_right(false));
    assert!(document.set_focused_cursor(4, true));

    let cursor = document.focused_cursor().unwrap();
    assert_eq!(cursor.head, 4);
    assert_eq!(cursor.anchor, Some(1));
}

#[test]
fn cursor_moves_vertically_across_explicit_lines() {
    let mut document = DocumentModel::from_markdown("abc\ndef\nghij");

    assert!(document.move_cursor_right(false));
    assert!(document.move_cursor_right(false));
    assert_eq!(document.focused_cursor().unwrap().head, 2);

    assert!(document.move_cursor_down(false));
    assert_eq!(document.focused_cursor().unwrap().head, 6);

    assert!(document.move_cursor_down(false));
    assert_eq!(document.focused_cursor().unwrap().head, 10);

    assert!(document.move_cursor_up(false));
    assert_eq!(document.focused_cursor().unwrap().head, 6);
}

#[test]
fn cursor_vertical_move_clamps_to_shorter_line_length() {
    let mut document = DocumentModel::from_markdown("ab\ncdef");

    assert!(document.move_cursor_down(false));
    assert!(document.move_cursor_right(false));
    assert!(document.move_cursor_right(false));
    assert!(document.move_cursor_right(false));
    assert_eq!(document.focused_cursor().unwrap().head, 6);

    assert!(document.move_cursor_up(false));
    assert_eq!(document.focused_cursor().unwrap().head, 2);
}

#[test]
fn shift_cursor_vertical_move_extends_selection() {
    let mut document = DocumentModel::from_markdown("ab\ncd");

    assert!(document.move_cursor_right(false));
    assert!(document.move_cursor_down(true));

    let cursor = document.focused_cursor().unwrap();
    assert_eq!(cursor.head, 4);
    assert_eq!(cursor.anchor, Some(1));
}

#[test]
fn ids_stats_and_drafts_stay_consistent_across_edits() {
    let mut document = DocumentModel::from_markdown("# Title\n\nParagraph\n\n- item\n\n> quote");
    assert!(document.focus_block(1));
    assert!(document.duplicate_focused_block());
    assert!(document.insert_paragraph_after_focused("More"));
    assert!(document.set_focused_draft("Changed".to_string()));
    assert!(document.set_focused_draft("More".to_string()));
    assert!(document.focus_block(0));
    assert!(document.delete_focused_block());
    assert!(document.undo());
    for (i, block) in document.blocks().iter().enumerate() {
        assert_eq!(block.id, i);
        assert_ne!(block.draft.as_ref(), Some(&block.source));
    }
    let stats = document.stats();
    assert_eq!(stats.headings, 1);
    assert_eq!(stats.paragraphs, 3);
    assert_eq!(stats.list_items, 1);
    assert_eq!(stats.quotes, 1);
    assert_eq!(stats.code_blocks, 0);
}
