use sola::blocks::BlockKind;
use sola::document::DocumentModel;
use sola::editor::{editor_layout_len, generate_editor_blocks, EditorBlock, InlineDecoration};

#[test]
fn test_editor_block_generation() {
    let doc = DocumentModel::from_markdown("# H1\n\nText");

    let blocks = generate_editor_blocks(&doc, Some(0));

    assert_eq!(blocks.len(), 2);
    assert!(blocks[0].is_focused);
    assert!(!blocks[1].is_focused);

    assert_eq!(blocks[0].text, "# H1");
    assert_eq!(blocks[1].text, "Text");
}

#[test]
fn test_editor_block_offset_mapping() {
    let focused = EditorBlock {
        text: "# H1".into(),
        global_start: 0,
        is_focused: true,
        kind: BlockKind::Heading { level: 1 },
        inline_math: vec![],
    };
    assert_eq!(focused.rendered_to_source(2), 2);
    assert_eq!(focused.source_to_rendered(2), 2);

    let blurred = EditorBlock {
        text: "Hello \u{FFFC} world".into(),
        global_start: 0,
        is_focused: false,
        kind: BlockKind::Paragraph,
        inline_math: vec![InlineDecoration {
            start: 6,
            end: 14,
            cache_key: "math::e=mc^2".into(),
        }],
    };
    assert_eq!(blurred.rendered_to_source(0), 0);
    assert_eq!(blurred.rendered_to_source(5), 5);
    assert_eq!(blurred.rendered_to_source(6), 6);
    assert_eq!(blurred.rendered_to_source(7), 14);

    assert_eq!(blurred.source_to_rendered(0), 0);
    assert_eq!(blurred.source_to_rendered(6), 6);
    assert_eq!(blurred.source_to_rendered(10), 6);
    assert_eq!(blurred.source_to_rendered(14), 7);
}

#[test]
fn test_generate_editor_blocks_replaces_inline_math() {
    let source = "Hello $e=mc^2$ world";
    let doc = DocumentModel::from_markdown(source);

    let blocks = generate_editor_blocks(&doc, None);

    assert_eq!(blocks.len(), 1);
    let block = &blocks[0];

    assert_eq!(block.text, "Hello \u{FFFC} world");
    assert_eq!(block.inline_math.len(), 1);
    assert_eq!(block.inline_math[0].start, 6);
    assert_eq!(block.inline_math[0].end, 14);
}

#[test]
fn inline_math_keys_match_render_cache_keys() {
    let doc = DocumentModel::from_markdown("Hello $e=mc^2$ world");
    let blocks = generate_editor_blocks(&doc, None);
    assert_eq!(blocks[0].inline_math[0].cache_key, "math::e=mc^2");
}

#[test]
fn escaped_empty_and_multiline_formulas_are_not_folded() {
    let doc = DocumentModel::from_markdown("Cost \\$5 and $a$");
    let blocks = generate_editor_blocks(&doc, None);
    assert_eq!(blocks[0].inline_math.len(), 1);
    assert_eq!(blocks[0].text, "Cost \\$5 and \u{FFFC}");

    let doc = DocumentModel::from_markdown("a $$ b");
    let blocks = generate_editor_blocks(&doc, None);
    assert_eq!(blocks[0].inline_math.len(), 0);
    assert_eq!(blocks[0].text, "a $$ b");

    let doc = DocumentModel::from_markdown("x $a\nb$ y");
    let blocks = generate_editor_blocks(&doc, None);
    assert_eq!(blocks[0].inline_math.len(), 0);
    assert_eq!(blocks[0].text, "x $a\nb$ y");
}

#[test]
fn blocks_are_laid_out_two_bytes_apart() {
    let doc = DocumentModel::from_markdown("# H1\n\nText\n\nMore");
    let blocks = generate_editor_blocks(&doc, None);
    assert_eq!(blocks[0].global_start, 0);
    assert_eq!(blocks[1].global_start, 6);
    assert_eq!(blocks[2].global_start, 12);
    assert_eq!(editor_layout_len(&doc), Some(18));
}

#[test]
fn global_offsets_find_their_block() {
    let doc = DocumentModel::from_markdown("# H1\n\nText");
    assert_eq!(doc.global_offset_to_block_local(0), Some((0, 0)));
    assert_eq!(doc.global_offset_to_block_local(4), Some((0, 4)));
    assert_eq!(doc.global_offset_to_block_local(5), None);
    assert_eq!(doc.global_offset_to_block_local(6), Some((1, 0)));
    assert_eq!(doc.global_offset_to_block_local(10), Some((1, 4)));
    assert_eq!(doc.global_offset_to_block_local(11), None);
    let blocks = generate_editor_blocks(&doc, Some(8));
    assert!(!blocks[0].is_focused);
    assert!(blocks[1].is_focused);
}

#[test]
fn offset_round_trips_through_the_shown_text() {
    let doc = DocumentModel::from_markdown("a $x+y$ b $z$ c");
    let blocks = generate_editor_blocks(&doc, None);
    let block = &blocks[0];
    assert_eq!(block.text, "a \u{FFFC} b \u{FFFC} c");
    for source in [0usize, 1, 2, 7, 8, 9, 10, 13, 14, 15] {
        let shown = block.source_to_rendered(source);
        assert_eq!(block.rendered_to_source(shown), source);
    }
    for shown in 0usize..9 {
        let source = block.rendered_to_source(shown);
        assert_eq!(block.source_to_rendered(source), shown);
    }
    assert_eq!(block.rendered_to_source(block.source_to_rendered(4)), 2);
}

#[test]
fn global_offsets_map_to_block_local_offsets() {
    let doc = DocumentModel::from_markdown("# Header\n\nParagraph text.");
    assert_eq!(doc.global_offset_to_block_local(0), Some((0, 0)));
    assert_eq!(doc.global_offset_to_block_local(8), Some((0, 8)));
    assert_eq!(doc.global_offset_to_block_local(9), None);
    assert_eq!(doc.global_offset_to_block_local(10), Some((1, 0)));
    assert_eq!(doc.global_offset_to_block_local(11), Some((1, 1)));
}

#[test]
fn block_local_offsets_map_to_global_offsets() {
    let doc = DocumentModel::from_markdown("# Header\n\nParagraph text.");
    assert_eq!(doc.block_local_to_global_offset(0, 0), Some(0));
    assert_eq!(doc.block_local_to_global_offset(0, 8), Some(8));
    assert_eq!(doc.block_local_to_global_offset(1, 0), Some(10));
    assert_eq!(doc.block_local_to_global_offset(0, 9), None);
    assert_eq!(doc.block_local_to_global_offset(2, 0), None);
    for (block, local) in [(0usize, 3usize), (1, 5), (1, 15)] {
        let global = doc.block_local_to_global_offset(block, local).unwrap();
        assert_eq!(doc.global_offset_to_block_local(global), Some((block, local)));
    }
}
