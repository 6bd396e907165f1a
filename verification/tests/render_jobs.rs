use sola::blocks::TypstAdapter;
use sola::document::DocumentModel;
use sola::render_jobs::{
    apply_cached_typst_adapter, apply_completed_typst_work, apply_typst_result, plan_block_click,
    should_start_typst_compile, truncate_for_pill, typst_adapter_from_result, typst_cache_key,
    typst_jobs, typst_render_request, x11_socket_path, BlockClickPlan,
};
use sola::typst::{compile_to_svg, RenderKind, TypstError};

#[test]
fn typst_render_request_maps_supported_blocks_to_jobs() {
    let math = DocumentModel::from_markdown("$$a + b$$");
    let typst = DocumentModel::from_markdown(
        r#"```typst
#set text(fill: red)
Hello
```"#,
    );
    let plain = DocumentModel::from_markdown("plain paragraph");

    let Some((math_kind, math_source)) = typst_render_request(&math.blocks()[0]) else {
        panic!("expected math render request");
    };
    assert!(matches!(math_kind, RenderKind::Math));
    assert_eq!(math_source, "a + b");

    let Some((typst_kind, typst_source)) = typst_render_request(&typst.blocks()[0]) else {
        panic!("expected typst render request");
    };
    assert!(matches!(typst_kind, RenderKind::Block));
    assert_eq!(typst_source, "#set text(fill: red)\nHello");

    assert!(typst_render_request(&plain.blocks()[0]).is_none());
}

#[test]
fn apply_typst_result_updates_block_render_state() {
    let mut document = DocumentModel::from_markdown("$$a + b$$");
    let block = document.focused_block_mut().unwrap();

    assert!(apply_typst_result(block, Ok("<svg />".to_string())));
    assert!(matches!(
        block.typst,
        Some(TypstAdapter::Rendered { ref svg }) if svg == "<svg />"
    ));

    assert!(apply_typst_result(
        block,
        Err(TypstError::Compile("bad typst".to_string()))
    ));
    assert!(matches!(
        block.typst,
        Some(TypstAdapter::Error { ref message }) if message.contains("bad typst")
    ));
}

#[test]
fn typst_render_request_maps_inline_math_paragraphs_to_block_jobs() {
    let document = DocumentModel::from_markdown("Paragraph with $a + b$ inline math.");

    let Some((kind, source)) = typst_render_request(&document.blocks()[0]) else {
        panic!("expected inline math render request");
    };

    assert!(matches!(kind, RenderKind::Block));
    assert_eq!(source, "Paragraph with $a + b$ inline math.");
}

#[test]
fn typst_cache_key_distinguishes_render_kind() {
    assert_ne!(
        typst_cache_key(&RenderKind::Math, "x + y"),
        typst_cache_key(&RenderKind::Block, "x + y")
    );
    assert_eq!(
        typst_cache_key(&RenderKind::Math, "x + y"),
        typst_cache_key(&RenderKind::Math, "x + y")
    );
}

#[test]
fn typst_adapter_from_result_maps_success_and_error() {
    assert!(matches!(
        typst_adapter_from_result(Ok("<svg />".to_string())),
        TypstAdapter::Rendered { ref svg } if svg == "<svg />"
    ));
    assert!(matches!(
        typst_adapter_from_result(Err(TypstError::Compile("bad typst".to_string()))),
        TypstAdapter::Error { ref message } if message.contains("bad typst")
    ));
}

#[test]
fn should_start_typst_compile_skips_cached_and_inflight_keys() {
    let key = typst_cache_key(&RenderKind::Math, "x + y");
    let mut cache: Vec<String> = Vec::new();
    let mut in_flight: Vec<String> = Vec::new();

    assert!(should_start_typst_compile(&cache, &in_flight, &key));

    cache.push(key.clone());
    assert!(!should_start_typst_compile(&cache, &in_flight, &key));

    cache.clear();
    in_flight.push(key.clone());
    assert!(!should_start_typst_compile(&cache, &in_flight, &key));
}

#[test]
fn apply_cached_typst_adapter_updates_all_matching_pending_blocks() {
    let mut document = DocumentModel::from_markdown(
        r#"$$a + b$$

$$a + b$$

$$c + d$$"#,
    );

    let key = typst_cache_key(&RenderKind::Math, "a + b");
    let updated = apply_cached_typst_adapter(
        &mut document,
        &key,
        TypstAdapter::Rendered {
            svg: "<svg>stable</svg>".to_string(),
        },
    );

    assert_eq!(updated, 2);
    assert!(matches!(
        document.blocks()[0].typst,
        Some(TypstAdapter::Rendered { ref svg }) if svg == "<svg>stable</svg>"
    ));
    assert!(matches!(
        document.blocks()[1].typst,
        Some(TypstAdapter::Rendered { ref svg }) if svg == "<svg>stable</svg>"
    ));
    assert!(matches!(
        document.blocks()[2].typst,
        Some(TypstAdapter::Pending)
    ));
}

#[test]
fn apply_completed_typst_work_still_updates_matching_peers_when_origin_changed() {
    let mut document = DocumentModel::from_markdown(
        r#"$$a + b$$

$$a + b$$"#,
    );

    document.focus_block(0);
    document.focused_block_mut().unwrap().source = "$$changed$$".to_string();
    document.focused_block_mut().unwrap().rendered = "changed".to_string();
    document.focused_block_mut().unwrap().typst = Some(TypstAdapter::Pending);

    let updated = apply_completed_typst_work(
        &mut document,
        &typst_cache_key(&RenderKind::Math, "a + b"),
        0,
        "$$a + b$$",
        TypstAdapter::Rendered {
            svg: "<svg>stable</svg>".to_string(),
        },
    );

    assert_eq!(updated, 1);
    assert!(matches!(
        document.blocks()[0].typst,
        Some(TypstAdapter::Pending)
    ));
    assert!(matches!(
        document.blocks()[1].typst,
        Some(TypstAdapter::Rendered { ref svg }) if svg == "<svg>stable</svg>"
    ));
}

#[test]
fn plan_block_click_keeps_focus_refresh_for_same_block() {
    assert_eq!(
        plan_block_click(2, 2, true),
        BlockClickPlan {
            apply_draft: false,
            switch_block_focus: false,
            refresh_window_focus: true,
        }
    );
    assert_eq!(
        plan_block_click(1, 3, true),
        BlockClickPlan {
            apply_draft: true,
            switch_block_focus: true,
            refresh_window_focus: true,
        }
    );
}

#[test]
fn cache_keys_are_prefixed_by_render_kind() {
    assert_eq!(typst_cache_key(&RenderKind::Math, "x + y"), "math::x + y");
    assert_eq!(typst_cache_key(&RenderKind::Block, "#set"), "block::#set");
}

#[test]
fn error_messages_name_the_failure_kind() {
    assert_eq!(
        TypstError::Compile("bad".to_string()).message(),
        "Compilation failed: bad"
    );
    assert_eq!(
        TypstError::Internal("oops".to_string()).message(),
        "Internal error: oops"
    );
}

#[test]
fn apply_typst_result_leaves_non_rendering_blocks_alone() {
    let mut document = DocumentModel::from_markdown("plain paragraph");
    let block = document.focused_block_mut().unwrap();
    assert!(!apply_typst_result(block, Ok("<svg />".to_string())));
    assert!(block.typst.is_none());
}

#[test]
fn typst_jobs_list_pending_blocks_in_order() {
    let document = DocumentModel::from_markdown("$$a + b$$\n\nplain\n\nText with $x$ math.");
    let jobs = typst_jobs(&document);
    assert_eq!(jobs.len(), 2);
    assert_eq!(jobs[0].index, 0);
    assert_eq!(jobs[0].source, "a + b");
    assert_eq!(jobs[0].cache_key, "math::a + b");
    assert_eq!(jobs[1].index, 2);
    assert!(matches!(jobs[1].kind, RenderKind::Block));
    assert_eq!(jobs[1].cache_key, "block::Text with $x$ math.");
}

#[test]
fn truncate_for_pill_adds_ellipsis_only_when_cut() {
    assert_eq!(truncate_for_pill("short", 10), "short");
    assert_eq!(truncate_for_pill("abcdef", 3), "abc\u{2026}");
    assert_eq!(truncate_for_pill("abc", 3), "abc");
}

#[test]
fn x11_socket_path_reads_the_display_number() {
    assert_eq!(x11_socket_path(":0").as_deref(), Some("/tmp/.X11-unix/X0"));
    assert_eq!(x11_socket_path("  :12.0 ").as_deref(), Some("/tmp/.X11-unix/X12"));
    assert_eq!(x11_socket_path("host:1"), None);
    assert_eq!(x11_socket_path(":"), None);
}

#[test]
fn compile_to_svg_renders_the_empty_image() {
    assert_eq!(compile_to_svg("x", RenderKind::Math).unwrap(), "<svg></svg>");
}
