use sola::highlight::{highlight_found, kind_of_capture, Capture, HighlightKind, SyntaxHighlighter};

#[test]
fn rust_highlighter_extracts_keywords_and_strings() {
    let highlighter = SyntaxHighlighter::new_rust();
    let code = r#"fn main() { let x = "hello"; }"#;
    let spans = highlighter.highlight(code);

    assert!(
        spans
            .iter()
            .any(|s| s.kind == HighlightKind::Keyword && s.text == "fn")
    );
    assert!(
        spans
            .iter()
            .any(|s| s.kind == HighlightKind::Keyword && s.text == "let")
    );
    assert!(
        spans
            .iter()
            .any(|s| s.kind == HighlightKind::String && s.text == "\"hello\"")
    );
    assert!(
        spans
            .iter()
            .any(|s| s.kind == HighlightKind::Function && s.text == "main")
    );
}

#[test]
fn highlighted_spans_cover_the_text_in_order() {
    let highlighter = SyntaxHighlighter::new_rust();
    let code = "struct Point { x: u32 } // done\nfn f() -> u32 { 42 }";
    let spans = highlighter.highlight(code);
    let joined: String = spans.iter().map(|s| s.text.as_str()).collect();
    assert_eq!(joined, code);
    assert!(spans.iter().any(|s| s.kind == HighlightKind::TypeName && s.text == "Point"));
    assert!(spans.iter().any(|s| s.kind == HighlightKind::Comment && s.text == "// done"));
    assert!(spans.iter().any(|s| s.kind == HighlightKind::Number && s.text == "42"));
}

#[test]
fn empty_text_has_no_spans() {
    let highlighter = SyntaxHighlighter::new_rust();
    assert!(highlighter.highlight("").is_empty());
}

#[test]
fn capture_names_map_to_kinds() {
    assert_eq!(kind_of_capture("keyword"), HighlightKind::Keyword);
    assert_eq!(kind_of_capture("type_name"), HighlightKind::TypeName);
    assert_eq!(kind_of_capture("constant"), HighlightKind::Constant);
    assert_eq!(kind_of_capture("variable"), HighlightKind::Other);
}

fn cap(start: usize, end: usize, name: &str) -> Capture {
    Capture { start, end, name: name.to_string() }
}

#[test]
fn found_captures_are_ordered_by_start_before_spans_are_cut() {
    let spans = highlight_found("fn x 1", Some(vec![cap(5, 6, "number"), cap(0, 2, "keyword")]));
    let got: Vec<(&str, HighlightKind)> = spans.iter().map(|s| (s.text.as_str(), s.kind)).collect();
    assert_eq!(
        got,
        vec![
            ("fn", HighlightKind::Keyword),
            (" x ", HighlightKind::Other),
            ("1", HighlightKind::Number),
        ]
    );
}

#[test]
fn captures_past_the_text_fall_back_to_plain_text() {
    let spans = highlight_found("let", Some(vec![cap(0, 9, "keyword")]));
    assert_eq!(spans.len(), 1);
    assert_eq!(spans[0].text, "let");
    assert_eq!(spans[0].kind, HighlightKind::Other);
}

#[test]
fn nothing_found_gives_the_text_as_one_plain_span() {
    let spans = highlight_found("a + b", None);
    assert_eq!(spans.len(), 1);
    assert_eq!(spans[0].text, "a + b");
    assert_eq!(spans[0].kind, HighlightKind::Other);
}
