use sola::document::DocumentModel;
use sola::export::{export_document, html_page_of, ExportFormat};
use sola::theme::Theme;

#[test]
fn markdown_export_returns_current_document_source() {
    let document = DocumentModel::from_markdown("# Title\n\nParagraph");
    let artifact = export_document(&document, &Theme::sola_dark(), ExportFormat::Markdown);

    assert_eq!(artifact.format, ExportFormat::Markdown);
    assert_eq!(artifact.mime_type, "text/markdown; charset=utf-8");
    assert_eq!(artifact.extension, "md");
    assert_eq!(
        String::from_utf8(artifact.bytes).unwrap(),
        "# Title\n\nParagraph"
    );
}

#[test]
fn html_export_wraps_markdown_body_with_theme_styles() {
    let document = DocumentModel::from_markdown(
        "# Title\n\nParagraph with `code`.\n\n```rust\nfn main() {}\n```",
    );
    let artifact = export_document(&document, &Theme::sola_dark(), ExportFormat::Html);
    let html = String::from_utf8(artifact.bytes).unwrap();

    assert_eq!(artifact.format, ExportFormat::Html);
    assert_eq!(artifact.mime_type, "text/html; charset=utf-8");
    assert_eq!(artifact.extension, "html");
    assert!(html.contains("<!DOCTYPE html>"));
    assert!(html.contains("<h1>Title</h1>"));
    assert!(html.contains("Paragraph with <code>code</code>."));
    assert!(html.contains("language-rust"));
    assert!(html.contains(&Theme::sola_dark().palette.app_background));
}

#[test]
fn html_page_carries_theme_sizes_and_body() {
    let page = html_page_of(&Theme::sola_light(), "<p>x</p>");
    assert!(page.starts_with("<!DOCTYPE html>\n<html lang=\"en\">"));
    assert!(page.contains("--app-background: #f8fafc;"));
    assert!(page.contains("--body-size: 15px;"));
    assert!(page.contains("--title-size: 24px;"));
    assert!(page.contains("--code-size: 14px;"));
    assert!(page.contains("<main>\n    <p>x</p>\n  </main>"));
    assert!(page.ends_with("</html>\n"));
}
