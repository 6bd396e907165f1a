//! Exporting a document: its Markdown source as is, or an HTML page whose
//! body pulldown-cmark renders and whose style sheet carries the theme.
use vstd::prelude::*;
use crate::document::DocumentModel;
use crate::text::{decimal, decimal_u16, string_from};
use crate::theme::Theme;

verus! {

/// What a document is exported as.
#[derive(Debug, Clone, Copy, PartialEq, Eq, Structural)]
pub enum ExportFormat {
    Markdown,
    Html,
}

/// An exported file: its format, MIME type, file extension and contents.
#[derive(Debug, Clone, PartialEq, Eq)]
pub struct ExportArtifact {
    pub format: ExportFormat,
    pub mime_type: &'static str,
    pub extension: &'static str,
    pub bytes: Vec<u8>,
}

pub const MARKDOWN_MIME: &'static str = "text/markdown; charset=utf-8";

pub const HTML_MIME: &'static str = "text/html; charset=utf-8";

pub const MARKDOWN_EXTENSION: &'static str = "md";

pub const HTML_EXTENSION: &'static str = "html";

pub const HTML_HEAD: &'static str = r##"<!DOCTYPE html>
<html lang="en">
<head>
  <meta charset="utf-8">
  <meta name="viewport" content="width=device-width, initial-scale=1">
  <title>Sola Export</title>
  <style>
    :root {
      --app-background: "##;

pub const SEP_PANEL_BACKGROUND: &'static str = ";\n      --panel-background: ";

pub const SEP_PANEL_BORDER: &'static str = ";\n      --panel-border: ";

pub const SEP_TEXT_PRIMARY: &'static str = ";\n      --text-primary: ";

pub const SEP_TEXT_MUTED: &'static str = ";\n      --text-muted: ";

pub const SEP_ACCENT: &'static str = ";\n      --accent: ";

pub const SEP_CODE_BACKGROUND: &'static str = ";\n      --code-background: ";

pub const SEP_SELECTION: &'static str = ";\n      --selection: ";

pub const SEP_CURSOR: &'static str = ";\n      --cursor: ";

pub const SEP_BODY_SIZE: &'static str = ";\n      --body-size: ";

pub const SEP_TITLE_SIZE: &'static str = "px;\n      --title-size: ";

pub const SEP_CODE_SIZE: &'static str = "px;\n      --code-size: ";

pub const HTML_STYLES: &'static str = r##"px;
    }

    * {
      box-sizing: border-box;
    }

    body {
      margin: 0;
      padding: 48px 24px;
      background: var(--app-background);
      color: var(--text-primary);
      font-size: var(--body-size);
      line-height: 1.6;
      font-family: "Iowan Old Style", "Palatino Linotype", "Book Antiqua", Georgia, serif;
    }

    main {
      max-width: 840px;
      margin: 0 auto;
    }

    h1, h2, h3, h4, h5, h6 {
      color: var(--text-primary);
      line-height: 1.25;
      margin-top: 1.6em;
      margin-bottom: 0.6em;
    }

    h1 {
      font-size: calc(var(--title-size) * 1.4);
    }

    h2 {
      font-size: calc(var(--title-size) * 1.15);
    }

    h3 {
      font-size: var(--title-size);
    }

    p, li, blockquote {
      color: var(--text-primary);
    }

    blockquote {
      margin: 1.25em 0;
      padding-left: 16px;
      border-left: 3px solid var(--accent);
      color: var(--text-muted);
    }

    a {
      color: var(--accent);
    }

    code, pre {
      font-family: "Berkeley Mono", "JetBrains Mono", "SFMono-Regular", Consolas, monospace;
      font-size: var(--code-size);
    }

    code {
      padding: 0.15em 0.35em;
      border-radius: 6px;
      background: var(--panel-background);
    }

    pre {
      overflow-x: auto;
      padding: 16px;
      border: 1px solid var(--panel-border);
      border-radius: 14px;
      background: var(--code-background);
    }

    pre code {
      padding: 0;
      background: transparent;
    }

    img {
      max-width: 100%;
      height: auto;
    }

    hr {
      border: 0;
      border-top: 1px solid var(--panel-border);
      margin: 2em 0;
    }
  </style>
</head>
<body>
  <main>
    "##;

pub const HTML_TAIL: &'static str = "\n  </main>\n</body>\n</html>\n";

/// The HTML pulldown-cmark renders for a Markdown source with every
/// extension enabled.
pub uninterp spec fn cmark_html(source: Seq<char>) -> Seq<char>;

/// Renders Markdown to HTML with `pulldown_cmark::html::push_html` over
/// `pulldown_cmark::Parser::new_ext(source, Options::all())`, into an empty
/// string. The result is named, not stated: it depends on the source alone.
#[verifier::external_body]
fn markdown_to_html(source: &str) -> (r: String)
    ensures
        r@ == cmark_html(source@),
{
    let mut body = String::new();
    pulldown_cmark::html::push_html(
        &mut body,
        pulldown_cmark::Parser::new_ext(source, pulldown_cmark::Options::all()),
    );
    body
}

/// The exported HTML page around a rendered body: the theme's colours and
/// sizes go into the style sheet's custom properties.
pub open spec fn html_page(theme: Theme, body: Seq<char>) -> Seq<char> {
    HTML_HEAD@ + theme.palette.app_background@ + SEP_PANEL_BACKGROUND@ + theme.palette.panel_background@
        + SEP_PANEL_BORDER@ + theme.palette.panel_border@ + SEP_TEXT_PRIMARY@
        + theme.palette.text_primary@ + SEP_TEXT_MUTED@ + theme.palette.text_muted@ + SEP_ACCENT@
        + theme.palette.accent@ + SEP_CODE_BACKGROUND@ + theme.palette.code_background@
        + SEP_SELECTION@ + theme.palette.selection@ + SEP_CURSOR@ + theme.palette.cursor@
        + SEP_BODY_SIZE@ + decimal(theme.typography.body_size as nat) + SEP_TITLE_SIZE@ + decimal(
        theme.typography.title_size as nat,
    ) + SEP_CODE_SIZE@ + decimal(theme.typography.code_size as nat) + HTML_STYLES@ + body
        + HTML_TAIL@
}

/// The HTML page of a rendered body under a theme.
pub fn html_page_of(theme: &Theme, body: &str) -> (r: String)
    ensures
        r@ == html_page(*theme, body@),
{
    let p = &theme.palette;
    let t = &theme.typography;
    let mut out = string_from(HTML_HEAD);
    out.append(p.app_background.as_str());
    out.append(SEP_PANEL_BACKGROUND);
    out.append(p.panel_background.as_str());
    out.append(SEP_PANEL_BORDER);
    out.append(p.panel_border.as_str());
    out.append(SEP_TEXT_PRIMARY);
    out.append(p.text_primary.as_str());
    out.append(SEP_TEXT_MUTED);
    out.append(p.text_muted.as_str());
    out.append(SEP_ACCENT);
    out.append(p.accent.as_str());
    out.append(SEP_CODE_BACKGROUND);
    out.append(p.code_background.as_str());
    out.append(SEP_SELECTION);
    out.append(p.selection.as_str());
    out.append(SEP_CURSOR);
    out.append(p.cursor.as_str());
    out.append(SEP_BODY_SIZE);
    out.append(decimal_u16(t.body_size).as_str());
    out.append(SEP_TITLE_SIZE);
    out.append(decimal_u16(t.title_size).as_str());
    out.append(SEP_CODE_SIZE);
    out.append(decimal_u16(t.code_size).as_str());
    out.append(HTML_STYLES);
    out.append(body);
    out.append(HTML_TAIL);
    out
}

/// What `export_document` writes for each format.
pub open spec fn export_bytes(source: Seq<char>, theme: Theme, format: ExportFormat) -> Seq<u8> {
    match format {
        ExportFormat::Markdown => vstd::utf8::encode_utf8(source),
        ExportFormat::Html => vstd::utf8::encode_utf8(html_page(theme, cmark_html(source))),
    }
}

/// Exports a document as Markdown (its source, byte for byte) or as a
/// themed HTML page.
pub fn export_document(document: &DocumentModel, theme: &Theme, format: ExportFormat) -> (r: ExportArtifact)
    ensures
        r.format == format,
        r.mime_type@ == (match format {
            ExportFormat::Markdown => MARKDOWN_MIME@,
            ExportFormat::Html => HTML_MIME@,
        }),
        r.extension@ == (match format {
            ExportFormat::Markdown => MARKDOWN_EXTENSION@,
            ExportFormat::Html => HTML_EXTENSION@,
        }),
        r.bytes@ == export_bytes(document@.current.source, *theme, format),
{
    match format {
        ExportFormat::Markdown => ExportArtifact {
            format,
            mime_type: MARKDOWN_MIME,
            extension: MARKDOWN_EXTENSION,
            bytes: vstd::slice::slice_to_vec(document.source().as_bytes()),
        },
        ExportFormat::Html => {
            let body = markdown_to_html(document.source());
            let page = html_page_of(theme, body.as_str());
            ExportArtifact {
                format,
                mime_type: HTML_MIME,
                extension: HTML_EXTENSION,
                bytes: vstd::slice::slice_to_vec(page.as_str().as_bytes()),
            }
        },
    }
}

} // verus!
