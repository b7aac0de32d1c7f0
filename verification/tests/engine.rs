use md_core::paths::PathStyle;
use md_core::base64::base64_encode;
use md_core::page::{wrap_html, AssetMode, PageOptions};
use md_core::render::{markdown_to_html, render, FileFacts, RenderOptions};
use md_core::uri::has_uri_scheme;
use md_core::viewer::PageLinks;

fn no_files() -> FileFacts {
    FileFacts::new()
}

/// Facts for a folder holding the given files (contents read too).
fn files(entries: &[(&str, &[u8])]) -> FileFacts {
    let mut facts = FileFacts::new();
    for (path, bytes) in entries {
        facts.add(path.to_string(), Some(bytes.to_vec()));
    }
    facts
}

#[test]
fn test_basic_markdown() {
    let md = "# Hello\n\nThis is **bold** and *italic*.";
    let html = markdown_to_html(PathStyle::Unix, md, None, &no_files());
    assert!(html.contains("<h1>Hello</h1>"));
    assert!(html.contains("<strong>bold</strong>"));
    assert!(html.contains("<em>italic</em>"));
}

#[test]
fn test_code_block() {
    let md = "```rust\nfn main() {}\n```";
    let html = markdown_to_html(PathStyle::Unix, md, None, &no_files());
    assert!(html.contains("<pre><code class=\"language-rust\">"));
    assert!(html.contains("fn main()"));
}

#[test]
fn test_mermaid_block_becomes_diagram() {
    let md = "```mermaid\nflowchart TD\n  A[\"Start\"] --> B\n```";
    let html = markdown_to_html(PathStyle::Unix, md, None, &no_files());
    assert!(html.contains("<pre class=\"mermaid\">"));
    assert!(!html.contains("language-mermaid"));
    assert!(html.contains("flowchart TD"));
    assert!(html.contains("&quot;Start&quot;"));
}

#[test]
fn test_mermaid_escapes_html_in_labels() {
    let md = "```mermaid\nflowchart TD\n  Q1{\"Czy?<br/>tak\"}\n```";
    let html = markdown_to_html(PathStyle::Unix, md, None, &no_files());
    assert!(html.contains("&lt;br/&gt;"));
}

#[test]
fn test_wrap_includes_libraries_when_needed() {
    let body = markdown_to_html(PathStyle::Unix, 
        "```mermaid\nflowchart TD\nA-->B\n```\n\n```rust\nlet x = 1;\n```",
        None,
        &no_files(),
    );
    let page = wrap_html(&body, &PageOptions { dark_mode: true, ..Default::default() });
    assert!(page.contains("mermaid.min.js"));
    assert!(page.contains("highlight.min.js"));
    assert!(page.contains("mermaid.run"));
}

#[test]
fn test_wrap_omits_libraries_when_unneeded() {
    let body = markdown_to_html(PathStyle::Unix, "# Just a heading\n\nSome text.", None, &no_files());
    let page = wrap_html(&body, &PageOptions::default());
    assert!(!page.contains("mermaid.min.js"));
    assert!(!page.contains("highlight.min.js"));
}

#[test]
fn test_wrap_embedded_inlines_bundles() {
    let body = markdown_to_html(PathStyle::Unix, "```rust\nlet x = 1;\n```", None, &no_files());
    let page = wrap_html(&body, &PageOptions { assets: AssetMode::Embedded, ..Default::default() });
    assert!(!page.contains("<script src="));
    assert!(page.contains("hljs"));
}

#[test]
fn test_images_untouched_without_base_dir() {
    let html = markdown_to_html(PathStyle::Unix, "![Fig](figures/figure-2-1.png)", None, &no_files());
    assert!(html.contains("src=\"figures/figure-2-1.png\""));
}

#[test]
fn test_relative_image_uses_doc_virtual_host() {
    let dir = "/tmp/mdfiles_img_test_relative";
    let facts = files(&[("/tmp/mdfiles_img_test_relative/figures/figure-2-1.png", b"\x89PNG\r\n\x1a\n")]);
    let html = markdown_to_html(PathStyle::Unix, "![Fig 2.1](figures/figure-2-1.png)", Some(dir), &facts);
    assert!(html.contains("src=\"https://mdfiles.doc/figures/figure-2-1.png\""), "got: {html}");
}

#[test]
fn test_missing_image_left_unchanged() {
    let dir = "/tmp/mdfiles_img_test_missing";
    let html = markdown_to_html(PathStyle::Unix, "![x](figures/nope.png)", Some(dir), &no_files());
    assert!(html.contains("src=\"figures/nope.png\""), "got: {html}");
}

#[test]
fn test_external_image_url_preserved() {
    let dir = "/tmp";
    let html = markdown_to_html(PathStyle::Unix, "![x](https://example.com/a.png)", Some(dir), &no_files());
    assert!(html.contains("src=\"https://example.com/a.png\""));
    let data = markdown_to_html(PathStyle::Unix, "![x](data:image/png;base64,AAAA)", Some(dir), &no_files());
    assert!(data.contains("src=\"data:image/png;base64,AAAA\""));
}

#[test]
fn test_percent_encoded_relative_image_resolves() {
    let dir = "/tmp/mdfiles_img_test_encoded";
    let facts = files(&[("/tmp/mdfiles_img_test_encoded/my image.png", b"\x89PNG\r\n\x1a\n")]);
    let html = markdown_to_html(PathStyle::Unix, "![x](my%20image.png)", Some(dir), &facts);
    assert!(html.contains("src=\"https://mdfiles.doc/my%20image.png\""), "got: {html}");
}

#[test]
fn test_md_link_rewrite_hook() {
    let dir = "/tmp/mdfiles_link_test";
    let facts = files(&[("/tmp/mdfiles_link_test/other.md", b"# other")]);
    let hook = PageLinks { base: "app://page".to_string() };
    let rendered = render(PathStyle::Unix, 
        "[go](other.md#top) and [ext](https://example.com/x.md)",
        &RenderOptions {
            base_dir: Some(dir),
            doc_url_base: Some("https://mdfiles.doc"),
            md_link_rewrite: Some(&hook),
            working_dir: None,
        },
        &facts,
    );
    assert!(rendered.body.contains("app://page/"), "got: {}", rendered.body);
    assert!(rendered.body.contains("#top"), "got: {}", rendered.body);
    assert!(rendered.body.contains("https://example.com/x.md"));
}

#[test]
fn test_utf8_bom_does_not_break_first_heading() {
    let md = "\u{feff}# Title\n\ntext";
    let html = markdown_to_html(PathStyle::Unix, md, None, &no_files());
    assert!(html.contains("<h1>Title</h1>"), "got: {html}");
}

#[test]
fn test_has_uri_scheme_vs_drive_letter() {
    assert!(has_uri_scheme("https://x"));
    assert!(has_uri_scheme("data:image/png;base64,AA"));
    assert!(!has_uri_scheme("C:\\images\\x.png"));
    assert!(!has_uri_scheme("figures/x.png"));
}

#[test]
fn test_base64_encode_matches_known_vectors() {
    assert_eq!(base64_encode(b""), "");
    assert_eq!(base64_encode(b"f"), "Zg==");
    assert_eq!(base64_encode(b"fo"), "Zm8=");
    assert_eq!(base64_encode(b"foo"), "Zm9v");
    assert_eq!(base64_encode(b"foobar"), "Zm9vYmFy");
}
