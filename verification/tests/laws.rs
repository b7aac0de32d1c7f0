use md_core::paths::PathStyle;
use md_core::embed::{inline_local_images, src_queries};
use md_core::base64::base64_encode;
use md_core::notes::strip_source_notes;
use md_core::page::{wrap_html, PageOptions};
use md_core::paths::{normalize_path, shared_prefix};
use md_core::render::{disk_queries, markdown_to_html, render, serve_root_for, FileFacts, RenderOptions};
use md_core::uri::{escape_html, has_uri_scheme, percent_decode, percent_encode};
use md_core::viewer::{page_url, proto_base, query_path, resolve_root_file, PageLinks};

fn files(paths: &[&str]) -> FileFacts {
    let mut facts = FileFacts::new();
    for p in paths {
        facts.add(p.to_string(), Some(b"\x89PNG".to_vec()));
    }
    facts
}

#[test]
fn percent_decode_inverts_encode_on_samples() {
    for s in ["", "plain", "a b/c?d#e&f=g", "C:\\docs\\my notes.md", "zażółć 📝", "%41 100%"] {
        assert_eq!(percent_decode(&percent_encode(s)), s);
    }
}

#[test]
fn query_path_reads_page_url_on_samples() {
    for path in ["/a/b c.md", "x&y=z.md", "d#e?f.md"] {
        let url = page_url(proto_base(false), path, None);
        let query = url.split('?').nth(1).unwrap();
        assert_eq!(query_path(query), Some(path.to_string()));
    }
}

#[test]
fn resolved_root_files_stay_under_root() {
    let root = percent_encode("/srv/docs");
    let f = resolve_root_file(PathStyle::Unix, &format!("{root}/a/b%20c.png")).unwrap();
    assert_eq!(f, "/srv/docs/a/b c.png");
    assert!(f.starts_with("/srv/docs"));
    assert!(resolve_root_file(PathStyle::Unix, &format!("{root}/a/../../etc/passwd")).is_none());
    assert!(resolve_root_file(PathStyle::Unix, &format!("{root}/%2e%2e/x")).is_none());
}

#[test]
fn drive_letters_are_not_schemes() {
    assert!(!has_uri_scheme("C:\\images\\x.png"));
    assert!(!has_uri_scheme("d:/x.png"));
    assert!(has_uri_scheme("ab:/x.png"));
}

#[test]
fn escaped_text_has_no_markup() {
    let e = escape_html("<a href=\"x\">&</a>");
    assert_eq!(e, "&lt;a href=&quot;x&quot;&gt;&amp;&lt;/a&gt;");
    assert!(!e.contains('<') && !e.contains('>') && !e.contains('"'));
}

#[test]
fn base64_length_is_four_per_started_group() {
    for n in 0..12usize {
        let data = vec![0xA5u8; n];
        assert_eq!(base64_encode(&data).len(), 4 * ((n + 2) / 3));
    }
}

#[test]
fn no_base_dir_keeps_destinations() {
    let html = markdown_to_html(PathStyle::Unix, "[l](other.md) ![i](x.png)", None, &files(&["other.md", "x.png"]));
    assert!(html.contains("href=\"other.md\""), "got: {html}");
    assert!(html.contains("src=\"x.png\""), "got: {html}");
}

#[test]
fn wrap_omits_libraries_for_plain_bodies() {
    let page = wrap_html("<p>hi</p>", &PageOptions::default());
    assert!(!page.contains("<script"));
}

#[test]
fn normalize_is_idempotent_on_samples() {
    for p in ["/a/./b/../c//d/", "../x/./y", "", "/", "a/b/../../..", "./a"] {
        let once = normalize_path(PathStyle::Unix, p);
        assert_eq!(normalize_path(PathStyle::Unix, &once), once);
    }
    assert_eq!(normalize_path(PathStyle::Unix, "/a/./b/../c//d/"), "/a/c/d");
    assert_eq!(normalize_path(PathStyle::Unix, "../x/./y"), "x/y");
}

#[test]
fn deliverable_has_no_note_lines() {
    let r = strip_source_notes("> \u{1f7e2} a\n> b\n\nkeep\n> \u{1f4dd} c\n[DRAFTED] d\n\nend");
    for line in r.text.split('\n') {
        assert!(!line.starts_with("> \u{1f7e2}") && !line.starts_with("> \u{1f4dd}"));
        assert!(!line.starts_with("[DRAFTED"));
    }
    assert_eq!(r.text, "\nkeep\n\nend");
}

#[test]
fn serve_root_widens_to_cover_images() {
    let md = "![a](../pics/a.png) ![b](b.png) ![c](/elsewhere/c.png)";
    let facts = files(&["/docs/pics/a.png", "/docs/sub/b.png"]);
    assert_eq!(serve_root_for(PathStyle::Unix, md, "/docs/sub", &facts), "/docs");
    let facts2 = files(&["/docs/pics/a.png", "/elsewhere/c.png"]);
    assert_eq!(serve_root_for(PathStyle::Unix, md, "/docs/sub", &facts2), "/");
    assert_eq!(serve_root_for(PathStyle::Unix, "![n](none.png)", "/docs/./sub/", &FileFacts::new()), "/docs/sub");
}

#[test]
fn render_serves_existing_images_from_the_doc_host() {
    let md = "![a](../pics/a%20b.png) ![m](missing.png) ![w](https://x.org/w.png)";
    let facts = files(&["/docs/pics/a b.png"]);
    let hook = PageLinks { base: "mdfiles://localhost".to_string() };
    let r = render(PathStyle::Unix, 
        md,
        &RenderOptions { base_dir: Some("/docs/sub"), doc_url_base: Some("https://h"), md_link_rewrite: Some(&hook), working_dir: None },
        &facts,
    );
    assert_eq!(r.serve_root.as_deref(), Some("/docs"));
    assert!(r.body.contains("src=\"https://h/pics/a%20b.png\""), "got: {}", r.body);
    assert!(r.body.contains("src=\"missing.png\""));
    assert!(r.body.contains("src=\"https://x.org/w.png\""));
}

#[test]
fn disk_queries_list_every_path_render_asks_about() {
    let q = disk_queries(PathStyle::Unix, None, "![a](x.png) [l](y.md) [e](https://e/z.md)", "/d");
    assert_eq!(q, vec!["/d/x.png".to_string(), "/d/x.png".to_string(), "/d/y.md".to_string()]);
}

#[test]
fn percent_encoding_lacks_reserved_characters() {
    for s in ["a/b?c#d&e=f g", "C:\\x y\\z.md", "zażółć"] {
        let e = percent_encode(s);
        for c in ['/', '?', '#', '&', '=', ' ', '\\'] {
            assert!(!e.contains(c), "{e} holds {c}");
        }
    }
}

#[test]
fn render_needs_only_the_queried_facts() {
    let md = "![a](a.png) ![b](../b.png) [n](n.md)";
    let queried = disk_queries(PathStyle::Unix, None, md, "/d/s");
    let mut few = FileFacts::new();
    let mut many = FileFacts::new();
    for p in ["/d/s/a.png", "/d/b.png", "/d/s/n.md"] {
        assert!(queried.contains(&p.to_string()));
        few.add(p.to_string(), None);
        many.add(p.to_string(), None);
    }
    many.add("/d/s/unrelated.png".to_string(), Some(vec![1]));
    many.add("/elsewhere/x.md".to_string(), None);
    let hook = PageLinks { base: "mdfiles://localhost".to_string() };
    let opts = RenderOptions { base_dir: Some("/d/s"), doc_url_base: Some("https://h"), md_link_rewrite: Some(&hook), working_dir: None };
    let r1 = render(PathStyle::Unix, md, &opts, &few);
    let r2 = render(PathStyle::Unix, md, &opts, &many);
    assert_eq!(r1.body, r2.body);
    assert_eq!(r1.serve_root, r2.serve_root);
    assert_eq!(r1.serve_root.as_deref(), Some("/d"));
}

#[test]
fn inlining_needs_only_the_queried_reads() {
    let body = "<p><img src=\"a.png\" alt=\"\"> <img src=\"https://x/y.png\"></p>";
    assert_eq!(src_queries(PathStyle::Unix, body, "/w"), vec!["/w/a.png".to_string()]);
    let mut few = FileFacts::new();
    few.add("/w/a.png".to_string(), Some(vec![0xff]));
    let mut many = FileFacts::new();
    many.add("/w/a.png".to_string(), Some(vec![0xff]));
    many.add("/w/b.png".to_string(), Some(vec![1, 2]));
    let out = inline_local_images(PathStyle::Unix, body, "/w", &few);
    assert_eq!(out, inline_local_images(PathStyle::Unix, body, "/w", &many));
    assert_eq!(out, "<p><img src=\"data:image/png;base64,/w==\" alt=\"\"> <img src=\"https://x/y.png\"></p>");
}

#[test]
fn rendering_without_a_base_folder_is_the_default_rendering() {
    let md = "![i](a.png) [l](b.md) text";
    let hook = PageLinks { base: "mdfiles://localhost".to_string() };
    let mut facts = FileFacts::new();
    facts.add("/w/a.png".to_string(), Some(vec![1]));
    facts.add("/w/b.md".to_string(), None);
    let opts = RenderOptions { base_dir: None, doc_url_base: Some("https://h"), md_link_rewrite: Some(&hook), working_dir: Some("/w") };
    let plain: RenderOptions<PageLinks> = RenderOptions::default();
    let with = render(PathStyle::Unix, md, &opts, &facts);
    let without = render(PathStyle::Unix, md, &plain, &FileFacts::new());
    assert_eq!(with.body, without.body);
    assert!(with.serve_root.is_none());
}

#[test]
fn a_rooted_common_prefix_is_shared() {
    assert_eq!(shared_prefix(PathStyle::Unix, "/a/b", "/a/c"), Some("/a".to_string()));
    assert_eq!(shared_prefix(PathStyle::Windows, "C:\\x\\y", "D:\\x"), None);
    assert_eq!(shared_prefix(PathStyle::Windows, "C:\\x\\y", "C:\\x"), Some("C:\\x".to_string()));
}
