use md_core::embed::{inline_local_images, src_queries};
use md_core::markdown::{is_mermaid, md_options};
use md_core::paths::{doc_base_dir, file_name, join_path, mime_for, normalize_path, shared_prefix, PathStyle};
use md_core::plain::markdown_to_plain_text;
use md_core::render::{inline_queries, rewrite_image_dest, rewrite_md_link, serve_root_for, FileFacts};
use md_core::uri::{hex_val, is_local_dest, percent_decode, percent_encode};
use md_core::viewer::{render_page, route, PageLinks, Route};

#[test]
fn percent_encode_exact_bytes() {
    assert_eq!(percent_encode("a b/é~"), "a%20b%2F%C3%A9~");
    assert_eq!(percent_encode("AZaz09-._~"), "AZaz09-._~");
}

#[test]
fn percent_decode_leaves_bad_escapes_and_replaces_bad_utf8() {
    assert_eq!(percent_decode("a%2"), "a%2");
    assert_eq!(percent_decode("%zz%41"), "%zzA");
    assert_eq!(percent_decode("%FF"), "\u{FFFD}");
    assert_eq!(percent_decode("%C3%A9"), "é");
}

#[test]
fn hex_values() {
    assert_eq!(hex_val(b'0'), Some(0));
    assert_eq!(hex_val(b'f'), Some(15));
    assert_eq!(hex_val(b'B'), Some(11));
    assert_eq!(hex_val(b'g'), None);
}

#[test]
fn local_destinations() {
    assert!(is_local_dest("a.png"));
    assert!(!is_local_dest(""));
    assert!(!is_local_dest("#top"));
    assert!(!is_local_dest("//cdn/x.png"));
    assert!(!is_local_dest("mailto:x@y"));
}

#[test]
fn mime_types_by_extension() {
    assert_eq!(mime_for(PathStyle::Unix, "/a/b.PNG"), "image/png");
    assert_eq!(mime_for(PathStyle::Unix, "x.jfif"), "image/jpeg");
    assert_eq!(mime_for(PathStyle::Unix, "x.svg"), "image/svg+xml");
    assert_eq!(mime_for(PathStyle::Unix, "notes.md"), "text/plain; charset=utf-8");
    assert_eq!(mime_for(PathStyle::Unix, "x.woff2"), "font/woff2");
    assert_eq!(mime_for(PathStyle::Unix, ".hidden"), "application/octet-stream");
    assert_eq!(mime_for(PathStyle::Unix, "noext"), "application/octet-stream");
    assert_eq!(mime_for(PathStyle::Unix, "/"), "application/octet-stream");
}

#[test]
fn paths_join_share_and_name() {
    assert_eq!(join_path(PathStyle::Unix, "/a", "b/c"), "/a/b/c");
    assert_eq!(join_path(PathStyle::Unix, "/a/", "b"), "/a/b");
    assert_eq!(join_path(PathStyle::Unix, "/a", "/abs"), "/abs");
    assert_eq!(shared_prefix(PathStyle::Unix, "/a/b/c", "/a/b/d/e"), Some("/a/b".to_string()));
    assert_eq!(shared_prefix(PathStyle::Unix, "/a", "/b"), Some("/".to_string()));
    assert_eq!(shared_prefix(PathStyle::Unix, "a/b", "a/c"), None);
    assert_eq!(file_name(PathStyle::Unix, "/a/b.md").map(|v| v.into_iter().collect::<String>()), Some("b.md".to_string()));
    assert_eq!(file_name(PathStyle::Unix, "/a/.."), None);
}

#[test]
fn document_folders() {
    assert_eq!(doc_base_dir(PathStyle::Unix, "/docs/./a/../r.md", None), Some("/docs".to_string()));
    assert_eq!(doc_base_dir(PathStyle::Unix, "notes/r.md", Some("/home/u")), Some("/home/u/notes".to_string()));
    assert_eq!(doc_base_dir(PathStyle::Unix, "r.md", None), None);
    assert_eq!(doc_base_dir(PathStyle::Unix, "/", None), None);
}

#[test]
fn suite_options_and_mermaid_fences() {
    assert_eq!(md_options(), 2 | 4 | 8 | 16);
    assert!(is_mermaid("mermaid"));
    assert!(is_mermaid("  MerMaid  {theme}"));
    assert!(!is_mermaid("rust"));
    assert!(!is_mermaid(""));
}

#[test]
fn plain_text_rendering() {
    let t = markdown_to_plain_text("\u{feff}# T\n\nSome *x* `c`\n\n- a\n- b");
    assert_eq!(t, "T\n\nSome x `c`\n\n  - a\n  - b");
    assert_eq!(markdown_to_plain_text("> quoted"), "> quoted");
    assert_eq!(markdown_to_plain_text("   "), "");
}

#[test]
fn image_rewriting_cases() {
    let mut facts = FileFacts::new();
    facts.add("/d/in.png".to_string(), None);
    facts.add("/other/out.gif".to_string(), Some(b"GIF8".to_vec()));
    facts.add("/other/unread.gif".to_string(), None);
    assert_eq!(rewrite_image_dest(PathStyle::Unix, "in.png", "/d", "/d", "https://h", &facts), "https://h/in.png");
    assert_eq!(rewrite_image_dest(PathStyle::Unix, "/other/out.gif", "/d", "/d", "https://h", &facts), "data:image/gif;base64,R0lGOA==");
    assert_eq!(rewrite_image_dest(PathStyle::Unix, "/other/unread.gif", "/d", "/d", "https://h", &facts), "/other/unread.gif");
    assert_eq!(rewrite_image_dest(PathStyle::Unix, "nope.png", "/d", "/d", "https://h", &facts), "nope.png");
    assert_eq!(rewrite_image_dest(PathStyle::Unix, "#x", "/d", "/d", "https://h", &facts), "#x");
    assert!(inline_queries(PathStyle::Unix, "![o](/other/out.gif) ![i](in.png)", "/d", &facts).is_empty());
    assert_eq!(inline_queries(PathStyle::Unix, "![o](/other/out.gif) ![i](in.png)", "d", &facts), vec!["/other/out.gif".to_string()]);
}

#[test]
fn md_link_rewriting_cases() {
    let mut facts = FileFacts::new();
    facts.add("/d/sub/b.MD".to_string(), None);
    let hook = PageLinks { base: "mdfiles://localhost".to_string() };
    assert_eq!(
        rewrite_md_link(PathStyle::Unix, None, "sub/b.MD#sec", "/d", &hook, &facts),
        "mdfiles://localhost/page?p=%2Fd%2Fsub%2Fb.MD#sec"
    );
    assert_eq!(rewrite_md_link(PathStyle::Unix, None, "sub/missing.md", "/d", &hook, &facts), "sub/missing.md");
    assert_eq!(rewrite_md_link(PathStyle::Unix, None, "sub/b.txt", "/d", &hook, &facts), "sub/b.txt");
    assert_eq!(rewrite_md_link(PathStyle::Unix, None, "https://x/b.md", "/d", &hook, &facts), "https://x/b.md");
}

#[test]
fn file_facts_read_back_what_was_added() {
    let mut facts = FileFacts::new();
    assert!(facts.read("/a").is_none());
    facts.add("/a".to_string(), Some(vec![1, 2, 3]));
    facts.add("/b".to_string(), None);
    assert_eq!(facts.read("/a"), Some(&vec![1, 2, 3]));
    assert!(facts.read("/b").is_none());
}

#[test]
fn protocol_routes() {
    match route(PathStyle::Unix, "/page", Some("p=%2Fa%2Fb.md")) {
        Route::Page(Some(p)) => assert_eq!(p, "/a/b.md"),
        _ => panic!("not a page"),
    }
    assert!(matches!(route(PathStyle::Unix, "/page", None), Route::Page(None)));
    assert!(matches!(route(PathStyle::Unix, "/assets/mermaid.min.js", None), Route::MermaidAsset));
    assert!(matches!(route(PathStyle::Unix, "/assets/highlight.min.js", None), Route::HighlightAsset));
    assert!(matches!(route(PathStyle::Unix, "/assets/other.js", None), Route::UnknownAsset));
    match route(PathStyle::Unix, "/root/%2Fsrv/a%20b.png", None) {
        Route::RootFile(Some(f)) => assert_eq!(f, "/srv/a b.png"),
        _ => panic!("not a root file"),
    }
    assert!(matches!(route(PathStyle::Unix, "/root/%2Fsrv/..", None), Route::RootFile(None)));
    assert!(matches!(route(PathStyle::Unix, "/nothing", None), Route::NotFound));
}

#[test]
fn reader_page_routes_images_and_links_through_the_protocol() {
    let mut facts = FileFacts::new();
    facts.add("/docs/fig.png".to_string(), None);
    facts.add("/docs/next.md".to_string(), None);
    let links = PageLinks { base: "mdfiles://localhost".to_string() };
    let page = render_page(PathStyle::Unix, &links, "/docs/read me.md", "# Hi\n\n![f](fig.png) [n](next.md#s)\n", "/docs", true, &facts);
    assert!(page.contains("<title>read me.md</title>"), "got: {page}");
    assert!(page.contains("src=\"mdfiles://localhost/root/%2Fdocs/fig.png\""), "got: {page}");
    assert!(page.contains("href=\"mdfiles://localhost/page?p=%2Fdocs%2Fnext.md#s\""), "got: {page}");
    assert!(page.contains("#1e1e1e"));
}

#[test]
fn glue_script_knows_the_protocol_prefix() {
    let js = md_core::viewer::glue_script("https://mdfiles.localhost");
    assert!(js.contains("var BASE = \"https://mdfiles.localhost\";"));
    assert!(js.contains("window.ipc.postMessage('open-external:' + abs);"));
    assert!(js.contains("'zoom-reset'"));
    assert!(!js.contains("__PROTO_BASE__"));
}

fn chars_text(v: Option<Vec<char>>) -> Option<String> {
    v.map(|v| v.into_iter().collect::<String>())
}

#[test]
fn windows_path_forms() {
    let w = PathStyle::Windows;
    assert_eq!(normalize_path(w, "C:\\a\\..\\b"), "C:\\b");
    assert_eq!(normalize_path(w, "C:/a/./b/"), "C:\\a\\b");
    assert_eq!(normalize_path(w, "\\\\server\\share\\a\\..\\b"), "\\\\server\\share\\b");
    assert_eq!(normalize_path(w, "\\\\server\\share"), "\\\\server\\share\\");
    assert_eq!(normalize_path(w, "C:x\\..\\..\\y"), "C:y");
    assert_eq!(normalize_path(PathStyle::Unix, "C:\\a\\..\\b"), "C:\\a\\..\\b");
    assert_eq!(join_path(w, "C:\\docs", "D:\\img\\x.png"), "D:\\img\\x.png");
    assert_eq!(join_path(w, "C:\\docs", "\\x"), "C:\\x");
    assert_eq!(join_path(w, "C:\\docs", "img\\x.png"), "C:\\docs\\img\\x.png");
    assert_eq!(join_path(w, "C:", "x"), "C:x");
    assert_eq!(shared_prefix(w, "C:\\a\\b", "C:\\a\\c"), Some("C:\\a".to_string()));
    assert_eq!(shared_prefix(w, "C:\\a\\c", "C:\\a\\b"), Some("C:\\a".to_string()));
    assert_eq!(shared_prefix(w, "C:\\a", "C:\\b"), Some("C:\\".to_string()));
    assert_eq!(shared_prefix(w, "C:\\a", "D:\\a"), None);
    assert_eq!(shared_prefix(w, "C:a", "C:b"), None);
    assert_eq!(shared_prefix(w, "\\\\s\\sh\\a", "\\\\s\\sh\\b"), Some("\\\\s\\sh\\".to_string()));
    assert_eq!(doc_base_dir(w, "C:\\docs\\x.md", Some("C:\\work")), Some("C:\\docs".to_string()));
    assert_eq!(doc_base_dir(w, "notes\\x.md", Some("C:\\work")), Some("C:\\work\\notes".to_string()));
    assert_eq!(doc_base_dir(w, "C:\\", None), None);
    assert_eq!(chars_text(file_name(w, "C:\\docs\\my notes.md")), Some("my notes.md".to_string()));
    assert_eq!(chars_text(file_name(w, "C:\\")), None);
    assert_eq!(mime_for(w, "C:\\img\\A.PNG"), "image/png");
}

#[test]
fn windows_images_resolve_from_the_document_folder() {
    let w = PathStyle::Windows;
    let mut facts = FileFacts::new();
    facts.add("C:\\docs\\pic.png".to_string(), None);
    facts.add("D:\\img\\x.gif".to_string(), Some(b"GIF8".to_vec()));
    assert_eq!(serve_root_for(w, "![p](../pic.png)", "C:\\docs\\sub", &facts), "C:\\docs");
    assert_eq!(serve_root_for(w, "![x](D:\\img\\x.gif)", "C:\\docs", &facts), "C:\\docs");
    assert_eq!(
        rewrite_image_dest(w, "../pic.png", "C:\\docs\\sub", "C:\\docs", "https://h", &facts),
        "https://h/pic.png"
    );
    assert_eq!(
        rewrite_image_dest(w, "D:\\img\\x.gif", "C:\\docs", "C:\\docs", "https://h", &facts),
        "data:image/gif;base64,R0lGOA=="
    );
    assert_eq!(rewrite_image_dest(w, "../nope.png", "C:\\docs\\sub", "C:\\docs", "https://h", &facts), "../nope.png");
    let hook = PageLinks { base: "https://mdfiles.localhost".to_string() };
    let mut md = FileFacts::new();
    md.add("C:\\docs\\other.md".to_string(), None);
    assert_eq!(
        rewrite_md_link(w, None, "../other.md", "C:\\docs\\sub", &hook, &md),
        "https://mdfiles.localhost/page?p=C%3A%5Cdocs%5Cother.md"
    );
}

#[test]
fn windows_normalization_is_idempotent() {
    let w = PathStyle::Windows;
    for p in ["C:\\a\\..\\b\\.\\c\\", "\\\\srv\\share\\x\\..", "C:rel\\..\\..\\y", "\\top\\.\\a", "a\\b\\..\\c", "x\\..\\C:y", "x\\..\\C:\\y", "x\\..\\C:"] {
        let once = normalize_path(w, p);
        assert_eq!(normalize_path(w, &once), once, "{p}");
    }
    // Outside the law: a drive-like name after `..` that is followed by `.`.
    assert_eq!(normalize_path(w, "x\\..\\C:.\\y"), "C:.\\y");
    assert_eq!(normalize_path(w, "C:.\\y"), "C:y");
}

#[test]
fn windows_images_inline_from_the_document_folder() {
    let w = PathStyle::Windows;
    let body = "<img src=\"../pic.gif\"> <img src=\"D:\\img\\x.gif\"> <img src=\"https://e/x.gif\">";
    assert_eq!(
        src_queries(w, body, "C:\\docs\\sub"),
        vec!["C:\\docs\\pic.gif".to_string(), "D:\\img\\x.gif".to_string()]
    );
    let mut facts = FileFacts::new();
    facts.add("C:\\docs\\pic.gif".to_string(), Some(b"GIF8".to_vec()));
    facts.add("D:\\img\\x.gif".to_string(), Some(b"GIF8".to_vec()));
    let out = inline_local_images(w, body, "C:\\docs\\sub", &facts);
    assert_eq!(
        out,
        "<img src=\"data:image/gif;base64,R0lGOA==\"> <img src=\"data:image/gif;base64,R0lGOA==\"> <img src=\"https://e/x.gif\">"
    );
}

#[test]
fn link_hook_gets_absolute_paths() {
    let mut facts = FileFacts::new();
    facts.add("/work/d/sub/b.md".to_string(), None);
    facts.add("d/sub/b.md".to_string(), None);
    let hook = PageLinks { base: "mdfiles://localhost".to_string() };
    // A relative folder is taken from the working folder.
    assert_eq!(
        rewrite_md_link(PathStyle::Unix, Some("/work"), "sub/b.md", "d", &hook, &facts),
        "mdfiles://localhost/page?p=%2Fwork%2Fd%2Fsub%2Fb.md"
    );
    // Without a working folder, a relative folder gives no absolute path:
    // the link stays as written.
    assert_eq!(rewrite_md_link(PathStyle::Unix, None, "sub/b.md", "d", &hook, &facts), "sub/b.md");
    // An absolute folder needs no working folder.
    assert_eq!(
        rewrite_md_link(PathStyle::Unix, Some("/elsewhere"), "b.md", "/work/d/sub", &hook, &facts),
        "mdfiles://localhost/page?p=%2Fwork%2Fd%2Fsub%2Fb.md"
    );
}

#[test]
fn base64_padding_and_concatenation() {
    use_b64();
}

fn use_b64() {
    let b = |s: &[u8]| md_core::base64::base64_encode(s);
    assert_eq!(b(b"f"), "Zg==");
    assert_eq!(b(b"fo"), "Zm8=");
    assert_eq!(b(b"foo"), "Zm9v");
    assert_eq!(b(b"foobar"), format!("{}{}", b(b"foo"), b(b"bar")));
    assert_eq!(b(b"foob"), format!("{}{}", b(b"foo"), b(b"b")));
    for s in [&b""[..], b"a", b"ab", b"abc", b"abcd", b"abcde"] {
        let r = b(s);
        let pad = (3 - s.len() % 3) % 3;
        assert!(r.ends_with(&"=".repeat(pad)));
        assert!(!r[..r.len() - pad].contains('='));
    }
}
