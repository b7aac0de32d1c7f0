use md_core::paths::PathStyle;
use md_core::cli::{
    docx_destination, html_destination, ipc_event, opens_externally, pandoc_args, parse_md2docx_args,
    parse_md2html_args, parse_mdread_args, reload_needed, Command, Destination, HtmlArgs, Stamp,
    UserEvent,
};
use md_core::convert::{md2html_output, md2html_queries};
use md_core::render::FileFacts;

fn args(list: &[&str]) -> Vec<String> {
    list.iter().map(|s| s.to_string()).collect()
}

fn html_args(list: &[&str]) -> HtmlArgs {
    match parse_md2html_args(&args(list)) {
        Command::Run(a) => a,
        _ => panic!("arguments refused"),
    }
}

fn fail_message<T>(c: Command<T>) -> String {
    match c {
        Command::Fail(m) => m,
        _ => panic!("expected a failure"),
    }
}

#[test]
fn cli_help_prints_usage_and_succeeds() {
    assert!(matches!(parse_md2html_args(&args(&["--help"])), Command::Help));
    assert!(matches!(parse_md2docx_args(&args(&["-h"])), Command::Help));
    assert!(matches!(parse_mdread_args(&args(&["--help"])), Command::Help));
}

#[test]
fn unknown_option_fails_with_message() {
    let m = fail_message(parse_md2html_args(&args(&["--nope"])));
    assert!(m.contains("unknown option"));
    assert_eq!(m, "unknown option: --nope");
}

#[test]
fn missing_option_values_fail() {
    for flag in ["--out", "--title"] {
        let m = fail_message(parse_md2html_args(&args(&[flag])));
        assert!(m.contains("missing value"), "{flag} with no value should fail");
    }
}

#[test]
fn save_without_file_input_fails() {
    let m = fail_message(parse_md2html_args(&args(&["--save"])));
    assert!(m.contains("--save needs a FILE input"));
}

#[test]
fn second_input_file_is_refused() {
    let m = fail_message(parse_md2html_args(&args(&["a.md", "b.md"])));
    assert_eq!(m, "more than one input file given");
}

#[test]
fn md2html_reads_every_flag() {
    let a = html_args(&["--body", "--embed", "--dark", "--strip-notes", "--save", "-o", "x.html", "--title", "T", "doc.md"]);
    assert!(a.body_only && a.embed && a.dark && a.strip_notes && a.save);
    assert_eq!(a.output.as_deref(), Some("x.html"));
    assert_eq!(a.title.as_deref(), Some("T"));
    assert_eq!(a.input.as_deref(), Some("doc.md"));
}

#[test]
fn no_input_fails() {
    let m = fail_message(parse_md2docx_args(&args(&[])));
    assert!(m.contains("no input file"));
}

#[test]
fn unknown_option_fails() {
    let m = fail_message(parse_md2docx_args(&args(&["--nope"])));
    assert!(m.contains("unknown option"));
}

#[test]
fn md2docx_reads_every_flag() {
    match parse_md2docx_args(&args(&["r.md", "-o", "o.docx", "--reference-doc", "s.docx", "--toc", "--pandoc", "p", "--keep-notes", "--final"])) {
        Command::Run(a) => {
            assert_eq!(a.input.as_deref(), Some("r.md"));
            assert_eq!(a.output.as_deref(), Some("o.docx"));
            assert_eq!(a.reference_doc.as_deref(), Some("s.docx"));
            assert_eq!(a.pandoc.as_deref(), Some("p"));
            assert!(a.toc && a.keep_notes && a.final_build);
        }
        _ => panic!("arguments refused"),
    }
    let m = fail_message(parse_md2docx_args(&args(&["r.md", "--reference-doc"])));
    assert_eq!(m, "missing value for --reference-doc");
}

#[test]
fn pandoc_command_line_is_complete() {
    let a = pandoc_args("in.md", "out.docx", "docs", true, Some("ref.docx"));
    assert_eq!(
        a,
        args(&["in.md", "-o", "out.docx", "--from", "markdown", "--to", "docx", "--resource-path", "docs", "--toc", "--reference-doc", "ref.docx"])
    );
    let b = pandoc_args("in.md", "out.docx", ".", false, None);
    assert_eq!(b.len(), 9);
}

#[test]
fn mdread_last_file_and_scheme_win() {
    match parse_mdread_args(&args(&["a.md", "--dark", "b.md", "--light"])) {
        Command::Run(r) => {
            assert_eq!(r.file.as_deref(), Some("b.md"));
            assert_eq!(r.force_dark, Some(false));
        }
        _ => panic!("arguments refused"),
    }
    let m = fail_message(parse_mdread_args(&args(&["-x"])));
    assert_eq!(m, "unknown option: -x");
}

#[test]
fn ipc_messages_map_to_events() {
    assert!(matches!(ipc_event("loaded"), Some(UserEvent::PageLoaded)));
    assert!(matches!(ipc_event("zoom-in"), Some(UserEvent::ZoomIn)));
    assert!(matches!(ipc_event("zoom-out"), Some(UserEvent::ZoomOut)));
    assert!(matches!(ipc_event("zoom-reset"), Some(UserEvent::ZoomReset)));
    assert!(matches!(ipc_event("open-dialog"), Some(UserEvent::OpenDialog)));
    assert!(matches!(ipc_event("close"), Some(UserEvent::Close)));
    match ipc_event("open-external:https://x.org/a") {
        Some(UserEvent::OpenExternal(u)) => assert_eq!(u, "https://x.org/a"),
        _ => panic!("not an external open"),
    }
    assert!(ipc_event("bogus").is_none());
}

#[test]
fn only_web_and_mail_links_open_externally() {
    assert!(opens_externally("https://example.com"));
    assert!(opens_externally("http://example.com"));
    assert!(opens_externally("mailto:a@b.c"));
    assert!(!opens_externally("file:///etc/passwd"));
    assert!(!opens_externally("javascript:alert(1)"));
}

#[test]
fn reload_only_when_the_same_file_changed() {
    let s = |p: &str, t: u64, n: u64| Stamp { path: p.to_string(), modified_secs: t, modified_nanos: 0, len: n };
    assert!(!reload_needed(&None, &s("a", 1, 1)));
    assert!(!reload_needed(&Some(s("a", 1, 1)), &s("a", 1, 1)));
    assert!(reload_needed(&Some(s("a", 1, 1)), &s("a", 2, 1)));
    assert!(reload_needed(&Some(s("a", 1, 1)), &s("a", 1, 5)));
    assert!(!reload_needed(&Some(s("a", 1, 1)), &s("b", 2, 1)));
}

#[test]
fn converts_file_to_full_page() {
    let a = html_args(&["/d/doc.md"]);
    let html = md2html_output(PathStyle::Unix, &a, "# Title\n\nSome **bold** text.\n", None, &FileFacts::new());
    assert!(html.contains("<!DOCTYPE html>"));
    assert!(html.contains("<h1>Title</h1>"));
    assert!(html.contains("<strong>bold</strong>"));
    assert!(html.contains("<title>doc.md</title>"));
}

#[test]
fn body_flag_outputs_fragment_only() {
    let a = html_args(&["--body", "/d/doc.md"]);
    let html = md2html_output(PathStyle::Unix, &a, "# Title\n", None, &FileFacts::new());
    assert!(html.contains("<h1>Title</h1>"));
    assert!(!html.contains("<!DOCTYPE html>"));
}

#[test]
fn dark_and_title_flags_change_page() {
    let a = html_args(&["--dark", "--title", "My Page", "/d/doc.md"]);
    let html = md2html_output(PathStyle::Unix, &a, "text\n", None, &FileFacts::new());
    assert!(html.contains("<title>My Page</title>"));
    assert!(html.contains("#1e1e1e"));
}

#[test]
fn code_block_uses_cdn_by_default_and_inline_when_embedded() {
    let md = "```rust\nfn main() {}\n```\n";
    let cdn = md2html_output(PathStyle::Unix, &html_args(&["/d/doc.md"]), md, None, &FileFacts::new());
    assert!(cdn.contains("<script src=\"https://cdnjs.cloudflare.com"));
    let emb = md2html_output(PathStyle::Unix, &html_args(&["--embed", "/d/doc.md"]), md, None, &FileFacts::new());
    assert!(!emb.contains("<script src="));
    assert!(emb.contains("hljs"));
}

#[test]
fn embed_inlines_local_images_as_data_uris() {
    let a = html_args(&["--embed", "doc.md"]);
    let md = "![p](pic.png)\n";
    let queries = md2html_queries(PathStyle::Unix, &a, md, Some("/work"));
    assert_eq!(queries, vec!["/work/pic.png".to_string()]);
    let mut facts = FileFacts::new();
    facts.add("/work/pic.png".to_string(), Some(b"\x89PNG\r\n\x1a\n0000".to_vec()));
    let html = md2html_output(PathStyle::Unix, &a, md, Some("/work"), &facts);
    assert!(html.contains("src=\"data:image/png;base64,"), "image was not inlined: {html}");
}

#[test]
fn without_embed_image_paths_stay_as_authored() {
    let a = html_args(&["doc.md"]);
    let md = "![p](pic.png)\n";
    assert!(md2html_queries(PathStyle::Unix, &a, md, Some("/work")).is_empty());
    let html = md2html_output(PathStyle::Unix, &a, md, Some("/work"), &FileFacts::new());
    assert!(html.contains("src=\"pic.png\""));
}

#[test]
fn external_image_survives_embed_untouched() {
    let a = html_args(&["--embed", "/w/doc.md"]);
    let md = "![x](https://example.com/a.png)\n";
    assert!(md2html_queries(PathStyle::Unix, &a, md, None).is_empty());
    let html = md2html_output(PathStyle::Unix, &a, md, None, &FileFacts::new());
    assert!(html.contains("src=\"https://example.com/a.png\""));
}

#[test]
fn notes_kept_by_default_stripped_on_request() {
    let md = "# T\n\n> \u{1f7e2} **[DRAFTED]** working note\n\nProse.\n<!-- hidden -->\n";
    let plain = md2html_output(PathStyle::Unix, &html_args(&["--body", "/d/doc.md"]), md, None, &FileFacts::new());
    assert!(plain.contains("DRAFTED"));
    let html = md2html_output(PathStyle::Unix, &html_args(&["--body", "--strip-notes", "/d/doc.md"]), md, None, &FileFacts::new());
    assert!(!html.contains("DRAFTED"), "got: {html}");
    assert!(!html.contains("hidden"));
    assert!(html.contains("Prose."));
}

#[test]
fn reads_stdin_when_no_file_given() {
    let a = html_args(&["--body"]);
    let html = md2html_output(PathStyle::Unix, &a, "*emphasis*\n", None, &FileFacts::new());
    assert!(html.contains("<em>emphasis</em>"));
}

#[test]
fn mermaid_fence_becomes_diagram_container() {
    let a = html_args(&["--body", "/d/doc.md"]);
    let html = md2html_output(PathStyle::Unix, &a, "```mermaid\nflowchart TD\nA-->B\n```\n", None, &FileFacts::new());
    assert!(html.contains("<pre class=\"mermaid\">"));
}

#[test]
fn explicit_out_wins_over_save() {
    match html_destination(&html_args(&["--save", "doc.md", "-o", "custom.html"])) {
        Destination::File(f) => assert_eq!(f, "custom.html"),
        _ => panic!("--out must win"),
    }
    match html_destination(&html_args(&["--save", "doc.md"])) {
        Destination::BesideInput(i) => assert_eq!(i, "doc.md"),
        _ => panic!("--save writes next to the input"),
    }
    assert!(matches!(html_destination(&html_args(&["doc.md"])), Destination::Stdout));
}

#[test]
fn docx_goes_next_to_the_input_unless_named() {
    match parse_md2docx_args(&args(&["r.md"])) {
        Command::Run(a) => match docx_destination(&a) {
            Destination::BesideInput(i) => assert_eq!(i, "r.md"),
            _ => panic!("default is next to the input"),
        },
        _ => panic!("arguments refused"),
    }
    match parse_md2docx_args(&args(&["r.md", "--out", "Final Report.docx"])) {
        Command::Run(a) => match docx_destination(&a) {
            Destination::File(f) => assert_eq!(f, "Final Report.docx"),
            _ => panic!("--out names the file"),
        },
        _ => panic!("arguments refused"),
    }
}

#[test]
fn md2docx_reports_each_missing_value_and_extra_input() {
    for flag in ["-o", "--out", "--reference-doc", "--pandoc"] {
        let m = fail_message(parse_md2docx_args(&args(&["r.md", flag])));
        assert!(m.starts_with("missing value for --"), "{flag}: {m}");
    }
    assert_eq!(fail_message(parse_md2docx_args(&args(&["a.md", "b.md"]))), "more than one input file given");
    // The first problem ends the reading.
    assert_eq!(fail_message(parse_md2docx_args(&args(&["--nope", "--help"]))), "unknown option: --nope");
    assert!(matches!(parse_md2docx_args(&args(&["--help", "--nope"])), Command::Help));
}
