use md_core::cli::{parse_md2docx_args, Command};
use md_core::convert::{choose_pandoc, decimal_text, docx_source, final_refusal, pandoc_candidates};
use md_core::paths::PathStyle;
use md_core::notes::{count_tbc, strip_source_notes};

const NOTED_SOURCE: &str = "# Report\n\n\
> \u{1f7e2} **[DRAFTED]** intro complete\n\
> still the same note\n\n\
Real paragraph one.\n\n\
<!-- hidden working comment -->\n\
[EXPANSION NOTE: add graphs]\n\n\
> A genuine quotation to keep.\n\n\
Real paragraph two. TBC (numbers)\n";

fn docx_args(extra: &[&str]) -> md_core::cli::DocxArgs {
    let mut args = vec!["report.md".to_string()];
    args.extend(extra.iter().map(|s| s.to_string()));
    match parse_md2docx_args(&args) {
        Command::Run(a) => a,
        _ => panic!("arguments refused"),
    }
}

#[test]
fn strips_working_notes_by_default() {
    let src = docx_source(&docx_args(&[]), NOTED_SOURCE);
    let text = src.text;
    assert!(!text.contains("DRAFTED"), "note leaked: {text}");
    assert!(!text.contains("still the same note"));
    assert!(!text.contains("hidden working comment"));
    assert!(!text.contains("EXPANSION NOTE"));
    assert!(text.contains("Real paragraph one."));
    assert!(text.contains("genuine quotation"), "real blockquote lost: {text}");
    assert!(text.contains("TBC"), "TBC placeholder must survive interim builds");
}

#[test]
fn keep_notes_converts_verbatim() {
    let src = docx_source(&docx_args(&["--keep-notes"]), NOTED_SOURCE);
    assert_eq!(src.text, NOTED_SOURCE);
    assert!(src.text.contains("DRAFTED"));
}

#[test]
fn final_refuses_while_tbc_remains() {
    let args = docx_args(&["--final"]);
    let src = docx_source(&args, NOTED_SOURCE);
    assert_eq!(src.tbc, 1);
    let refusal = final_refusal(args.final_build, src.tbc).unwrap();
    assert!(refusal.contains("REFUSING"), "got: {refusal}");
    assert_eq!(refusal, "REFUSING final build: 1 TBC placeholder(s) remain outside notes");
}

#[test]
fn final_converts_when_source_is_clean() {
    let args = docx_args(&["--final"]);
    let src = docx_source(&args, "# Report\n\n> \u{1f7e2} **[DRAFTED]** done\n\nAll finished.\n");
    assert_eq!(src.tbc, 0);
    assert!(final_refusal(args.final_build, src.tbc).is_none());
}

#[test]
fn tbc_inside_stripped_note_does_not_block_final() {
    let args = docx_args(&["--final"]);
    let src = docx_source(
        &args,
        "# Report\n\n> \u{1f4dd} **[WORKING NOTE]** numbers TBC here\n\nDone text.\n",
    );
    assert_eq!(src.tbc, 0);
    assert!(final_refusal(args.final_build, src.tbc).is_none());
}

#[test]
fn toc_marker_note_enables_table_of_contents() {
    let src = docx_source(
        &docx_args(&[]),
        "> \u{1f9ed} **[TABLE OF CONTENTS]** auto\n\n# One\n\ntext\n\n# Two\n\ntext\n",
    );
    assert!(!src.text.contains("TABLE OF CONTENTS"), "marker leaked: {}", src.text);
    assert!(src.toc);
}

#[test]
fn toc_flag_is_accepted() {
    let src = docx_source(&docx_args(&["--toc"]), "# One\n\ntext\n\n# Two\n\ntext\n");
    assert!(src.toc);
    assert_eq!(src.text, "# One\n\ntext\n\n# Two\n\ntext\n");
}

#[test]
fn strip_keeps_line_structure_exactly() {
    let r = strip_source_notes("a\n> \u{1f7e0} **[EXPANSION NOTE]** later\n> more\n\nb\n");
    assert_eq!(r.text, "a\n\nb\n");
    assert!(!r.table_of_contents && !r.table_of_figures && !r.list_of_tables);
}

#[test]
fn strip_removes_multiline_comments_and_unclosed_ones() {
    assert_eq!(strip_source_notes("x<!-- a\nb -->y").text, "xy");
    assert_eq!(strip_source_notes("keep<!-- never closed\nmore").text, "keep");
    assert_eq!(strip_source_notes("no comment here").text, "no comment here");
}

#[test]
fn strip_reports_each_marker_kind() {
    let r = strip_source_notes(
        "> \u{1f4cb} [TABLE OF FIGURES]\n\n> \u{1f4cb} [LIST OF TABLES]\n\ntext",
    );
    assert_eq!(r.text, "\n\ntext");
    assert!(!r.table_of_contents);
    assert!(r.table_of_figures);
    assert!(r.list_of_tables);
}

#[test]
fn plain_blockquote_and_bare_text_stay() {
    let src = "> quoted\n[DRAFT but not legacy]\n";
    let r = strip_source_notes(src);
    assert_eq!(r.text, "> quoted\n[DRAFT but not legacy]\n");
    let legacy = strip_source_notes("  [DRAFTED] old style\nkept");
    assert_eq!(legacy.text, "kept");
}

#[test]
fn count_tbc_is_word_bounded() {
    assert_eq!(count_tbc(""), 0);
    assert_eq!(count_tbc("TBC"), 1);
    assert_eq!(count_tbc("TBC, TBC."), 2);
    assert_eq!(count_tbc("TBCs xTBC TBC_ 1TBC"), 0);
    assert_eq!(count_tbc("(TBC)"), 1);
}

#[test]
fn decimal_text_spells_numbers() {
    assert_eq!(decimal_text(0), "0");
    assert_eq!(decimal_text(7), "7");
    assert_eq!(decimal_text(10), "10");
    assert_eq!(decimal_text(4096), "4096");
}

#[test]
fn pandoc_is_looked_for_where_installers_put_it() {
    let win = pandoc_candidates(PathStyle::Windows, Some("C:\\Users\\u\\AppData\\Local"), Some("C:\\Program Files"));
    assert_eq!(
        win,
        vec![
            "C:\\Users\\u\\AppData\\Local\\Pandoc\\pandoc.exe".to_string(),
            "C:\\Program Files\\Pandoc\\pandoc.exe".to_string()
        ]
    );
    assert_eq!(pandoc_candidates(PathStyle::Windows, None, Some("D:\\P")), vec!["D:\\P\\Pandoc\\pandoc.exe".to_string()]);
    let unix = pandoc_candidates(PathStyle::Unix, Some("ignored"), None);
    assert_eq!(unix, vec!["/usr/local/bin/pandoc", "/opt/homebrew/bin/pandoc", "/usr/bin/pandoc"]);
    assert_eq!(choose_pandoc(true, &unix, &vec![true, true, true]), Some("pandoc".to_string()));
    assert_eq!(choose_pandoc(false, &unix, &vec![false, true, true]), Some("/opt/homebrew/bin/pandoc".to_string()));
    assert_eq!(choose_pandoc(false, &unix, &vec![false, false, false]), None);
}
