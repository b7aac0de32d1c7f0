//! What the converters make of a document once their command line is read:
//! the page or fragment `md2html` writes, and the source `md2docx` hands to
//! pandoc.
use vstd::prelude::*;
use crate::cli::{opt_seq, DocxArgs, DocxArgsV, HtmlArgs, HtmlArgsV};
use crate::embed::{inline_from, inline_local_images, src_queries, src_targets};
use crate::markdown::{rendered_html, spec_strip_bom, suite_options};
use crate::notes::{
    any_contains, count_tbc, spec_count_tbc, spec_note_lines, spec_strip_source_notes,
    strip_source_notes,
};
use crate::page::{spec_wrap_html, wrap_html, AssetMode, AssetModeV, PageOptions};
use crate::paths::{doc_base_dir, file_name, join_path, spec_doc_base_dir, spec_join, PathStyle};
use crate::render::{markdown_to_html, render_stream, string_views, FileFacts};
use crate::text::{empty_string, opt_view, push_char, push_str, string_of_chars};
use crate::viewer::{page_title, PageLinks};

verus! {

// ---------------------------------------------------------------------------
// md2html
// ---------------------------------------------------------------------------

/// The markdown `md2html` converts: the source, or its deliverable with
/// `--strip-notes`.
pub open spec fn html_source(args: HtmlArgsV, markdown: Seq<char>) -> Seq<char> {
    if args.strip_notes {
        spec_strip_source_notes(markdown)
    } else {
        markdown
    }
}

/// The body as rendered for a browser: image and link destinations as
/// authored.
pub open spec fn html_plain_body(style: PathStyle, args: HtmlArgsV, markdown: Seq<char>) -> Seq<char> {
    let src = html_source(args, markdown);
    rendered_html(
        spec_strip_bom(src),
        suite_options(),
        render_stream(style, None, src, None, None, None::<PageLinks>, Seq::empty()),
    )
}

/// The folder local images are inlined from: that of the input file (a
/// relative one is taken from `cwd`); none when reading standard input.
pub open spec fn html_base(style: PathStyle, args: HtmlArgsV, cwd: Option<Seq<char>>) -> Option<Seq<char>> {
    match args.input {
        Some(p) => spec_doc_base_dir(style, p, cwd),
        None => None,
    }
}

/// The page title: `--title`, else the input's file name, else `Markdown`.
pub open spec fn html_title(style: PathStyle, args: HtmlArgsV) -> Seq<char> {
    match args.title {
        Some(t) => t,
        None => match args.input {
            Some(p) => page_title(style, p),
            None => "Markdown"@,
        },
    }
}

/// The body `md2html` writes: with `--embed`, every local image whose file
/// was read is inlined as a `data:` URI.
pub open spec fn spec_html_body(style: PathStyle, 
    args: HtmlArgsV,
    markdown: Seq<char>,
    cwd: Option<Seq<char>>,
    fs: Seq<(Seq<char>, Option<Seq<u8>>)>,
) -> Seq<char> {
    let body = html_plain_body(style, args, markdown);
    match html_base(style, args, cwd) {
        Some(b) => if args.embed {
            inline_from(style, body, 0, b, fs)
        } else {
            body
        },
        None => body,
    }
}

/// What `md2html` writes: the body alone with `--body`, else the complete
/// page (libraries inlined with `--embed`, from CDNs otherwise).
pub open spec fn spec_md2html(style: PathStyle, 
    args: HtmlArgsV,
    markdown: Seq<char>,
    cwd: Option<Seq<char>>,
    fs: Seq<(Seq<char>, Option<Seq<u8>>)>,
) -> Seq<char> {
    let body = spec_html_body(style, args, markdown, cwd, fs);
    if args.body_only {
        body
    } else {
        spec_wrap_html(
            body,
            args.dark,
            html_title(style, args),
            if args.embed { AssetModeV::Embedded } else { AssetModeV::Cdn },
            ""@,
        )
    }
}

fn source_text(args: &HtmlArgs, markdown: &str) -> (r: String)
    ensures
        r@ == html_source(args@, markdown@),
{
    if args.strip_notes {
        strip_source_notes(markdown).text
    } else {
        markdown.to_owned()
    }
}

fn base_of(style: PathStyle, args: &HtmlArgs, cwd: Option<&str>) -> (r: Option<String>)
    ensures
        opt_seq(r) == html_base(style, args@, opt_view(cwd)),
{
    match &args.input {
        Some(p) => doc_base_dir(style, p.as_str(), cwd),
        None => None,
    }
}

/// The image files whose contents the `md2html` page inlines (with
/// `--embed`), as normalized paths.
pub fn md2html_queries(style: PathStyle, args: &HtmlArgs, markdown: &str, cwd: Option<&str>) -> (r: Vec<String>)
    ensures
        string_views(r@) == match html_base(style, args@, opt_view(cwd)) {
            Some(b) => if args@.embed {
                src_targets(style, html_plain_body(style, args@, markdown@), 0, b)
            } else {
                Seq::empty()
            },
            None => Seq::empty(),
        },
{
    let src = source_text(args, markdown);
    let no_files = FileFacts::new();
    let body = markdown_to_html(style, src.as_str(), None, &no_files);
    match base_of(style, args, cwd) {
        Some(b) => if args.embed {
            src_queries(style, body.as_str(), b.as_str())
        } else {
            let r: Vec<String> = Vec::new();
            proof {
                assert(string_views(r@) =~= Seq::empty());
            }
            r
        },
        None => {
            let r: Vec<String> = Vec::new();
            proof {
                assert(string_views(r@) =~= Seq::empty());
            }
            r
        },
    }
}

/// The HTML `md2html` writes for `markdown` (see [`spec_md2html`]); `facts`
/// holds the image files read for [`md2html_queries`].
pub fn md2html_output(style: PathStyle, args: &HtmlArgs, markdown: &str, cwd: Option<&str>, facts: &FileFacts) -> (r:
    String)
    ensures
        r@ == spec_md2html(style, args@, markdown@, opt_view(cwd), facts@),
{
    let src = source_text(args, markdown);
    let no_files = FileFacts::new();
    let plain = markdown_to_html(style, src.as_str(), None, &no_files);
    let body = match base_of(style, args, cwd) {
        Some(b) => if args.embed {
            inline_local_images(style, plain.as_str(), b.as_str(), facts)
        } else {
            plain
        },
        None => plain,
    };
    if args.body_only {
        return body;
    }
    let title = match &args.title {
        Some(t) => t.clone(),
        None => match &args.input {
            Some(p) => match file_name(style, p.as_str()) {
                Some(n) => string_of_chars(&n),
                None => "Markdown".to_owned(),
            },
            None => "Markdown".to_owned(),
        },
    };
    let opts = PageOptions {
        dark_mode: args.dark,
        title: title.as_str(),
        assets: if args.embed { AssetMode::Embedded } else { AssetMode::Cdn },
        extra_js: "",
    };
    proof {
        reveal_strlit("");
    }
    wrap_html(body.as_str(), &opts)
}

// ---------------------------------------------------------------------------
// md2docx
// ---------------------------------------------------------------------------

/// What `md2docx` hands to pandoc for one source.
pub struct DocxSource {
    /// The markdown to convert.
    pub text: String,
    /// Whether pandoc inserts a table of contents.
    pub toc: bool,
    /// The `TBC` placeholders left in the deliverable.
    pub tbc: usize,
}

/// The markdown `md2docx` converts: the source verbatim with
/// `--keep-notes`, else its deliverable.
pub open spec fn docx_text(args: DocxArgsV, markdown: Seq<char>) -> Seq<char> {
    if args.keep_notes {
        markdown
    } else {
        spec_strip_source_notes(markdown)
    }
}

/// A table of contents is asked for by `--toc`, or by a
/// `[TABLE OF CONTENTS]` marker note when notes are stripped.
pub open spec fn docx_toc(args: DocxArgsV, markdown: Seq<char>) -> bool {
    args.toc || (!args.keep_notes && any_contains(spec_note_lines(markdown), "[TABLE OF CONTENTS]"@))
}

/// Prepare one `md2docx` conversion: the text pandoc converts, whether it
/// inserts a table of contents, and the placeholders left outside notes.
pub fn docx_source(args: &DocxArgs, markdown: &str) -> (r: DocxSource)
    ensures
        r.text@ == docx_text(args@, markdown@),
        r.toc == docx_toc(args@, markdown@),
        r.tbc == spec_count_tbc(spec_strip_source_notes(markdown@)),
{
    let stripped = strip_source_notes(markdown);
    let tbc = count_tbc(stripped.text.as_str());
    if args.keep_notes {
        DocxSource { text: markdown.to_owned(), toc: args.toc, tbc }
    } else {
        DocxSource { text: stripped.text, toc: args.toc || stripped.table_of_contents, tbc }
    }
}

/// The decimal digits of `n`.
pub open spec fn decimal(n: nat) -> Seq<char>
    decreases n,
{
    if n < 10 {
        seq![digit_char(n)]
    } else {
        decimal(n / 10) + seq![digit_char(n % 10)]
    }
}

/// The character of a decimal digit.
pub open spec fn digit_char(d: nat) -> char {
    if d == 0 { '0' } else if d == 1 { '1' } else if d == 2 { '2' } else if d == 3 { '3' } else if d
        == 4 { '4' } else if d == 5 { '5' } else if d == 6 { '6' } else if d == 7 { '7' } else if d
        == 8 { '8' } else { '9' }
}

fn digit(d: u64) -> (c: char)
    requires
        d < 10,
    ensures
        c == digit_char(d as nat),
{
    if d == 0 { '0' } else if d == 1 { '1' } else if d == 2 { '2' } else if d == 3 { '3' } else if d
        == 4 { '4' } else if d == 5 { '5' } else if d == 6 { '6' } else if d == 7 { '7' } else if d
        == 8 { '8' } else { '9' }
}

/// The decimal text of `n`.
pub fn decimal_text(n: u64) -> (s: String)
    ensures
        s@ == decimal(n as nat),
    decreases n,
{
    if n < 10 {
        let mut s = empty_string();
        push_char(&mut s, digit(n));
        proof {
            assert(s@ =~= seq![digit_char(n as nat)]);
        }
        s
    } else {
        let mut s = decimal_text(n / 10);
        push_char(&mut s, digit(n % 10));
        s
    }
}

/// Why a `--final` build is refused: placeholders remain outside notes.
pub open spec fn spec_final_refusal(final_build: bool, tbc: nat) -> Option<Seq<char>> {
    if final_build && tbc > 0 {
        Some("REFUSING final build: "@ + decimal(tbc) + " TBC placeholder(s) remain outside notes"@)
    } else {
        None
    }
}

/// The message that refuses a `--final` build, if it must be refused.
pub fn final_refusal(final_build: bool, tbc: usize) -> (r: Option<String>)
    ensures
        opt_seq(r) == spec_final_refusal(final_build, tbc as nat),
{
    if final_build && tbc > 0 {
        let mut m = empty_string();
        push_str(&mut m, "REFUSING final build: ");
        let d = decimal_text(tbc as u64);
        push_str(&mut m, d.as_str());
        push_str(&mut m, " TBC placeholder(s) remain outside notes");
        Some(m)
    } else {
        None
    }
}

// ---------------------------------------------------------------------------
// Finding pandoc
// ---------------------------------------------------------------------------

/// `dir\Pandoc\pandoc.exe` for a Windows program folder `dir`.
pub open spec fn pandoc_exe_in(dir: Seq<char>) -> Seq<char> {
    spec_join(PathStyle::Windows, spec_join(PathStyle::Windows, dir, "Pandoc"@), "pandoc.exe"@)
}

/// Where pandoc is looked for when it does not run from PATH: on Windows
/// under the per-user program folder (`LOCALAPPDATA`) and then the
/// machine-wide one (`ProgramFiles`), where known; elsewhere in the usual
/// binary folders.
pub open spec fn spec_pandoc_candidates(
    style: PathStyle,
    local_app_data: Option<Seq<char>>,
    program_files: Option<Seq<char>>,
) -> Seq<Seq<char>> {
    match style {
        PathStyle::Windows => (match local_app_data {
            Some(d) => seq![pandoc_exe_in(d)],
            None => Seq::empty(),
        }) + (match program_files {
            Some(d) => seq![pandoc_exe_in(d)],
            None => Seq::empty(),
        }),
        PathStyle::Unix => seq!["/usr/local/bin/pandoc"@, "/opt/homebrew/bin/pandoc"@, "/usr/bin/pandoc"@],
    }
}

fn pandoc_exe(dir: &str) -> (r: String)
    ensures
        r@ == pandoc_exe_in(dir@),
{
    let d = join_path(PathStyle::Windows, dir, "Pandoc");
    join_path(PathStyle::Windows, d.as_str(), "pandoc.exe")
}

/// The places pandoc is looked for (see [`spec_pandoc_candidates`]).
pub fn pandoc_candidates(style: PathStyle, local_app_data: Option<&str>, program_files: Option<&str>) -> (r:
    Vec<String>)
    ensures
        string_views(r@) == spec_pandoc_candidates(style, opt_view(local_app_data), opt_view(program_files)),
{
    let mut out: Vec<String> = Vec::new();
    match style {
        PathStyle::Windows => {
            if let Some(d) = local_app_data {
                out.push(pandoc_exe(d));
            }
            if let Some(d) = program_files {
                out.push(pandoc_exe(d));
            }
        },
        PathStyle::Unix => {
            out.push("/usr/local/bin/pandoc".to_owned());
            out.push("/opt/homebrew/bin/pandoc".to_owned());
            out.push("/usr/bin/pandoc".to_owned());
        },
    }
    proof {
        assert(string_views(out@) =~= spec_pandoc_candidates(style, opt_view(local_app_data), opt_view(program_files)));
    }
    out
}

/// The first of `candidates` (from position `i` on) that is an existing
/// file, by `is_file`.
pub open spec fn first_file(candidates: Seq<Seq<char>>, is_file: Seq<bool>, i: int) -> Option<Seq<char>>
    decreases candidates.len() - i,
{
    if i < 0 || i >= candidates.len() || i >= is_file.len() {
        None
    } else if is_file[i] {
        Some(candidates[i])
    } else {
        first_file(candidates, is_file, i + 1)
    }
}

/// The pandoc to run: `pandoc` itself when it runs from PATH, else the
/// first candidate that is an existing file.
pub open spec fn spec_choose_pandoc(on_path: bool, candidates: Seq<Seq<char>>, is_file: Seq<bool>) -> Option<
    Seq<char>,
> {
    if on_path {
        Some("pandoc"@)
    } else {
        first_file(candidates, is_file, 0)
    }
}

/// Picks the pandoc to run from whether `pandoc` runs from PATH and which
/// of the candidates are existing files (`is_file[k]` for `candidates[k]`).
pub fn choose_pandoc(on_path: bool, candidates: &Vec<String>, is_file: &Vec<bool>) -> (r: Option<String>)
    ensures
        opt_seq(r) == spec_choose_pandoc(on_path, string_views(candidates@), is_file@),
{
    if on_path {
        let mut p = empty_string();
        push_str(&mut p, "pandoc");
        proof {
            assert(p@ =~= "pandoc"@);
        }
        return Some(p);
    }
    let ghost cs = string_views(candidates@);
    let mut i: usize = 0;
    while i < candidates.len() && i < is_file.len()
        invariant
            !on_path,
            cs == string_views(candidates@),
            first_file(cs, is_file@, 0) == first_file(cs, is_file@, i as int),
        decreases candidates.len() - i,
    {
        if is_file[i] {
            let mut found = empty_string();
            push_str(&mut found, candidates[i].as_str());
            proof {
                assert(found@ =~= cs[i as int]);
                assert(first_file(cs, is_file@, i as int) == Some(cs[i as int]));
            }
            return Some(found);
        }
        i += 1;
    }
    None
}

} // verus!
