//! Command lines of the suite's tools: what `md2html`, `md2docx` and
//! `mdread` make of their arguments, read left to right. The first help
//! flag or error ends the reading.
use vstd::prelude::*;
use crate::text::{chars_eq_str, chars_of, empty_string, push_str};

verus! {

/// The view of an optional string.
pub open spec fn opt_seq(o: Option<String>) -> Option<Seq<char>> {
    match o {
        Some(t) => Some(t@),
        None => None,
    }
}

/// An argument that starts with `-` and was not recognised.
pub open spec fn is_flag(a: Seq<char>) -> bool {
    a.len() > 0 && a[0] == '-'
}

/// Whether the argument `a` is the literal `lit`.
fn arg_is(a: &String, lit: &str) -> (r: bool)
    ensures
        r == (a@ == lit@),
{
    let v = chars_of(a.as_str());
    chars_eq_str(&v, lit)
}

/// Whether the argument starts with `-`.
fn arg_is_flag(a: &String) -> (r: bool)
    ensures
        r == is_flag(a@),
{
    let v = chars_of(a.as_str());
    v.len() > 0 && v[0] == '-'
}

/// `prefix` followed by `a`.
fn message(prefix: &str, a: &str) -> (m: String)
    ensures
        m@ == prefix@ + a@,
{
    let mut m = empty_string();
    push_str(&mut m, prefix);
    push_str(&mut m, a);
    m
}

// ---------------------------------------------------------------------------
// md2html
// ---------------------------------------------------------------------------

/// What `md2html` was asked to do.
pub struct HtmlArgs {
    /// The markdown file; standard input when `None`.
    pub input: Option<String>,
    /// `-o`/`--out`: the file to write instead of standard output.
    pub output: Option<String>,
    /// `--body`: the HTML fragment only.
    pub body_only: bool,
    /// `--embed`: inline the libraries and local images.
    pub embed: bool,
    /// `--dark`: dark color scheme.
    pub dark: bool,
    /// `--title`: the page title.
    pub title: Option<String>,
    /// `--strip-notes`: remove working notes before converting.
    pub strip_notes: bool,
    /// `--save`: write the page next to the input file.
    pub save: bool,
}

/// The view of [`HtmlArgs`].
pub struct HtmlArgsV {
    pub input: Option<Seq<char>>,
    pub output: Option<Seq<char>>,
    pub body_only: bool,
    pub embed: bool,
    pub dark: bool,
    pub title: Option<Seq<char>>,
    pub strip_notes: bool,
    pub save: bool,
}

impl View for HtmlArgs {
    type V = HtmlArgsV;

    open spec fn view(&self) -> HtmlArgsV {
        HtmlArgsV {
            input: opt_seq(self.input),
            output: opt_seq(self.output),
            body_only: self.body_only,
            embed: self.embed,
            dark: self.dark,
            title: opt_seq(self.title),
            strip_notes: self.strip_notes,
            save: self.save,
        }
    }
}

/// The outcome of reading a command line.
pub enum Command<T> {
    /// `-h`/`--help`: print the usage and succeed.
    Help,
    /// Run with these settings.
    Run(T),
    /// Fail with this message.
    Fail(String),
}

/// The view of a [`Command`].
pub enum CommandV<T> {
    Help,
    Run(T),
    Fail(Seq<char>),
}

impl<T: View> View for Command<T> {
    type V = CommandV<T::V>;

    open spec fn view(&self) -> CommandV<T::V> {
        match self {
            Command::Help => CommandV::Help,
            Command::Run(t) => CommandV::Run(t@),
            Command::Fail(m) => CommandV::Fail(m@),
        }
    }
}

/// The settings before any argument.
pub open spec fn html_defaults() -> HtmlArgsV {
    HtmlArgsV {
        input: None,
        output: None,
        body_only: false,
        embed: false,
        dark: false,
        title: None,
        strip_notes: false,
        save: false,
    }
}

/// The settings once every argument was read: `--save` needs a file input.
pub open spec fn html_finish(acc: HtmlArgsV) -> CommandV<HtmlArgsV> {
    if acc.save && acc.input is None {
        CommandV::Fail("--save needs a FILE input"@)
    } else {
        CommandV::Run(acc)
    }
}

/// What `md2html` makes of `args[i..]` after reading `args[..i]` into `acc`.
pub open spec fn html_parse(args: Seq<Seq<char>>, i: int, acc: HtmlArgsV) -> CommandV<HtmlArgsV>
    decreases args.len() - i,
{
    if i < 0 || i >= args.len() {
        html_finish(acc)
    } else {
        let a = args[i];
        if a == "-h"@ || a == "--help"@ {
            CommandV::Help
        } else if a == "-o"@ || a == "--out"@ {
            if i + 1 < args.len() {
                html_parse(args, i + 2, HtmlArgsV { output: Some(args[i + 1]), ..acc })
            } else {
                CommandV::Fail("missing value for --out"@)
            }
        } else if a == "--body"@ {
            html_parse(args, i + 1, HtmlArgsV { body_only: true, ..acc })
        } else if a == "--embed"@ {
            html_parse(args, i + 1, HtmlArgsV { embed: true, ..acc })
        } else if a == "--dark"@ {
            html_parse(args, i + 1, HtmlArgsV { dark: true, ..acc })
        } else if a == "--strip-notes"@ {
            html_parse(args, i + 1, HtmlArgsV { strip_notes: true, ..acc })
        } else if a == "--save"@ {
            html_parse(args, i + 1, HtmlArgsV { save: true, ..acc })
        } else if a == "--title"@ {
            if i + 1 < args.len() {
                html_parse(args, i + 2, HtmlArgsV { title: Some(args[i + 1]), ..acc })
            } else {
                CommandV::Fail("missing value for --title"@)
            }
        } else if is_flag(a) {
            CommandV::Fail("unknown option: "@ + a)
        } else if acc.input is Some {
            CommandV::Fail("more than one input file given"@)
        } else {
            html_parse(args, i + 1, HtmlArgsV { input: Some(a), ..acc })
        }
    }
}

/// The views of the arguments.
pub open spec fn arg_views(args: Seq<String>) -> Seq<Seq<char>> {
    args.map_values(|a: String| a@)
}

/// Read `md2html`'s command line (the arguments after the program name).
pub fn parse_md2html_args(args: &Vec<String>) -> (r: Command<HtmlArgs>)
    ensures
        r@ == html_parse(arg_views(args@), 0, html_defaults()),
{
    let ghost av = arg_views(args@);
    let mut acc = HtmlArgs {
        input: None,
        output: None,
        body_only: false,
        embed: false,
        dark: false,
        title: None,
        strip_notes: false,
        save: false,
    };
    let mut i: usize = 0;
    while i < args.len()
        invariant
            av == arg_views(args@),
            i <= args@.len(),
            html_parse(av, 0, html_defaults()) == html_parse(av, i as int, acc@),
        decreases args.len() - i,
    {
        let a = &args[i];
        proof {
            assert(av[i as int] == a@);
        }
        if arg_is(a, "-h") || arg_is(a, "--help") {
            return Command::Help;
        } else if arg_is(a, "-o") || arg_is(a, "--out") {
            if i + 1 < args.len() {
                proof {
                    assert(av[i + 1] == args@[i + 1]@);
                }
                acc.output = Some(args[i + 1].clone());
                i += 2;
            } else {
                return Command::Fail("missing value for --out".to_owned());
            }
        } else if arg_is(a, "--body") {
            acc.body_only = true;
            i += 1;
        } else if arg_is(a, "--embed") {
            acc.embed = true;
            i += 1;
        } else if arg_is(a, "--dark") {
            acc.dark = true;
            i += 1;
        } else if arg_is(a, "--strip-notes") {
            acc.strip_notes = true;
            i += 1;
        } else if arg_is(a, "--save") {
            acc.save = true;
            i += 1;
        } else if arg_is(a, "--title") {
            if i + 1 < args.len() {
                proof {
                    assert(av[i + 1] == args@[i + 1]@);
                }
                acc.title = Some(args[i + 1].clone());
                i += 2;
            } else {
                return Command::Fail("missing value for --title".to_owned());
            }
        } else if arg_is_flag(a) {
            return Command::Fail(message("unknown option: ", a.as_str()));
        } else if acc.input.is_some() {
            return Command::Fail("more than one input file given".to_owned());
        } else {
            acc.input = Some(a.clone());
            i += 1;
        }
    }
    if acc.save && acc.input.is_none() {
        return Command::Fail("--save needs a FILE input".to_owned());
    }
    Command::Run(acc)
}

/// Where a converter writes its output.
pub enum Destination {
    /// Standard output.
    Stdout,
    /// The named file.
    File(String),
    /// Next to the input file: its path with the output's extension in
    /// place of its own (std `Path::with_extension`).
    BesideInput(String),
}

/// The view of a [`Destination`].
pub enum DestinationV {
    Stdout,
    File(Seq<char>),
    BesideInput(Seq<char>),
}

impl View for Destination {
    type V = DestinationV;

    open spec fn view(&self) -> DestinationV {
        match self {
            Destination::Stdout => DestinationV::Stdout,
            Destination::File(f) => DestinationV::File(f@),
            Destination::BesideInput(i) => DestinationV::BesideInput(i@),
        }
    }
}

/// Where `md2html` writes: an explicit `--out` wins over `--save`, which
/// writes next to the input file; standard output otherwise.
pub open spec fn spec_html_destination(args: HtmlArgsV) -> DestinationV {
    match args.output {
        Some(o) => DestinationV::File(o),
        None => match args.input {
            Some(i) => if args.save {
                DestinationV::BesideInput(i)
            } else {
                DestinationV::Stdout
            },
            None => DestinationV::Stdout,
        },
    }
}

/// Where `md2html` writes its output.
pub fn html_destination(args: &HtmlArgs) -> (d: Destination)
    ensures
        d@ == spec_html_destination(args@),
{
    match &args.output {
        Some(o) => Destination::File(o.clone()),
        None => match &args.input {
            Some(i) => if args.save {
                Destination::BesideInput(i.clone())
            } else {
                Destination::Stdout
            },
            None => Destination::Stdout,
        },
    }
}

// ---------------------------------------------------------------------------
// md2docx
// ---------------------------------------------------------------------------

/// What `md2docx` was asked to do.
pub struct DocxArgs {
    /// The markdown file.
    pub input: Option<String>,
    /// `-o`/`--out`: the `.docx` to write.
    pub output: Option<String>,
    /// `--reference-doc`: the `.docx` whose styles the output takes.
    pub reference_doc: Option<String>,
    /// `--toc`: insert a table of contents.
    pub toc: bool,
    /// `--pandoc`: the pandoc executable to run.
    pub pandoc: Option<String>,
    /// `--keep-notes`: convert the source verbatim.
    pub keep_notes: bool,
    /// `--final`: refuse while a `TBC` placeholder remains.
    pub final_build: bool,
}

/// The view of [`DocxArgs`].
pub struct DocxArgsV {
    pub input: Option<Seq<char>>,
    pub output: Option<Seq<char>>,
    pub reference_doc: Option<Seq<char>>,
    pub toc: bool,
    pub pandoc: Option<Seq<char>>,
    pub keep_notes: bool,
    pub final_build: bool,
}

impl View for DocxArgs {
    type V = DocxArgsV;

    open spec fn view(&self) -> DocxArgsV {
        DocxArgsV {
            input: opt_seq(self.input),
            output: opt_seq(self.output),
            reference_doc: opt_seq(self.reference_doc),
            toc: self.toc,
            pandoc: opt_seq(self.pandoc),
            keep_notes: self.keep_notes,
            final_build: self.final_build,
        }
    }
}

/// The settings before any argument.
pub open spec fn docx_defaults() -> DocxArgsV {
    DocxArgsV {
        input: None,
        output: None,
        reference_doc: None,
        toc: false,
        pandoc: None,
        keep_notes: false,
        final_build: false,
    }
}

/// The settings once every argument was read: an input file is needed.
pub open spec fn docx_finish(acc: DocxArgsV) -> CommandV<DocxArgsV> {
    if acc.input is None {
        CommandV::Fail("no input file given"@)
    } else {
        CommandV::Run(acc)
    }
}

/// What `md2docx` makes of `args[i..]` after reading `args[..i]` into `acc`.
pub open spec fn docx_parse(args: Seq<Seq<char>>, i: int, acc: DocxArgsV) -> CommandV<DocxArgsV>
    decreases args.len() - i,
{
    if i < 0 || i >= args.len() {
        docx_finish(acc)
    } else {
        let a = args[i];
        if a == "-h"@ || a == "--help"@ {
            CommandV::Help
        } else if a == "-o"@ || a == "--out"@ {
            if i + 1 < args.len() {
                docx_parse(args, i + 2, DocxArgsV { output: Some(args[i + 1]), ..acc })
            } else {
                CommandV::Fail("missing value for --out"@)
            }
        } else if a == "--reference-doc"@ {
            if i + 1 < args.len() {
                docx_parse(args, i + 2, DocxArgsV { reference_doc: Some(args[i + 1]), ..acc })
            } else {
                CommandV::Fail("missing value for --reference-doc"@)
            }
        } else if a == "--toc"@ {
            docx_parse(args, i + 1, DocxArgsV { toc: true, ..acc })
        } else if a == "--pandoc"@ {
            if i + 1 < args.len() {
                docx_parse(args, i + 2, DocxArgsV { pandoc: Some(args[i + 1]), ..acc })
            } else {
                CommandV::Fail("missing value for --pandoc"@)
            }
        } else if a == "--keep-notes"@ {
            docx_parse(args, i + 1, DocxArgsV { keep_notes: true, ..acc })
        } else if a == "--final"@ {
            docx_parse(args, i + 1, DocxArgsV { final_build: true, ..acc })
        } else if is_flag(a) {
            CommandV::Fail("unknown option: "@ + a)
        } else if acc.input is Some {
            CommandV::Fail("more than one input file given"@)
        } else {
            docx_parse(args, i + 1, DocxArgsV { input: Some(a), ..acc })
        }
    }
}

/// Read `md2docx`'s command line (the arguments after the program name).
pub fn parse_md2docx_args(args: &Vec<String>) -> (r: Command<DocxArgs>)
    ensures
        r@ == docx_parse(arg_views(args@), 0, docx_defaults()),
{
    let ghost av = arg_views(args@);
    let mut acc = DocxArgs {
        input: None,
        output: None,
        reference_doc: None,
        toc: false,
        pandoc: None,
        keep_notes: false,
        final_build: false,
    };
    let mut i: usize = 0;
    while i < args.len()
        invariant
            av == arg_views(args@),
            i <= args@.len(),
            docx_parse(av, 0, docx_defaults()) == docx_parse(av, i as int, acc@),
        decreases args.len() - i,
    {
        let a = &args[i];
        proof {
            assert(av[i as int] == a@);
            if i + 1 < args.len() {
                assert(av[i + 1] == args@[i + 1]@);
            }
        }
        if arg_is(a, "-h") || arg_is(a, "--help") {
            return Command::Help;
        } else if arg_is(a, "-o") || arg_is(a, "--out") {
            if i + 1 < args.len() {
                acc.output = Some(args[i + 1].clone());
                i += 2;
            } else {
                return Command::Fail("missing value for --out".to_owned());
            }
        } else if arg_is(a, "--reference-doc") {
            if i + 1 < args.len() {
                acc.reference_doc = Some(args[i + 1].clone());
                i += 2;
            } else {
                return Command::Fail("missing value for --reference-doc".to_owned());
            }
        } else if arg_is(a, "--toc") {
            acc.toc = true;
            i += 1;
        } else if arg_is(a, "--pandoc") {
            if i + 1 < args.len() {
                acc.pandoc = Some(args[i + 1].clone());
                i += 2;
            } else {
                return Command::Fail("missing value for --pandoc".to_owned());
            }
        } else if arg_is(a, "--keep-notes") {
            acc.keep_notes = true;
            i += 1;
        } else if arg_is(a, "--final") {
            acc.final_build = true;
            i += 1;
        } else if arg_is_flag(a) {
            return Command::Fail(message("unknown option: ", a.as_str()));
        } else if acc.input.is_some() {
            return Command::Fail("more than one input file given".to_owned());
        } else {
            acc.input = Some(a.clone());
            i += 1;
        }
    }
    if acc.input.is_none() {
        return Command::Fail("no input file given".to_owned());
    }
    Command::Run(acc)
}

/// Where `md2docx` writes: `--out`, else next to the input file.
pub open spec fn spec_docx_destination(args: DocxArgsV) -> DestinationV {
    match args.output {
        Some(o) => DestinationV::File(o),
        None => match args.input {
            Some(i) => DestinationV::BesideInput(i),
            None => DestinationV::Stdout,
        },
    }
}

/// Where `md2docx` writes the `.docx` (the command line names an input, so
/// it is never standard output).
pub fn docx_destination(args: &DocxArgs) -> (d: Destination)
    ensures
        d@ == spec_docx_destination(args@),
{
    match &args.output {
        Some(o) => Destination::File(o.clone()),
        None => match &args.input {
            Some(i) => Destination::BesideInput(i.clone()),
            None => Destination::Stdout,
        },
    }
}

/// The views of a sequence of strings.
pub open spec fn string_seq(v: Seq<String>) -> Seq<Seq<char>> {
    v.map_values(|a: String| a@)
}

/// The arguments `md2docx` hands to pandoc: the input, the output, markdown
/// to docx, the resource path that relative images resolve against, then
/// `--toc` and the reference document when asked for.
pub open spec fn spec_pandoc_args(
    input: Seq<char>,
    output: Seq<char>,
    resource_dir: Seq<char>,
    toc: bool,
    reference_doc: Option<Seq<char>>,
) -> Seq<Seq<char>> {
    seq![input, "-o"@, output, "--from"@, "markdown"@, "--to"@, "docx"@, "--resource-path"@, resource_dir]
        + (if toc { seq!["--toc"@] } else { seq![] }) + match reference_doc {
        Some(r) => seq!["--reference-doc"@, r],
        None => seq![],
    }
}

/// The pandoc command line for one conversion (see [`spec_pandoc_args`]).
pub fn pandoc_args(
    input: &str,
    output: &str,
    resource_dir: &str,
    toc: bool,
    reference_doc: Option<&str>,
) -> (r: Vec<String>)
    ensures
        string_seq(r@) == spec_pandoc_args(input@, output@, resource_dir@, toc, crate::text::opt_view(
            reference_doc,
        )),
{
    let mut r: Vec<String> = Vec::new();
    r.push(input.to_owned());
    r.push("-o".to_owned());
    r.push(output.to_owned());
    r.push("--from".to_owned());
    r.push("markdown".to_owned());
    r.push("--to".to_owned());
    r.push("docx".to_owned());
    r.push("--resource-path".to_owned());
    r.push(resource_dir.to_owned());
    let ghost fixed = string_seq(r@);
    if toc {
        r.push("--toc".to_owned());
    }
    let ghost with_toc = string_seq(r@);
    if let Some(reference) = reference_doc {
        r.push("--reference-doc".to_owned());
        r.push(reference.to_owned());
    }
    proof {
        assert(fixed =~= seq![input@, "-o"@, output@, "--from"@, "markdown"@, "--to"@, "docx"@,
            "--resource-path"@, resource_dir@]);
        assert(with_toc =~= fixed + (if toc { seq!["--toc"@] } else { Seq::<Seq<char>>::empty() }));
        assert(string_seq(r@) =~= with_toc + match crate::text::opt_view(reference_doc) {
            Some(x) => seq!["--reference-doc"@, x],
            None => Seq::<Seq<char>>::empty(),
        });
    }
    r
}

// ---------------------------------------------------------------------------
// mdread
// ---------------------------------------------------------------------------

/// What `mdread` was asked to do.
pub struct ReaderArgs {
    /// The markdown file to open (a file dialog is shown when `None`).
    pub file: Option<String>,
    /// `--dark` / `--light`: forced color scheme (the last one given wins);
    /// `None` follows the system setting.
    pub force_dark: Option<bool>,
}

/// The view of [`ReaderArgs`].
pub struct ReaderArgsV {
    pub file: Option<Seq<char>>,
    pub force_dark: Option<bool>,
}

impl View for ReaderArgs {
    type V = ReaderArgsV;

    open spec fn view(&self) -> ReaderArgsV {
        ReaderArgsV { file: opt_seq(self.file), force_dark: self.force_dark }
    }
}

/// What `mdread` makes of `args[i..]` after reading `args[..i]` into `acc`:
/// the last file argument is the one opened.
pub open spec fn reader_parse(args: Seq<Seq<char>>, i: int, acc: ReaderArgsV) -> CommandV<ReaderArgsV>
    decreases args.len() - i,
{
    if i < 0 || i >= args.len() {
        CommandV::Run(acc)
    } else {
        let a = args[i];
        if a == "-h"@ || a == "--help"@ {
            CommandV::Help
        } else if a == "--dark"@ {
            reader_parse(args, i + 1, ReaderArgsV { force_dark: Some(true), ..acc })
        } else if a == "--light"@ {
            reader_parse(args, i + 1, ReaderArgsV { force_dark: Some(false), ..acc })
        } else if is_flag(a) {
            CommandV::Fail("unknown option: "@ + a)
        } else {
            reader_parse(args, i + 1, ReaderArgsV { file: Some(a), ..acc })
        }
    }
}

/// Read `mdread`'s command line (the arguments after the program name).
pub fn parse_mdread_args(args: &Vec<String>) -> (r: Command<ReaderArgs>)
    ensures
        r@ == reader_parse(arg_views(args@), 0, ReaderArgsV { file: None, force_dark: None }),
{
    let ghost av = arg_views(args@);
    let mut acc = ReaderArgs { file: None, force_dark: None };
    let mut i: usize = 0;
    while i < args.len()
        invariant
            av == arg_views(args@),
            i <= args@.len(),
            reader_parse(av, 0, ReaderArgsV { file: None, force_dark: None }) == reader_parse(
                av,
                i as int,
                acc@,
            ),
        decreases args.len() - i,
    {
        let a = &args[i];
        proof {
            assert(av[i as int] == a@);
        }
        if arg_is(a, "-h") || arg_is(a, "--help") {
            return Command::Help;
        } else if arg_is(a, "--dark") {
            acc.force_dark = Some(true);
        } else if arg_is(a, "--light") {
            acc.force_dark = Some(false);
        } else if arg_is_flag(a) {
            return Command::Fail(message("unknown option: ", a.as_str()));
        } else {
            acc.file = Some(a.clone());
        }
        i += 1;
    }
    Command::Run(acc)
}

/// The color scheme forced by the last `--dark` or `--light` among
/// `args[lo..n]`, looking from the end: `Some(true)` for `--dark`,
/// `Some(false)` for `--light`, `None` where neither occurs.
pub open spec fn last_scheme_flag(args: Seq<Seq<char>>, lo: int, n: int) -> Option<bool>
    decreases n - lo,
{
    if n <= lo {
        None
    } else if args[n - 1] == "--dark"@ {
        Some(true)
    } else if args[n - 1] == "--light"@ {
        Some(false)
    } else {
        last_scheme_flag(args, lo, n - 1)
    }
}

/// Dropping the first argument of a range leaves the last scheme flag as
/// it was, unless that argument was the only one.
proof fn lemma_last_scheme_flag_front(args: Seq<Seq<char>>, i: int, n: int)
    requires
        i < n,
    ensures
        last_scheme_flag(args, i, n) == match last_scheme_flag(args, i + 1, n) {
            Some(b) => Some(b),
            None => if args[i] == "--dark"@ {
                Some(true)
            } else if args[i] == "--light"@ {
                Some(false)
            } else {
                None
            },
        },
    decreases n - i,
{
    if n - 1 > i {
        lemma_last_scheme_flag_front(args, i, n - 1);
    } else {
        assert(last_scheme_flag(args, i, i) == None::<bool>);
        assert(last_scheme_flag(args, i + 1, n) == None::<bool>);
    }
}

proof fn lemma_reader_parse_scheme(args: Seq<Seq<char>>, i: int, acc: ReaderArgsV)
    requires
        0 <= i <= args.len(),
    ensures
        reader_parse(args, i, acc) matches CommandV::Run(r) ==> r.force_dark == match last_scheme_flag(
            args,
            i,
            args.len() as int,
        ) {
            Some(b) => Some(b),
            None => acc.force_dark,
        },
    decreases args.len() - i,
{
    if i < args.len() {
        lemma_last_scheme_flag_front(args, i, args.len() as int);
        let a = args[i];
        if a == "-h"@ || a == "--help"@ {
        } else if a == "--dark"@ {
            lemma_reader_parse_scheme(args, i + 1, ReaderArgsV { force_dark: Some(true), ..acc });
        } else if a == "--light"@ {
            lemma_reader_parse_scheme(args, i + 1, ReaderArgsV { force_dark: Some(false), ..acc });
        } else if is_flag(a) {
        } else {
            lemma_reader_parse_scheme(args, i + 1, ReaderArgsV { file: Some(a), ..acc });
        }
    }
}

/// When `mdread` runs, its forced color scheme is the one named by the last
/// `--dark` or `--light` on the command line, and follows the system
/// setting where neither is given: no other argument changes it.
pub proof fn law_last_scheme_flag_wins(args: Seq<Seq<char>>)
    ensures
        reader_parse(args, 0, ReaderArgsV { file: None, force_dark: None }) matches CommandV::Run(r)
            ==> r.force_dark == last_scheme_flag(args, 0, args.len() as int),
{
    lemma_reader_parse_scheme(args, 0, ReaderArgsV { file: None, force_dark: None });
}

/// The last argument among `args[lo..n]` that is neither `--dark`,
/// `--light`, a help flag nor another flag: the file `mdread` opens.
pub open spec fn last_file_arg(args: Seq<Seq<char>>, lo: int, n: int) -> Option<Seq<char>>
    decreases n - lo,
{
    if n <= lo {
        None
    } else {
        let a = args[n - 1];
        if a == "--dark"@ || a == "--light"@ || a == "-h"@ || a == "--help"@ || is_flag(a) {
            last_file_arg(args, lo, n - 1)
        } else {
            Some(a)
        }
    }
}

proof fn lemma_last_file_arg_front(args: Seq<Seq<char>>, i: int, n: int)
    requires
        i < n,
    ensures
        last_file_arg(args, i, n) == match last_file_arg(args, i + 1, n) {
            Some(f) => Some(f),
            None => {
                let a = args[i];
                if a == "--dark"@ || a == "--light"@ || a == "-h"@ || a == "--help"@ || is_flag(a) {
                    None
                } else {
                    Some(a)
                }
            },
        },
    decreases n - i,
{
    if n - 1 > i {
        lemma_last_file_arg_front(args, i, n - 1);
    } else {
        assert(last_file_arg(args, i, i) == None::<Seq<char>>);
        assert(last_file_arg(args, i + 1, n) == None::<Seq<char>>);
    }
}

proof fn lemma_reader_parse_file(args: Seq<Seq<char>>, i: int, acc: ReaderArgsV)
    requires
        0 <= i <= args.len(),
    ensures
        reader_parse(args, i, acc) matches CommandV::Run(r) ==> r.file == match last_file_arg(
            args,
            i,
            args.len() as int,
        ) {
            Some(f) => Some(f),
            None => acc.file,
        },
    decreases args.len() - i,
{
    if i < args.len() {
        lemma_last_file_arg_front(args, i, args.len() as int);
        let a = args[i];
        if a == "-h"@ || a == "--help"@ {
        } else if a == "--dark"@ {
            lemma_reader_parse_file(args, i + 1, ReaderArgsV { force_dark: Some(true), ..acc });
        } else if a == "--light"@ {
            lemma_reader_parse_file(args, i + 1, ReaderArgsV { force_dark: Some(false), ..acc });
        } else if is_flag(a) {
        } else {
            lemma_reader_parse_file(args, i + 1, ReaderArgsV { file: Some(a), ..acc });
        }
    }
}

/// When `mdread` runs, it opens the last file argument on its command line,
/// and shows the file dialog where none is given.
pub proof fn law_last_file_argument_opened(args: Seq<Seq<char>>)
    ensures
        reader_parse(args, 0, ReaderArgsV { file: None, force_dark: None }) matches CommandV::Run(r)
            ==> r.file == last_file_arg(args, 0, args.len() as int),
{
    lemma_reader_parse_file(args, 0, ReaderArgsV { file: None, force_dark: None });
}

/// What the reader's window is asked to do, by its page script, its
/// protocol handler or its file watcher.
pub enum UserEvent {
    /// A page finished loading: apply the persisted zoom factor.
    PageLoaded,
    /// The document on screen changed on disk: reload it.
    ReloadDocument,
    /// Show the file-open dialog and navigate to the chosen file.
    OpenDialog,
    /// Open a non-markdown / external URL with the system handler.
    OpenExternal(String),
    /// Update the window title to the served document's filename.
    SetTitle(String),
    ZoomIn,
    ZoomOut,
    ZoomReset,
    Close,
}

/// The view of a [`UserEvent`].
pub enum UserEventV {
    PageLoaded,
    ReloadDocument,
    OpenDialog,
    OpenExternal(Seq<char>),
    SetTitle(Seq<char>),
    ZoomIn,
    ZoomOut,
    ZoomReset,
    Close,
}

impl View for UserEvent {
    type V = UserEventV;

    open spec fn view(&self) -> UserEventV {
        match self {
            UserEvent::PageLoaded => UserEventV::PageLoaded,
            UserEvent::ReloadDocument => UserEventV::ReloadDocument,
            UserEvent::OpenDialog => UserEventV::OpenDialog,
            UserEvent::OpenExternal(u) => UserEventV::OpenExternal(u@),
            UserEvent::SetTitle(t) => UserEventV::SetTitle(t@),
            UserEvent::ZoomIn => UserEventV::ZoomIn,
            UserEvent::ZoomOut => UserEventV::ZoomOut,
            UserEvent::ZoomReset => UserEventV::ZoomReset,
            UserEvent::Close => UserEventV::Close,
        }
    }
}

/// The event a message of the page script asks for: `open-external:<url>`,
/// or one of the fixed messages; anything else is ignored.
pub open spec fn spec_ipc_event(msg: Seq<char>) -> Option<UserEventV> {
    let p = "open-external:"@;
    if p.is_prefix_of(msg) {
        Some(UserEventV::OpenExternal(msg.skip(p.len() as int)))
    } else if msg == "loaded"@ {
        Some(UserEventV::PageLoaded)
    } else if msg == "open-dialog"@ {
        Some(UserEventV::OpenDialog)
    } else if msg == "zoom-in"@ {
        Some(UserEventV::ZoomIn)
    } else if msg == "zoom-out"@ {
        Some(UserEventV::ZoomOut)
    } else if msg == "zoom-reset"@ {
        Some(UserEventV::ZoomReset)
    } else if msg == "close"@ {
        Some(UserEventV::Close)
    } else {
        None
    }
}

/// The view of an optional event.
pub open spec fn opt_event(e: Option<UserEvent>) -> Option<UserEventV> {
    match e {
        Some(x) => Some(x@),
        None => None,
    }
}

/// The event one IPC message from the page script asks for.
pub fn ipc_event(msg: &str) -> (r: Option<UserEvent>)
    ensures
        opt_event(r) == spec_ipc_event(msg@),
{
    let v = chars_of(msg);
    let p = chars_of("open-external:");
    if crate::text::starts_with_str(&v, "open-external:") {
        let rest = crate::text::sub_chars(&v, p.len(), v.len());
        proof {
            assert(msg@.skip(p@.len() as int) =~= rest@);
        }
        return Some(UserEvent::OpenExternal(crate::text::string_of_chars(&rest)));
    }
    if chars_eq_str(&v, "loaded") {
        Some(UserEvent::PageLoaded)
    } else if chars_eq_str(&v, "open-dialog") {
        Some(UserEvent::OpenDialog)
    } else if chars_eq_str(&v, "zoom-in") {
        Some(UserEvent::ZoomIn)
    } else if chars_eq_str(&v, "zoom-out") {
        Some(UserEvent::ZoomOut)
    } else if chars_eq_str(&v, "zoom-reset") {
        Some(UserEvent::ZoomReset)
    } else if chars_eq_str(&v, "close") {
        Some(UserEvent::Close)
    } else {
        None
    }
}

/// The URLs the reader hands to the system: web and mail links only.
pub open spec fn spec_opens_externally(url: Seq<char>) -> bool {
    "http://"@.is_prefix_of(url) || "https://"@.is_prefix_of(url) || "mailto:"@.is_prefix_of(url)
}

/// Whether an external URL may be opened with the system handler.
pub fn opens_externally(url: &str) -> (b: bool)
    ensures
        b == spec_opens_externally(url@),
{
    let v = chars_of(url);
    crate::text::starts_with_str(&v, "http://") || crate::text::starts_with_str(&v, "https://")
        || crate::text::starts_with_str(&v, "mailto:")
}

/// What the live-reload watcher knows of the document on one tick: its
/// path, modification time (seconds and nanoseconds since the epoch) and
/// size.
pub struct Stamp {
    pub path: String,
    pub modified_secs: u64,
    pub modified_nanos: u32,
    pub len: u64,
}

/// The document changed on disk: the same path as on the last tick, with
/// another modification time or size.
pub open spec fn spec_reload_needed(last: Option<Stamp>, next: Stamp) -> bool {
    match last {
        Some(p) => p.path@ == next.path@ && (p.modified_secs != next.modified_secs
            || p.modified_nanos != next.modified_nanos || p.len != next.len),
        None => false,
    }
}

/// Whether the watcher must reload the page after seeing `next` (the
/// stamp seen last is `last`; a new path only starts watching).
pub fn reload_needed(last: &Option<Stamp>, next: &Stamp) -> (b: bool)
    ensures
        b == spec_reload_needed(*last, *next),
{
    match last {
        Some(p) => {
            let a = chars_of(p.path.as_str());
            let b = chars_of(next.path.as_str());
            crate::text::chars_eq(&a, &b) && (p.modified_secs != next.modified_secs || p.modified_nanos
                != next.modified_nanos || p.len != next.len)
        },
        None => false,
    }
}

} // verus!
