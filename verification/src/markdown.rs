//! The boundary to pulldown-cmark: the option bits the suite parses with,
//! the events the engine reads (as plain values), and HTML generation from a
//! transformed event stream.
use vstd::prelude::*;
use vstd::string::StrSliceExecFns;
use pulldown_cmark::{html, CodeBlockKind, Event, Options, Parser, Tag};
use crate::text::{
    chars_eq_str, chars_of, find_char, first_word, first_word_of, index_of, lemma_index_of,
    sub_chars,
};
use crate::paths::{ascii_lower_seq, ascii_lowercase};

verus! {

/// pulldown-cmark's `Options::ENABLE_TABLES` bit.
pub const ENABLE_TABLES: u32 = 2;

/// pulldown-cmark's `Options::ENABLE_FOOTNOTES` bit.
pub const ENABLE_FOOTNOTES: u32 = 4;

/// pulldown-cmark's `Options::ENABLE_STRIKETHROUGH` bit.
pub const ENABLE_STRIKETHROUGH: u32 = 8;

/// pulldown-cmark's `Options::ENABLE_TASKLISTS` bit.
pub const ENABLE_TASKLISTS: u32 = 16;

/// The option bits every conversion in the suite uses: GitHub tables,
/// footnotes, strikethrough and task lists.
pub open spec fn suite_options() -> u32 {
    ENABLE_TABLES | ENABLE_FOOTNOTES | ENABLE_STRIKETHROUGH | ENABLE_TASKLISTS
}

/// The pulldown-cmark options every conversion in the suite uses.
pub fn md_options() -> (flags: u32)
    ensures
        flags == suite_options(),
{
    ENABLE_TABLES | ENABLE_FOOTNOTES | ENABLE_STRIKETHROUGH | ENABLE_TASKLISTS
}

/// The block kinds the engine tells apart.
pub enum Block {
    Paragraph,
    Heading,
    CodeBlock,
    List,
    Item,
    BlockQuote,
    Other,
}

/// A parser event as the engine reads it.
pub enum MdEvent {
    /// Start of a block of the given kind (other than a fenced code block,
    /// an image or a link).
    Start(Block),
    /// End of a block of the given kind.
    End(Block),
    /// Start of a fenced code block, with its info string.
    Fence(String),
    /// Start of an image, with its destination.
    Image(String),
    /// Start of a link, with its destination.
    Link(String),
    /// A text node.
    Text(String),
    /// An inline code span.
    Code(String),
    /// A soft or hard line break.
    Break,
    /// Any other event.
    Other,
}

/// The view of an [`MdEvent`].
pub enum MdEventV {
    Start(Block),
    End(Block),
    Fence(Seq<char>),
    Image(Seq<char>),
    Link(Seq<char>),
    Text(Seq<char>),
    Code(Seq<char>),
    Break,
    Other,
}

impl View for MdEvent {
    type V = MdEventV;

    open spec fn view(&self) -> MdEventV {
        match self {
            MdEvent::Start(b) => MdEventV::Start(*b),
            MdEvent::End(b) => MdEventV::End(*b),
            MdEvent::Fence(s) => MdEventV::Fence(s@),
            MdEvent::Image(s) => MdEventV::Image(s@),
            MdEvent::Link(s) => MdEventV::Link(s@),
            MdEvent::Text(s) => MdEventV::Text(s@),
            MdEvent::Code(s) => MdEventV::Code(s@),
            MdEvent::Break => MdEventV::Break,
            MdEvent::Other => MdEventV::Other,
        }
    }
}

/// The views of a sequence of events.
pub open spec fn event_views(v: Seq<MdEvent>) -> Seq<MdEventV> {
    v.map_values(|e: MdEvent| e@)
}

/// A parser event as pulldown-cmark reports it: block starts and ends by
/// the `Debug` text of their end tag (`Paragraph`, `Heading(H1)`, …), the
/// other events the engine reads with their text.
pub enum RawEvent {
    Start(String),
    End(String),
    Fence(String),
    Image(String),
    Link(String),
    Text(String),
    Code(String),
    Break,
    Other,
}

/// The view of a [`RawEvent`].
pub enum RawEventV {
    Start(Seq<char>),
    End(Seq<char>),
    Fence(Seq<char>),
    Image(Seq<char>),
    Link(Seq<char>),
    Text(Seq<char>),
    Code(Seq<char>),
    Break,
    Other,
}

impl View for RawEvent {
    type V = RawEventV;

    open spec fn view(&self) -> RawEventV {
        match self {
            RawEvent::Start(s) => RawEventV::Start(s@),
            RawEvent::End(s) => RawEventV::End(s@),
            RawEvent::Fence(s) => RawEventV::Fence(s@),
            RawEvent::Image(s) => RawEventV::Image(s@),
            RawEvent::Link(s) => RawEventV::Link(s@),
            RawEvent::Text(s) => RawEventV::Text(s@),
            RawEvent::Code(s) => RawEventV::Code(s@),
            RawEvent::Break => RawEventV::Break,
            RawEvent::Other => RawEventV::Other,
        }
    }
}

/// The views of a sequence of raw events.
pub open spec fn raw_views(v: Seq<RawEvent>) -> Seq<RawEventV> {
    v.map_values(|e: RawEvent| e@)
}

/// The events pulldown-cmark produces for `markdown` under the option bits
/// `flags`, as [`parse_raw`] reports them.
pub uninterp spec fn parsed_raw(markdown: Seq<char>, flags: u32) -> Seq<RawEventV>;

/// Runs pulldown-cmark's `Parser::new_ext` over `markdown` with the option
/// bits `flags` and reports each event as a [`RawEvent`]. The result is
/// named [`parsed_raw`]; what the parser makes of markdown is not stated.
#[verifier::external_body]
fn parse_raw(markdown: &str, flags: u32) -> (res: Vec<RawEvent>)
    ensures
        raw_views(res@) == parsed_raw(markdown@, flags),
{
    Parser::new_ext(markdown, Options::from_bits_truncate(flags)).map(|e| match e {
        Event::Start(Tag::CodeBlock(CodeBlockKind::Fenced(s))) => RawEvent::Fence(s.into()),
        Event::Start(Tag::Image { dest_url, .. }) => RawEvent::Image(dest_url.into()),
        Event::Start(Tag::Link { dest_url, .. }) => RawEvent::Link(dest_url.into()),
        Event::Start(t) => RawEvent::Start(format!("{:?}", t.to_end())),
        Event::End(t) => RawEvent::End(format!("{t:?}")),
        Event::Text(s) => RawEvent::Text(s.into()),
        Event::Code(s) => RawEvent::Code(s.into()),
        Event::SoftBreak | Event::HardBreak => RawEvent::Break,
        _ => RawEvent::Other,
    }).collect()
}

/// The block kind an end tag's `Debug` text names: the variant name before
/// any `(`.
pub open spec fn block_named(name: Seq<char>) -> Block {
    let k = index_of(name, '(');
    let head = if k < 0 { name } else { name.take(k) };
    if head == "Paragraph"@ {
        Block::Paragraph
    } else if head == "Heading"@ {
        Block::Heading
    } else if head == "CodeBlock"@ {
        Block::CodeBlock
    } else if head == "List"@ {
        Block::List
    } else if head == "Item"@ {
        Block::Item
    } else if head == "BlockQuote"@ {
        Block::BlockQuote
    } else {
        Block::Other
    }
}

/// A raw event as the engine reads it.
pub open spec fn cooked(e: RawEventV) -> MdEventV {
    match e {
        RawEventV::Start(n) => MdEventV::Start(block_named(n)),
        RawEventV::End(n) => MdEventV::End(block_named(n)),
        RawEventV::Fence(s) => MdEventV::Fence(s),
        RawEventV::Image(s) => MdEventV::Image(s),
        RawEventV::Link(s) => MdEventV::Link(s),
        RawEventV::Text(s) => MdEventV::Text(s),
        RawEventV::Code(s) => MdEventV::Code(s),
        RawEventV::Break => MdEventV::Break,
        RawEventV::Other => MdEventV::Other,
    }
}

/// The events pulldown-cmark produces for `markdown` under the option bits
/// `flags`, as the engine reads them.
pub open spec fn parsed_events(markdown: Seq<char>, flags: u32) -> Seq<MdEventV> {
    parsed_raw(markdown, flags).map_values(|e: RawEventV| cooked(e))
}

/// The block kind named by an end tag's `Debug` text.
fn block_of(name: &String) -> (b: Block)
    ensures
        b == block_named(name@),
{
    let v = chars_of(name.as_str());
    proof {
        lemma_index_of(v@, '(');
    }
    let head = match find_char(&v, '(') {
        Some(k) => sub_chars(&v, 0, k),
        None => sub_chars(&v, 0, v.len()),
    };
    proof {
        assert(v@.subrange(0, v@.len() as int) == v@);
        if index_of(v@, '(') >= 0 {
            assert(v@.take(index_of(v@, '(')) == v@.subrange(0, index_of(v@, '(')));
        }
    }
    if chars_eq_str(&head, "Paragraph") {
        Block::Paragraph
    } else if chars_eq_str(&head, "Heading") {
        Block::Heading
    } else if chars_eq_str(&head, "CodeBlock") {
        Block::CodeBlock
    } else if chars_eq_str(&head, "List") {
        Block::List
    } else if chars_eq_str(&head, "Item") {
        Block::Item
    } else if chars_eq_str(&head, "BlockQuote") {
        Block::BlockQuote
    } else {
        Block::Other
    }
}

/// The events of `markdown` under `flags`, as the engine reads them.
pub fn parse_events(markdown: &str, flags: u32) -> (res: Vec<MdEvent>)
    ensures
        event_views(res@) == parsed_events(markdown@, flags),
{
    let raw = parse_raw(markdown, flags);
    let ghost rv = raw_views(raw@);
    let mut out: Vec<MdEvent> = Vec::new();
    let mut i: usize = 0;
    while i < raw.len()
        invariant
            i <= raw@.len(),
            rv == raw_views(raw@),
            event_views(out@) == rv.take(i as int).map_values(|e: RawEventV| cooked(e)),
        decreases raw.len() - i,
    {
        let e = match &raw[i] {
            RawEvent::Start(n) => MdEvent::Start(block_of(n)),
            RawEvent::End(n) => MdEvent::End(block_of(n)),
            RawEvent::Fence(s) => MdEvent::Fence(s.clone()),
            RawEvent::Image(s) => MdEvent::Image(s.clone()),
            RawEvent::Link(s) => MdEvent::Link(s.clone()),
            RawEvent::Text(s) => MdEvent::Text(s.clone()),
            RawEvent::Code(s) => MdEvent::Code(s.clone()),
            RawEvent::Break => MdEvent::Break,
            RawEvent::Other => MdEvent::Other,
        };
        proof {
            assert(rv[i as int] == raw@[i as int]@);
            assert(e@ == cooked(rv[i as int]));
        }
        let ghost prev = event_views(out@);
        out.push(e);
        proof {
            assert(event_views(out@) =~= prev.push(cooked(rv[i as int])));
            assert(rv.take(i as int + 1).map_values(|e: RawEventV| cooked(e)) =~= rv.take(
                i as int,
            ).map_values(|e: RawEventV| cooked(e)).push(cooked(rv[i as int])));
        }
        i += 1;
    }
    proof {
        assert(rv.take(raw@.len() as int) == rv);
    }
    out
}

/// One event of the output stream: a parsed event kept as it is, raw HTML,
/// or a parsed image or link start with a new destination.
pub enum Piece {
    Keep(usize),
    Html(String),
    Dest(usize, String),
}

/// The view of a [`Piece`].
pub enum PieceV {
    Keep(int),
    Html(Seq<char>),
    Dest(int, Seq<char>),
}

impl View for Piece {
    type V = PieceV;

    open spec fn view(&self) -> PieceV {
        match self {
            Piece::Keep(i) => PieceV::Keep(*i as int),
            Piece::Html(s) => PieceV::Html(s@),
            Piece::Dest(i, d) => PieceV::Dest(*i as int, d@),
        }
    }
}

/// The views of a sequence of pieces.
pub open spec fn piece_views(v: Seq<Piece>) -> Seq<PieceV> {
    v.map_values(|p: Piece| p@)
}

/// Every parsed event a piece refers to exists.
pub open spec fn pieces_in_range(pieces: Seq<PieceV>, n: int) -> bool {
    forall|j: int|
        0 <= j < pieces.len() ==> match #[trigger] pieces[j] {
            PieceV::Keep(i) => 0 <= i < n,
            PieceV::Html(_) => true,
            PieceV::Dest(i, _) => 0 <= i < n,
        }
}

/// The HTML pulldown-cmark's `push_html` writes for the output stream
/// `pieces` built from the events of `markdown` under `flags`.
pub uninterp spec fn rendered_html(markdown: Seq<char>, flags: u32, pieces: Seq<PieceV>) -> Seq<char>;

/// Parses `markdown` again with pulldown-cmark, builds the output stream
/// that `pieces` describes (kept events are clones of the parsed ones; a new
/// destination replaces that of an image or link start) and renders it with
/// `html::push_html`. The result is named [`rendered_html`]; the HTML that
/// pulldown-cmark writes for a stream is not stated.
#[verifier::external_body]
pub(crate) fn render_pieces(markdown: &str, flags: u32, pieces: &Vec<Piece>) -> (res: String)
    requires
        pieces_in_range(piece_views(pieces@), parsed_events(markdown@, flags).len() as int),
    ensures
        res@ == rendered_html(markdown@, flags, piece_views(pieces@)),
{
    let evs: Vec<Event<'_>> = Parser::new_ext(markdown, Options::from_bits_truncate(flags)).collect();
    let out = pieces.iter().map(|p| match p {
        Piece::Keep(i) => evs[*i].clone(),
        Piece::Html(s) => Event::Html(s.clone().into()),
        Piece::Dest(i, d) => {
            let mut e = evs[*i].clone();
            if let Event::Start(Tag::Image { dest_url, .. } | Tag::Link { dest_url, .. }) = &mut e {
                *dest_url = d.clone().into();
            }
            e
        },
    });
    let mut body = String::new();
    html::push_html(&mut body, out);
    body
}

/// `markdown` without a leading U+FEFF byte-order mark.
pub open spec fn spec_strip_bom(markdown: Seq<char>) -> Seq<char> {
    if markdown.len() > 0 && markdown[0] == '\u{feff}' {
        markdown.drop_first()
    } else {
        markdown
    }
}

/// `markdown` without a leading byte-order mark.
pub(crate) fn strip_bom(markdown: &str) -> (res: &str)
    ensures
        res@ == spec_strip_bom(markdown@),
{
    let n = markdown.unicode_len();
    if n > 0 && markdown.get_char(0) == '\u{feff}' {
        let rest = markdown.substring_char(1, n);
        proof {
            assert(rest@ =~= markdown@.drop_first());
        }
        rest
    } else {
        markdown
    }
}

/// A fenced code-block info string selects the mermaid language: its first
/// whitespace-separated word is `mermaid` in any ASCII letter case.
pub open spec fn spec_is_mermaid(info: Seq<char>) -> bool {
    match first_word(info) {
        Some(w) => ascii_lower_seq(w) == "mermaid"@,
        None => false,
    }
}

/// True if a fenced code-block info string selects the mermaid language
/// (first whitespace-separated token, case-insensitive).
pub fn is_mermaid(info: &str) -> (b: bool)
    ensures
        b == spec_is_mermaid(info@),
{
    let v = chars_of(info);
    match first_word_of(&v) {
        Some(w) => {
            let lower = ascii_lowercase(&w);
            chars_eq_str(&lower, "mermaid")
        },
        None => false,
    }
}

} // verus!
