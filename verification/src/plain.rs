//! Markdown reduced to readable plain text.
use vstd::prelude::*;
use crate::text::{chars_of, empty_string, push_str, spec_trim, string_of_chars, trim_chars};
use crate::markdown::{
    event_views, parse_events, parsed_events, spec_strip_bom, strip_bom, Block, MdEvent, MdEventV,
};

verus! {

/// The plain text one event contributes: text as it is, code spans between
/// backticks, line breaks as newlines, blank lines after paragraphs and
/// headings, code blocks between ``` fences, list items as `  - ` lines and
/// block quotes after `> `.
pub open spec fn plain_piece(e: MdEventV) -> Seq<char> {
    match e {
        MdEventV::Text(t) => t,
        MdEventV::Code(c) => seq!['`'] + c + seq!['`'],
        MdEventV::Break => seq!['\n'],
        MdEventV::End(Block::Paragraph) => seq!['\n', '\n'],
        MdEventV::End(Block::Heading) => seq!['\n', '\n'],
        MdEventV::Fence(_) => "\n```\n"@,
        MdEventV::Start(Block::CodeBlock) => "\n```\n"@,
        MdEventV::End(Block::CodeBlock) => "```\n\n"@,
        MdEventV::End(Block::List) => seq!['\n'],
        MdEventV::Start(Block::Item) => "  - "@,
        MdEventV::End(Block::Item) => seq!['\n'],
        MdEventV::Start(Block::BlockQuote) => "> "@,
        MdEventV::End(Block::BlockQuote) => seq!['\n'],
        _ => seq![],
    }
}

/// The plain text of an event sequence.
pub open spec fn plain_of(evs: Seq<MdEventV>) -> Seq<char>
    decreases evs.len(),
{
    if evs.len() == 0 {
        seq![]
    } else {
        plain_of(evs.drop_last()) + plain_piece(evs.last())
    }
}

/// The plain text of a markdown document, parsed without extensions and
/// trimmed of surrounding whitespace.
pub open spec fn spec_markdown_to_plain_text(markdown: Seq<char>) -> Seq<char> {
    spec_trim(plain_of(parsed_events(spec_strip_bom(markdown), 0)))
}

fn push_plain(out: &mut String, e: &MdEvent)
    ensures
        final(out)@ == old(out)@ + plain_piece(e@),
{
    proof {
        reveal_strlit("`");
        reveal_strlit("\n");
        reveal_strlit("\n\n");
    }
    match e {
        MdEvent::Text(t) => push_str(out, t.as_str()),
        MdEvent::Code(c) => {
            push_str(out, "`");
            push_str(out, c.as_str());
            push_str(out, "`");
        },
        MdEvent::Break => push_str(out, "\n"),
        MdEvent::End(Block::Paragraph) | MdEvent::End(Block::Heading) => push_str(out, "\n\n"),
        MdEvent::Fence(_) | MdEvent::Start(Block::CodeBlock) => push_str(out, "\n```\n"),
        MdEvent::End(Block::CodeBlock) => push_str(out, "```\n\n"),
        MdEvent::End(Block::List) | MdEvent::End(Block::Item) | MdEvent::End(Block::BlockQuote) => {
            push_str(out, "\n")
        },
        MdEvent::Start(Block::Item) => push_str(out, "  - "),
        MdEvent::Start(Block::BlockQuote) => push_str(out, "> "),
        _ => {},
    }
}

/// Strip markdown down to readable plain text.
pub fn markdown_to_plain_text(markdown: &str) -> (res: String)
    ensures
        res@ == spec_markdown_to_plain_text(markdown@),
{
    let md = strip_bom(markdown);
    let evs = parse_events(md, 0);
    let ghost ev = event_views(evs@);
    let mut out = empty_string();
    let mut i: usize = 0;
    proof {
        assert(ev.take(0) =~= Seq::<MdEventV>::empty());
    }
    while i < evs.len()
        invariant
            i <= evs@.len(),
            ev == event_views(evs@),
            out@ == plain_of(ev.take(i as int)),
        decreases evs.len() - i,
    {
        proof {
            assert(ev.take(i as int + 1).drop_last() == ev.take(i as int));
            assert(ev.take(i as int + 1).last() == evs@[i as int]@);
        }
        push_plain(&mut out, &evs[i]);
        i += 1;
    }
    proof {
        assert(ev.take(evs@.len() as int) == ev);
    }
    let v = chars_of(out.as_str());
    let t = trim_chars(&v);
    string_of_chars(&t)
}

} // verus!
