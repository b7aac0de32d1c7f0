//! Source versus deliverable: a markdown file is editable source, and the
//! converted document is what gets delivered. Working notes live in the
//! source and never reach the deliverable:
//!
//! * a blockquote whose first line opens with a pictographic character
//!   (`> 🟢 **[DRAFTED]** …`, `> 📝 **[WORKING NOTE]** …`) is a note, with
//!   every following line up to the next blank one;
//! * HTML comments `<!-- … -->`, multi-line ones too;
//! * bare legacy lines that open with `[DRAFTED` or `[EXPANSION NOTE`.
//!
//! Notes that carry `[TABLE OF CONTENTS]`, `[TABLE OF FIGURES]` or
//! `[LIST OF TABLES]` are stripped too, but reported to the caller. `TBC`
//! is the one sanctioned placeholder; [`count_tbc`] counts it.
use vstd::prelude::*;
use crate::text::{
    chars_of, empty_string, occurs_at, push_chars, push_str, seq_contains, spec_split, split_chars,
    sub_chars, trim_start, views, white_space, contains_chars, matches_at,
};
use crate::embed::{find_occ, next_occ};

verus! {

// ---------------------------------------------------------------------------
// HTML comments
// ---------------------------------------------------------------------------

/// The text that opens an HTML comment.
pub open spec fn comment_open() -> Seq<char> {
    seq!['<', '!', '-', '-']
}

/// The text that closes an HTML comment.
pub open spec fn comment_close() -> Seq<char> {
    seq!['-', '-', '>']
}

/// `s` from position `p` on without its HTML comments: each `<!--` up to
/// and including the next `-->` is removed; one that is never closed runs
/// to the end.
pub open spec fn uncomment_from(s: Seq<char>, p: int) -> Seq<char>
    decreases s.len() - p,
{
    let k = next_occ(s, comment_open(), p);
    if p < 0 || p > s.len() {
        seq![]
    } else if k < p {
        s.skip(p)
    } else {
        let e = next_occ(s, comment_close(), k + 4);
        if e < k + 4 {
            s.subrange(p, k)
        } else {
            proof {
                lemma_next_occ_bounds(s, comment_close(), k + 4);
            }
            s.subrange(p, k) + uncomment_from(s, e + 3)
        }
    }
}

/// `s` without its HTML comments.
pub open spec fn spec_strip_comments(s: Seq<char>) -> Seq<char> {
    uncomment_from(s, 0)
}

/// An occurrence found at or after `p` lies within the text.
pub proof fn lemma_next_occ_bounds(v: Seq<char>, pat: Seq<char>, p: int)
    requires
        0 <= p,
    ensures
        next_occ(v, pat, p) < 0 || (p <= next_occ(v, pat, p) && next_occ(v, pat, p) + pat.len()
            <= v.len()),
    decreases v.len() + 1 - p,
{
    if p + pat.len() <= v.len() && !occurs_at(v, pat, p) {
        lemma_next_occ_bounds(v, pat, p + 1);
    }
}

/// The first occurrence at or after `p` is the one at `q` when none lies
/// between them.
proof fn lemma_next_occ_first(s: Seq<char>, pat: Seq<char>, p: int, q: int)
    requires
        0 <= p <= q,
        occurs_at(s, pat, q),
        forall|j: int| p <= j < q ==> !occurs_at(s, pat, j),
    ensures
        next_occ(s, pat, p) == q,
    decreases q - p,
{
    if p < q {
        assert(!occurs_at(s, pat, p));
        lemma_next_occ_first(s, pat, p + 1, q);
    }
}

/// No occurrence at or after `p`: the search comes back empty.
proof fn lemma_next_occ_none(s: Seq<char>, pat: Seq<char>, p: int)
    requires
        0 <= p,
        forall|j: int| p <= j ==> !occurs_at(s, pat, j),
    ensures
        next_occ(s, pat, p) == -1,
    decreases s.len() + 1 - p,
{
    if p + pat.len() <= s.len() {
        assert(!occurs_at(s, pat, p));
        lemma_next_occ_none(s, pat, p + 1);
    }
}

/// Searching `x + t` from inside `t` finds what searching `t` finds,
/// shifted by `x`.
proof fn lemma_next_occ_shift(x: Seq<char>, t: Seq<char>, pat: Seq<char>, p: int)
    requires
        0 <= p,
    ensures
        next_occ(x + t, pat, x.len() + p) == (if next_occ(t, pat, p) < 0 {
            -1
        } else {
            x.len() + next_occ(t, pat, p)
        }),
    decreases t.len() + 1 - p,
{
    let s = x + t;
    if p + pat.len() <= t.len() {
        assert(s.subrange(x.len() + p, x.len() + p + pat.len()) =~= t.subrange(p, p + pat.len()));
        if !occurs_at(t, pat, p) {
            lemma_next_occ_shift(x, t, pat, p + 1);
        }
    }
}

/// Removing comments from inside `t` does not look at what precedes `t`.
proof fn lemma_uncomment_shift(x: Seq<char>, t: Seq<char>, p: int)
    requires
        0 <= p <= t.len(),
    ensures
        uncomment_from(x + t, x.len() + p) == uncomment_from(t, p),
    decreases t.len() - p,
{
    let s = x + t;
    lemma_next_occ_shift(x, t, comment_open(), p);
    let k = next_occ(t, comment_open(), p);
    lemma_next_occ_bounds(t, comment_open(), p);
    if k < p {
        assert(s.skip(x.len() + p) =~= t.skip(p));
    } else {
        lemma_next_occ_shift(x, t, comment_close(), k + 4);
        let e = next_occ(t, comment_close(), k + 4);
        lemma_next_occ_bounds(t, comment_close(), k + 4);
        assert(s.subrange(x.len() + p, x.len() + k) =~= t.subrange(p, k));
        if e >= k + 4 {
            lemma_uncomment_shift(x, t, e + 3);
        }
    }
}

/// `<!--` cannot start inside `a` and run on into a following `<!--`.
proof fn lemma_opener_first_after(a: Seq<char>, rest: Seq<char>)
    requires
        !seq_contains(a, comment_open()),
    ensures
        forall|j: int| 0 <= j < a.len() ==> !occurs_at(a + comment_open() + rest, comment_open(), j),
        occurs_at(a + comment_open() + rest, comment_open(), a.len() as int),
{
    let s = a + comment_open() + rest;
    assert(s.subrange(a.len() as int, a.len() + 4int) =~= comment_open());
    assert forall|j: int| 0 <= j < a.len() implies !occurs_at(s, comment_open(), j) by {
        if occurs_at(s, comment_open(), j) {
            if j + 4 <= a.len() {
                assert(a.subrange(j, j + 4) =~= s.subrange(j, j + 4));
                assert(occurs_at(a, comment_open(), j));
            } else {
                assert(s.subrange(j, j + 4)[a.len() - j] == s[a.len() as int]);
                assert(s[a.len() as int] == '<');
            }
        }
    }
}

/// `-->` cannot start inside `c` and run on into a following `-->`.
proof fn lemma_closer_first_after(pre: Seq<char>, c: Seq<char>, rest: Seq<char>)
    requires
        !seq_contains(c, comment_close()),
    ensures
        forall|j: int|
            pre.len() <= j < pre.len() + c.len() ==> !occurs_at(
                pre + c + comment_close() + rest,
                comment_close(),
                j,
            ),
        occurs_at(pre + c + comment_close() + rest, comment_close(), pre.len() + c.len() as int),
{
    let s = pre + c + comment_close() + rest;
    let m: int = pre.len() + c.len() as int;
    assert(s.subrange(m, m + 3) =~= comment_close());
    assert forall|j: int| pre.len() <= j < m implies !occurs_at(s, comment_close(), j) by {
        if occurs_at(s, comment_close(), j) {
            if j + 3 <= m {
                assert(c.subrange(j - pre.len(), j - pre.len() + 3) =~= s.subrange(j, j + 3));
                assert(occurs_at(c, comment_close(), j - pre.len()));
            } else if j + 2 == m {
                assert(s.subrange(j, j + 3)[2] == s[m]);
                assert(s[m] == '-');
            } else {
                assert(s.subrange(j, j + 3)[2] == s[m + 1]);
                assert(s[m + 1] == '-');
            }
        }
    }
}

/// Text without `<!--` has no comment to remove.
pub proof fn law_strip_comments_keeps_plain_text(s: Seq<char>)
    requires
        !seq_contains(s, comment_open()),
    ensures
        spec_strip_comments(s) == s,
{
    lemma_next_occ_none(s, comment_open(), 0);
    assert(s.skip(0) =~= s);
}

/// A closed comment goes with everything in it: text `a` without `<!--`,
/// then a comment whose body `c` holds no `-->`, then any `b`, loses the
/// comment and keeps `a`, and `b` is stripped in turn: every later
/// comment is removed as well.
pub proof fn law_strip_comments_removes_each_comment(a: Seq<char>, c: Seq<char>, b: Seq<char>)
    requires
        !seq_contains(a, comment_open()),
        !seq_contains(c, comment_close()),
    ensures
        spec_strip_comments(a + comment_open() + c + comment_close() + b) == a + spec_strip_comments(b),
{
    let x = a + comment_open() + c + comment_close();
    let s = x + b;
    assert(s =~= a + comment_open() + (c + comment_close() + b));
    lemma_opener_first_after(a, c + comment_close() + b);
    lemma_next_occ_first(s, comment_open(), 0, a.len() as int);
    assert(s =~= (a + comment_open()) + c + comment_close() + b);
    lemma_closer_first_after(a + comment_open(), c, b);
    let e: int = a.len() + 4int + c.len();
    lemma_next_occ_first(s, comment_close(), a.len() + 4int, e);
    assert(e + 3 == x.len());
    lemma_uncomment_shift(x, b, 0);
    assert(s.subrange(0, a.len() as int) =~= a);
}

/// A comment that is never closed runs to the end of the text.
pub proof fn law_strip_comments_drops_unclosed_comment(a: Seq<char>, c: Seq<char>)
    requires
        !seq_contains(a, comment_open()),
        !seq_contains(c, comment_close()),
    ensures
        spec_strip_comments(a + comment_open() + c) == a,
{
    let s = a + comment_open() + c;
    lemma_opener_first_after(a, c);
    lemma_next_occ_first(s, comment_open(), 0, a.len() as int);
    assert forall|j: int| a.len() + 4 <= j implies !occurs_at(s, comment_close(), j) by {
        if occurs_at(s, comment_close(), j) {
            let i = j - a.len() - 4;
            assert(c.subrange(i, i + 3) =~= s.subrange(j, j + 3));
            assert(occurs_at(c, comment_close(), i));
        }
    }
    lemma_next_occ_none(s, comment_close(), a.len() + 4int);
    assert(s.subrange(0, a.len() as int) =~= a);
}

/// The text without its HTML comments.
fn strip_comments(v: &Vec<char>) -> (r: Vec<char>)
    ensures
        r@ == spec_strip_comments(v@),
{
    let open: Vec<char> = vec!['<', '!', '-', '-'];
    let close: Vec<char> = vec!['-', '-', '>'];
    proof {
        assert(open@ =~= comment_open());
        assert(close@ =~= comment_close());
    }
    let mut out: Vec<char> = Vec::new();
    let mut p: usize = 0;
    loop
        invariant
            p <= v@.len(),
            open@ == comment_open(),
            close@ == comment_close(),
            out@ + uncomment_from(v@, p as int) == uncomment_from(v@, 0),
        decreases v.len() - p,
    {
        match find_occ(v, &open, p) {
            None => {
                let tail = sub_chars(v, p, v.len());
                proof {
                    assert(v@.skip(p as int) =~= tail@);
                }
                let mut i: usize = 0;
                let ghost start = out@;
                while i < tail.len()
                    invariant
                        i <= tail@.len(),
                        out@ == start + tail@.take(i as int),
                    decreases tail.len() - i,
                {
                    out.push(tail[i]);
                    proof {
                        assert(tail@.take(i as int + 1) == tail@.take(i as int).push(tail@[i as int]));
                    }
                    i += 1;
                }
                proof {
                    assert(tail@.take(tail@.len() as int) == tail@);
                }
                return out;
            },
            Some(k) => {
                let head = sub_chars(v, p, k);
                let ghost start = out@;
                let mut i: usize = 0;
                while i < head.len()
                    invariant
                        i <= head@.len(),
                        out@ == start + head@.take(i as int),
                    decreases head.len() - i,
                {
                    out.push(head[i]);
                    proof {
                        assert(head@.take(i as int + 1) == head@.take(i as int).push(head@[i as int]));
                    }
                    i += 1;
                }
                proof {
                    assert(head@.take(head@.len() as int) == head@);
                }
                match find_occ(v, &close, k + 4) {
                    None => {
                        proof {
                            assert(out@ + Seq::<char>::empty() =~= out@);
                        }
                        return out;
                    },
                    Some(e) => {
                        p = e + 3;
                    },
                }
            },
        }
    }
}

// ---------------------------------------------------------------------------
// Lines
// ---------------------------------------------------------------------------

/// A pictographic character: the emoji blocks of the Supplementary
/// Multilingual Plane (U+1F000 to U+1FAFF), Miscellaneous Technical
/// (U+2300 to U+23FF), Miscellaneous Symbols and Dingbats (U+2600 to
/// U+27BF), and Miscellaneous Symbols and Arrows (U+2B00 to U+2BFF).
pub open spec fn is_pictograph(c: char) -> bool {
    ('\u{1F000}' <= c && c <= '\u{1FAFF}') || ('\u{2300}' <= c && c <= '\u{23FF}') || ('\u{2600}'
        <= c && c <= '\u{27BF}') || ('\u{2B00}' <= c && c <= '\u{2BFF}')
}

fn pictograph(c: char) -> (b: bool)
    ensures
        b == is_pictograph(c),
{
    ('\u{1F000}' <= c && c <= '\u{1FAFF}') || ('\u{2300}' <= c && c <= '\u{23FF}') || ('\u{2600}'
        <= c && c <= '\u{27BF}') || ('\u{2B00}' <= c && c <= '\u{2BFF}')
}

/// A line of whitespace only.
pub open spec fn is_blank(l: Seq<char>) -> bool {
    trim_start(l).len() == 0
}

/// The first line of a note: a blockquote line whose text opens with a
/// pictographic character.
pub open spec fn is_note_start(l: Seq<char>) -> bool {
    let t = trim_start(l);
    t.len() > 0 && t[0] == '>' && trim_start(t.drop_first()).len() > 0 && is_pictograph(
        trim_start(t.drop_first())[0],
    )
}

/// A bare legacy note line: it opens with `[DRAFTED` or `[EXPANSION NOTE`.
pub open spec fn is_legacy_note(l: Seq<char>) -> bool {
    "[DRAFTED"@.is_prefix_of(trim_start(l)) || "[EXPANSION NOTE"@.is_prefix_of(trim_start(l))
}

/// What one line is, given whether a note is open before it.
pub enum LineRole {
    /// Part of the deliverable.
    Kept,
    /// A line of a note.
    Note,
    /// A bare legacy note line.
    Legacy,
}

/// A note runs from its first line up to the next blank line.
pub open spec fn line_role(l: Seq<char>, in_note: bool) -> LineRole {
    if in_note && !is_blank(l) {
        LineRole::Note
    } else if is_note_start(l) {
        LineRole::Note
    } else if is_legacy_note(l) {
        LineRole::Legacy
    } else {
        LineRole::Kept
    }
}

/// The kept lines among `ls[i..]`.
pub open spec fn kept_lines(ls: Seq<Seq<char>>, i: int, in_note: bool) -> Seq<Seq<char>>
    decreases ls.len() - i,
{
    if i < 0 || i >= ls.len() {
        seq![]
    } else {
        let r = line_role(ls[i], in_note);
        (if r is Kept { seq![ls[i]] } else { seq![] }) + kept_lines(ls, i + 1, r is Note)
    }
}

/// The note lines among `ls[i..]`.
pub open spec fn note_lines(ls: Seq<Seq<char>>, i: int, in_note: bool) -> Seq<Seq<char>>
    decreases ls.len() - i,
{
    if i < 0 || i >= ls.len() {
        seq![]
    } else {
        let r = line_role(ls[i], in_note);
        (if r is Note { seq![ls[i]] } else { seq![] }) + note_lines(ls, i + 1, r is Note)
    }
}

/// Lines joined by `\n`.
pub open spec fn join_lines(ls: Seq<Seq<char>>) -> Seq<char>
    decreases ls.len(),
{
    if ls.len() == 0 {
        seq![]
    } else if ls.len() == 1 {
        ls[0]
    } else {
        join_lines(ls.drop_last()) + seq!['\n'] + ls.last()
    }
}

/// The lines of the text once its comments are gone.
pub open spec fn source_lines(markdown: Seq<char>) -> Seq<Seq<char>> {
    spec_split(spec_strip_comments(markdown), '\n')
}

/// The deliverable text of a markdown source: comments removed, then the
/// note and legacy lines.
pub open spec fn spec_strip_source_notes(markdown: Seq<char>) -> Seq<char> {
    join_lines(kept_lines(source_lines(markdown), 0, false))
}

/// The lines of the notes in a markdown source.
pub open spec fn spec_note_lines(markdown: Seq<char>) -> Seq<Seq<char>> {
    note_lines(source_lines(markdown), 0, false)
}

/// Some line of `ls` contains `pat`.
pub open spec fn any_contains(ls: Seq<Seq<char>>, pat: Seq<char>) -> bool {
    exists|j: int| 0 <= j < ls.len() && #[trigger] seq_contains(ls[j], pat)
}

/// A markdown source without its working notes, and the marker notes that
/// were among them.
pub struct StrippedSource {
    /// The deliverable text.
    pub text: String,
    /// A note carried `[TABLE OF CONTENTS]`.
    pub table_of_contents: bool,
    /// A note carried `[TABLE OF FIGURES]`.
    pub table_of_figures: bool,
    /// A note carried `[LIST OF TABLES]`.
    pub list_of_tables: bool,
}

fn role_of(l: &Vec<char>, in_note: bool) -> (r: LineRole)
    ensures
        r == line_role(l@, in_note),
{
    let mut a: usize = 0;
    proof {
        assert(l@.skip(0) == l@);
    }
    while a < l.len() && white_space(l[a])
        invariant
            a <= l.len(),
            trim_start(l@) == trim_start(l@.skip(a as int)),
        decreases l.len() - a,
    {
        proof {
            assert(l@.skip(a as int).drop_first() == l@.skip(a + 1));
        }
        a += 1;
    }
    let ghost t = l@.skip(a as int);
    proof {
        assert(trim_start(t) == t);
    }
    let blank = a == l.len();
    if in_note && !blank {
        return LineRole::Note;
    }
    if a < l.len() && l[a] == '>' {
        let mut b: usize = a + 1;
        proof {
            assert(t.drop_first() == l@.skip(a + 1));
        }
        while b < l.len() && white_space(l[b])
            invariant
                a < b <= l.len(),
                trim_start(t.drop_first()) == trim_start(l@.skip(b as int)),
            decreases l.len() - b,
        {
            proof {
                assert(l@.skip(b as int).drop_first() == l@.skip(b + 1));
            }
            b += 1;
        }
        proof {
            assert(trim_start(l@.skip(b as int)) == l@.skip(b as int));
        }
        if b < l.len() && pictograph(l[b]) {
            return LineRole::Note;
        }
    }
    let d = vec!['[', 'D', 'R', 'A', 'F', 'T', 'E', 'D'];
    let x = vec!['[', 'E', 'X', 'P', 'A', 'N', 'S', 'I', 'O', 'N', ' ', 'N', 'O', 'T', 'E'];
    proof {
        reveal_strlit("[DRAFTED");
        reveal_strlit("[EXPANSION NOTE");
        assert(d@ =~= "[DRAFTED"@);
        assert(x@ =~= "[EXPANSION NOTE"@);
    }
    let legacy = matches_at(l, &d, a) || matches_at(l, &x, a);
    proof {
        assert(occurs_at(l@, d@, a as int) == d@.is_prefix_of(t)) by {
            if occurs_at(l@, d@, a as int) {
                assert(l@.subrange(a as int, a + d@.len()) =~= t.take(d@.len() as int));
            }
            if d@.is_prefix_of(t) {
                assert(l@.subrange(a as int, a + d@.len()) =~= t.take(d@.len() as int));
            }
        }
        assert(occurs_at(l@, x@, a as int) == x@.is_prefix_of(t)) by {
            if occurs_at(l@, x@, a as int) {
                assert(l@.subrange(a as int, a + x@.len()) =~= t.take(x@.len() as int));
            }
            if x@.is_prefix_of(t) {
                assert(l@.subrange(a as int, a + x@.len()) =~= t.take(x@.len() as int));
            }
        }
    }
    if legacy {
        LineRole::Legacy
    } else {
        LineRole::Kept
    }
}

/// `flag` and `line` folded into "some line contains `pat`".
proof fn lemma_any_contains_push(ls: Seq<Seq<char>>, l: Seq<char>, pat: Seq<char>)
    ensures
        any_contains(ls.push(l), pat) == (any_contains(ls, pat) || seq_contains(l, pat)),
{
    if any_contains(ls, pat) {
        let j = choose|j: int| 0 <= j < ls.len() && #[trigger] seq_contains(ls[j], pat);
        assert(ls.push(l)[j] == ls[j]);
    }
    if seq_contains(l, pat) {
        assert(ls.push(l)[ls.len() as int] == l);
    }
    if any_contains(ls.push(l), pat) {
        let j = choose|j: int| 0 <= j < ls.push(l).len() && #[trigger] seq_contains(ls.push(l)[j], pat);
        if j < ls.len() {
            assert(ls.push(l)[j] == ls[j]);
        }
    }
}

/// Remove the working notes of a markdown source (see the module
/// documentation), reporting the marker notes among them.
pub fn strip_source_notes(markdown: &str) -> (r: StrippedSource)
    ensures
        r.text@ == spec_strip_source_notes(markdown@),
        r.table_of_contents == any_contains(spec_note_lines(markdown@), "[TABLE OF CONTENTS]"@),
        r.table_of_figures == any_contains(spec_note_lines(markdown@), "[TABLE OF FIGURES]"@),
        r.list_of_tables == any_contains(spec_note_lines(markdown@), "[LIST OF TABLES]"@),
{
    let v = chars_of(markdown);
    let u = strip_comments(&v);
    let ls = split_chars(&u, '\n');
    let ghost lv = views(ls@);
    let toc_pat = chars_of("[TABLE OF CONTENTS]");
    let tof_pat = chars_of("[TABLE OF FIGURES]");
    let lot_pat = chars_of("[LIST OF TABLES]");
    let mut text = empty_string();
    let mut toc = false;
    let mut tof = false;
    let mut lot = false;
    let mut in_note = false;
    let mut none_kept = true;
    let ghost mut kept: Seq<Seq<char>> = seq![];
    let ghost mut notes: Seq<Seq<char>> = seq![];
    let mut i: usize = 0;
    proof {
        assert(any_contains(notes, toc_pat@) == false);
        assert(any_contains(notes, tof_pat@) == false);
        assert(any_contains(notes, lot_pat@) == false);
    }
    while i < ls.len()
        invariant
            i <= ls@.len(),
            lv == views(ls@),
            lv == source_lines(markdown@),
            toc_pat@ == "[TABLE OF CONTENTS]"@,
            tof_pat@ == "[TABLE OF FIGURES]"@,
            lot_pat@ == "[LIST OF TABLES]"@,
            kept + kept_lines(lv, i as int, in_note) == kept_lines(lv, 0, false),
            notes + note_lines(lv, i as int, in_note) == note_lines(lv, 0, false),
            text@ == join_lines(kept),
            none_kept == (kept.len() == 0),
            toc == any_contains(notes, toc_pat@),
            tof == any_contains(notes, tof_pat@),
            lot == any_contains(notes, lot_pat@),
        decreases ls.len() - i,
    {
        let l = &ls[i];
        proof {
            assert(lv[i as int] == l@);
        }
        let role = role_of(l, in_note);
        match role {
            LineRole::Kept => {
                proof {
                    assert(kept.push(l@).drop_last() == kept);
                }
                if !none_kept {
                    push_str(&mut text, "\n");
                    proof {
                        reveal_strlit("\n");
                    }
                }
                push_chars(&mut text, l);
                proof {
                    assert(kept + (seq![l@] + kept_lines(lv, i + 1, false)) =~= kept.push(l@)
                        + kept_lines(lv, i + 1, false));
                    assert(notes + (Seq::<Seq<char>>::empty() + note_lines(lv, i + 1, false)) =~= notes
                        + note_lines(lv, i + 1, false));
                    kept = kept.push(l@);
                }
                none_kept = false;
                in_note = false;
            },
            LineRole::Note => {
                let c1 = contains_chars(l, &toc_pat);
                let c2 = contains_chars(l, &tof_pat);
                let c3 = contains_chars(l, &lot_pat);
                proof {
                    lemma_any_contains_push(notes, l@, toc_pat@);
                    lemma_any_contains_push(notes, l@, tof_pat@);
                    lemma_any_contains_push(notes, l@, lot_pat@);
                    assert(kept + (Seq::<Seq<char>>::empty() + kept_lines(lv, i + 1, true)) =~= kept
                        + kept_lines(lv, i + 1, true));
                    assert(notes + (seq![l@] + note_lines(lv, i + 1, true)) =~= notes.push(l@)
                        + note_lines(lv, i + 1, true));
                    notes = notes.push(l@);
                }
                toc = toc || c1;
                tof = tof || c2;
                lot = lot || c3;
                in_note = true;
            },
            LineRole::Legacy => {
                proof {
                    assert(kept + (Seq::<Seq<char>>::empty() + kept_lines(lv, i + 1, false)) =~= kept
                        + kept_lines(lv, i + 1, false));
                    assert(notes + (Seq::<Seq<char>>::empty() + note_lines(lv, i + 1, false)) =~= notes
                        + note_lines(lv, i + 1, false));
                }
                in_note = false;
            },
        }
        i += 1;
    }
    proof {
        assert(kept + Seq::<Seq<char>>::empty() =~= kept);
        assert(notes + Seq::<Seq<char>>::empty() =~= notes);
        reveal_strlit("[TABLE OF CONTENTS]");
        reveal_strlit("[TABLE OF FIGURES]");
        reveal_strlit("[LIST OF TABLES]");
    }
    StrippedSource { text, table_of_contents: toc, table_of_figures: tof, list_of_tables: lot }
}

proof fn lemma_kept_lines_clean(ls: Seq<Seq<char>>, i: int, in_note: bool)
    requires
        forall|j: int| 0 <= j < ls.len() ==> crate::text::lacks(#[trigger] ls[j], '\n'),
    ensures
        forall|j: int|
            0 <= j < kept_lines(ls, i, in_note).len() ==> {
                let l = #[trigger] kept_lines(ls, i, in_note)[j];
                &&& !is_note_start(l)
                &&& !is_legacy_note(l)
                &&& crate::text::lacks(l, '\n')
            },
    decreases ls.len() - i,
{
    if 0 <= i < ls.len() {
        let r = line_role(ls[i], in_note);
        lemma_kept_lines_clean(ls, i + 1, r is Note);
        let head: Seq<Seq<char>> = if r is Kept { seq![ls[i]] } else { seq![] };
        let rest = kept_lines(ls, i + 1, r is Note);
        assert(kept_lines(ls, i, in_note) == head + rest);
        assert forall|j: int| 0 <= j < (head + rest).len() implies {
            let l = #[trigger] (head + rest)[j];
            &&& !is_note_start(l)
            &&& !is_legacy_note(l)
            &&& crate::text::lacks(l, '\n')
        } by {
            if j < head.len() {
                assert((head + rest)[j] == ls[i]);
            } else {
                assert((head + rest)[j] == rest[j - head.len()]);
            }
        }
    }
}

proof fn lemma_split_join(ls: Seq<Seq<char>>)
    requires
        ls.len() > 0,
        forall|j: int| 0 <= j < ls.len() ==> crate::text::lacks(#[trigger] ls[j], '\n'),
    ensures
        spec_split(join_lines(ls), '\n') == ls,
    decreases ls.len(),
{
    if ls.len() == 1 {
        crate::text::lemma_split_single(ls[0], '\n');
        assert(seq![ls[0]] =~= ls);
    } else {
        let d = ls.drop_last();
        assert forall|j: int| 0 <= j < d.len() implies crate::text::lacks(#[trigger] d[j], '\n') by {
            assert(d[j] == ls[j]);
        }
        lemma_split_join(d);
        assert(ls.last() == ls[ls.len() - 1]);
        crate::text::lemma_split_append_sep(join_lines(d), ls.last(), '\n');
        assert(d.push(ls.last()) =~= ls);
    }
}

/// The deliverable holds no working note: none of its lines opens a note
/// or is a bare legacy note line.
pub proof fn law_deliverable_has_no_note_lines(markdown: Seq<char>)
    ensures
        forall|j: int|
            0 <= j < spec_split(spec_strip_source_notes(markdown), '\n').len() ==> {
                let l = #[trigger] spec_split(spec_strip_source_notes(markdown), '\n')[j];
                !is_note_start(l) && !is_legacy_note(l)
            },
{
    let ls = source_lines(markdown);
    crate::text::lemma_split_pieces_lack(spec_strip_comments(markdown), '\n');
    lemma_kept_lines_clean(ls, 0, false);
    let kept = kept_lines(ls, 0, false);
    if kept.len() > 0 {
        lemma_split_join(kept);
    } else {
        assert(join_lines(kept) == Seq::<char>::empty());
        assert(spec_split(Seq::<char>::empty(), '\n') == seq![Seq::<char>::empty()]);
        let e = Seq::<char>::empty();
        assert(trim_start(e) == e);
        reveal_strlit("[DRAFTED");
        reveal_strlit("[EXPANSION NOTE");
    }
}

// ---------------------------------------------------------------------------
// Placeholders
// ---------------------------------------------------------------------------

/// A character of a word: an ASCII letter or digit, or `_`.
pub open spec fn is_word_char(c: char) -> bool {
    ('a' <= c && c <= 'z') || ('A' <= c && c <= 'Z') || ('0' <= c && c <= '9') || c == '_'
}

fn word_char(c: char) -> (b: bool)
    ensures
        b == is_word_char(c),
{
    ('a' <= c && c <= 'z') || ('A' <= c && c <= 'Z') || ('0' <= c && c <= '9') || c == '_'
}

/// A `TBC` placeholder starts at `i`: the three letters, with no word
/// character right before or after.
pub open spec fn tbc_at(s: Seq<char>, i: int) -> bool {
    occurs_at(s, seq!['T', 'B', 'C'], i) && (i == 0 || !is_word_char(s[i - 1])) && (i + 3 == s.len()
        || !is_word_char(s[i + 3]))
}

/// The number of `TBC` placeholders starting at or after `i`.
pub open spec fn tbc_count_from(s: Seq<char>, i: int) -> nat
    decreases s.len() - i,
{
    if i < 0 || i >= s.len() {
        0
    } else {
        (if tbc_at(s, i) { 1nat } else { 0nat }) + tbc_count_from(s, i + 1)
    }
}

/// The number of word-bounded `TBC` placeholders in `text`.
pub open spec fn spec_count_tbc(text: Seq<char>) -> nat {
    tbc_count_from(text, 0)
}

/// Count the word-bounded `TBC` placeholders in `text`.
pub fn count_tbc(text: &str) -> (n: usize)
    ensures
        n == spec_count_tbc(text@),
{
    let v = chars_of(text);
    let pat = vec!['T', 'B', 'C'];
    let mut n: usize = 0;
    let mut i: usize = v.len();
    while i > 0
        invariant
            i <= v@.len(),
            pat@ == seq!['T', 'B', 'C'],
            n == tbc_count_from(v@, i as int),
            n <= v@.len() - i,
        decreases i,
    {
        i -= 1;
        if matches_at(&v, &pat, i) {
            assert(pat@.len() == 3);
            assert(occurs_at(v@, pat@, i as int));
            assert(i + 3 <= v@.len());
            let before = i == 0 || !word_char(v[i - 1]);
            let after = v.len() - i == 3 || !word_char(v[i + 3]);
            if before && after {
                n += 1;
            }
        }
    }
    n
}

} // verus!
