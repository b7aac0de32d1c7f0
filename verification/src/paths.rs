//! Lexical path handling in Unix and Windows path syntax: components,
//! joining, normalization, common prefixes, parents, file names and
//! extensions. Nothing here touches the filesystem.
//!
//! Unix paths separate components with `/`. Windows paths accept both `\`
//! and `/` as separators, may start with a prefix (a drive `C:` or a share
//! `\\server\share`) and are written back with `\`. The Windows model parses
//! a path that starts with two separators as a share, which is also how the
//! device form `\\.\name` and the verbatim drive form `\\?\C:` read.
use vstd::prelude::*;
use crate::text::{
    chars_eq, chars_eq_str, chars_of, clone_chars, empty_string, push_char, push_chars, spec_split,
    split_chars, sub_chars, views, lemma_split_nonempty, opt_view,
};

verus! {

/// The path syntax of a platform.
#[derive(Clone, Copy, PartialEq, Eq, Debug, Structural)]
pub enum PathStyle {
    /// `/`-separated paths rooted at `/`.
    Unix,
    /// `\`- or `/`-separated paths with drive and share prefixes.
    Windows,
}

/// One component of a path (std `Component`).
pub enum Comp {
    Prefix(Vec<char>),
    Root,
    Cur,
    Parent,
    Normal(Vec<char>),
}

/// The view of a [`Comp`].
pub enum CompV {
    Prefix(Seq<char>),
    Root,
    Cur,
    Parent,
    Normal(Seq<char>),
}

impl View for Comp {
    type V = CompV;

    open spec fn view(&self) -> CompV {
        match self {
            Comp::Prefix(v) => CompV::Prefix(v@),
            Comp::Root => CompV::Root,
            Comp::Cur => CompV::Cur,
            Comp::Parent => CompV::Parent,
            Comp::Normal(v) => CompV::Normal(v@),
        }
    }
}

/// The views of a sequence of components.
pub open spec fn comp_views(cs: Seq<Comp>) -> Seq<CompV> {
    cs.map_values(|c: Comp| c@)
}

/// The name `.`.
pub open spec fn dot() -> Seq<char> {
    seq!['.']
}

/// The name `..`.
pub open spec fn dot_dot() -> Seq<char> {
    seq!['.', '.']
}

// ---------------------------------------------------------------------------
// Windows separators and prefixes
// ---------------------------------------------------------------------------

/// A Windows path separator: `\` or `/`.
pub open spec fn is_win_sep(c: char) -> bool {
    c == '\\' || c == '/'
}

/// A Windows path with every separator written as `/`.
pub open spec fn to_slash(s: Seq<char>) -> Seq<char> {
    Seq::new(s.len(), |i: int| if s[i] == '\\' { '/' } else { s[i] })
}

/// The position of the first Windows separator in `s` at or after `k`, or
/// the length of `s` when there is none.
pub open spec fn sep_from(s: Seq<char>, k: int) -> int
    decreases s.len() - k,
{
    if k >= s.len() {
        s.len() as int
    } else if is_win_sep(s[k]) {
        k
    } else {
        sep_from(s, k + 1)
    }
}

/// The length of a share prefix `\\server\share` at the start of `s` (which
/// starts with two separators): a non-empty server name ended by a
/// separator, then a non-empty share name; 0 when there is no such prefix.
pub open spec fn share_prefix_len(s: Seq<char>) -> int {
    let i = sep_from(s, 2);
    if i > 2 && i < s.len() {
        let j = sep_from(s, i + 1);
        if j > i + 1 {
            j
        } else {
            0
        }
    } else {
        0
    }
}

/// An ASCII letter, as a drive letter is.
pub open spec fn is_drive_letter(c: char) -> bool {
    ('a' <= c && c <= 'z') || ('A' <= c && c <= 'Z')
}

/// The length of the Windows prefix that starts `s`: a share prefix when
/// `s` starts with two separators, else a drive `X:`; 0 when there is none.
pub open spec fn win_prefix_len(s: Seq<char>) -> int {
    if s.len() >= 2 && is_win_sep(s[0]) && is_win_sep(s[1]) {
        share_prefix_len(s)
    } else if s.len() >= 2 && is_drive_letter(s[0]) && s[1] == ':' {
        2
    } else {
        0
    }
}

fn is_win_sep_char(c: char) -> (r: bool)
    ensures
        r == is_win_sep(c),
{
    c == '\\' || c == '/'
}

fn sep_from_exec(v: &Vec<char>, k: usize) -> (r: usize)
    requires
        k <= v.len(),
    ensures
        r == sep_from(v@, k as int),
        k <= r <= v.len(),
{
    let mut i = k;
    while i < v.len() && !is_win_sep_char(v[i])
        invariant
            k <= i <= v.len(),
            sep_from(v@, k as int) == sep_from(v@, i as int),
        decreases v.len() - i,
    {
        i += 1;
    }
    i
}

pub(crate) fn win_prefix_len_of(v: &Vec<char>) -> (n: usize)
    ensures
        n == win_prefix_len(v@),
        n <= v.len(),
{
    if v.len() >= 2 && is_win_sep_char(v[0]) && is_win_sep_char(v[1]) {
        let i = sep_from_exec(v, 2);
        if i > 2 && i < v.len() {
            let j = sep_from_exec(v, i + 1);
            if j > i + 1 {
                return j;
            }
        }
        0
    } else if v.len() >= 2 && (('a' <= v[0] && v[0] <= 'z') || ('A' <= v[0] && v[0] <= 'Z')) && v[1]
        == ':' {
        2
    } else {
        0
    }
}

/// `v` with every `\` written as `/`.
fn to_slash_chars(v: &Vec<char>) -> (r: Vec<char>)
    ensures
        r@ == to_slash(v@),
{
    let mut r: Vec<char> = Vec::new();
    let mut i: usize = 0;
    while i < v.len()
        invariant
            i <= v.len(),
            r@ =~= to_slash(v@.take(i as int)),
        decreases v.len() - i,
    {
        r.push(if v[i] == '\\' { '/' } else { v[i] });
        i += 1;
    }
    proof {
        assert(v@.take(v.len() as int) == v@);
    }
    r
}

// ---------------------------------------------------------------------------
// Components
// ---------------------------------------------------------------------------

/// The component a `/`-separated piece stands for: empty pieces and `.`
/// stand for none.
pub open spec fn piece_comp(q: Seq<char>) -> Seq<CompV> {
    if q.len() == 0 || q == dot() {
        seq![]
    } else if q == dot_dot() {
        seq![CompV::Parent]
    } else {
        seq![CompV::Normal(q)]
    }
}

/// The components a sequence of `/`-separated pieces stands for.
pub open spec fn piece_comps(ps: Seq<Seq<char>>) -> Seq<CompV>
    decreases ps.len(),
{
    if ps.len() == 0 {
        seq![]
    } else {
        piece_comps(ps.drop_last()) + piece_comp(ps.last())
    }
}

/// A `/`-separated path that starts at the root.
pub open spec fn slash_absolute(s: Seq<char>) -> bool {
    s.len() > 0 && s[0] == '/'
}

/// The components of the `/`-separated text `s` that follows a prefix (when
/// `prefixed`): a leading `/` is the root, as is the implied root of a
/// share (`rooted`); a leading `.` piece of an unprefixed relative path is
/// the current directory; `..` is the parent; every other non-empty piece
/// other than `.` is a normal component.
pub open spec fn slash_comps(s: Seq<char>, prefixed: bool, rooted: bool) -> Seq<CompV> {
    let ps = spec_split(s, '/');
    let head: Seq<CompV> = if rooted || slash_absolute(s) {
        seq![CompV::Root]
    } else if !prefixed && ps[0] == dot() {
        seq![CompV::Cur]
    } else {
        seq![]
    };
    head + piece_comps(ps)
}

/// The components of a `/`-separated path without prefix.
pub open spec fn slash_components(s: Seq<char>) -> Seq<CompV> {
    slash_comps(s, false, false)
}

/// The components of a Windows path: its prefix, if any, then those of the
/// rest with `/` for every separator (a share implies the root).
pub open spec fn win_components(s: Seq<char>) -> Seq<CompV> {
    let n = win_prefix_len(s);
    if n == 0 {
        slash_components(to_slash(s))
    } else {
        seq![CompV::Prefix(s.take(n))] + slash_comps(to_slash(s).skip(n), true, n > 2)
    }
}

/// The components of the path `s` (std `Path::components`).
pub open spec fn spec_components(style: PathStyle, s: Seq<char>) -> Seq<CompV> {
    match style {
        PathStyle::Unix => slash_components(s),
        PathStyle::Windows => win_components(s),
    }
}

/// A path that starts at a root (std `Path::is_absolute`): on Unix one that
/// starts with `/`; on Windows one with a prefix followed by a separator, or
/// with a share prefix.
pub open spec fn is_absolute(style: PathStyle, s: Seq<char>) -> bool {
    match style {
        PathStyle::Unix => slash_absolute(s),
        PathStyle::Windows => {
            let n = win_prefix_len(s);
            n > 0 && (n > 2 || (s.len() > n && is_win_sep(s[n])))
        },
    }
}

fn is_dot(q: &Vec<char>) -> (r: bool)
    ensures
        r == (q@ == dot()),
{
    let r = q.len() == 1 && q[0] == '.';
    proof {
        if r {
            assert(q@ =~= dot());
        }
    }
    r
}

fn is_dot_dot(q: &Vec<char>) -> (r: bool)
    ensures
        r == (q@ == dot_dot()),
{
    let r = q.len() == 2 && q[0] == '.' && q[1] == '.';
    proof {
        if r {
            assert(q@ =~= dot_dot());
        }
    }
    r
}

/// The components of the `/`-separated text `v` (see [`slash_comps`]),
/// appended to `out`.
fn push_slash_comps(v: &Vec<char>, prefixed: bool, rooted: bool, out: &mut Vec<Comp>)
    ensures
        comp_views(final(out)@) == comp_views(old(out)@) + slash_comps(v@, prefixed, rooted),
{
    let ps = split_chars(v, '/');
    proof {
        lemma_split_nonempty(v@, '/');
    }
    let ghost start = comp_views(out@);
    if rooted || (v.len() > 0 && v[0] == '/') {
        out.push(Comp::Root);
    } else if !prefixed && is_dot(&ps[0]) {
        out.push(Comp::Cur);
    }
    let ghost head = comp_views(out@);
    let mut i: usize = 0;
    while i < ps.len()
        invariant
            i <= ps@.len(),
            views(ps@) == spec_split(v@, '/'),
            comp_views(out@) == head + piece_comps(views(ps@).take(i as int)),
        decreases ps.len() - i,
    {
        let q = &ps[i];
        let ghost before = comp_views(out@);
        let ghost t = views(ps@).take(i as int + 1);
        proof {
            assert(t.drop_last() == views(ps@).take(i as int));
            assert(t.last() == q@);
            assert(piece_comps(t) == piece_comps(t.drop_last()) + piece_comp(t.last()));
        }
        if q.len() == 0 || is_dot(q) {
        } else if is_dot_dot(q) {
            out.push(Comp::Parent);
        } else {
            out.push(Comp::Normal(clone_chars(q)));
        }
        proof {
            assert(comp_views(out@) =~= before + piece_comp(q@));
            assert(comp_views(out@) =~= head + piece_comps(t));
        }
        i += 1;
    }
    proof {
        assert(views(ps@).take(ps@.len() as int) == views(ps@));
        let h: Seq<CompV> = if rooted || slash_absolute(v@) {
            seq![CompV::Root]
        } else if !prefixed && spec_split(v@, '/')[0] == dot() {
            seq![CompV::Cur]
        } else {
            seq![]
        };
        assert(head =~= start + h);
        assert(comp_views(out@) =~= start + slash_comps(v@, prefixed, rooted));
    }
}

/// The components of the characters `v` of a path.
fn components_of(style: PathStyle, v: &Vec<char>) -> (res: Vec<Comp>)
    ensures
        comp_views(res@) == spec_components(style, v@),
{
    let mut out: Vec<Comp> = Vec::new();
    proof {
        assert(comp_views(out@) =~= Seq::<CompV>::empty());
    }
    match style {
        PathStyle::Unix => {
            push_slash_comps(v, false, false, &mut out);
            proof {
                assert(comp_views(out@) =~= slash_components(v@));
            }
        },
        PathStyle::Windows => {
            let n = win_prefix_len_of(v);
            let w = to_slash_chars(v);
            if n == 0 {
                push_slash_comps(&w, false, false, &mut out);
                proof {
                    assert(comp_views(out@) =~= win_components(v@));
                }
            } else {
                let p = sub_chars(v, 0, n);
                out.push(Comp::Prefix(p));
                let t = sub_chars(&w, n, w.len());
                proof {
                    assert(p@ =~= v@.take(n as int));
                    assert(t@ =~= to_slash(v@).skip(n as int));
                    assert(comp_views(out@) =~= seq![CompV::Prefix(v@.take(n as int))]);
                }
                push_slash_comps(&t, true, n > 2, &mut out);
            }
        },
    }
    out
}

/// The components of the path `s`.
pub fn components(style: PathStyle, s: &str) -> (res: Vec<Comp>)
    ensures
        comp_views(res@) == spec_components(style, s@),
{
    let v = chars_of(s);
    components_of(style, &v)
}

// ---------------------------------------------------------------------------
// Normalization
// ---------------------------------------------------------------------------

/// A lexically normalized path: its prefix (Windows), whether it starts at
/// the root, and its names.
pub struct NPath {
    pub prefix: Option<Seq<char>>,
    pub abs: bool,
    pub segs: Seq<Seq<char>>,
}

/// One component applied to a normalized path (std `PathBuf::push` and
/// `pop`): a prefix starts a new path, the root drops everything but the
/// prefix, `.` leaves it, `..` drops its last name (if any), a name is
/// appended.
pub open spec fn norm_step(p: NPath, c: CompV) -> NPath {
    match c {
        CompV::Prefix(x) => NPath { prefix: Some(x), abs: false, segs: seq![] },
        CompV::Root => NPath { prefix: p.prefix, abs: true, segs: seq![] },
        CompV::Cur => p,
        CompV::Parent => NPath {
            prefix: p.prefix,
            abs: p.abs,
            segs: if p.segs.len() > 0 { p.segs.drop_last() } else { p.segs },
        },
        CompV::Normal(x) => NPath { prefix: p.prefix, abs: p.abs, segs: p.segs.push(x) },
    }
}

/// The normalized path of a component sequence.
pub open spec fn norm_comps(cs: Seq<CompV>) -> NPath
    decreases cs.len(),
{
    if cs.len() == 0 {
        NPath { prefix: None, abs: false, segs: seq![] }
    } else {
        norm_step(norm_comps(cs.drop_last()), cs.last())
    }
}

/// Names joined by the separator `sep`.
pub open spec fn join_segs(segs: Seq<Seq<char>>, sep: char) -> Seq<char>
    decreases segs.len(),
{
    if segs.len() == 0 {
        seq![]
    } else if segs.len() == 1 {
        segs[0]
    } else {
        join_segs(segs.drop_last(), sep) + seq![sep] + segs.last()
    }
}

/// The text of a normalized Unix path.
pub open spec fn slash_string(p: NPath) -> Seq<char> {
    (if p.abs { seq!['/'] } else { seq![] }) + join_segs(p.segs, '/')
}

/// The text of a normalized Windows path: prefix, `\` for the root, names
/// joined by `\`.
pub open spec fn win_string(p: NPath) -> Seq<char> {
    (match p.prefix {
        Some(x) => x,
        None => seq![],
    }) + (if p.abs { seq!['\\'] } else { seq![] }) + join_segs(p.segs, '\\')
}

/// The text of a normalized path.
pub open spec fn path_string(style: PathStyle, p: NPath) -> Seq<char> {
    match style {
        PathStyle::Unix => slash_string(p),
        PathStyle::Windows => win_string(p),
    }
}

/// Lexical normalization of a Unix path.
pub open spec fn slash_normalize(s: Seq<char>) -> Seq<char> {
    slash_string(norm_comps(slash_components(s)))
}

/// Lexical normalization (std components folded as `normalize_path` does):
/// `.` dropped, `..` resolved against the preceding name, prefix and root
/// kept, repeated and trailing separators removed.
pub open spec fn spec_normalize_path(style: PathStyle, s: Seq<char>) -> Seq<char> {
    path_string(style, norm_comps(spec_components(style, s)))
}

/// A name a normalized path can hold: not empty, without `/`, and neither
/// `.` nor `..`.
pub open spec fn is_plain_name(x: Seq<char>) -> bool {
    x.len() > 0 && crate::text::lacks(x, '/') && x != dot() && x != dot_dot()
}

/// Every name among the components is plain.
pub open spec fn plain_comps(cs: Seq<CompV>) -> bool {
    forall|j: int| 0 <= j < cs.len() ==> (#[trigger] cs[j] matches CompV::Normal(x) ==> is_plain_name(x))
}

/// Plain names as components.
pub open spec fn name_comps(segs: Seq<Seq<char>>) -> Seq<CompV> {
    segs.map_values(|x: Seq<char>| CompV::Normal(x))
}

/// The components of a normalized path: the root when it is absolute, then
/// its names.
pub open spec fn npath_comps(p: NPath) -> Seq<CompV> {
    (match p.prefix {
        Some(x) => seq![CompV::Prefix(x)],
        None => seq![],
    }) + (if p.abs { seq![CompV::Root] } else { seq![] }) + name_comps(p.segs)
}

/// No component is a prefix.
pub open spec fn no_prefix(cs: Seq<CompV>) -> bool {
    forall|j: int| 0 <= j < cs.len() ==> !(#[trigger] cs[j] is Prefix)
}

proof fn lemma_piece_comps_no_prefix(ps: Seq<Seq<char>>)
    ensures
        no_prefix(piece_comps(ps)),
    decreases ps.len(),
{
    if ps.len() > 0 {
        lemma_piece_comps_no_prefix(ps.drop_last());
        let a = piece_comps(ps.drop_last());
        let b = piece_comp(ps.last());
        assert forall|j: int| 0 <= j < (a + b).len() implies !(#[trigger] (a + b)[j] is Prefix) by {
            if j < a.len() {
                assert((a + b)[j] == a[j]);
            } else {
                assert((a + b)[j] == b[j - a.len()]);
            }
        }
    }
}

/// The components of a `/`-separated text hold no prefix.
pub proof fn lemma_slash_no_prefix(s: Seq<char>, prefixed: bool, rooted: bool)
    ensures
        no_prefix(slash_comps(s, prefixed, rooted)),
{
    let ps = spec_split(s, '/');
    lemma_piece_comps_no_prefix(ps);
    let h: Seq<CompV> = if rooted || slash_absolute(s) {
        seq![CompV::Root]
    } else if !prefixed && ps[0] == dot() {
        seq![CompV::Cur]
    } else {
        seq![]
    };
    let r = piece_comps(ps);
    assert forall|j: int| 0 <= j < (h + r).len() implies !(#[trigger] (h + r)[j] is Prefix) by {
        if j >= h.len() {
            assert((h + r)[j] == r[j - h.len()]);
        }
    }
}

/// Components without a prefix normalize to a path without one.
pub proof fn lemma_norm_no_prefix(cs: Seq<CompV>)
    requires
        no_prefix(cs),
    ensures
        norm_comps(cs).prefix is None,
    decreases cs.len(),
{
    if cs.len() > 0 {
        let d = cs.drop_last();
        assert forall|j: int| 0 <= j < d.len() implies !(#[trigger] d[j] is Prefix) by {
            assert(d[j] == cs[j]);
        }
        lemma_norm_no_prefix(d);
        assert(cs.last() == cs[cs.len() - 1]);
    }
}

proof fn lemma_piece_comps_plain(ps: Seq<Seq<char>>)
    requires
        forall|j: int| 0 <= j < ps.len() ==> crate::text::lacks(#[trigger] ps[j], '/'),
    ensures
        plain_comps(piece_comps(ps)),
    decreases ps.len(),
{
    if ps.len() > 0 {
        let d = ps.drop_last();
        assert forall|j: int| 0 <= j < d.len() implies crate::text::lacks(#[trigger] d[j], '/') by {
            assert(d[j] == ps[j]);
        }
        lemma_piece_comps_plain(d);
        let a = piece_comps(d);
        let b = piece_comp(ps.last());
        assert(crate::text::lacks(ps.last(), '/')) by {
            assert(ps.last() == ps[ps.len() - 1]);
        }
        assert forall|j: int| 0 <= j < (a + b).len() implies (#[trigger] (a + b)[j] matches CompV::Normal(
            x,
        ) ==> is_plain_name(x)) by {
            if j < a.len() {
                assert((a + b)[j] == a[j]);
            } else {
                assert((a + b)[j] == b[j - a.len()]);
            }
        }
    }
}

/// Every name among the components of a path is plain.
pub proof fn lemma_components_plain(s: Seq<char>)
    ensures
        plain_comps(slash_components(s)),
{
    let ps = spec_split(s, '/');
    crate::text::lemma_split_pieces_lack(s, '/');
    lemma_piece_comps_plain(ps);
    let h: Seq<CompV> = if slash_absolute(s) {
        seq![CompV::Root]
    } else if ps[0] == dot() {
        seq![CompV::Cur]
    } else {
        seq![]
    };
    let r = piece_comps(ps);
    assert forall|j: int| 0 <= j < (h + r).len() implies (#[trigger] (h + r)[j] matches CompV::Normal(x)
        ==> is_plain_name(x)) by {
        if j >= h.len() {
            assert((h + r)[j] == r[j - h.len()]);
        }
    }
}

/// The names of a normalized path are plain when its components' are.
pub proof fn lemma_norm_plain(cs: Seq<CompV>)
    requires
        plain_comps(cs),
    ensures
        forall|j: int| 0 <= j < norm_comps(cs).segs.len() ==> is_plain_name(#[trigger] norm_comps(cs).segs[j]),
    decreases cs.len(),
{
    if cs.len() > 0 {
        let d = cs.drop_last();
        assert forall|j: int| 0 <= j < d.len() implies (#[trigger] d[j] matches CompV::Normal(x)
            ==> is_plain_name(x)) by {
            assert(d[j] == cs[j]);
        }
        lemma_norm_plain(d);
        let p = norm_comps(d);
        assert(cs.last() == cs[cs.len() - 1]);
        match cs.last() {
            CompV::Normal(x) => {
                assert forall|j: int| 0 <= j < p.segs.push(x).len() implies is_plain_name(
                    #[trigger] p.segs.push(x)[j],
                ) by {
                    if j < p.segs.len() {
                        assert(p.segs.push(x)[j] == p.segs[j]);
                    }
                }
            },
            CompV::Parent => {
                if p.segs.len() > 0 {
                    assert forall|j: int| 0 <= j < p.segs.drop_last().len() implies is_plain_name(
                        #[trigger] p.segs.drop_last()[j],
                    ) by {
                        assert(p.segs.drop_last()[j] == p.segs[j]);
                    }
                }
            },
            _ => {},
        }
    }
}

/// The text of a normalized path with at least one name is that of the
/// path without its last name, with the name pushed on.
proof fn lemma_path_string_push(abs: bool, segs: Seq<Seq<char>>)
    requires
        segs.len() > 0,
        forall|j: int| 0 <= j < segs.len() ==> is_plain_name(#[trigger] segs[j]),
    ensures
        slash_string(NPath { prefix: None, abs, segs }) == push_path(
            slash_string(NPath { prefix: None, abs, segs: segs.drop_last() }),
            segs.last(),
        ),
{
    let d = segs.drop_last();
    let x = segs.last();
    let pre: Seq<char> = if abs { seq!['/'] } else { seq![] };
    if d.len() == 0 {
        assert(join_segs(segs, '/') == segs[0]);
        assert(join_segs(d, '/') == Seq::<char>::empty());
        assert(pre + Seq::<char>::empty() =~= pre);
        assert(slash_string(NPath { prefix: None, abs, segs }) =~= pre + x);
    } else {
        assert(join_segs(segs, '/') == join_segs(d, '/') + seq!['/'] + x);
        assert(is_plain_name(d.last())) by {
            assert(d.last() == d[d.len() - 1]);
        }
        lemma_join_segs_last(d, '/');
        let t = pre + join_segs(d, '/');
        assert(t.last() == join_segs(d, '/').last());
        assert(slash_string(NPath { prefix: None, abs, segs }) =~= t + seq!['/'] + x);
    }
}

/// A join of plain names ends with the last character of its last name.
proof fn lemma_join_segs_last(segs: Seq<Seq<char>>, sep: char)
    requires
        segs.len() > 0,
        segs.last().len() > 0,
    ensures
        join_segs(segs, sep).len() > 0,
        join_segs(segs, sep).last() == segs.last().last(),
{
    if segs.len() == 1 {
        assert(join_segs(segs, sep) == segs[0]);
    }
}

/// The components of a normalized path's text are the root (when absolute)
/// and its names.
pub proof fn lemma_components_of_npath(p: NPath)
    requires
        p.prefix is None,
        forall|j: int| 0 <= j < p.segs.len() ==> is_plain_name(#[trigger] p.segs[j]),
    ensures
        slash_components(slash_string(p)) == npath_comps(p),
    decreases p.segs.len(),
{
    if p.segs.len() == 0 {
        assert(join_segs(p.segs, '/') == Seq::<char>::empty());
        if p.abs {
            let t = seq!['/'];
            assert(slash_string(p) =~= t);
            assert(t == Seq::<char>::empty() + seq!['/'] + Seq::<char>::empty());
            crate::text::lemma_split_single(Seq::<char>::empty(), '/');
            crate::text::lemma_split_append_sep(Seq::<char>::empty(), Seq::<char>::empty(), '/');
            let ps = spec_split(t, '/');
            assert(ps =~= seq![Seq::<char>::empty(), Seq::<char>::empty()]);
            assert(piece_comps(ps) =~= Seq::<CompV>::empty()) by {
                let d1 = ps.drop_last();
                assert(d1 =~= seq![Seq::<char>::empty()]);
                assert(d1.drop_last() =~= Seq::<Seq<char>>::empty());
                assert(piece_comps(d1.drop_last()) == Seq::<CompV>::empty());
                assert(piece_comp(d1.last()) =~= Seq::<CompV>::empty());
                assert(piece_comps(d1) == piece_comps(d1.drop_last()) + piece_comp(d1.last()));
                assert(piece_comp(ps.last()) =~= Seq::<CompV>::empty());
                assert(piece_comps(ps) == piece_comps(d1) + piece_comp(ps.last()));
            }
            assert(npath_comps(p) =~= seq![CompV::Root]);
        } else {
            assert(slash_string(p) =~= Seq::<char>::empty());
            let ps = spec_split(Seq::<char>::empty(), '/');
            assert(ps == seq![Seq::<char>::empty()]);
            assert(piece_comps(ps) =~= Seq::<CompV>::empty()) by {
                assert(ps.drop_last() =~= Seq::<Seq<char>>::empty());
                assert(piece_comps(ps.drop_last()) == Seq::<CompV>::empty());
                assert(piece_comp(ps.last()) =~= Seq::<CompV>::empty());
                assert(piece_comps(ps) == piece_comps(ps.drop_last()) + piece_comp(ps.last()));
            }
            assert(npath_comps(p) =~= Seq::<CompV>::empty());
        }
    } else {
        let q = NPath { prefix: None, abs: p.abs, segs: p.segs.drop_last() };
        assert forall|j: int| 0 <= j < q.segs.len() implies is_plain_name(#[trigger] q.segs[j]) by {
            assert(q.segs[j] == p.segs[j]);
        }
        lemma_components_of_npath(q);
        let x = p.segs.last();
        assert(is_plain_name(x)) by {
            assert(x == p.segs[p.segs.len() - 1]);
        }
        lemma_path_string_push(p.abs, p.segs);
        assert(NPath { prefix: None, abs: p.abs, segs: p.segs } == p);
        lemma_components_push(slash_string(q), x);
        let buf = slash_string(q);
        if buf.len() == 0 {
            crate::text::lemma_split_single(x, '/');
            let ps = seq![x];
            assert(ps.drop_last() =~= Seq::<Seq<char>>::empty());
            assert(piece_comps(ps.drop_last()) == Seq::<CompV>::empty());
            assert(piece_comp(x) == seq![CompV::Normal(x)]);
            assert(piece_comps(ps) == piece_comps(ps.drop_last()) + piece_comp(ps.last()));
            assert(piece_comps(ps) =~= seq![CompV::Normal(x)]);
            assert(x[0] != '/');
            assert(slash_components(x) =~= seq![CompV::Normal(x)]);
        }
        assert(pushed_comps(buf, x) =~= seq![CompV::Normal(x)]);
        assert(name_comps(p.segs) =~= name_comps(q.segs).push(CompV::Normal(x)));
        assert(npath_comps(p) =~= npath_comps(q) + seq![CompV::Normal(x)]);
    }
}

/// Normalizing the components of a normalized path gives it back.
pub proof fn lemma_norm_of_npath(p: NPath)
    ensures
        norm_comps(npath_comps(p)) == p,
    decreases p.segs.len(),
{
    if p.segs.len() == 0 {
        let pre: Seq<CompV> = match p.prefix {
            Some(x) => seq![CompV::Prefix(x)],
            None => seq![],
        };
        let n0 = norm_comps(pre);
        assert(n0.prefix == p.prefix && !n0.abs && n0.segs.len() == 0) by {
            if pre.len() > 0 {
                assert(pre.drop_last() =~= Seq::<CompV>::empty());
            }
        }
        if p.abs {
            assert(npath_comps(p) =~= pre.push(CompV::Root));
            assert(npath_comps(p).drop_last() =~= pre);
        } else {
            assert(npath_comps(p) =~= pre);
        }
        assert(norm_comps(npath_comps(p)).segs =~= p.segs);
    } else {
        let q = NPath { prefix: p.prefix, abs: p.abs, segs: p.segs.drop_last() };
        lemma_norm_of_npath(q);
        let x = p.segs.last();
        assert(name_comps(p.segs) =~= name_comps(q.segs).push(CompV::Normal(x)));
        assert(npath_comps(p) =~= npath_comps(q).push(CompV::Normal(x)));
        assert(npath_comps(p).drop_last() =~= npath_comps(q));
        assert(q.segs.push(x) =~= p.segs);
    }
}

/// A normalized Unix path normalizes to itself.
proof fn lemma_slash_normalize_idempotent(s: Seq<char>)
    ensures
        slash_normalize(slash_normalize(s)) == slash_normalize(s),
{
    let p = norm_comps(slash_components(s));
    lemma_components_plain(s);
    lemma_norm_plain(slash_components(s));
    lemma_slash_no_prefix(s, false, false);
    lemma_norm_no_prefix(slash_components(s));
    lemma_components_of_npath(p);
    lemma_norm_of_npath(p);
}

/// Every name of `segs` is plain.
pub open spec fn plain_names(segs: Seq<Seq<char>>) -> bool {
    forall|j: int| 0 <= j < segs.len() ==> is_plain_name(#[trigger] segs[j])
}

/// `a` is a prefix of `b`.
pub open spec fn segs_prefix(a: Seq<Seq<char>>, b: Seq<Seq<char>>) -> bool {
    a.len() <= b.len() && b.take(a.len() as int) == a
}

/// The longest common prefix of two name sequences.
pub open spec fn common_names(a: Seq<Seq<char>>, b: Seq<Seq<char>>) -> Seq<Seq<char>>
    decreases a.len(),
{
    if a.len() == 0 || b.len() == 0 || a[0] != b[0] {
        seq![]
    } else {
        seq![a[0]] + common_names(a.drop_first(), b.drop_first())
    }
}

/// An absolute normalized path with the names `segs`.
pub open spec fn abs_path(segs: Seq<Seq<char>>) -> NPath {
    NPath { prefix: None, abs: true, segs }
}

/// A path whose first component is the root normalizes to an absolute path.
pub proof fn lemma_norm_abs(cs: Seq<CompV>)
    requires
        cs.len() > 0,
        cs[0] == CompV::Root,
        no_prefix(cs),
    ensures
        norm_comps(cs).abs,
    decreases cs.len(),
{
    if cs.len() > 1 {
        let d = cs.drop_last();
        assert(d[0] == CompV::Root);
        assert forall|j: int| 0 <= j < d.len() implies !(#[trigger] d[j] is Prefix) by {
            assert(d[j] == cs[j]);
        }
        assert(cs.last() == cs[cs.len() - 1]);
        lemma_norm_abs(d);
    } else {
        assert(cs.drop_last() =~= Seq::<CompV>::empty());
    }
}

/// The common prefix of two name sequences is a prefix of both.
pub proof fn lemma_common_names_prefix(a: Seq<Seq<char>>, b: Seq<Seq<char>>)
    ensures
        segs_prefix(common_names(a, b), a),
        segs_prefix(common_names(a, b), b),
    decreases a.len(),
{
    if a.len() == 0 || b.len() == 0 || a[0] != b[0] {
        assert(a.take(0) =~= Seq::<Seq<char>>::empty());
        assert(b.take(0) =~= Seq::<Seq<char>>::empty());
    } else {
        lemma_common_names_prefix(a.drop_first(), b.drop_first());
        let c = common_names(a.drop_first(), b.drop_first());
        assert(a.take(c.len() as int + 1) =~= seq![a[0]] + a.drop_first().take(c.len() as int));
        assert(b.take(c.len() as int + 1) =~= seq![b[0]] + b.drop_first().take(c.len() as int));
    }
}

/// Prefixes of prefixes are prefixes.
pub proof fn lemma_segs_prefix_trans(a: Seq<Seq<char>>, b: Seq<Seq<char>>, c: Seq<Seq<char>>)
    requires
        segs_prefix(a, b),
        segs_prefix(b, c),
    ensures
        segs_prefix(a, c),
{
    assert(c.take(a.len() as int) =~= c.take(b.len() as int).take(a.len() as int));
}

/// Common component prefixes of names are the names of the common prefix.
proof fn lemma_common_prefix_names(a: Seq<Seq<char>>, b: Seq<Seq<char>>)
    ensures
        common_prefix(name_comps(a), name_comps(b)) == name_comps(common_names(a, b)),
    decreases a.len(),
{
    let na = name_comps(a);
    let nb = name_comps(b);
    if a.len() == 0 || b.len() == 0 || a[0] != b[0] {
        if a.len() > 0 && b.len() > 0 {
            assert(na[0] == CompV::Normal(a[0]));
            assert(nb[0] == CompV::Normal(b[0]));
        }
        assert(name_comps(Seq::<Seq<char>>::empty()) =~= Seq::<CompV>::empty());
    } else {
        lemma_common_prefix_names(a.drop_first(), b.drop_first());
        assert(na.drop_first() =~= name_comps(a.drop_first()));
        assert(nb.drop_first() =~= name_comps(b.drop_first()));
        assert(na[0] == nb[0]);
        let c = common_names(a.drop_first(), b.drop_first());
        assert(name_comps(seq![a[0]] + c) =~= seq![CompV::Normal(a[0])] + name_comps(c));
    }
}

/// Two absolute paths share the root and their common names.
pub proof fn lemma_common_prefix_npath(sa: Seq<Seq<char>>, sb: Seq<Seq<char>>)
    ensures
        common_prefix(npath_comps(abs_path(sa)), npath_comps(abs_path(sb))) == npath_comps(
            abs_path(common_names(sa, sb)),
        ),
{
    let a = npath_comps(abs_path(sa));
    let b = npath_comps(abs_path(sb));
    assert(a[0] == CompV::Root);
    assert(b[0] == CompV::Root);
    assert(a.drop_first() =~= name_comps(sa));
    assert(b.drop_first() =~= name_comps(sb));
    lemma_common_prefix_names(sa, sb);
    assert(npath_comps(abs_path(common_names(sa, sb))) =~= seq![CompV::Root] + name_comps(
        common_names(sa, sb),
    ));
}

/// Pushing the components of an absolute normalized path one by one builds
/// its text.
pub proof fn lemma_comps_string_npath(segs: Seq<Seq<char>>)
    requires
        plain_names(segs),
    ensures
        slash_comps_string(npath_comps(abs_path(segs))) == slash_string(abs_path(segs)),
    decreases segs.len(),
{
    let cs = npath_comps(abs_path(segs));
    if segs.len() == 0 {
        assert(cs =~= seq![CompV::Root]);
        assert(slash_string(abs_path(segs)) =~= seq!['/']);
    } else {
        let d = segs.drop_last();
        assert(plain_names(d)) by {
            assert forall|j: int| 0 <= j < d.len() implies is_plain_name(#[trigger] d[j]) by {
                assert(d[j] == segs[j]);
            }
        }
        lemma_comps_string_npath(d);
        assert(cs.drop_last() =~= npath_comps(abs_path(d)));
        assert(cs.last() == CompV::Normal(segs.last()));
        lemma_path_string_push(true, segs);
    }
}

/// The components of a concatenation of pieces.
pub proof fn lemma_piece_comps_concat(a: Seq<Seq<char>>, b: Seq<Seq<char>>)
    ensures
        piece_comps(a + b) == piece_comps(a) + piece_comps(b),
    decreases b.len(),
{
    if b.len() == 0 {
        assert(a + b =~= a);
        assert(piece_comps(a) + Seq::<CompV>::empty() =~= piece_comps(a));
    } else {
        lemma_piece_comps_concat(a, b.drop_last());
        assert((a + b).drop_last() =~= a + b.drop_last());
        assert((a + b).last() == b.last());
        assert(piece_comps(a) + piece_comps(b.drop_last()) + piece_comp(b.last()) =~= piece_comps(a) + (
        piece_comps(b.drop_last()) + piece_comp(b.last())));
    }
}

/// Joining a relative path onto a non-empty one appends the components of
/// its pieces.
pub proof fn lemma_components_join(buf: Seq<char>, x: Seq<char>)
    requires
        buf.len() > 0,
        !slash_absolute(x),
    ensures
        slash_components(slash_join(buf, x)) == slash_components(buf) + piece_comps(spec_split(x, '/')),
{
    let t = slash_join(buf, x);
    let sx = spec_split(x, '/');
    lemma_split_nonempty(buf, '/');
    if buf.last() != '/' {
        assert(t == buf + seq!['/'] + x);
        crate::text::lemma_split_concat(buf, x, '/');
        let sb = spec_split(buf, '/');
        assert(spec_split(t, '/') == sb + sx);
        assert((sb + sx)[0] == sb[0]);
        assert(t[0] == buf[0]);
        lemma_piece_comps_concat(sb, sx);
    } else {
        let d = buf.drop_last();
        assert(t == buf + x);
        assert(t =~= d + seq!['/'] + x);
        crate::text::lemma_split_concat(d, x, '/');
        lemma_split_nonempty(d, '/');
        let sd = spec_split(d, '/');
        let sb = spec_split(buf, '/');
        assert(sb == sd.push(Seq::<char>::empty()));
        assert(spec_split(t, '/') == sd + sx);
        assert((sd + sx)[0] == sd[0]);
        assert(sb[0] == sd[0]);
        assert(t[0] == buf[0]);
        lemma_piece_comps_concat(sd, sx);
        assert(sb.drop_last() == sd);
        assert(piece_comp(Seq::<char>::empty()) =~= Seq::<CompV>::empty());
        assert(piece_comps(sb) == piece_comps(sd) + piece_comp(sb.last()));
        assert(piece_comps(sb) =~= piece_comps(sd));
    }
}

/// `p` with the components `cs` applied in turn.
pub open spec fn norm_from(p: NPath, cs: Seq<CompV>) -> NPath
    decreases cs.len(),
{
    if cs.len() == 0 {
        p
    } else {
        norm_step(norm_from(p, cs.drop_last()), cs.last())
    }
}

/// Normalizing a concatenation continues from the normalized first part.
pub proof fn lemma_norm_concat(a: Seq<CompV>, b: Seq<CompV>)
    ensures
        norm_comps(a + b) == norm_from(norm_comps(a), b),
    decreases b.len(),
{
    if b.len() == 0 {
        assert(a + b =~= a);
    } else {
        lemma_norm_concat(a, b.drop_last());
        assert((a + b).drop_last() =~= a + b.drop_last());
        assert((a + b).last() == b.last());
    }
}

/// The view of an optional character vector.
pub open spec fn opt_chars(o: Option<Vec<char>>) -> Option<Seq<char>> {
    match o {
        Some(v) => Some(v@),
        None => None,
    }
}

/// The normalized path of the first `upto` components of `cs`.
fn normalize_comps(cs: &Vec<Comp>, upto: usize) -> (res: (Option<Vec<char>>, bool, Vec<Vec<char>>))
    requires
        upto <= cs.len(),
    ensures
        (NPath { prefix: opt_chars(res.0), abs: res.1, segs: views(res.2@) }) == norm_comps(
            comp_views(cs@).take(upto as int),
        ),
{
    let mut prefix: Option<Vec<char>> = None;
    let mut absolute = false;
    let mut segs: Vec<Vec<char>> = Vec::new();
    let mut i: usize = 0;
    proof {
        assert(comp_views(cs@).take(0) =~= Seq::<CompV>::empty());
        assert(views(segs@) =~= Seq::<Seq<char>>::empty());
    }
    while i < upto
        invariant
            upto <= cs.len(),
            i <= upto,
            (NPath { prefix: opt_chars(prefix), abs: absolute, segs: views(segs@) }) == norm_comps(
                comp_views(cs@).take(i as int),
            ),
        decreases upto - i,
    {
        let ghost t = comp_views(cs@).take(i as int + 1);
        proof {
            assert(t.drop_last() == comp_views(cs@).take(i as int));
            assert(t.last() == cs@[i as int]@);
        }
        match &cs[i] {
            Comp::Prefix(x) => {
                prefix = Some(clone_chars(x));
                absolute = false;
                segs = Vec::new();
                proof {
                    assert(views(segs@) =~= Seq::<Seq<char>>::empty());
                }
            },
            Comp::Root => {
                absolute = true;
                segs = Vec::new();
                proof {
                    assert(views(segs@) =~= Seq::<Seq<char>>::empty());
                }
            },
            Comp::Cur => {},
            Comp::Parent => {
                if segs.len() > 0 {
                    let ghost before = segs@;
                    let _ = segs.pop();
                    proof {
                        assert(views(segs@) =~= views(before).drop_last());
                    }
                }
            },
            Comp::Normal(x) => {
                segs.push(clone_chars(x));
            },
        }
        proof {
            assert(views(segs@) =~= norm_comps(t).segs);
        }
        i += 1;
    }
    (prefix, absolute, segs)
}

/// The separator a path style writes.
pub open spec fn sep_char(style: PathStyle) -> char {
    match style {
        PathStyle::Unix => '/',
        PathStyle::Windows => '\\',
    }
}

fn sep_of(style: PathStyle) -> (c: char)
    ensures
        c == sep_char(style),
{
    match style {
        PathStyle::Unix => '/',
        PathStyle::Windows => '\\',
    }
}

/// The text of a normalized path given by its parts.
fn path_text(style: PathStyle, prefix: &Option<Vec<char>>, absolute: bool, segs: &Vec<Vec<char>>) -> (res:
    String)
    ensures
        res@ == path_string(style, NPath { prefix: opt_chars(*prefix), abs: absolute, segs: views(segs@) }),
{
    let sep = sep_of(style);
    let mut out = empty_string();
    if let PathStyle::Windows = style {
        if let Some(x) = prefix {
            push_chars(&mut out, x);
        }
    }
    if absolute {
        push_char(&mut out, sep);
    }
    let ghost head = out@;
    let mut i: usize = 0;
    proof {
        assert(views(segs@).take(0) =~= Seq::<Seq<char>>::empty());
        assert(out@ =~= head + join_segs(views(segs@).take(0), sep));
    }
    while i < segs.len()
        invariant
            i <= segs.len(),
            sep == sep_char(style),
            out@ == head + join_segs(views(segs@).take(i as int), sep),
        decreases segs.len() - i,
    {
        let ghost t = views(segs@).take(i as int + 1);
        proof {
            assert(t.drop_last() == views(segs@).take(i as int));
            assert(t.last() == segs@[i as int]@);
        }
        if i > 0 {
            push_char(&mut out, sep);
        }
        push_chars(&mut out, &segs[i]);
        proof {
            if i == 0 {
                assert(t =~= seq![segs@[0]@]);
            }
            assert(out@ =~= head + join_segs(t, sep));
        }
        i += 1;
    }
    proof {
        assert(views(segs@).take(segs.len() as int) == views(segs@));
        let p = NPath { prefix: opt_chars(*prefix), abs: absolute, segs: views(segs@) };
        match style {
            PathStyle::Unix => {
                assert(out@ =~= slash_string(p));
            },
            PathStyle::Windows => {
                assert(out@ =~= win_string(p));
            },
        }
    }
    out
}

/// Lexically normalize a path (resolve `.`/`..`, no filesystem access).
pub fn normalize_path(style: PathStyle, p: &str) -> (res: String)
    ensures
        res@ == spec_normalize_path(style, p@),
{
    let cs = components(style, p);
    let (prefix, absolute, segs) = normalize_comps(&cs, cs.len());
    proof {
        assert(comp_views(cs@).take(cs.len() as int) == comp_views(cs@));
    }
    path_text(style, &prefix, absolute, &segs)
}

// ---------------------------------------------------------------------------
// Joining, common prefixes, prefixes
// ---------------------------------------------------------------------------

/// `buf` with the relative path `x` appended (std `PathBuf::push`): a `/`
/// goes between them unless `buf` is empty or already ends with one.
pub open spec fn push_path(buf: Seq<char>, x: Seq<char>) -> Seq<char> {
    if buf.len() > 0 && buf.last() != '/' {
        buf + seq!['/'] + x
    } else {
        buf + x
    }
}

/// `rel` resolved against `base` (std `Path::join`): an absolute `rel`
/// replaces `base`.
pub open spec fn slash_join(base: Seq<char>, rel: Seq<char>) -> Seq<char> {
    if slash_absolute(rel) {
        rel
    } else {
        push_path(base, rel)
    }
}

/// The components `x` adds when pushed onto `buf`: those of `x` alone
/// when `buf` is empty, else the one component of the piece `x`.
pub open spec fn pushed_comps(buf: Seq<char>, x: Seq<char>) -> Seq<CompV> {
    if buf.len() == 0 {
        slash_components(x)
    } else {
        piece_comp(x)
    }
}

/// Pushing a piece without separators onto a path appends its component.
pub proof fn lemma_components_push(buf: Seq<char>, x: Seq<char>)
    requires
        crate::text::lacks(x, '/'),
    ensures
        slash_components(push_path(buf, x)) == slash_components(buf) + pushed_comps(buf, x),
{
    let ps = spec_split(buf, '/');
    lemma_split_nonempty(buf, '/');
    if buf.len() == 0 {
        assert(push_path(buf, x) =~= x);
        assert(spec_split(buf, '/') == seq![Seq::<char>::empty()]);
        assert(slash_components(buf) =~= Seq::<CompV>::empty()) by {
            assert(piece_comps(ps) == piece_comps(ps.drop_last()) + piece_comp(ps.last()));
        }
        assert(slash_components(buf) + pushed_comps(buf, x) =~= slash_components(x));
    } else if buf.last() != '/' {
        let t = buf + seq!['/'] + x;
        assert(push_path(buf, x) == t);
        crate::text::lemma_split_append_sep(buf, x, '/');
        let pt = spec_split(t, '/');
        assert(pt == ps.push(x));
        assert(pt[0] == ps[0]);
        assert(slash_absolute(t) == slash_absolute(buf)) by {
            assert(t[0] == buf[0]);
        }
        assert(pt.drop_last() == ps);
        assert(piece_comps(pt) == piece_comps(ps) + piece_comp(x));
        assert(slash_components(t) =~= slash_components(buf) + piece_comp(x));
    } else {
        let t = buf + x;
        assert(push_path(buf, x) == t);
        crate::text::lemma_split_append_plain(buf, x, '/');
        let pd = spec_split(buf.drop_last(), '/');
        lemma_split_nonempty(buf.drop_last(), '/');
        assert(ps == pd.push(Seq::<char>::empty()));
        let pt = spec_split(t, '/');
        assert(ps.last() + x =~= x);
        assert(pt =~= pd.push(x));
        assert(pt[0] == ps[0]);
        assert(slash_absolute(t) == slash_absolute(buf)) by {
            assert(t[0] == buf[0]);
        }
        assert(pt.drop_last() == pd);
        assert(ps.drop_last() == pd);
        assert(piece_comp(Seq::<char>::empty()) =~= Seq::<CompV>::empty());
        assert(piece_comps(ps) =~= piece_comps(pd));
        assert(piece_comps(pt) == piece_comps(pd) + piece_comp(x));
        assert(slash_components(t) =~= slash_components(buf) + piece_comp(x));
    }
}

/// Whether pushing a relative path onto the Windows path `buf` puts a `\`
/// between them: `buf` is not empty, does not end with a separator and is
/// not a bare drive `X:`.
pub open spec fn win_needs_sep(buf: Seq<char>) -> bool {
    buf.len() > 0 && !is_win_sep(buf.last()) && !(win_prefix_len(buf) == 2 && buf.len() == 2)
}

/// `rel` resolved against the Windows path `base` (std `Path::join`): a
/// `rel` with a prefix replaces `base`; one that starts with a separator
/// keeps only the prefix of `base`; any other is appended, after a `\`
/// where [`win_needs_sep`] says so.
pub open spec fn win_join(base: Seq<char>, rel: Seq<char>) -> Seq<char> {
    if win_prefix_len(rel) > 0 {
        rel
    } else if rel.len() > 0 && is_win_sep(rel[0]) {
        base.take(win_prefix_len(base)) + rel
    } else if win_needs_sep(base) {
        base + seq!['\\'] + rel
    } else {
        base + rel
    }
}

/// `rel` resolved against `base` (std `Path::join`).
pub open spec fn spec_join(style: PathStyle, base: Seq<char>, rel: Seq<char>) -> Seq<char> {
    match style {
        PathStyle::Unix => slash_join(base, rel),
        PathStyle::Windows => win_join(base, rel),
    }
}

/// `out` with the characters of `x` appended.
fn extend_chars(out: &mut Vec<char>, x: &Vec<char>)
    ensures
        final(out)@ == old(out)@ + x@,
{
    let mut i: usize = 0;
    let ghost start = out@;
    while i < x.len()
        invariant
            i <= x.len(),
            out@ == start + x@.take(i as int),
        decreases x.len() - i,
    {
        out.push(x[i]);
        proof {
            assert(x@.take(i as int + 1) == x@.take(i as int).push(x@[i as int]));
        }
        i += 1;
    }
    proof {
        assert(x@.take(x.len() as int) == x@);
    }
}

/// The characters of `b` joined with those of `r` (see [`spec_join`]).
fn join_chars(style: PathStyle, b: &Vec<char>, r: &Vec<char>) -> (res: Vec<char>)
    ensures
        res@ == spec_join(style, b@, r@),
{
    match style {
        PathStyle::Unix => {
            if r.len() > 0 && r[0] == '/' {
                return clone_chars(r);
            }
            let mut out = clone_chars(b);
            if b.len() > 0 && b[b.len() - 1] != '/' {
                out.push('/');
            }
            extend_chars(&mut out, r);
            out
        },
        PathStyle::Windows => {
            let rn = win_prefix_len_of(r);
            if rn > 0 {
                return clone_chars(r);
            }
            let bn = win_prefix_len_of(b);
            if r.len() > 0 && is_win_sep_char(r[0]) {
                let mut out = sub_chars(b, 0, bn);
                proof {
                    assert(out@ =~= b@.take(bn as int));
                }
                extend_chars(&mut out, r);
                return out;
            }
            let mut out = clone_chars(b);
            if b.len() > 0 && !is_win_sep_char(b[b.len() - 1]) && !(bn == 2 && b.len() == 2) {
                out.push('\\');
            }
            extend_chars(&mut out, r);
            out
        },
    }
}

/// Join two paths (see [`spec_join`]).
pub fn join_path(style: PathStyle, base: &str, rel: &str) -> (res: String)
    ensures
        res@ == spec_join(style, base@, rel@),
{
    let r = chars_of(rel);
    let b = chars_of(base);
    let j = join_chars(style, &b, &r);
    let mut out = empty_string();
    push_chars(&mut out, &j);
    proof {
        assert(out@ =~= j@);
    }
    out
}

/// The text a component contributes to a Unix path.
pub open spec fn comp_text(c: CompV) -> Seq<char> {
    match c {
        CompV::Prefix(x) => x,
        CompV::Root => seq!['/'],
        CompV::Cur => dot(),
        CompV::Parent => dot_dot(),
        CompV::Normal(x) => x,
    }
}

/// The text a component contributes to a Windows path.
pub open spec fn win_comp_text(c: CompV) -> Seq<char> {
    match c {
        CompV::Root => seq!['\\'],
        _ => comp_text(c),
    }
}

/// The Unix path built by pushing each component in turn onto an empty path.
pub open spec fn slash_comps_string(cs: Seq<CompV>) -> Seq<char>
    decreases cs.len(),
{
    if cs.len() == 0 {
        seq![]
    } else {
        match cs.last() {
            CompV::Root => seq!['/'],
            _ => push_path(slash_comps_string(cs.drop_last()), comp_text(cs.last())),
        }
    }
}

/// The Windows path built by pushing each component in turn onto an empty
/// path (std `PathBuf::push`).
pub open spec fn win_comps_string(cs: Seq<CompV>) -> Seq<char>
    decreases cs.len(),
{
    if cs.len() == 0 {
        seq![]
    } else {
        win_join(win_comps_string(cs.drop_last()), win_comp_text(cs.last()))
    }
}

/// The path built by pushing each component in turn onto an empty path.
pub open spec fn comps_string(style: PathStyle, cs: Seq<CompV>) -> Seq<char> {
    match style {
        PathStyle::Unix => slash_comps_string(cs),
        PathStyle::Windows => win_comps_string(cs),
    }
}

/// The longest common prefix of two component sequences.
pub open spec fn common_prefix(a: Seq<CompV>, b: Seq<CompV>) -> Seq<CompV>
    decreases a.len(),
{
    if a.len() == 0 || b.len() == 0 || a[0] != b[0] {
        seq![]
    } else {
        seq![a[0]] + common_prefix(a.drop_first(), b.drop_first())
    }
}

/// Components that start at a root: the root, or a prefix and then the root.
pub open spec fn starts_at_root(cs: Seq<CompV>) -> bool {
    cs.len() > 0 && (cs[0] == CompV::Root || (cs[0] is Prefix && cs.len() > 1 && cs[1] == CompV::Root))
}

/// The path of the longest common component prefix of two paths, when its
/// components start at a root (on Windows: a prefix and its root); `None`
/// when the paths share nothing usable as a folder (different drives or
/// shares, or a relative path).
pub open spec fn spec_shared_prefix(style: PathStyle, a: Seq<char>, b: Seq<char>) -> Option<Seq<char>> {
    let c = common_prefix(spec_components(style, a), spec_components(style, b));
    let out = comps_string(style, c);
    if starts_at_root(spec_components(style, out)) {
        Some(out)
    } else {
        None
    }
}

fn comp_eq(a: &Comp, b: &Comp) -> (r: bool)
    ensures
        r == (a@ == b@),
{
    match (a, b) {
        (Comp::Prefix(x), Comp::Prefix(y)) => chars_eq(x, y),
        (Comp::Root, Comp::Root) => true,
        (Comp::Cur, Comp::Cur) => true,
        (Comp::Parent, Comp::Parent) => true,
        (Comp::Normal(x), Comp::Normal(y)) => chars_eq(x, y),
        _ => false,
    }
}

/// `buf` with `x` appended as [`push_path`] does.
fn push_path_chars(buf: &mut Vec<char>, x: &Vec<char>)
    ensures
        final(buf)@ == push_path(old(buf)@, x@),
{
    if buf.len() > 0 && buf[buf.len() - 1] != '/' {
        buf.push('/');
    }
    extend_chars(buf, x);
}

/// The text of the first `upto` components of `cs` (see [`comps_string`]).
fn comps_text(style: PathStyle, cs: &Vec<Comp>, upto: usize) -> (res: Vec<char>)
    requires
        upto <= cs.len(),
    ensures
        res@ == comps_string(style, comp_views(cs@).take(upto as int)),
{
    let mut out: Vec<char> = Vec::new();
    let mut i: usize = 0;
    proof {
        assert(comp_views(cs@).take(0) =~= Seq::<CompV>::empty());
    }
    while i < upto
        invariant
            upto <= cs.len(),
            i <= upto,
            out@ == comps_string(style, comp_views(cs@).take(i as int)),
        decreases upto - i,
    {
        let ghost t = comp_views(cs@).take(i as int + 1);
        proof {
            assert(t.drop_last() == comp_views(cs@).take(i as int));
            assert(t.last() == cs@[i as int]@);
        }
        let text: Vec<char> = match &cs[i] {
            Comp::Prefix(x) => clone_chars(x),
            Comp::Root => vec![sep_of(style)],
            Comp::Cur => vec!['.'],
            Comp::Parent => vec!['.', '.'],
            Comp::Normal(x) => clone_chars(x),
        };
        match style {
            PathStyle::Unix => {
                if let Comp::Root = &cs[i] {
                    out = vec!['/'];
                    proof {
                        assert(out@ =~= seq!['/']);
                    }
                } else {
                    proof {
                        assert(text@ =~= comp_text(cs@[i as int]@));
                    }
                    push_path_chars(&mut out, &text);
                }
            },
            PathStyle::Windows => {
                proof {
                    assert(text@ =~= win_comp_text(cs@[i as int]@));
                }
                out = join_chars(style, &out, &text);
            },
        }
        i += 1;
    }
    out
}

fn starts_at_root_exec(cs: &Vec<Comp>) -> (r: bool)
    ensures
        r == starts_at_root(comp_views(cs@)),
{
    if cs.len() == 0 {
        return false;
    }
    let first_root = match &cs[0] {
        Comp::Root => true,
        _ => false,
    };
    let first_prefix = match &cs[0] {
        Comp::Prefix(_) => true,
        _ => false,
    };
    let second_root = cs.len() > 1 && match &cs[1] {
        Comp::Root => true,
        _ => false,
    };
    first_root || (first_prefix && second_root)
}

/// The longest common component prefix of two absolute paths, or `None` when
/// they share nothing usable as a folder (on Windows: different drives or
/// shares; on Unix the filesystem root is always shared).
pub fn shared_prefix(style: PathStyle, a: &str, b: &str) -> (res: Option<String>)
    ensures
        res matches Some(r) ==> spec_shared_prefix(style, a@, b@) == Some(r@),
        res is None ==> spec_shared_prefix(style, a@, b@) is None,
{
    let ca = components(style, a);
    let cb = components(style, b);
    let ghost va = comp_views(ca@);
    let ghost vb = comp_views(cb@);
    let mut k: usize = 0;
    proof {
        assert(va.skip(0) == va);
        assert(vb.skip(0) == vb);
        assert(va.take(0) =~= Seq::<CompV>::empty());
    }
    while k < ca.len() && k < cb.len() && comp_eq(&ca[k], &cb[k])
        invariant
            va == comp_views(ca@),
            vb == comp_views(cb@),
            k <= ca.len(),
            k <= cb.len(),
            common_prefix(va, vb) == va.take(k as int) + common_prefix(va.skip(k as int), vb.skip(k as int)),
        decreases ca.len() - k,
    {
        proof {
            assert(va.skip(k as int).drop_first() == va.skip(k + 1));
            assert(vb.skip(k as int).drop_first() == vb.skip(k + 1));
            assert(va.take(k + 1) == va.take(k as int).push(va[k as int]));
            assert(va.take(k as int) + common_prefix(va.skip(k as int), vb.skip(k as int)) =~= va.take(
                k + 1,
            ) + common_prefix(va.skip(k + 1), vb.skip(k + 1)));
        }
        k += 1;
    }
    proof {
        assert(common_prefix(va.skip(k as int), vb.skip(k as int)) == Seq::<CompV>::empty());
        assert(common_prefix(va, vb) =~= va.take(k as int));
    }
    let t = comps_text(style, &ca, k);
    let tc = components_of(style, &t);
    if starts_at_root_exec(&tc) {
        let mut out = empty_string();
        push_chars(&mut out, &t);
        proof {
            assert(out@ =~= t@);
        }
        Some(out)
    } else {
        None
    }
}

/// The common prefix of two component sequences does not depend on their
/// order.
proof fn lemma_common_prefix_symmetric(a: Seq<CompV>, b: Seq<CompV>)
    ensures
        common_prefix(a, b) == common_prefix(b, a),
    decreases a.len(),
{
    if a.len() > 0 && b.len() > 0 && a[0] == b[0] {
        lemma_common_prefix_symmetric(a.drop_first(), b.drop_first());
    }
}

/// The common prefix of two component sequences begins both, and they part
/// right after it.
proof fn lemma_common_prefix_longest(a: Seq<CompV>, b: Seq<CompV>)
    ensures
        common_prefix(a, b).is_prefix_of(a),
        common_prefix(a, b).is_prefix_of(b),
        ({
            let k = common_prefix(a, b).len() as int;
            k == a.len() || k == b.len() || a[k] != b[k]
        }),
    decreases a.len(),
{
    let c = common_prefix(a, b);
    if a.len() == 0 || b.len() == 0 || a[0] != b[0] {
        assert(c =~= Seq::<CompV>::empty());
        assert(a.subrange(0, 0) =~= c);
        assert(b.subrange(0, 0) =~= c);
    } else {
        lemma_common_prefix_longest(a.drop_first(), b.drop_first());
        let d = common_prefix(a.drop_first(), b.drop_first());
        assert(c == seq![a[0]] + d);
        assert(a.subrange(0, c.len() as int) =~= seq![a[0]] + a.drop_first().subrange(0, d.len() as int));
        assert(b.subrange(0, c.len() as int) =~= seq![b[0]] + b.drop_first().subrange(0, d.len() as int));
        let k = d.len() as int;
        if k < a.drop_first().len() && k < b.drop_first().len() {
            assert(a[k + 1] == a.drop_first()[k]);
            assert(b[k + 1] == b.drop_first()[k]);
        }
    }
}

/// The shared prefix of two paths does not depend on their order, and when
/// there is one it is the path built from their longest common component
/// prefix: components that begin both paths' components, after which the
/// two paths part.
pub proof fn law_shared_prefix_is_longest_common_prefix(style: PathStyle, a: Seq<char>, b: Seq<char>)
    ensures
        spec_shared_prefix(style, a, b) == spec_shared_prefix(style, b, a),
        spec_shared_prefix(style, a, b) matches Some(r) ==> ({
            let ca = spec_components(style, a);
            let cb = spec_components(style, b);
            let c = common_prefix(ca, cb);
            &&& r == comps_string(style, c)
            &&& starts_at_root(spec_components(style, r))
            &&& c.is_prefix_of(ca)
            &&& c.is_prefix_of(cb)
            &&& (c.len() == ca.len() || c.len() == cb.len() || ca[c.len() as int] != cb[c.len() as int])
        }),
{
    let ca = spec_components(style, a);
    let cb = spec_components(style, b);
    lemma_common_prefix_symmetric(ca, cb);
    lemma_common_prefix_longest(ca, cb);
}

/// Every component a piece sequence stands for is `..` or a name.
proof fn lemma_piece_comps_kinds(ps: Seq<Seq<char>>)
    ensures
        forall|j: int| 0 <= j < piece_comps(ps).len() ==> (#[trigger] piece_comps(ps)[j] is Parent
            || piece_comps(ps)[j] is Normal),
    decreases ps.len(),
{
    if ps.len() > 0 {
        lemma_piece_comps_kinds(ps.drop_last());
        let a = piece_comps(ps.drop_last());
        let b = piece_comp(ps.last());
        assert forall|j: int| 0 <= j < (a + b).len() implies (#[trigger] (a + b)[j] is Parent || (a
            + b)[j] is Normal) by {
            if j < a.len() {
                assert((a + b)[j] == a[j]);
            } else {
                assert((a + b)[j] == b[j - a.len()]);
            }
        }
    }
}

/// Components after a leading root: `..` or plain names.
pub open spec fn rooted_tail(c: Seq<CompV>) -> bool {
    forall|j: int| 1 <= j < c.len() ==> (#[trigger] c[j] == CompV::Parent || (c[j] matches CompV::Normal(x)
        && is_plain_name(x)))
}

/// The text a component of a rooted tail contributes holds no `/`.
proof fn lemma_tail_text_lacks(c: CompV)
    requires
        c == CompV::Parent || (c matches CompV::Normal(x) && is_plain_name(x)),
    ensures
        crate::text::lacks(comp_text(c), '/'),
        comp_text(c).len() > 0,
        piece_comp(comp_text(c)) == seq![c],
{
}

/// A rooted Unix component sequence is the components of the path built
/// from it.
proof fn lemma_slash_comps_string_round(c: Seq<CompV>)
    requires
        c.len() > 0,
        c[0] == CompV::Root,
        rooted_tail(c),
    ensures
        slash_components(slash_comps_string(c)) == c,
        slash_comps_string(c).len() > 0,
    decreases c.len(),
{
    if c.len() == 1 {
        assert(c.drop_last() =~= Seq::<CompV>::empty());
        assert(slash_comps_string(c) == seq!['/']);
        let p = NPath { prefix: None, abs: true, segs: seq![] };
        lemma_components_of_npath(p);
        assert(slash_string(p) =~= seq!['/']);
        assert(npath_comps(p) =~= c);
    } else {
        let d = c.drop_last();
        assert(d[0] == CompV::Root);
        assert forall|j: int| 1 <= j < d.len() implies (#[trigger] d[j] == CompV::Parent || (d[j] matches CompV::Normal(
            x,
        ) && is_plain_name(x))) by {
            assert(d[j] == c[j]);
        }
        lemma_slash_comps_string_round(d);
        let last = c.last();
        assert(last == c[c.len() - 1]);
        lemma_tail_text_lacks(last);
        let buf = slash_comps_string(d);
        assert(slash_comps_string(c) == push_path(buf, comp_text(last)));
        lemma_components_push(buf, comp_text(last));
        assert(c =~= d.push(last));
    }
}

/// Unix components that do not start at the root build a path that does
/// not start with `/`.
proof fn lemma_slash_comps_string_relative(c: Seq<CompV>)
    requires
        forall|j: int| 0 <= j < c.len() ==> (#[trigger] c[j] is Cur || c[j] == CompV::Parent || (
        c[j] matches CompV::Normal(x) && is_plain_name(x))),
    ensures
        !slash_absolute(slash_comps_string(c)),
    decreases c.len(),
{
    if c.len() > 0 {
        let d = c.drop_last();
        assert forall|j: int| 0 <= j < d.len() implies (#[trigger] d[j] is Cur || d[j] == CompV::Parent || (
        d[j] matches CompV::Normal(x) && is_plain_name(x))) by {
            assert(d[j] == c[j]);
        }
        lemma_slash_comps_string_relative(d);
        let last = c.last();
        assert(last == c[c.len() - 1]);
        let t = comp_text(last);
        assert(t.len() > 0 && t[0] != '/');
    }
}

/// On Unix, the shared prefix of two paths is the path whose components
/// are exactly their longest common component prefix.
pub proof fn law_unix_shared_prefix_components(a: Seq<char>, b: Seq<char>)
    ensures
        spec_shared_prefix(PathStyle::Unix, a, b) matches Some(r) ==> spec_components(PathStyle::Unix, r)
            == common_prefix(spec_components(PathStyle::Unix, a), spec_components(PathStyle::Unix, b)),
{
    let ca = slash_components(a);
    let cb = slash_components(b);
    let c = common_prefix(ca, cb);
    lemma_common_prefix_longest(ca, cb);
    lemma_components_plain(a);
    lemma_slash_no_prefix(a, false, false);
    let ps = spec_split(a, '/');
    lemma_piece_comps_kinds(ps);
    let h: Seq<CompV> = if slash_absolute(a) {
        seq![CompV::Root]
    } else if ps[0] == dot() {
        seq![CompV::Cur]
    } else {
        seq![]
    };
    let r = piece_comps(ps);
    assert(ca == h + r);
    assert forall|j: int| 0 <= j < c.len() implies c[j] == ca[j] by {
        assert(ca.subrange(0, c.len() as int)[j] == ca[j]);
    }
    if c.len() > 0 && c[0] == CompV::Root {
        assert(h.len() == 1) by {
            if h.len() == 0 {
                assert(ca[0] == r[0]);
            }
        }
        assert forall|j: int| 1 <= j < c.len() implies (#[trigger] c[j] == CompV::Parent || (c[j] matches CompV::Normal(
            x,
        ) && is_plain_name(x))) by {
            assert(ca[j] == r[j - 1]);
            assert(plain_comps(ca));
            assert(ca[j] matches CompV::Normal(x) ==> is_plain_name(x));
        }
        lemma_slash_comps_string_round(c);
    } else {
        assert forall|j: int| 0 <= j < c.len() implies (#[trigger] c[j] is Cur || c[j] == CompV::Parent || (
        c[j] matches CompV::Normal(x) && is_plain_name(x))) by {
            assert(plain_comps(ca));
            assert(ca[j] matches CompV::Normal(x) ==> is_plain_name(x));
            if j >= h.len() {
                assert(ca[j] == r[j - h.len()]);
            } else {
                assert(ca[j] == h[j]);
            }
        }
        lemma_slash_comps_string_relative(c);
        let out = slash_comps_string(c);
        let po = spec_split(out, '/');
        lemma_piece_comps_kinds(po);
        lemma_slash_no_prefix(out, false, false);
        let co = slash_components(out);
        if co.len() > 0 {
            if po[0] == dot() {
                assert(co[0] == CompV::Cur);
            } else {
                assert(co[0] == piece_comps(po)[0]);
            }
        }
    }
}

// ---------------------------------------------------------------------------
// Windows paths that start at a root
// ---------------------------------------------------------------------------

/// `sep_from` finds the first separator at or after `k`.
proof fn lemma_sep_from(x: Seq<char>, k: int)
    requires
        0 <= k <= x.len(),
    ensures
        k <= sep_from(x, k) <= x.len(),
        forall|q: int| k <= q < sep_from(x, k) ==> !is_win_sep(#[trigger] x[q]),
        sep_from(x, k) < x.len() ==> is_win_sep(x[sep_from(x, k)]),
    decreases x.len() - k,
{
    if k < x.len() && !is_win_sep(x[k]) {
        lemma_sep_from(x, k + 1);
    }
}

/// A Windows prefix is empty or at least two characters long, and lies
/// within the path.
pub proof fn lemma_win_prefix_len_range(s: Seq<char>)
    ensures
        0 <= win_prefix_len(s) <= s.len(),
        win_prefix_len(s) == 0 || win_prefix_len(s) >= 2,
{
    if s.len() >= 2 && is_win_sep(s[0]) && is_win_sep(s[1]) {
        lemma_sep_from(s, 2);
        let i = sep_from(s, 2);
        if i > 2 && i < s.len() {
            lemma_sep_from(s, i + 1);
        }
    }
}

/// A Windows prefix, followed by nothing or by a separator, is read back
/// as the same prefix.
pub proof fn lemma_prefix_stable(s: Seq<char>, t: Seq<char>)
    requires
        win_prefix_len(s) > 0,
        t.len() == 0 || is_win_sep(t[0]),
    ensures
        win_prefix_len(s.take(win_prefix_len(s)) + t) == win_prefix_len(s),
{
    lemma_win_prefix_len_range(s);
    let n = win_prefix_len(s);
    let p = s.take(n);
    let u = p + t;
    assert(u[0] == s[0] && u[1] == s[1]);
    if s.len() >= 2 && is_win_sep(s[0]) && is_win_sep(s[1]) {
        let i = sep_from(s, 2);
        lemma_sep_from(s, 2);
        let j = sep_from(s, i + 1);
        lemma_sep_from(s, i + 1);
        assert(n == j);
        lemma_sep_from(u, 2);
        let r2 = sep_from(u, 2);
        if r2 < i {
            assert(u[r2] == s[r2]);
        } else if r2 > i {
            assert(u[i] == s[i]);
        }
        assert(r2 == i);
        lemma_sep_from(u, i + 1);
        let r = sep_from(u, i + 1);
        if r < j {
            assert(u[r] == s[r]);
        } else if r > j {
            assert(u[j] == t[0]);
        }
        assert(r == j);
    }
}

/// `to_slash` distributes over concatenation.
proof fn lemma_to_slash_concat(a: Seq<char>, b: Seq<char>)
    ensures
        to_slash(a + b) == to_slash(a) + to_slash(b),
{
    assert(to_slash(a + b) =~= to_slash(a) + to_slash(b));
}

/// Names without `\` joined by `\` read, with `/` for every separator, as
/// the names joined by `/`.
proof fn lemma_to_slash_join(segs: Seq<Seq<char>>)
    requires
        forall|j: int| 0 <= j < segs.len() ==> crate::text::lacks(#[trigger] segs[j], '\\'),
    ensures
        to_slash(join_segs(segs, '\\')) == join_segs(segs, '/'),
    decreases segs.len(),
{
    if segs.len() == 1 {
        assert(to_slash(segs[0]) =~= segs[0]);
    } else if segs.len() > 1 {
        let d = segs.drop_last();
        assert forall|j: int| 0 <= j < d.len() implies crate::text::lacks(#[trigger] d[j], '\\') by {
            assert(d[j] == segs[j]);
        }
        lemma_to_slash_join(d);
        let x = segs.last();
        assert(crate::text::lacks(x, '\\')) by {
            assert(x == segs[segs.len() - 1]);
        }
        lemma_to_slash_concat(join_segs(d, '\\') + seq!['\\'], x);
        lemma_to_slash_concat(join_segs(d, '\\'), seq!['\\']);
        assert(to_slash(seq!['\\']) =~= seq!['/']);
        assert(to_slash(x) =~= x);
    } else {
        assert(to_slash(Seq::<char>::empty()) =~= Seq::<char>::empty());
    }
}

/// A name a normalized Windows path can hold: plain and without `\`.
pub open spec fn win_name(x: Seq<char>) -> bool {
    is_plain_name(x) && crate::text::lacks(x, '\\')
}

/// A normalized Windows path that starts at the root of the prefix that
/// starts `s`.
pub open spec fn win_rooted(s: Seq<char>, segs: Seq<Seq<char>>) -> NPath {
    NPath { prefix: Some(s.take(win_prefix_len(s))), abs: true, segs }
}

/// The text of a rooted normalized Windows path has the path's components.
pub proof fn lemma_win_rooted_components(s: Seq<char>, segs: Seq<Seq<char>>)
    requires
        win_prefix_len(s) > 0,
        forall|j: int| 0 <= j < segs.len() ==> win_name(#[trigger] segs[j]),
    ensures
        win_components(win_string(win_rooted(s, segs))) == npath_comps(win_rooted(s, segs)),
        win_prefix_len(win_string(win_rooted(s, segs))) == win_prefix_len(s),
{
    lemma_win_prefix_len_range(s);
    let n = win_prefix_len(s);
    let p = s.take(n);
    let q = win_rooted(s, segs);
    let t = seq!['\\'] + join_segs(segs, '\\');
    assert(win_string(q) =~= p + t);
    lemma_prefix_stable(s, t);
    let u = p + t;
    assert(u.take(n) =~= p);
    lemma_to_slash_concat(p, t);
    assert(to_slash(u).skip(n) =~= to_slash(t));
    assert forall|j: int| 0 <= j < segs.len() implies crate::text::lacks(#[trigger] segs[j], '\\') by {
        assert(win_name(segs[j]));
    }
    lemma_to_slash_join(segs);
    lemma_to_slash_concat(seq!['\\'], join_segs(segs, '\\'));
    assert(to_slash(seq!['\\']) =~= seq!['/']);
    let ts = seq!['/'] + join_segs(segs, '/');
    assert(to_slash(t) == ts);
    let r = NPath { prefix: None, abs: true, segs };
    assert(slash_string(r) =~= ts);
    lemma_components_of_npath(r);
    assert(slash_comps(ts, true, n > 2) == slash_comps(ts, false, false));
    assert(npath_comps(q) =~= seq![CompV::Prefix(p)] + npath_comps(r));
}

/// Every piece of a text that lacks `c` lacks `c`.
proof fn lemma_split_pieces_lack_char(s: Seq<char>, sep: char, c: char)
    requires
        crate::text::lacks(s, c),
    ensures
        forall|j: int| 0 <= j < spec_split(s, sep).len() ==> crate::text::lacks(
            #[trigger] spec_split(s, sep)[j],
            c,
        ),
    decreases s.len(),
{
    if s.len() > 0 {
        assert(crate::text::lacks(s.drop_last(), c)) by {
            assert forall|k: int| 0 <= k < s.drop_last().len() implies s.drop_last()[k] != c by {
                assert(s.drop_last()[k] == s[k]);
            }
        }
        lemma_split_pieces_lack_char(s.drop_last(), sep, c);
        lemma_split_nonempty(s.drop_last(), sep);
        let r = spec_split(s.drop_last(), sep);
        assert(s.last() == s[s.len() - 1]);
        if s.last() != sep {
            let l = r.last().push(s.last());
            assert(crate::text::lacks(r.last(), c));
            assert(crate::text::lacks(l, c)) by {
                assert forall|k: int| 0 <= k < l.len() implies l[k] != c by {
                    if k < r.last().len() {
                        assert(l[k] == r.last()[k]);
                    }
                }
            }
        }
    }
}

/// Every name of the components of `cs` satisfies `ok`.
pub open spec fn names_satisfy(cs: Seq<CompV>, ok: spec_fn(Seq<char>) -> bool) -> bool {
    forall|j: int| 0 <= j < cs.len() ==> (#[trigger] cs[j] matches CompV::Normal(x) ==> ok(x))
}

/// The names of a normalized path satisfy what those of its components do.
proof fn lemma_norm_names(cs: Seq<CompV>, ok: spec_fn(Seq<char>) -> bool)
    requires
        names_satisfy(cs, ok),
    ensures
        forall|j: int| 0 <= j < norm_comps(cs).segs.len() ==> ok(#[trigger] norm_comps(cs).segs[j]),
    decreases cs.len(),
{
    if cs.len() > 0 {
        let d = cs.drop_last();
        assert forall|j: int| 0 <= j < d.len() implies (#[trigger] d[j] matches CompV::Normal(x) ==> ok(x)) by {
            assert(d[j] == cs[j]);
        }
        lemma_norm_names(d, ok);
        let p = norm_comps(d);
        assert(cs.last() == cs[cs.len() - 1]);
        match cs.last() {
            CompV::Normal(x) => {
                assert forall|j: int| 0 <= j < p.segs.push(x).len() implies ok(#[trigger] p.segs.push(x)[j]) by {
                    if j < p.segs.len() {
                        assert(p.segs.push(x)[j] == p.segs[j]);
                    }
                }
            },
            CompV::Parent => {
                if p.segs.len() > 0 {
                    assert forall|j: int| 0 <= j < p.segs.drop_last().len() implies ok(
                        #[trigger] p.segs.drop_last()[j],
                    ) by {
                        assert(p.segs.drop_last()[j] == p.segs[j]);
                    }
                }
            },
            _ => {},
        }
    }
}

/// The names among the components of a Windows path are Windows names.
proof fn lemma_win_components_names(s: Seq<char>)
    ensures
        names_satisfy(win_components(s), |x: Seq<char>| win_name(x)),
{
    lemma_win_prefix_len_range(s);
    let n = win_prefix_len(s);
    let w = to_slash(s);
    let t = if n == 0 { w } else { w.skip(n) };
    assert(crate::text::lacks(t, '\\')) by {
        assert forall|k: int| 0 <= k < t.len() implies t[k] != '\\' by {
            if n > 0 {
                assert(t[k] == w[k + n]);
            }
        }
    }
    lemma_split_pieces_lack_char(t, '/', '\\');
    lemma_components_plain(t);
    let ps = spec_split(t, '/');
    lemma_piece_comps_kinds(ps);
    let h: Seq<CompV> = if slash_absolute(t) {
        seq![CompV::Root]
    } else if ps[0] == dot() {
        seq![CompV::Cur]
    } else {
        seq![]
    };
    let r = piece_comps(ps);
    lemma_piece_names_from(ps);
    let cs = win_components(s);
    assert forall|j: int| 0 <= j < cs.len() implies (#[trigger] cs[j] matches CompV::Normal(x) ==> win_name(x)) by {
        if cs[j] is Normal {
            let x = cs[j]->Normal_0;
            let k = j - (cs.len() - r.len());
            assert(0 <= k < r.len()) by {
                if n == 0 {
                    assert(cs == h + r);
                    if j < h.len() {
                        assert(cs[j] == h[j]);
                    }
                } else {
                    let h2: Seq<CompV> = if n > 2 || slash_absolute(t) { seq![CompV::Root] } else { seq![] };
                    assert(cs =~= seq![CompV::Prefix(s.take(n))] + h2 + r);
                    if j < 1 + h2.len() {
                        if j == 0 {
                            assert(cs[j] == CompV::Prefix(s.take(n)));
                        } else {
                            assert(cs[j] == h2[j - 1]);
                        }
                    }
                }
            }
            assert(cs[j] == r[k]) by {
                if n == 0 {
                    assert(cs == h + r);
                } else {
                    let h2: Seq<CompV> = if n > 2 || slash_absolute(t) { seq![CompV::Root] } else { seq![] };
                    assert(cs =~= seq![CompV::Prefix(s.take(n))] + h2 + r);
                }
            }
            assert(plain_comps(slash_components(t)));
            let pi = choose|i: int| 0 <= i < ps.len() && ps[i] == x;
            assert(crate::text::lacks(ps[pi], '\\'));
            assert(slash_components(t) == h + r);
            assert(slash_components(t)[k + h.len()] == r[k]);
        }
    }
}

/// Every name among the components of a piece sequence is one of the pieces.
proof fn lemma_piece_names_from(ps: Seq<Seq<char>>)
    ensures
        forall|j: int| 0 <= j < piece_comps(ps).len() ==> (#[trigger] piece_comps(ps)[j] matches CompV::Normal(x)
            ==> exists|i: int| 0 <= i < ps.len() && ps[i] == x),
    decreases ps.len(),
{
    if ps.len() > 0 {
        let d = ps.drop_last();
        lemma_piece_names_from(d);
        let a = piece_comps(d);
        let b = piece_comp(ps.last());
        assert forall|j: int| 0 <= j < (a + b).len() implies (#[trigger] (a + b)[j] matches CompV::Normal(x)
            ==> exists|i: int| 0 <= i < ps.len() && ps[i] == x) by {
            if j < a.len() {
                assert((a + b)[j] == a[j]);
                if a[j] is Normal {
                    let x = a[j]->Normal_0;
                    let i = choose|i: int| 0 <= i < d.len() && d[i] == x;
                    assert(ps[i] == d[i]);
                }
            } else {
                assert((a + b)[j] == b[j - a.len()]);
                assert(ps[ps.len() - 1] == ps.last());
            }
        }
    }
}

// ---------------------------------------------------------------------------
// Normalized paths that start at a root, in either style
// ---------------------------------------------------------------------------

/// A prefix a normalized path of the style that starts at a root can carry:
/// none on Unix; on Windows a prefix that is read back as itself.
pub open spec fn valid_root_prefix(style: PathStyle, pre: Option<Seq<char>>) -> bool {
    match style {
        PathStyle::Unix => pre is None,
        PathStyle::Windows => pre matches Some(p) && p.len() > 0 && win_prefix_len(p) == p.len(),
    }
}

/// A name of the style's normalized paths.
pub open spec fn style_name(style: PathStyle, x: Seq<char>) -> bool {
    match style {
        PathStyle::Unix => is_plain_name(x),
        PathStyle::Windows => win_name(x),
    }
}

/// Every name is a name of the style.
pub open spec fn style_names(style: PathStyle, segs: Seq<Seq<char>>) -> bool {
    forall|j: int| 0 <= j < segs.len() ==> style_name(style, #[trigger] segs[j])
}

/// No name reads as a drive (`X:…`) on Windows; any name does on Unix.
pub open spec fn drive_free(style: PathStyle, segs: Seq<Seq<char>>) -> bool {
    style is Windows ==> forall|j: int| 0 <= j < segs.len() ==> win_prefix_len(#[trigger] segs[j]) == 0
}

/// The normalized path with prefix `pre`, at its root, with the names `segs`.
pub open spec fn rooted(pre: Option<Seq<char>>, segs: Seq<Seq<char>>) -> NPath {
    NPath { prefix: pre, abs: true, segs }
}

/// The text of a normalized path that starts at a root has its components.
pub proof fn lemma_rooted_components(style: PathStyle, pre: Option<Seq<char>>, segs: Seq<Seq<char>>)
    requires
        valid_root_prefix(style, pre),
        style_names(style, segs),
    ensures
        spec_components(style, path_string(style, rooted(pre, segs))) == npath_comps(rooted(pre, segs)),
{
    match style {
        PathStyle::Unix => {
            lemma_components_of_npath(rooted(pre, segs));
        },
        PathStyle::Windows => {
            let p = pre->Some_0;
            assert forall|j: int| 0 <= j < segs.len() implies win_name(#[trigger] segs[j]) by {
                assert(style_name(style, segs[j]));
            }
            lemma_win_rooted_components(p, segs);
            assert(p.take(win_prefix_len(p)) =~= p);
            assert(win_rooted(p, segs) == rooted(pre, segs));
        },
    }
}

/// Normalizing components that start with a prefix and the root gives a
/// path at the root of that prefix.
proof fn lemma_norm_prefix_root(cs: Seq<CompV>)
    requires
        cs.len() >= 2,
        cs[0] is Prefix,
        cs[1] == CompV::Root,
        no_prefix(cs.drop_first()),
    ensures
        norm_comps(cs).prefix == Some(cs[0]->Prefix_0),
        norm_comps(cs).abs,
    decreases cs.len(),
{
    let d = cs.drop_last();
    assert(cs.last() == cs[cs.len() - 1]);
    if cs.len() > 2 {
        assert(d[0] == cs[0] && d[1] == cs[1]);
        assert forall|j: int| 0 <= j < d.drop_first().len() implies !(#[trigger] d.drop_first()[j] is Prefix) by {
            assert(d.drop_first()[j] == cs.drop_first()[j]);
        }
        assert(!(cs.drop_first()[cs.len() - 2] is Prefix));
        lemma_norm_prefix_root(d);
    } else {
        assert(d.drop_last() =~= Seq::<CompV>::empty());
    }
}

/// A path that starts at a root normalizes to a rooted normalized path of
/// the same first component, whose text has its components.
pub proof fn lemma_normalized_rooted(style: PathStyle, s: Seq<char>) -> (r: NPath)
    requires
        is_absolute(style, s),
    ensures
        r == norm_comps(spec_components(style, s)),
        r.abs,
        valid_root_prefix(style, r.prefix),
        style_names(style, r.segs),
        spec_normalize_path(style, s) == path_string(style, r),
        spec_components(style, spec_normalize_path(style, s)) == npath_comps(r),
        spec_components(style, s).len() > 0,
        spec_components(style, s)[0] == npath_comps(r)[0],
{
    let cs = spec_components(style, s);
    match style {
        PathStyle::Unix => {
            lemma_slash_no_prefix(s, false, false);
            lemma_norm_no_prefix(cs);
            lemma_norm_abs(cs);
            lemma_components_plain(s);
            lemma_norm_plain(cs);
        },
        PathStyle::Windows => {
            lemma_win_prefix_len_range(s);
            let n = win_prefix_len(s);
            let p = s.take(n);
            let t = to_slash(s).skip(n);
            let rest = slash_comps(t, true, n > 2);
            lemma_slash_no_prefix(t, true, n > 2);
            if n <= 2 {
                assert(t[0] == to_slash(s)[n]);
            }
            assert(rest[0] == CompV::Root);
            assert(cs == seq![CompV::Prefix(p)] + rest);
            assert(cs.drop_first() =~= rest);
            lemma_norm_prefix_root(cs);
            lemma_prefix_stable(s, Seq::<char>::empty());
            assert(p + Seq::<char>::empty() =~= p);
            lemma_win_components_names(s);
            lemma_norm_names(cs, |x: Seq<char>| win_name(x));
        },
    }
    let r = norm_comps(cs);
    assert(style_names(style, r.segs)) by {
        assert forall|j: int| 0 <= j < r.segs.len() implies style_name(style, #[trigger] r.segs[j]) by {
            match style {
                PathStyle::Unix => {},
                PathStyle::Windows => {
                    assert((|x: Seq<char>| win_name(x))(r.segs[j]));
                },
            }
        }
    }
    lemma_rooted_components(style, r.prefix, r.segs);
    assert(r == rooted(r.prefix, r.segs));
    r
}

/// The head of the components of a rooted normalized path: its prefix (if
/// any) and the root.
pub open spec fn root_head(pre: Option<Seq<char>>) -> Seq<CompV> {
    (match pre {
        Some(x) => seq![CompV::Prefix(x)],
        None => seq![],
    }) + seq![CompV::Root]
}

pub proof fn lemma_rooted_comps_split(pre: Option<Seq<char>>, segs: Seq<Seq<char>>)
    ensures
        npath_comps(rooted(pre, segs)) == root_head(pre) + name_comps(segs),
{
    assert(npath_comps(rooted(pre, segs)) =~= root_head(pre) + name_comps(segs));
}

/// One rooted normalized path lies under another exactly when both have the
/// same prefix and the names of the other begin its own.
pub proof fn lemma_rooted_strip(pa: Option<Seq<char>>, sa: Seq<Seq<char>>, pr: Option<Seq<char>>, sr: Seq<
    Seq<char>,
>)
    ensures
        (strip_comps(npath_comps(rooted(pa, sa)), npath_comps(rooted(pr, sr))) is Some) == (pa == pr
            && segs_prefix(sr, sa)),
{
    lemma_rooted_comps_split(pa, sa);
    lemma_rooted_comps_split(pr, sr);
    let ca = npath_comps(rooted(pa, sa));
    let cr = npath_comps(rooted(pr, sr));
    let ha = root_head(pa);
    let hr = root_head(pr);
    if pa == pr {
        let h = ha.len() as int;
        if sr.len() <= sa.len() {
            if sa.take(sr.len() as int) == sr {
                assert(ca.take(cr.len() as int) =~= cr) by {
                    assert forall|k: int| 0 <= k < cr.len() implies ca.take(cr.len() as int)[k] == cr[k] by {
                        if k >= h {
                            assert(ca[k] == CompV::Normal(sa[k - h]));
                            assert(cr[k] == CompV::Normal(sr[k - h]));
                            assert(sa.take(sr.len() as int)[k - h] == sa[k - h]);
                        } else {
                            assert(ca[k] == ha[k]);
                            assert(cr[k] == hr[k]);
                        }
                    }
                }
            }
            if ca.take(cr.len() as int) == cr {
                assert(sa.take(sr.len() as int) =~= sr) by {
                    assert forall|k: int| 0 <= k < sr.len() implies sa.take(sr.len() as int)[k] == sr[k] by {
                        assert(ca.take(cr.len() as int)[k + h] == cr[k + h]);
                        assert(ca[k + h] == CompV::Normal(sa[k]));
                        assert(cr[k + h] == CompV::Normal(sr[k]));
                    }
                }
            }
        }
    } else {
        if cr.len() <= ca.len() && ca.take(cr.len() as int) == cr {
            assert(ca.take(cr.len() as int)[0] == cr[0]);
            assert(ca[0] == ha[0]);
            assert(cr[0] == hr[0]);
            if pa is Some && pr is Some {
                assert(false);
            } else if pa is Some {
                assert(false);
            } else {
                assert(false);
            }
        }
    }
}

/// Two rooted normalized paths with one prefix share it, the root and their
/// common names.
pub proof fn lemma_rooted_common(pre: Option<Seq<char>>, sa: Seq<Seq<char>>, sb: Seq<Seq<char>>)
    ensures
        common_prefix(npath_comps(rooted(pre, sa)), npath_comps(rooted(pre, sb))) == npath_comps(
            rooted(pre, common_names(sa, sb)),
        ),
{
    lemma_common_prefix_npath(sa, sb);
    match pre {
        None => {
            assert(rooted(pre, sa) == abs_path(sa));
            assert(rooted(pre, sb) == abs_path(sb));
            assert(rooted(pre, common_names(sa, sb)) == abs_path(common_names(sa, sb)));
        },
        Some(p) => {
            let a = npath_comps(rooted(pre, sa));
            let b = npath_comps(rooted(pre, sb));
            assert(a.drop_first() =~= npath_comps(abs_path(sa)));
            assert(b.drop_first() =~= npath_comps(abs_path(sb)));
            assert(a[0] == b[0]);
            assert(npath_comps(rooted(pre, common_names(sa, sb))) =~= seq![CompV::Prefix(p)] + npath_comps(
                abs_path(common_names(sa, sb)),
            ));
        },
    }
}

/// Components that begin differently have no common prefix.
proof fn lemma_common_prefix_differ(a: Seq<CompV>, b: Seq<CompV>)
    requires
        a.len() > 0,
        b.len() > 0,
        a[0] != b[0],
    ensures
        common_prefix(a, b) == Seq::<CompV>::empty(),
{
}

/// Pushing the components of a rooted normalized path one by one builds its
/// text, when no name reads as a drive.
pub proof fn lemma_rooted_comps_string(style: PathStyle, pre: Option<Seq<char>>, segs: Seq<Seq<char>>)
    requires
        valid_root_prefix(style, pre),
        style_names(style, segs),
        drive_free(style, segs),
    ensures
        comps_string(style, npath_comps(rooted(pre, segs))) == path_string(style, rooted(pre, segs)),
    decreases segs.len(),
{
    match style {
        PathStyle::Unix => {
            assert forall|j: int| 0 <= j < segs.len() implies is_plain_name(#[trigger] segs[j]) by {
                assert(style_name(style, segs[j]));
            }
            lemma_comps_string_npath(segs);
            assert(rooted(pre, segs) == abs_path(segs));
        },
        PathStyle::Windows => {
            let p = pre->Some_0;
            let cs = npath_comps(rooted(pre, segs));
            if segs.len() == 0 {
                assert(cs =~= seq![CompV::Prefix(p), CompV::Root]);
                assert(cs.drop_last() =~= seq![CompV::Prefix(p)]);
                assert(cs.drop_last().drop_last() =~= Seq::<CompV>::empty());
                assert(win_comps_string(cs.drop_last()) == win_join(Seq::<char>::empty(), p));
                assert(win_join(Seq::<char>::empty(), p) == p);
                assert(win_prefix_len(seq!['\\']) == 0);
                assert(p.take(win_prefix_len(p)) =~= p);
                assert(win_comps_string(cs) == p + seq!['\\']);
                assert(win_string(rooted(pre, segs)) =~= p + seq!['\\']);
            } else {
                let d = segs.drop_last();
                let x = segs.last();
                assert(style_names(style, d)) by {
                    assert forall|j: int| 0 <= j < d.len() implies style_name(style, #[trigger] d[j]) by {
                        assert(d[j] == segs[j]);
                    }
                }
                assert(drive_free(style, d)) by {
                    assert forall|j: int| 0 <= j < d.len() implies win_prefix_len(#[trigger] d[j]) == 0 by {
                        assert(d[j] == segs[j]);
                    }
                }
                lemma_rooted_comps_string(style, pre, d);
                assert(x == segs[segs.len() - 1]);
                assert(style_name(style, x));
                assert(win_prefix_len(x) == 0);
                assert(cs.drop_last() =~= npath_comps(rooted(pre, d)));
                assert(cs.last() == CompV::Normal(x));
                let buf = win_string(rooted(pre, d));
                assert(win_comps_string(cs) == win_join(buf, x));
                assert(!is_win_sep(x[0])) by {
                    assert(x[0] != '/');
                    assert(x[0] != '\\');
                }
                if d.len() == 0 {
                    assert(buf =~= p + seq!['\\']);
                    assert(win_join(buf, x) == buf + x);
                    assert(win_string(rooted(pre, segs)) =~= p + seq!['\\'] + x);
                } else {
                    assert(d.last() == d[d.len() - 1]);
                    assert(style_name(style, d.last()));
                    lemma_join_segs_last(d, '\\');
                    assert(buf.last() == d.last().last());
                    let y = d.last();
                    assert(y.last() == y[y.len() - 1]);
                    assert(y.last() != '/' && y.last() != '\\');
                    assert(win_needs_sep(buf));
                    assert(join_segs(segs, '\\') == join_segs(d, '\\') + seq!['\\'] + x);
                    assert(win_string(rooted(pre, segs)) =~= buf + seq!['\\'] + x);
                }
            }
        },
    }
}

/// The shared prefix of a rooted normalized path and any path is, when
/// there is one, the rooted path of some first names of the former.
pub proof fn lemma_shared_with_rooted(style: PathStyle, pre: Option<Seq<char>>, sr: Seq<Seq<char>>, t: Seq<char>) -> (k: int)
    requires
        valid_root_prefix(style, pre),
        style_names(style, sr),
        drive_free(style, sr),
    ensures
        spec_shared_prefix(style, path_string(style, rooted(pre, sr)), t) matches Some(o) ==> 0 <= k
            <= sr.len() && o == path_string(style, rooted(pre, sr.take(k))),
{
    let r = rooted(pre, sr);
    lemma_rooted_components(style, pre, sr);
    let ca = npath_comps(r);
    let cb = spec_components(style, t);
    let c = common_prefix(ca, cb);
    lemma_common_prefix_longest(ca, cb);
    lemma_rooted_comps_split(pre, sr);
    let h = root_head(pre).len() as int;
    if c.len() >= h {
        let k = c.len() - h;
        let sk = sr.take(k);
        assert(c =~= npath_comps(rooted(pre, sk))) by {
            lemma_rooted_comps_split(pre, sk);
            assert forall|q: int| 0 <= q < c.len() implies c[q] == npath_comps(rooted(pre, sk))[q] by {
                assert(c[q] == ca.subrange(0, c.len() as int)[q]);
            }
        }
        assert(style_names(style, sk)) by {
            assert forall|j: int| 0 <= j < sk.len() implies style_name(style, #[trigger] sk[j]) by {
                assert(sk[j] == sr[j]);
            }
        }
        assert(drive_free(style, sk)) by {
            if style is Windows {
                assert forall|j: int| 0 <= j < sk.len() implies win_prefix_len(#[trigger] sk[j]) == 0 by {
                    assert(sk[j] == sr[j]);
                }
            }
        }
        lemma_rooted_comps_string(style, pre, sk);
        k
    } else {
        if c.len() == 0 {
            assert(c =~= Seq::<CompV>::empty());
            match style {
                PathStyle::Unix => {
                    assert(slash_comps_string(c) == Seq::<char>::empty());
                    assert(spec_split(Seq::<char>::empty(), '/') == seq![Seq::<char>::empty()]);
                    assert(piece_comps(seq![Seq::<char>::empty()]) =~= Seq::<CompV>::empty()) by {
                        let ps = seq![Seq::<char>::empty()];
                        assert(ps.drop_last() =~= Seq::<Seq<char>>::empty());
                        assert(piece_comps(ps) == piece_comps(ps.drop_last()) + piece_comp(ps.last()));
                    }
                },
                PathStyle::Windows => {
                    assert(win_comps_string(c) == Seq::<char>::empty());
                    assert(win_prefix_len(Seq::<char>::empty()) == 0);
                    assert(to_slash(Seq::<char>::empty()) =~= Seq::<char>::empty());
                    assert(spec_split(Seq::<char>::empty(), '/') == seq![Seq::<char>::empty()]);
                    assert(piece_comps(seq![Seq::<char>::empty()]) =~= Seq::<CompV>::empty()) by {
                        let ps = seq![Seq::<char>::empty()];
                        assert(ps.drop_last() =~= Seq::<Seq<char>>::empty());
                        assert(piece_comps(ps) == piece_comps(ps.drop_last()) + piece_comp(ps.last()));
                    }
                },
            }
        } else {
            let p = pre->Some_0;
            assert(style is Windows);
            assert(c.len() == 1);
            assert(c[0] == ca[0]);
            assert(ca[0] == CompV::Prefix(p));
            assert(c =~= seq![CompV::Prefix(p)]);
            assert(c.drop_last() =~= Seq::<CompV>::empty());
            assert(win_comps_string(c) == p);
            if p.len() > 2 {
                assert(cb[0] == CompV::Prefix(p));
                lemma_win_prefix_len_range(t);
                let nt = win_prefix_len(t);
                lemma_slash_no_prefix(to_slash(t), false, false);
                assert(nt > 0) by {
                    if nt == 0 {
                        assert(cb == slash_components(to_slash(t)));
                        assert(!(cb[0] is Prefix));
                    }
                }
                assert(t.take(nt) == p);
                assert(nt > 2);
                lemma_slash_no_prefix(to_slash(t).skip(nt), true, true);
                assert(cb[1] == CompV::Root);
                assert(ca[1] == CompV::Root);
            } else {
                assert(p.len() == 2);
                let e = to_slash(p).skip(2);
                assert(e =~= Seq::<char>::empty());
                assert(spec_split(e, '/') == seq![Seq::<char>::empty()]);
                assert(piece_comps(seq![Seq::<char>::empty()]) =~= Seq::<CompV>::empty()) by {
                    let ps = seq![Seq::<char>::empty()];
                    assert(ps.drop_last() =~= Seq::<Seq<char>>::empty());
                    assert(piece_comps(ps) == piece_comps(ps.drop_last()) + piece_comp(ps.last()));
                }
                assert(p.take(2) =~= p);
                assert(win_components(p) =~= seq![CompV::Prefix(p)]);
            }
        }
        0
    }
}

/// A Windows path that starts at a root continues, after its prefix, with a
/// separator, or ends there (a share).
proof fn lemma_win_absolute_rest(b: Seq<char>)
    requires
        is_absolute(PathStyle::Windows, b),
    ensures
        win_prefix_len(b) > 0,
        b.skip(win_prefix_len(b)).len() == 0 ==> win_prefix_len(b) > 2,
        b.skip(win_prefix_len(b)).len() > 0 ==> is_win_sep(b.skip(win_prefix_len(b))[0]),
{
    lemma_win_prefix_len_range(b);
    let n = win_prefix_len(b);
    if n > 2 && b.len() > n {
        lemma_sep_from(b, 2);
        let i = sep_from(b, 2);
        lemma_sep_from(b, i + 1);
        assert(b.skip(n)[0] == b[n]);
    } else if b.len() > n {
        assert(b.skip(n)[0] == b[n]);
    }
}

/// Pieces appended after a `/` add their components.
proof fn lemma_slash_comps_append_sep(tb: Seq<char>, tx: Seq<char>, rooted: bool)
    requires
        rooted || tb.len() > 0,
    ensures
        slash_comps(tb + seq!['/'] + tx, true, rooted) == slash_comps(tb, true, rooted) + piece_comps(
            spec_split(tx, '/'),
        ),
{
    let sx = spec_split(tx, '/');
    let sb = spec_split(tb, '/');
    let u = tb + seq!['/'] + tx;
    crate::text::lemma_split_concat(tb, tx, '/');
    lemma_piece_comps_concat(sb, sx);
    assert(spec_split(u, '/') == sb + sx);
    assert(piece_comps(spec_split(u, '/')) == piece_comps(sb) + piece_comps(sx));
    if tb.len() > 0 {
        assert(u[0] == tb[0]);
    }
    assert(slash_absolute(u) == slash_absolute(tb) || rooted);
    let h: Seq<CompV> = if rooted || slash_absolute(tb) { seq![CompV::Root] } else { seq![] };
    assert(slash_comps(tb, true, rooted) == h + piece_comps(sb));
    assert(slash_comps(u, true, rooted) == h + (piece_comps(sb) + piece_comps(sx)));
    assert(h + (piece_comps(sb) + piece_comps(sx)) =~= h + piece_comps(sb) + piece_comps(sx));
}

/// Pieces appended to a text that ends with `/` add their components.
proof fn lemma_slash_comps_append_after_sep(tb: Seq<char>, tx: Seq<char>, rooted: bool)
    requires
        tb.len() > 0,
        tb.last() == '/',
    ensures
        slash_comps(tb + tx, true, rooted) == slash_comps(tb, true, rooted) + piece_comps(spec_split(tx, '/')),
{
    let sx = spec_split(tx, '/');
    let d = tb.drop_last();
    let u = tb + tx;
    assert(u =~= d + seq!['/'] + tx);
    crate::text::lemma_split_concat(d, tx, '/');
    let sd = spec_split(d, '/');
    lemma_piece_comps_concat(sd, sx);
    assert(spec_split(u, '/') == sd + sx);
    crate::text::lemma_split_append_sep(d, Seq::<char>::empty(), '/');
    assert(d + seq!['/'] + Seq::<char>::empty() =~= tb);
    lemma_split_nonempty(d, '/');
    let sb = spec_split(tb, '/');
    assert(sb == sd.push(Seq::<char>::empty()));
    assert(sb.drop_last() == sd);
    assert(sb.last() == Seq::<char>::empty());
    assert(piece_comp(Seq::<char>::empty()) =~= Seq::<CompV>::empty());
    assert(piece_comps(sb) == piece_comps(sd) + piece_comp(sb.last()));
    assert(piece_comps(sb) =~= piece_comps(sd));
    assert(u[0] == tb[0]);
    let h: Seq<CompV> = if rooted || slash_absolute(tb) { seq![CompV::Root] } else { seq![] };
    assert(slash_comps(tb, true, rooted) == h + piece_comps(sb));
    assert(slash_comps(u, true, rooted) == h + (piece_comps(sd) + piece_comps(sx)));
    assert(h + (piece_comps(sd) + piece_comps(sx)) =~= h + piece_comps(sb) + piece_comps(sx));
}

/// Joining a relative Windows path without prefix onto a path that starts at
/// a root appends the components of its pieces.
#[verifier::rlimit(30)]
pub proof fn lemma_win_components_join(b: Seq<char>, x: Seq<char>)
    requires
        is_absolute(PathStyle::Windows, b),
        win_prefix_len(x) == 0,
        !(x.len() > 0 && is_win_sep(x[0])),
    ensures
        win_components(win_join(b, x)) == win_components(b) + piece_comps(spec_split(to_slash(x), '/')),
        win_prefix_len(win_join(b, x)) == win_prefix_len(b),
        is_absolute(PathStyle::Windows, win_join(b, x)),
{
    lemma_win_absolute_rest(b);
    lemma_win_prefix_len_range(b);
    let n = win_prefix_len(b);
    let p = b.take(n);
    let rest = b.skip(n);
    let m: Seq<char> = if win_needs_sep(b) { seq!['\\'] } else { seq![] };
    let j = win_join(b, x);
    assert(j =~= b + m + x);
    let tail = rest + m + x;
    assert(j =~= p + tail);
    if rest.len() == 0 {
        assert(b =~= p);
        assert(b.last() == b[b.len() - 1]);
        lemma_sep_from(b, 2);
        let i = sep_from(b, 2);
        lemma_sep_from(b, i + 1);
        assert(!is_win_sep(b.last()));
        assert(win_needs_sep(b));
        assert(tail[0] == '\\');
    } else {
        assert(tail[0] == rest[0]);
    }
    lemma_prefix_stable(b, tail);
    assert(j.take(n) =~= p);
    let tb = to_slash(b).skip(n);
    let tx = to_slash(x);
    lemma_to_slash_concat(b + m, x);
    lemma_to_slash_concat(b, m);
    if win_needs_sep(b) {
        assert(to_slash(m) =~= seq!['/']);
        assert(to_slash(j).skip(n) =~= tb + seq!['/'] + tx);
        if rest.len() > 0 {
            assert(tb.len() > 0);
        }
        lemma_slash_comps_append_sep(tb, tx, n > 2);
    } else {
        assert(to_slash(m) =~= Seq::<char>::empty());
        assert(to_slash(j).skip(n) =~= tb + tx);
        assert(b.len() > n);
        assert(is_win_sep(b.last()));
        assert(tb.last() == '/') by {
            assert(tb.last() == to_slash(b)[b.len() - 1]);
            assert(b.last() == b[b.len() - 1]);
        }
        lemma_slash_comps_append_after_sep(tb, tx, n > 2);
    }
    assert(win_components(j) =~= win_components(b) + piece_comps(spec_split(tx, '/')));
    if n <= 2 {
        assert(j[n] == tail[0]);
    }
}

/// Normalizing components that start with a prefix, and hold no other,
/// keeps that prefix.
proof fn lemma_norm_keeps_prefix(cs: Seq<CompV>)
    requires
        cs.len() >= 1,
        cs[0] is Prefix,
        no_prefix(cs.drop_first()),
    ensures
        norm_comps(cs).prefix == Some(cs[0]->Prefix_0),
    decreases cs.len(),
{
    let d = cs.drop_last();
    assert(cs.last() == cs[cs.len() - 1]);
    if cs.len() > 1 {
        assert(d[0] == cs[0]);
        assert forall|j: int| 0 <= j < d.drop_first().len() implies !(#[trigger] d.drop_first()[j] is Prefix) by {
            assert(d.drop_first()[j] == cs.drop_first()[j]);
        }
        assert(!(cs.drop_first()[cs.len() - 2] is Prefix));
        lemma_norm_keeps_prefix(d);
    } else {
        assert(d =~= Seq::<CompV>::empty());
    }
}

/// A normalized Windows path reads back as itself: a prefix it carries is
/// one read back as itself (and a share comes with its root), and a path
/// with neither prefix nor root does not start with a name that reads as a
/// drive.
pub open spec fn win_reparses(r: NPath) -> bool {
    &&& forall|j: int| 0 <= j < r.segs.len() ==> win_name(#[trigger] r.segs[j])
    &&& (r.prefix matches Some(p) ==> p.len() > 0 && win_prefix_len(p) == p.len() && (r.abs || p.len() == 2))
    &&& (r.prefix is None && !r.abs && r.segs.len() > 0 ==> win_prefix_len(r.segs[0]) == 0)
}

/// `/`-separated names read as those names.
proof fn lemma_slash_names(segs: Seq<Seq<char>>)
    requires
        forall|j: int| 0 <= j < segs.len() ==> is_plain_name(#[trigger] segs[j]),
    ensures
        slash_comps(join_segs(segs, '/'), true, false) == name_comps(segs),
        slash_components(join_segs(segs, '/')) == name_comps(segs),
{
    let q = NPath { prefix: None, abs: false, segs };
    lemma_components_of_npath(q);
    let t = join_segs(segs, '/');
    assert(slash_string(q) =~= t);
    assert(npath_comps(q) =~= name_comps(segs));
    let ps = spec_split(t, '/');
    lemma_split_nonempty(t, '/');
    if segs.len() > 0 {
        assert(segs[0] == segs[0]);
        lemma_join_segs_first(segs, '/');
        assert(!slash_absolute(t)) by {
            assert(t[0] == segs[0][0]);
        }
    } else {
        assert(t =~= Seq::<char>::empty());
    }
    if ps[0] == dot() {
        assert(slash_components(t)[0] == CompV::Cur);
    }
}

/// A join of names starts with the first character of its first name.
proof fn lemma_join_segs_first(segs: Seq<Seq<char>>, sep: char)
    requires
        segs.len() > 0,
        segs[0].len() > 0,
    ensures
        join_segs(segs, sep).len() > 0,
        join_segs(segs, sep)[0] == segs[0][0],
    decreases segs.len(),
{
    if segs.len() > 1 {
        let d = segs.drop_last();
        assert(d[0] == segs[0]);
        lemma_join_segs_first(d, sep);
        assert(join_segs(segs, sep) == join_segs(d, sep) + seq![sep] + segs.last());
    }
}

/// A normalized Windows path that reads back as itself has the components
/// of its text.
proof fn lemma_win_reparse(r: NPath)
    requires
        win_reparses(r),
    ensures
        win_components(win_string(r)) == npath_comps(r),
{
    let segs = r.segs;
    let t = win_string(r);
    assert forall|j: int| 0 <= j < segs.len() implies crate::text::lacks(#[trigger] segs[j], '\\') && is_plain_name(
        segs[j],
    ) by {
        assert(win_name(segs[j]));
    }
    lemma_to_slash_join(segs);
    if segs.len() > 0 {
        lemma_join_segs_first(segs, '\\');
        assert(win_name(segs[0]));
        assert(segs[0][0] != '/' && segs[0][0] != '\\');
    }
    match r.prefix {
        Some(p) => {
            if r.abs {
                lemma_win_rooted_components(p, segs);
                assert(p.take(win_prefix_len(p)) =~= p);
                assert(win_rooted(p, segs) == r);
            } else {
                let j = join_segs(segs, '\\');
                assert(t =~= p + j);
                assert(win_prefix_len(p) == 2);
                assert(t[0] == p[0] && t[1] == p[1]);
                assert(!is_win_sep(p[0]));
                assert(win_prefix_len(t) == 2);
                assert(t.take(2) =~= p);
                lemma_to_slash_concat(p, j);
                assert(to_slash(t).skip(2) =~= join_segs(segs, '/'));
                lemma_slash_names(segs);
                assert(npath_comps(r) =~= seq![CompV::Prefix(p)] + name_comps(segs));
            }
        },
        None => {
            if r.abs {
                let q = NPath { prefix: None, abs: true, segs };
                lemma_components_of_npath(q);
                assert(t =~= seq!['\\'] + join_segs(segs, '\\'));
                lemma_to_slash_concat(seq!['\\'], join_segs(segs, '\\'));
                assert(to_slash(seq!['\\']) =~= seq!['/']);
                assert(to_slash(t) =~= slash_string(q));
                if t.len() >= 2 {
                    assert(t[1] == segs[0][0]);
                }
                assert(win_prefix_len(t) == 0);
                assert(npath_comps(r) =~= npath_comps(q));
            } else {
                assert(t =~= join_segs(segs, '\\'));
                lemma_slash_names(segs);
                if segs.len() > 0 {
                    let x = segs[0];
                    assert(win_prefix_len(x) == 0);
                    if t.len() >= 2 {
                        if x.len() >= 2 {
                            assert(t[1] == x[1]) by {
                                lemma_join_segs_prefix(segs, '\\');
                            }
                        } else {
                            assert(t[1] == '\\') by {
                                lemma_join_segs_prefix(segs, '\\');
                            }
                        }
                    }
                    assert(win_prefix_len(t) == 0);
                } else {
                    assert(win_prefix_len(t) == 0);
                }
                assert(npath_comps(r) =~= name_comps(segs));
            }
        },
    }
}

/// A join of names starts with its first name, followed by the separator
/// when there are more.
proof fn lemma_join_segs_prefix(segs: Seq<Seq<char>>, sep: char)
    requires
        segs.len() > 0,
    ensures
        join_segs(segs, sep).len() >= segs[0].len(),
        join_segs(segs, sep).take(segs[0].len() as int) == segs[0],
        segs.len() > 1 ==> join_segs(segs, sep).len() > segs[0].len() && join_segs(segs, sep)[segs[0].len() as int]
            == sep,
    decreases segs.len(),
{
    if segs.len() == 1 {
        assert(join_segs(segs, sep).take(segs[0].len() as int) =~= segs[0]);
    } else {
        let d = segs.drop_last();
        assert(d[0] == segs[0]);
        lemma_join_segs_prefix(d, sep);
        let jd = join_segs(d, sep);
        assert(join_segs(segs, sep) == jd + seq![sep] + segs.last());
        assert((jd + seq![sep] + segs.last()).take(segs[0].len() as int) =~= jd.take(segs[0].len() as int));
        if d.len() > 1 {
            assert((jd + seq![sep] + segs.last())[segs[0].len() as int] == jd[segs[0].len() as int]);
        } else {
            assert(jd == d[0]);
        }
    }
}

/// The normalized path of a Windows path reads back as itself, unless it
/// has neither prefix nor root and starts with a name that reads as a drive.
proof fn lemma_win_norm_reparses(s: Seq<char>)
    requires
        ({
            let r = norm_comps(win_components(s));
            !(r.prefix is None && !r.abs && r.segs.len() > 0 && win_prefix_len(r.segs[0]) > 0)
        }),
    ensures
        win_reparses(norm_comps(win_components(s))),
{
    let cs = win_components(s);
    let r = norm_comps(cs);
    lemma_win_components_names(s);
    lemma_norm_names(cs, |x: Seq<char>| win_name(x));
    assert forall|j: int| 0 <= j < r.segs.len() implies win_name(#[trigger] r.segs[j]) by {
        assert((|x: Seq<char>| win_name(x))(r.segs[j]));
    }
    lemma_win_prefix_len_range(s);
    let n = win_prefix_len(s);
    if n == 0 {
        lemma_slash_no_prefix(to_slash(s), false, false);
        lemma_norm_no_prefix(cs);
    } else {
        let p = s.take(n);
        let t = to_slash(s).skip(n);
        let rest = slash_comps(t, true, n > 2);
        lemma_slash_no_prefix(t, true, n > 2);
        assert(cs == seq![CompV::Prefix(p)] + rest);
        assert(cs.drop_first() =~= rest);
        lemma_norm_keeps_prefix(cs);
        lemma_prefix_stable(s, Seq::<char>::empty());
        assert(p + Seq::<char>::empty() =~= p);
        if n > 2 {
            assert(rest[0] == CompV::Root);
            lemma_norm_prefix_root(cs);
        }
    }
}

/// Names joined by `sep`, with one more name in front.
proof fn lemma_join_segs_prepend(x: Seq<char>, rest: Seq<Seq<char>>, sep: char)
    ensures
        join_segs(seq![x] + rest, sep) == x + (if rest.len() == 0 {
            Seq::<char>::empty()
        } else {
            seq![sep] + join_segs(rest, sep)
        }),
    decreases rest.len(),
{
    let a = seq![x] + rest;
    if rest.len() == 0 {
        assert(a =~= seq![x]);
        assert(x + Seq::<char>::empty() =~= x);
    } else if rest.len() == 1 {
        assert(a.drop_last() =~= seq![x]);
        assert(a.last() == rest[0]);
        assert(join_segs(seq![x], sep) == x);
        assert(join_segs(rest, sep) == rest[0]);
        assert(join_segs(a, sep) =~= x + (seq![sep] + join_segs(rest, sep)));
    } else {
        lemma_join_segs_prepend(x, rest.drop_last(), sep);
        assert(a.drop_last() =~= seq![x] + rest.drop_last());
        assert(a.last() == rest.last());
        assert(join_segs(rest, sep) == join_segs(rest.drop_last(), sep) + seq![sep] + rest.last());
        assert(join_segs(a, sep) =~= x + (seq![sep] + join_segs(rest, sep)));
    }
}

/// A drive, a colon, then `.` or `..`: the first name that a normalized
/// Windows path without prefix and root cannot start with and normalize to
/// itself.
pub open spec fn drive_dot_name(x: Seq<char>) -> bool {
    x.len() >= 3 && is_drive_letter(x[0]) && x[1] == ':' && (x.skip(2) == dot() || x.skip(2) == dot_dot())
}

/// A normalized Windows path without prefix or root whose first name reads
/// as a drive normalizes to itself, unless that name is a drive followed by
/// `.` or `..`.
proof fn lemma_win_drive_first_normalizes(r: NPath)
    requires
        r.prefix is None,
        !r.abs,
        r.segs.len() > 0,
        forall|j: int| 0 <= j < r.segs.len() ==> win_name(#[trigger] r.segs[j]),
        win_prefix_len(r.segs[0]) > 0,
        !drive_dot_name(r.segs[0]),
    ensures
        win_string(norm_comps(win_components(win_string(r)))) == win_string(r),
{
    let segs = r.segs;
    let x0 = segs[0];
    let rest = segs.drop_first();
    assert(segs =~= seq![x0] + rest);
    assert(win_name(x0));
    lemma_win_prefix_len_range(x0);
    assert(!is_win_sep(x0[0]));
    assert(x0.len() >= 2 && is_drive_letter(x0[0]) && x0[1] == ':');
    let p = x0.take(2);
    let z = x0.skip(2);
    assert(x0 =~= p + z);
    let tail: Seq<char> = if rest.len() == 0 { Seq::<char>::empty() } else { seq!['\\'] + join_segs(rest, '\\') };
    let t = win_string(r);
    lemma_join_segs_prepend(x0, rest, '\\');
    assert(t =~= x0 + tail);
    assert(t[0] == x0[0] && t[1] == x0[1]);
    assert(win_prefix_len(t) == 2);
    assert(t.take(2) =~= p);
    assert forall|j: int| 0 <= j < rest.len() implies win_name(#[trigger] rest[j]) && crate::text::lacks(
        rest[j],
        '\\',
    ) && is_plain_name(rest[j]) by {
        assert(rest[j] == segs[j + 1]);
    }
    lemma_to_slash_join(rest);
    let stail: Seq<char> = if rest.len() == 0 { Seq::<char>::empty() } else { seq!['/'] + join_segs(rest, '/') };
    assert(to_slash(tail) == stail) by {
        if rest.len() > 0 {
            lemma_to_slash_concat(seq!['\\'], join_segs(rest, '\\'));
            assert(to_slash(seq!['\\']) =~= seq!['/']);
        } else {
            assert(to_slash(Seq::<char>::empty()) =~= Seq::<char>::empty());
        }
    }
    assert(crate::text::lacks(z, '\\') && crate::text::lacks(z, '/')) by {
        assert forall|k: int| 0 <= k < z.len() implies z[k] != '\\' && z[k] != '/' by {
            assert(z[k] == x0[k + 2]);
        }
    }
    assert(to_slash(z) =~= z);
    lemma_to_slash_concat(p, z + tail);
    lemma_to_slash_concat(z, tail);
    assert(to_slash(t).skip(2) =~= z + stail);
    let cs = win_components(t);
    if z.len() == 0 {
        assert(x0 =~= p);
        if rest.len() == 0 {
            assert(z + stail =~= Seq::<char>::empty());
            assert(spec_split(Seq::<char>::empty(), '/') == seq![Seq::<char>::empty()]);
            assert(piece_comps(seq![Seq::<char>::empty()]) =~= Seq::<CompV>::empty()) by {
                let ps = seq![Seq::<char>::empty()];
                assert(ps.drop_last() =~= Seq::<Seq<char>>::empty());
                assert(piece_comps(ps) == piece_comps(ps.drop_last()) + piece_comp(ps.last()));
            }
            assert(cs =~= seq![CompV::Prefix(p)]);
            let q = NPath { prefix: Some(p), abs: false, segs: Seq::<Seq<char>>::empty() };
            assert(npath_comps(q) =~= cs);
            lemma_norm_of_npath(q);
            assert(win_string(q) =~= t);
        } else {
            let u = NPath { prefix: None, abs: true, segs: rest };
            lemma_components_of_npath(u);
            assert(slash_string(u) =~= z + stail);
            let q = NPath { prefix: Some(p), abs: true, segs: rest };
            assert(cs =~= seq![CompV::Prefix(p)] + npath_comps(u));
            assert(npath_comps(q) =~= cs);
            lemma_norm_of_npath(q);
            assert(win_string(q) =~= t);
        }
    } else {
        let segs2 = seq![z] + rest;
        assert(z != dot() && z != dot_dot());
        assert(is_plain_name(z));
        assert forall|j: int| 0 <= j < segs2.len() implies is_plain_name(#[trigger] segs2[j]) by {
            if j > 0 {
                assert(segs2[j] == rest[j - 1]);
            }
        }
        lemma_join_segs_prepend(z, rest, '/');
        assert(join_segs(segs2, '/') =~= z + stail);
        lemma_slash_names(segs2);
        let q = NPath { prefix: Some(p), abs: false, segs: segs2 };
        assert(npath_comps(q) =~= cs);
        lemma_norm_of_npath(q);
        lemma_join_segs_prepend(z, rest, '\\');
        assert(win_string(q) =~= t);
    }
}

/// Normalization is idempotent: a normalized path normalizes to itself (on
/// Windows, unless it has neither prefix nor root and starts with a drive
/// followed by `.` or `..`: `x\..\C:.\y` normalizes to `C:.\y`, which reads
/// back as the drive `C:` and the name `y`).
pub proof fn law_normalize_idempotent(style: PathStyle, s: Seq<char>)
    requires
        style is Windows ==> ({
            let r = norm_comps(spec_components(style, s));
            !(r.prefix is None && !r.abs && r.segs.len() > 0 && drive_dot_name(r.segs[0]))
        }),
    ensures
        spec_normalize_path(style, spec_normalize_path(style, s)) == spec_normalize_path(style, s),
{
    match style {
        PathStyle::Unix => {
            lemma_slash_normalize_idempotent(s);
        },
        PathStyle::Windows => {
            let cs = win_components(s);
            let r = norm_comps(cs);
            if r.prefix is None && !r.abs && r.segs.len() > 0 && win_prefix_len(r.segs[0]) > 0 {
                lemma_win_components_names(s);
                lemma_norm_names(cs, |x: Seq<char>| win_name(x));
                assert forall|j: int| 0 <= j < r.segs.len() implies win_name(#[trigger] r.segs[j]) by {
                    assert((|x: Seq<char>| win_name(x))(r.segs[j]));
                }
                lemma_win_drive_first_normalizes(r);
            } else {
                lemma_win_norm_reparses(s);
                lemma_win_reparse(r);
                lemma_norm_of_npath(r);
            }
        },
    }
}

/// The components of a Windows path that starts at a root: its prefix, the
/// root, then `..` and names.
proof fn lemma_win_abs_components(a: Seq<char>)
    requires
        is_absolute(PathStyle::Windows, a),
    ensures
        win_components(a).len() >= 2,
        win_components(a)[0] == CompV::Prefix(a.take(win_prefix_len(a))),
        win_components(a)[1] == CompV::Root,
        a.take(win_prefix_len(a)).len() > 0,
        win_prefix_len(a.take(win_prefix_len(a))) == a.take(win_prefix_len(a)).len(),
        forall|j: int| 2 <= j < win_components(a).len() ==> (#[trigger] win_components(a)[j] == CompV::Parent
            || (win_components(a)[j] matches CompV::Normal(x) && win_name(x))),
{
    lemma_win_prefix_len_range(a);
    let n = win_prefix_len(a);
    let p = a.take(n);
    let t = to_slash(a).skip(n);
    let ca = win_components(a);
    let ps = spec_split(t, '/');
    lemma_piece_comps_kinds(ps);
    lemma_win_components_names(a);
    if n <= 2 {
        assert(t[0] == to_slash(a)[n]);
    }
    let r = piece_comps(ps);
    assert(ca =~= seq![CompV::Prefix(p), CompV::Root] + r);
    assert forall|j: int| 2 <= j < ca.len() implies (#[trigger] ca[j] == CompV::Parent || (ca[j] matches CompV::Normal(
        x,
    ) && win_name(x))) by {
        assert(ca[j] == r[j - 2]);
        assert(ca[j] matches CompV::Normal(x) ==> (|x: Seq<char>| win_name(x))(x));
    }
    lemma_prefix_stable(a, Seq::<char>::empty());
    assert(p + Seq::<char>::empty() =~= p);
}

/// A rooted Windows component sequence whose names read as no drive is the
/// components of the path built from it.
proof fn lemma_win_comps_string_round(c: Seq<CompV>)
    requires
        c.len() >= 2,
        c[0] is Prefix,
        c[0]->Prefix_0.len() > 0,
        win_prefix_len(c[0]->Prefix_0) == c[0]->Prefix_0.len(),
        c[1] == CompV::Root,
        forall|j: int| 2 <= j < c.len() ==> (#[trigger] c[j] == CompV::Parent || (c[j] matches CompV::Normal(x)
            && win_name(x) && win_prefix_len(x) == 0)),
    ensures
        win_components(win_comps_string(c)) == c,
        is_absolute(PathStyle::Windows, win_comps_string(c)),
    decreases c.len(),
{
    let p = c[0]->Prefix_0;
    if c.len() == 2 {
        lemma_rooted_comps_string(PathStyle::Windows, Some(p), Seq::<Seq<char>>::empty());
        lemma_win_rooted_components(p, Seq::<Seq<char>>::empty());
        assert(p.take(win_prefix_len(p)) =~= p);
        let q = rooted(Some(p), Seq::<Seq<char>>::empty());
        assert(win_rooted(p, Seq::<Seq<char>>::empty()) == q);
        assert(npath_comps(q) =~= c);
        assert(win_string(q) =~= p + seq!['\\']);
        assert((p + seq!['\\'])[p.len() as int] == '\\');
    } else {
        let d = c.drop_last();
        assert(d[0] == c[0] && d[1] == c[1]);
        assert forall|j: int| 2 <= j < d.len() implies (#[trigger] d[j] == CompV::Parent || (d[j] matches CompV::Normal(
            x,
        ) && win_name(x) && win_prefix_len(x) == 0)) by {
            assert(d[j] == c[j]);
        }
        lemma_win_comps_string_round(d);
        let last = c.last();
        assert(last == c[c.len() - 1]);
        let x = win_comp_text(last);
        let buf = win_comps_string(d);
        assert(win_comps_string(c) == win_join(buf, x));
        assert(crate::text::lacks(x, '/') && crate::text::lacks(x, '\\') && x.len() > 0);
        assert(win_prefix_len(x) == 0) by {
            if last == CompV::Parent {
                assert(x =~= seq!['.', '.']);
                assert(!is_drive_letter('.'));
            }
        }
        assert(!is_win_sep(x[0]));
        lemma_win_components_join(buf, x);
        assert(to_slash(x) =~= x);
        crate::text::lemma_split_single(x, '/');
        let ps = seq![x];
        assert(ps.drop_last() =~= Seq::<Seq<char>>::empty());
        assert(piece_comps(ps) == piece_comps(ps.drop_last()) + piece_comp(x));
        assert(piece_comp(x) == seq![last]);
        assert(c =~= d + seq![last]);
    }
}

/// Of two paths that start at a root, the shared prefix exists exactly when
/// they start at the same root (on Windows: the same drive or share), and its
/// components are then their longest common component prefix. On Windows
/// the names of the first path must not read as drives (`X:`), which Windows
/// file names cannot.
pub proof fn law_shared_prefix_of_absolute_paths(style: PathStyle, a: Seq<char>, b: Seq<char>)
    requires
        is_absolute(style, a),
        is_absolute(style, b),
        names_satisfy(spec_components(style, a), |x: Seq<char>| style is Unix || win_prefix_len(x) == 0),
    ensures
        (spec_shared_prefix(style, a, b) is Some) == (spec_components(style, a)[0] == spec_components(
            style,
            b,
        )[0]),
        spec_shared_prefix(style, a, b) matches Some(r) ==> spec_components(style, r) == common_prefix(
            spec_components(style, a),
            spec_components(style, b),
        ),
{
    let ca = spec_components(style, a);
    let cb = spec_components(style, b);
    let c = common_prefix(ca, cb);
    lemma_common_prefix_longest(ca, cb);
    match style {
        PathStyle::Unix => {
            law_unix_shared_prefix_components(a, b);
            lemma_components_plain(a);
            let ps = spec_split(a, '/');
            lemma_piece_comps_kinds(ps);
            let r = piece_comps(ps);
            assert(ca =~= seq![CompV::Root] + r);
            assert(cb[0] == CompV::Root);
            assert(c[0] == CompV::Root);
            assert forall|j: int| 0 <= j < c.len() implies c[j] == ca[j] by {
                assert(ca.subrange(0, c.len() as int)[j] == ca[j]);
            }
            assert forall|j: int| 1 <= j < c.len() implies (#[trigger] c[j] == CompV::Parent || (c[j] matches CompV::Normal(
                x,
            ) && is_plain_name(x))) by {
                assert(ca[j] == r[j - 1]);
                assert(plain_comps(ca));
                assert(ca[j] matches CompV::Normal(x) ==> is_plain_name(x));
            }
            lemma_slash_comps_string_round(c);
        },
        PathStyle::Windows => {
            lemma_win_abs_components(a);
            lemma_win_abs_components(b);
            if ca[0] == cb[0] {
                assert(c.len() >= 2) by {
                    assert(c == seq![ca[0]] + common_prefix(ca.drop_first(), cb.drop_first()));
                    assert(ca.drop_first()[0] == cb.drop_first()[0]);
                }
                assert forall|j: int| 0 <= j < c.len() implies c[j] == ca[j] by {
                    assert(ca.subrange(0, c.len() as int)[j] == ca[j]);
                }
                assert forall|j: int| 2 <= j < c.len() implies (#[trigger] c[j] == CompV::Parent || (c[j] matches CompV::Normal(
                    x,
                ) && win_name(x) && win_prefix_len(x) == 0)) by {
                    assert(c[j] == ca[j]);
                    assert(ca[j] matches CompV::Normal(x) ==> (|x: Seq<char>| style is Unix || win_prefix_len(x) == 0)(x));
                }
                lemma_win_comps_string_round(c);
            } else {
                lemma_common_prefix_differ(ca, cb);
                assert(win_comps_string(c) == Seq::<char>::empty());
                assert(to_slash(Seq::<char>::empty()) =~= Seq::<char>::empty());
                assert(spec_split(Seq::<char>::empty(), '/') == seq![Seq::<char>::empty()]);
                assert(piece_comps(seq![Seq::<char>::empty()]) =~= Seq::<CompV>::empty()) by {
                    let ps = seq![Seq::<char>::empty()];
                    assert(ps.drop_last() =~= Seq::<Seq<char>>::empty());
                    assert(piece_comps(ps) == piece_comps(ps.drop_last()) + piece_comp(ps.last()));
                }
            }
        },
    }
}

/// Components that start at the root of the style: the root on Unix, a
/// prefix and then the root on Windows.
pub open spec fn starts_at_style_root(style: PathStyle, c: Seq<CompV>) -> bool {
    match style {
        PathStyle::Unix => c.len() > 0 && c[0] == CompV::Root,
        PathStyle::Windows => c.len() > 1 && c[0] is Prefix && c[1] == CompV::Root,
    }
}

/// A path whose components start at the root of the style starts at a root.
proof fn lemma_style_rooted_absolute(style: PathStyle, a: Seq<char>)
    requires
        starts_at_style_root(style, spec_components(style, a)),
    ensures
        is_absolute(style, a),
{
    match style {
        PathStyle::Unix => {
            let ps = spec_split(a, '/');
            lemma_piece_comps_kinds(ps);
            lemma_split_nonempty(a, '/');
            if !slash_absolute(a) {
                let h: Seq<CompV> = if ps[0] == dot() { seq![CompV::Cur] } else { seq![] };
                assert(slash_components(a) == h + piece_comps(ps));
                if h.len() == 0 {
                    assert(slash_components(a)[0] == piece_comps(ps)[0]);
                }
            }
        },
        PathStyle::Windows => {
            lemma_win_prefix_len_range(a);
            let n = win_prefix_len(a);
            if n == 0 {
                lemma_slash_no_prefix(to_slash(a), false, false);
            } else if n <= 2 {
                let t = to_slash(a).skip(n);
                let ps = spec_split(t, '/');
                lemma_piece_comps_kinds(ps);
                lemma_split_nonempty(t, '/');
                let ca = win_components(a);
                if !slash_absolute(t) {
                    assert(ca == seq![CompV::Prefix(a.take(n))] + piece_comps(ps));
                    assert(ca[1] == piece_comps(ps)[0]);
                } else {
                    assert(t[0] == to_slash(a)[n]);
                }
            }
        },
    }
}

/// When the longest common component prefix of two paths starts at the root
/// of the style (the root on Unix; a prefix and the root on Windows), the
/// shared prefix is the path built from it. On Windows the names of the first
/// path must not read as drives (`X:`), which Windows file names cannot.
pub proof fn law_rooted_common_prefix_is_shared(style: PathStyle, a: Seq<char>, b: Seq<char>)
    requires
        names_satisfy(spec_components(style, a), |x: Seq<char>| style is Unix || win_prefix_len(x) == 0),
    ensures
        ({
            let c = common_prefix(spec_components(style, a), spec_components(style, b));
            starts_at_style_root(style, c) ==> spec_shared_prefix(style, a, b) == Some(comps_string(style, c))
        }),
{
    let ca = spec_components(style, a);
    let cb = spec_components(style, b);
    let c = common_prefix(ca, cb);
    if starts_at_style_root(style, c) {
        lemma_common_prefix_longest(ca, cb);
        assert forall|j: int| 0 <= j < c.len() implies c[j] == ca[j] && c[j] == cb[j] by {
            assert(ca.subrange(0, c.len() as int)[j] == ca[j]);
            assert(cb.subrange(0, c.len() as int)[j] == cb[j]);
        }
        lemma_style_rooted_absolute(style, a);
        lemma_style_rooted_absolute(style, b);
        law_shared_prefix_of_absolute_paths(style, a, b);
    }
}

/// The components of `cs` after the prefix `pre`, when `pre` is a prefix.
pub open spec fn strip_comps(cs: Seq<CompV>, pre: Seq<CompV>) -> Option<Seq<CompV>> {
    if pre.len() <= cs.len() && cs.take(pre.len() as int) == pre {
        Some(cs.skip(pre.len() as int))
    } else {
        None
    }
}

/// Whether `pre` is a component prefix of `cs` (std `Path::strip_prefix`
/// succeeding).
pub fn comps_start_with(cs: &Vec<Comp>, pre: &Vec<Comp>) -> (r: bool)
    ensures
        r == strip_comps(comp_views(cs@), comp_views(pre@)) is Some,
{
    if pre.len() > cs.len() {
        return false;
    }
    let mut i: usize = 0;
    while i < pre.len()
        invariant
            pre.len() <= cs.len(),
            i <= pre.len(),
            forall|k: int| 0 <= k < i ==> cs@[k]@ == pre@[k]@,
        decreases pre.len() - i,
    {
        if !comp_eq(&cs[i], &pre[i]) {
            proof {
                assert(comp_views(cs@).take(pre.len() as int)[i as int] != comp_views(pre@)[i as int]);
            }
            return false;
        }
        i += 1;
    }
    proof {
        assert(comp_views(cs@).take(pre.len() as int) =~= comp_views(pre@));
    }
    true
}

// ---------------------------------------------------------------------------
// Parents, file names, extensions
// ---------------------------------------------------------------------------

/// The last component of `s` when it is a name (std `Path::file_name`).
pub open spec fn spec_file_name(style: PathStyle, s: Seq<char>) -> Option<Seq<char>> {
    let cs = spec_components(style, s);
    if cs.len() > 0 {
        match cs.last() {
            CompV::Normal(x) => Some(x),
            _ => None,
        }
    } else {
        None
    }
}

/// The final name of a path, if it ends in one.
pub fn file_name(style: PathStyle, p: &str) -> (res: Option<Vec<char>>)
    ensures
        res matches Some(n) ==> spec_file_name(style, p@) == Some(n@),
        res is None ==> spec_file_name(style, p@) is None,
{
    let cs = components(style, p);
    if cs.len() == 0 {
        return None;
    }
    proof {
        assert(comp_views(cs@).last() == cs@[cs.len() - 1]@);
    }
    match &cs[cs.len() - 1] {
        Comp::Normal(x) => Some(clone_chars(x)),
        _ => None,
    }
}

/// Index of the last `.` in `s`, or -1.
pub open spec fn last_dot(s: Seq<char>) -> int
    decreases s.len(),
{
    if s.len() == 0 {
        -1
    } else if s.last() == '.' {
        s.len() - 1
    } else {
        last_dot(s.drop_last())
    }
}

/// The extension of a file name (std `Path::extension`): the text after the
/// last `.`, unless there is no `.` or the only one starts the name.
pub open spec fn spec_extension(name: Seq<char>) -> Option<Seq<char>> {
    let k = last_dot(name);
    if k <= 0 {
        None
    } else {
        Some(name.skip(k + 1))
    }
}

fn extension_of(name: &Vec<char>) -> (res: Option<Vec<char>>)
    ensures
        res matches Some(e) ==> spec_extension(name@) == Some(e@),
        res is None ==> spec_extension(name@) is None,
{
    let mut k: usize = name.len();
    proof {
        assert(name@.take(name.len() as int) == name@);
    }
    while k > 0 && name[k - 1] != '.'
        invariant
            k <= name.len(),
            last_dot(name@) == last_dot(name@.take(k as int)),
        decreases k,
    {
        proof {
            assert(name@.take(k as int).drop_last() == name@.take(k - 1));
        }
        k -= 1;
    }
    if k == 0 {
        return None;
    }
    proof {
        assert(name@.take(k as int).last() == '.');
    }
    if k == 1 {
        return None;
    }
    let mut ext: Vec<char> = Vec::new();
    let mut i = k;
    while i < name.len()
        invariant
            k <= i <= name.len(),
            ext@ == name@.subrange(k as int, i as int),
        decreases name.len() - i,
    {
        ext.push(name[i]);
        proof {
            assert(name@.subrange(k as int, i + 1) == name@.subrange(k as int, i as int).push(name@[i as int]));
        }
        i += 1;
    }
    proof {
        assert(name@.skip(k as int) =~= name@.subrange(k as int, name.len() as int));
    }
    Some(ext)
}

/// ASCII lower-casing of one character.
pub open spec fn ascii_lower(c: char) -> char {
    if 'A' <= c && c <= 'Z' {
        ((c as u32) + 32) as char
    } else {
        c
    }
}

/// ASCII lower-casing (std `to_ascii_lowercase`).
pub open spec fn ascii_lower_seq(s: Seq<char>) -> Seq<char> {
    Seq::new(s.len(), |i: int| ascii_lower(s[i]))
}

fn lower_char(c: char) -> (r: char)
    ensures
        r == ascii_lower(c),
{
    if 'A' <= c && c <= 'Z' {
        ((c as u8) + 32) as char
    } else {
        c
    }
}

/// The ASCII lower-case form of `v`.
pub fn ascii_lowercase(v: &Vec<char>) -> (r: Vec<char>)
    ensures
        r@ == ascii_lower_seq(v@),
{
    let mut r: Vec<char> = Vec::new();
    let mut i: usize = 0;
    while i < v.len()
        invariant
            i <= v.len(),
            r@ =~= ascii_lower_seq(v@.take(i as int)),
        decreases v.len() - i,
    {
        r.push(lower_char(v[i]));
        i += 1;
    }
    proof {
        assert(v@.take(v.len() as int) == v@);
    }
    r
}

/// The MIME type served for a lower-case file extension.
pub open spec fn mime_of_ext(e: Seq<char>) -> Seq<char> {
    if e == "png"@ {
        "image/png"@
    } else if e == "jpg"@ || e == "jpeg"@ || e == "jfif"@ {
        "image/jpeg"@
    } else if e == "gif"@ {
        "image/gif"@
    } else if e == "svg"@ {
        "image/svg+xml"@
    } else if e == "webp"@ {
        "image/webp"@
    } else if e == "bmp"@ {
        "image/bmp"@
    } else if e == "ico"@ {
        "image/x-icon"@
    } else if e == "avif"@ {
        "image/avif"@
    } else if e == "apng"@ {
        "image/apng"@
    } else if e == "tif"@ || e == "tiff"@ {
        "image/tiff"@
    } else if e == "html"@ || e == "htm"@ {
        "text/html; charset=utf-8"@
    } else if e == "css"@ {
        "text/css; charset=utf-8"@
    } else if e == "js"@ {
        "text/javascript; charset=utf-8"@
    } else if e == "json"@ {
        "application/json; charset=utf-8"@
    } else if e == "txt"@ || e == "md"@ || e == "markdown"@ {
        "text/plain; charset=utf-8"@
    } else if e == "pdf"@ {
        "application/pdf"@
    } else if e == "woff2"@ {
        "font/woff2"@
    } else {
        "application/octet-stream"@
    }
}

/// The MIME type of a path, by its lower-cased extension.
pub open spec fn spec_mime_for(style: PathStyle, p: Seq<char>) -> Seq<char> {
    match spec_file_name(style, p) {
        Some(n) => match spec_extension(n) {
            Some(e) => mime_of_ext(ascii_lower_seq(e)),
            None => "application/octet-stream"@,
        },
        None => "application/octet-stream"@,
    }
}

fn mime_for_ext(e: &Vec<char>) -> (m: &'static str)
    ensures
        m@ == mime_of_ext(e@),
{
    if chars_eq_str(e, "png") {
        "image/png"
    } else if chars_eq_str(e, "jpg") || chars_eq_str(e, "jpeg") || chars_eq_str(e, "jfif") {
        "image/jpeg"
    } else if chars_eq_str(e, "gif") {
        "image/gif"
    } else if chars_eq_str(e, "svg") {
        "image/svg+xml"
    } else if chars_eq_str(e, "webp") {
        "image/webp"
    } else if chars_eq_str(e, "bmp") {
        "image/bmp"
    } else if chars_eq_str(e, "ico") {
        "image/x-icon"
    } else if chars_eq_str(e, "avif") {
        "image/avif"
    } else if chars_eq_str(e, "apng") {
        "image/apng"
    } else if chars_eq_str(e, "tif") || chars_eq_str(e, "tiff") {
        "image/tiff"
    } else if chars_eq_str(e, "html") || chars_eq_str(e, "htm") {
        "text/html; charset=utf-8"
    } else if chars_eq_str(e, "css") {
        "text/css; charset=utf-8"
    } else if chars_eq_str(e, "js") {
        "text/javascript; charset=utf-8"
    } else if chars_eq_str(e, "json") {
        "application/json; charset=utf-8"
    } else if chars_eq_str(e, "txt") || chars_eq_str(e, "md") || chars_eq_str(e, "markdown") {
        "text/plain; charset=utf-8"
    } else if chars_eq_str(e, "pdf") {
        "application/pdf"
    } else if chars_eq_str(e, "woff2") {
        "font/woff2"
    } else {
        "application/octet-stream"
    }
}

/// Guess a MIME type from a file extension (falls back to a generic binary
/// type, which browsers still sniff for common formats). Covers the image
/// formats the viewer displays plus the text assets it serves.
pub fn mime_for(style: PathStyle, path: &str) -> (m: &'static str)
    ensures
        m@ == spec_mime_for(style, path@),
{
    match file_name(style, path) {
        Some(n) => match extension_of(&n) {
            Some(e) => {
                let lower = ascii_lowercase(&e);
                mime_for_ext(&lower)
            },
            None => "application/octet-stream",
        },
        None => "application/octet-stream",
    }
}

/// The folder a document's relative paths resolve against: the normalized
/// parent of the document's absolute path (a relative path is joined to
/// `cwd`). `None` when the path has no parent (it ends at a root or a
/// prefix) or, for a relative path, no working directory is known.
pub open spec fn spec_doc_base_dir(style: PathStyle, file_path: Seq<char>, cwd: Option<Seq<char>>) -> Option<
    Seq<char>,
> {
    let abs = if is_absolute(style, file_path) {
        Some(file_path)
    } else {
        match cwd {
            Some(c) => Some(spec_join(style, c, file_path)),
            None => None,
        }
    };
    match abs {
        Some(a) => {
            let cs = spec_components(style, a);
            if cs.len() > 0 && (cs.last() is Normal || cs.last() is Cur || cs.last() is Parent) {
                Some(path_string(style, norm_comps(cs.drop_last())))
            } else {
                None
            }
        },
        None => None,
    }
}

pub(crate) fn is_absolute_chars(style: PathStyle, v: &Vec<char>) -> (r: bool)
    ensures
        r == is_absolute(style, v@),
{
    match style {
        PathStyle::Unix => v.len() > 0 && v[0] == '/',
        PathStyle::Windows => {
            let n = win_prefix_len_of(v);
            n > 0 && (n > 2 || (v.len() > n && is_win_sep_char(v[n])))
        },
    }
}

/// The directory a document's relative paths resolve against: the (absolute,
/// lexically normalized) parent folder of `file_path`. Returns `None` if the
/// path has no parent or, for a relative path, no working directory is known.
pub fn doc_base_dir(style: PathStyle, file_path: &str, cwd: Option<&str>) -> (res: Option<String>)
    ensures
        res matches Some(r) ==> spec_doc_base_dir(style, file_path@, opt_view(cwd)) == Some(r@),
        res is None ==> spec_doc_base_dir(style, file_path@, opt_view(cwd)) is None,
{
    let fv = chars_of(file_path);
    let abs = if is_absolute_chars(style, &fv) {
        fv
    } else {
        match cwd {
            Some(c) => {
                let cv = chars_of(c);
                join_chars(style, &cv, &fv)
            },
            None => {
                return None;
            },
        }
    };
    let cs = components_of(style, &abs);
    if cs.len() == 0 {
        return None;
    }
    proof {
        assert(comp_views(cs@).last() == cs@[cs.len() - 1]@);
    }
    let has_parent = match &cs[cs.len() - 1] {
        Comp::Normal(_) => true,
        Comp::Cur => true,
        Comp::Parent => true,
        _ => false,
    };
    if !has_parent {
        return None;
    }
    let (prefix, absolute, segs) = normalize_comps(&cs, cs.len() - 1);
    proof {
        assert(comp_views(cs@).take(cs.len() - 1) == comp_views(cs@).drop_last());
    }
    Some(path_text(style, &prefix, absolute, &segs))
}

} // verus!
