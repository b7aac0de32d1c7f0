//! Markdown to HTML: mermaid diagram blocks, image destinations rewritten to
//! a document base URL (or inlined as `data:` URIs), local markdown links
//! routed through a caller's rewrite scheme, and the serve root that every
//! rewritten image URL resolves under.
//!
//! The engine never touches the filesystem itself: what it needs to know of
//! the disk arrives as [`FileFacts`], gathered by the caller for the paths
//! that [`disk_queries`] and [`inline_queries`] list.
use vstd::prelude::*;
use crate::text::{
    chars_eq, chars_of, empty_string, ends_with_str, opt_view, push_str, string_of_chars,
    find_char, index_of, lemma_index_of, sub_chars,
};
use crate::uri::{
    is_local_dest, percent_decode, percent_encode, spec_is_local_dest, spec_percent_decode,
    spec_percent_encode,
};
use crate::paths::{
    comp_views, components, comps_start_with, join_path, mime_for, normalize_path, spec_components,
    spec_join, spec_mime_for, spec_normalize_path, strip_comps, Comp, CompV, NPath, win_name,
    win_rooted, lemma_win_rooted_components, lemma_win_prefix_len_range, lemma_win_components_join,
    is_win_sep, to_slash, win_string, is_absolute_chars, lemma_prefix_stable,
};
use crate::base64::{base64_encode, spec_base64};
use crate::markdown::{
    is_mermaid, md_options, parse_events, parsed_events, piece_views, pieces_in_range, render_pieces,
    rendered_html, spec_is_mermaid, spec_strip_bom, strip_bom, suite_options, event_views, Block,
    MdEvent, MdEventV, Piece, PieceV,
};
use crate::paths::{
    spec_shared_prefix, shared_prefix, PathStyle, valid_root_prefix, style_names, style_name,
    drive_free, rooted, root_head, lemma_rooted_components, lemma_normalized_rooted,
    lemma_rooted_strip, lemma_rooted_common, lemma_rooted_comps_string, lemma_shared_with_rooted,
    lemma_rooted_comps_split, win_prefix_len, slash_string, slash_absolute, lemma_slash_no_prefix,
    lemma_norm_no_prefix,
};
use crate::paths::{
    abs_path, common_names, is_absolute, lemma_common_names_prefix, lemma_components_of_npath,
    lemma_components_plain, lemma_norm_abs, lemma_norm_plain, lemma_segs_prefix_trans, norm_comps,
    npath_comps, path_string, plain_names, segs_prefix, lemma_components_join, lemma_norm_concat,
    lemma_norm_of_npath, piece_comps,
};
use crate::text::spec_split;
use crate::uri::{escape_html, spec_escape_html};
use crate::viewer::PageLinks;

verus! {

// ---------------------------------------------------------------------------
// What the caller knows of the disk
// ---------------------------------------------------------------------------

/// One existing regular file, and its contents when they were read.
pub struct FileEntry {
    pub path: String,
    pub bytes: Option<Vec<u8>>,
}

/// The regular files (by normalized path) known to exist, with the contents
/// of those that were read.
pub struct FileFacts {
    pub files: Vec<FileEntry>,
}

/// The view of optional file contents.
pub open spec fn bytes_view(b: Option<Vec<u8>>) -> Option<Seq<u8>> {
    match b {
        Some(v) => Some(v@),
        None => None,
    }
}

impl View for FileFacts {
    type V = Seq<(Seq<char>, Option<Seq<u8>>)>;

    open spec fn view(&self) -> Seq<(Seq<char>, Option<Seq<u8>>)> {
        self.files@.map_values(|e: FileEntry| (e.path@, bytes_view(e.bytes)))
    }
}

/// The first entry for path `p`, if any.
pub open spec fn fact_lookup(fs: Seq<(Seq<char>, Option<Seq<u8>>)>, p: Seq<char>) -> Option<
    Option<Seq<u8>>,
>
    decreases fs.len(),
{
    if fs.len() == 0 {
        None
    } else if fs[0].0 == p {
        Some(fs[0].1)
    } else {
        fact_lookup(fs.drop_first(), p)
    }
}

/// `p` is an existing regular file.
pub open spec fn fact_is_file(fs: Seq<(Seq<char>, Option<Seq<u8>>)>, p: Seq<char>) -> bool {
    fact_lookup(fs, p) is Some
}

/// The contents read of `p`, if any.
pub open spec fn fact_read(fs: Seq<(Seq<char>, Option<Seq<u8>>)>, p: Seq<char>) -> Option<Seq<u8>> {
    match fact_lookup(fs, p) {
        Some(b) => b,
        None => None,
    }
}

impl FileFacts {
    /// No file known.
    pub fn new() -> (r: FileFacts)
        ensures
            r@ == Seq::<(Seq<char>, Option<Seq<u8>>)>::empty(),
    {
        let r = FileFacts { files: Vec::new() };
        proof {
            assert(r@ =~= Seq::<(Seq<char>, Option<Seq<u8>>)>::empty());
        }
        r
    }

    /// Records that `path` is a regular file, with its contents if read.
    pub fn add(&mut self, path: String, bytes: Option<Vec<u8>>)
        ensures
            final(self)@ == old(self)@.push((path@, bytes_view(bytes))),
    {
        let ghost before = self@;
        let ghost entry = (path@, bytes_view(bytes));
        self.files.push(FileEntry { path, bytes });
        proof {
            assert(self@ =~= before.push(entry));
        }
    }

    /// The contents known of the file `p`, if any.
    pub fn read(&self, p: &str) -> (r: Option<&Vec<u8>>)
        ensures
            r is None ==> fact_read(self@, p@) is None,
            r matches Some(b) ==> fact_read(self@, p@) == Some(b@),
    {
        let pc = chars_of(p);
        match self.find(&pc) {
            Some(i) => match &self.files[i].bytes {
                Some(b) => Some(b),
                None => None,
            },
            None => None,
        }
    }

    /// The index of the first entry for `p`.
    fn find(&self, p: &Vec<char>) -> (r: Option<usize>)
        ensures
            r is None ==> fact_lookup(self@, p@) is None,
            r matches Some(i) ==> i < self.files.len() && fact_lookup(self@, p@) == Some(
                bytes_view(self.files@[i as int].bytes),
            ) && self.files@[i as int].path@ == p@,
    {
        let mut i: usize = 0;
        proof {
            assert(self@.skip(0) == self@);
        }
        while i < self.files.len()
            invariant
                i <= self.files.len(),
                fact_lookup(self@, p@) == fact_lookup(self@.skip(i as int), p@),
            decreases self.files.len() - i,
        {
            let path_chars = chars_of(self.files[i].path.as_str());
            proof {
                assert(self@.skip(i as int)[0] == self@[i as int]);
                assert(self@.skip(i as int).drop_first() == self@.skip(i + 1));
            }
            if chars_eq(&path_chars, p) {
                return Some(i);
            }
            i += 1;
        }
        None
    }
}

// ---------------------------------------------------------------------------
// Image destinations
// ---------------------------------------------------------------------------

/// The normalized path a local destination refers to, from `base`.
pub open spec fn local_target(style: PathStyle, base: Seq<char>, dest: Seq<char>) -> Seq<char> {
    spec_normalize_path(style, spec_join(style, base, spec_percent_decode(dest)))
}

pub(crate) fn local_target_of(style: PathStyle, base: &str, dest: &str) -> (r: String)
    ensures
        r@ == local_target(style, base@, dest@),
{
    let decoded = percent_decode(dest);
    let joined = join_path(style, base, decoded.as_str());
    normalize_path(style, joined.as_str())
}

/// The URL under `doc_base` of the path below the serve root whose
/// components are `rel`: each name percent-encoded after a `/`.
pub open spec fn served_url(doc_base: Seq<char>, rel: Seq<CompV>) -> Seq<char>
    decreases rel.len(),
{
    if rel.len() == 0 {
        doc_base
    } else {
        served_url(doc_base, rel.drop_last()) + match rel.last() {
            CompV::Normal(x) => seq!['/'] + spec_percent_encode(x),
            _ => Seq::<char>::empty(),
        }
    }
}

/// What an image destination becomes: non-local destinations and paths that
/// are not existing files stay as written; a file under the serve root is
/// served from `doc_base`; any other file is inlined as a base64 `data:` URI
/// when its contents were read, else left as written.
pub open spec fn spec_rewrite_image_dest(style: PathStyle, 
    dest: Seq<char>,
    base: Seq<char>,
    root: Seq<char>,
    doc_base: Seq<char>,
    fs: Seq<(Seq<char>, Option<Seq<u8>>)>,
) -> Seq<char> {
    if !spec_is_local_dest(dest) {
        dest
    } else {
        let abs = local_target(style, base, dest);
        if !fact_is_file(fs, abs) {
            dest
        } else {
            match strip_comps(spec_components(style, abs), spec_components(style, root)) {
                Some(rel) => served_url(doc_base, rel),
                None => match fact_read(fs, abs) {
                    Some(b) => "data:"@ + spec_mime_for(style, abs) + ";base64,"@ + spec_base64(b),
                    None => dest,
                },
            }
        }
    }
}

/// Rewrite a markdown image destination so a WebView document can display
/// it (see [`spec_rewrite_image_dest`]).
pub fn rewrite_image_dest(style: PathStyle, 
    dest: &str,
    base_dir: &str,
    serve_root: &str,
    doc_url_base: &str,
    facts: &FileFacts,
) -> (res: String)
    ensures
        res@ == spec_rewrite_image_dest(style, dest@, base_dir@, serve_root@, doc_url_base@, facts@),
{
    if !is_local_dest(dest) {
        return dest.to_owned();
    }
    let abs = local_target_of(style, base_dir, dest);
    let abs_chars = chars_of(abs.as_str());
    let found = facts.find(&abs_chars);
    let idx = match found {
        Some(i) => i,
        None => {
            return dest.to_owned();
        },
    };
    let cs = components(style, abs.as_str());
    let rc = components(style, serve_root);
    if comps_start_with(&cs, &rc) {
        let mut url = empty_string();
        push_str(&mut url, doc_url_base);
        let mut k = rc.len();
        let ghost rel = comp_views(cs@).skip(rc@.len() as int);
        proof {
            assert(comp_views(cs@).skip(k as int).take(0) =~= Seq::<CompV>::empty());
        }
        while k < cs.len()
            invariant
                rc@.len() <= k <= cs@.len(),
                rel == comp_views(cs@).skip(rc@.len() as int),
                url@ == served_url(doc_url_base@, rel.take(k - rc@.len())),
            decreases cs.len() - k,
        {
            let ghost t = rel.take(k - rc@.len() + 1);
            proof {
                assert(t.drop_last() == rel.take(k - rc@.len()));
                assert(t.last() == cs@[k as int]@);
            }
            if let Comp::Normal(x) = &cs[k] {
                let seg = string_of_chars(x);
                let enc = percent_encode(seg.as_str());
                push_str(&mut url, "/");
                proof {
                    reveal_strlit("/");
                }
                push_str(&mut url, enc.as_str());
                proof {
                    assert(url@ =~= served_url(doc_url_base@, t));
                }
            }
            k += 1;
        }
        proof {
            assert(rel.take(cs@.len() - rc@.len()) == rel);
        }
        return url;
    }
    match &facts.files[idx].bytes {
        Some(b) => {
            let mut out = empty_string();
            push_str(&mut out, "data:");
            push_str(&mut out, mime_for(style, abs.as_str()));
            push_str(&mut out, ";base64,");
            let enc = base64_encode(b.as_slice());
            push_str(&mut out, enc.as_str());
            out
        },
        None => dest.to_owned(),
    }
}

// ---------------------------------------------------------------------------
// Markdown link destinations
// ---------------------------------------------------------------------------

/// How a viewer routes local markdown links through its own navigation
/// scheme: the URL that replaces a link to the existing markdown file `abs`
/// (normalized) with the optional `#fragment`.
pub trait LinkRewrite {
    spec fn rewrite_spec(&self, abs: Seq<char>, fragment: Option<Seq<char>>) -> Seq<char>;

    fn rewrite(&self, abs: &str, fragment: Option<&str>) -> (url: String)
        ensures
            url@ == self.rewrite_spec(abs@, opt_view(fragment)),
    ;
}

/// A path names a markdown file: it ends in `.md` or `.markdown`, in any
/// ASCII letter case.
pub open spec fn has_md_ext(p: Seq<char>) -> bool {
    ".md"@.is_suffix_of(crate::paths::ascii_lower_seq(p)) || ".markdown"@.is_suffix_of(
        crate::paths::ascii_lower_seq(p),
    )
}

/// The decoded path part of a link destination: the text before its first
/// `#`, percent-decoded.
pub open spec fn link_path(dest: Seq<char>) -> Seq<char> {
    let k = index_of(dest, '#');
    spec_percent_decode(if k < 0 { dest } else { dest.take(k) })
}

/// The folder markdown links resolve against: `base` when it starts at a
/// root, else `base` taken from the working folder `cwd` when one is known.
pub open spec fn link_base(style: PathStyle, cwd: Option<Seq<char>>, base: Seq<char>) -> Seq<char> {
    if is_absolute(style, base) {
        base
    } else {
        match cwd {
            Some(c) => spec_join(style, c, base),
            None => base,
        }
    }
}

/// The markdown file (absolute and normalized, resolved from [`link_base`])
/// and fragment a local link destination names, when it names one by its
/// extension and resolves to a path that starts at a root.
pub open spec fn md_link_target(style: PathStyle, cwd: Option<Seq<char>>, dest: Seq<char>, base: Seq<char>) -> Option<
    (Seq<char>, Option<Seq<char>>),
> {
    if !spec_is_local_dest(dest) {
        None
    } else {
        let k = index_of(dest, '#');
        let fragment = if k < 0 { None } else { Some(dest.skip(k + 1)) };
        let decoded = link_path(dest);
        let abs = spec_normalize_path(style, spec_join(style, link_base(style, cwd, base), decoded));
        if !has_md_ext(decoded) || !is_absolute(style, abs) {
            None
        } else {
            Some((abs, fragment))
        }
    }
}

/// What a link destination becomes: a link to an existing markdown file is
/// replaced by the hook's URL for it; everything else stays as written.
pub open spec fn spec_rewrite_md_link<H: LinkRewrite>(style: PathStyle, cwd: Option<Seq<char>>, 
    dest: Seq<char>,
    base: Seq<char>,
    hook: H,
    fs: Seq<(Seq<char>, Option<Seq<u8>>)>,
) -> Seq<char> {
    match md_link_target(style, cwd, dest, base) {
        Some((abs, fragment)) => if fact_is_file(fs, abs) {
            hook.rewrite_spec(abs, fragment)
        } else {
            dest
        },
        None => dest,
    }
}

/// The markdown file and fragment a link destination names (see
/// [`md_link_target`]).
fn md_link_target_of(style: PathStyle, cwd: Option<&str>, dest: &str, base: &str) -> (r: Option<(String, Option<String>)>)
    ensures
        r is None ==> md_link_target(style, opt_view(cwd), dest@, base@) is None,
        r matches Some((a, f)) ==> md_link_target(style, opt_view(cwd), dest@, base@) == Some(
            (a@, match f {
                Some(x) => Some(x@),
                None => None,
            }),
        ),
{
    if !is_local_dest(dest) {
        return None;
    }
    let v = chars_of(dest);
    proof {
        lemma_index_of(v@, '#');
    }
    let (path_part, fragment) = match find_char(&v, '#') {
        Some(k) => {
            let f = sub_chars(&v, k + 1, v.len());
            proof {
                assert(v@.skip(k + 1) =~= v@.subrange(k + 1, v.len() as int));
                assert(v@.take(k as int) =~= v@.subrange(0, k as int));
            }
            (sub_chars(&v, 0, k), Some(string_of_chars(&f)))
        },
        None => {
            proof {
                assert(v@.subrange(0, v.len() as int) == v@);
            }
            (sub_chars(&v, 0, v.len()), None)
        },
    };
    let path_str = string_of_chars(&path_part);
    let decoded = percent_decode(path_str.as_str());
    let dchars = chars_of(decoded.as_str());
    let lower = crate::paths::ascii_lowercase(&dchars);
    if !(ends_with_str(&lower, ".md") || ends_with_str(&lower, ".markdown")) {
        return None;
    }
    let bv = chars_of(base);
    let lb = if is_absolute_chars(style, &bv) {
        base.to_owned()
    } else {
        match cwd {
            Some(c) => join_path(style, c, base),
            None => base.to_owned(),
        }
    };
    let joined = join_path(style, lb.as_str(), decoded.as_str());
    let abs = normalize_path(style, joined.as_str());
    let av = chars_of(abs.as_str());
    if !is_absolute_chars(style, &av) {
        return None;
    }
    Some((abs, fragment))
}

/// Rewrite a local `.md`/`.markdown` link destination through the caller's
/// hook, which gets the file's absolute path (a relative `base_dir` is taken
/// from the working folder `cwd`). External URLs, fragments, and links to
/// files that do not exist (or are not markdown, or resolve to no absolute
/// path) are returned unchanged.
pub fn rewrite_md_link<H: LinkRewrite>(
    style: PathStyle,
    cwd: Option<&str>,
    dest: &str,
    base_dir: &str,
    hook: &H,
    facts: &FileFacts,
) -> (res: String)
    ensures
        res@ == spec_rewrite_md_link(style, opt_view(cwd), dest@, base_dir@, *hook, facts@),
{
    match md_link_target_of(style, cwd, dest, base_dir) {
        Some((abs, fragment)) => {
            let ac = chars_of(abs.as_str());
            match facts.find(&ac) {
                Some(_) => match &fragment {
                    Some(f) => hook.rewrite(abs.as_str(), Some(f.as_str())),
                    None => hook.rewrite(abs.as_str(), None),
                },
                None => dest.to_owned(),
            }
        },
        None => dest.to_owned(),
    }
}

/// The link hook only ever gets paths that start at a root; from a folder
/// that starts at a root it gets the linked file itself, normalized (on
/// Windows, unless the link names a drive without its root, as `D:x.md`).
pub proof fn law_link_hook_gets_absolute_paths(
    style: PathStyle,
    cwd: Option<Seq<char>>,
    dest: Seq<char>,
    base: Seq<char>,
)
    ensures
        md_link_target(style, cwd, dest, base) matches Some((a, _)) ==> is_absolute(style, a),
        is_absolute(style, base) && spec_is_local_dest(dest) && has_md_ext(link_path(dest)) && (style is Unix
            || win_prefix_len(link_path(dest)) == 0 || is_absolute(style, link_path(dest))) ==> (md_link_target(
            style,
            cwd,
            dest,
            base,
        ) matches Some((a, _)) && a == spec_normalize_path(style, spec_join(style, base, link_path(dest)))),
{
    let x = link_path(dest);
    if is_absolute(style, base) && spec_is_local_dest(dest) && has_md_ext(x) && (style is Unix || win_prefix_len(x)
        == 0 || is_absolute(style, x)) {
        let j = spec_join(style, base, x);
        let k = index_of(dest, '#');
        let path_part = if k < 0 { dest } else { dest.take(k) };
        assert(x == spec_percent_decode(path_part));
        match style {
            PathStyle::Unix => {
                lemma_target_abs(style, base, path_part);
                let sb = lemma_normalized_abs(style, j);
                assert(slash_string(abs_path(sb))[0] == '/');
            },
            PathStyle::Windows => {
                if win_prefix_len(x) == 0 {
                    if x.len() > 0 && is_win_sep(x[0]) {
                        lemma_win_prefix_len_range(base);
                        let n = win_prefix_len(base);
                        lemma_prefix_stable(base, x);
                        assert(j == base.take(n) + x);
                        assert(j[n] == x[0]);
                    } else {
                        lemma_win_components_join(base, x);
                    }
                }
                lemma_win_normalized_prefix(j);
            },
        }
    }
}

// ---------------------------------------------------------------------------
// The serve root
// ---------------------------------------------------------------------------

/// The serve root after one image destination: it widens to the shared
/// ancestor when the image is an existing file outside the current root
/// (and stays when the two share no root).
pub open spec fn widen_root(style: PathStyle, 
    root: Seq<char>,
    base: Seq<char>,
    dest: Seq<char>,
    fs: Seq<(Seq<char>, Option<Seq<u8>>)>,
) -> Seq<char> {
    if !spec_is_local_dest(dest) {
        root
    } else {
        let abs = local_target(style, base, dest);
        if fact_is_file(fs, abs) && strip_comps(spec_components(style, abs), spec_components(style, root)) is None {
            match spec_shared_prefix(style, root, abs) {
                Some(s) => s,
                None => root,
            }
        } else {
            root
        }
    }
}

/// The serve root after the images among `evs[i..]`.
pub open spec fn root_from(style: PathStyle, 
    evs: Seq<MdEventV>,
    i: int,
    root: Seq<char>,
    base: Seq<char>,
    fs: Seq<(Seq<char>, Option<Seq<u8>>)>,
) -> Seq<char>
    decreases evs.len() - i,
{
    if i < 0 || i >= evs.len() {
        root
    } else {
        let next = match evs[i] {
            MdEventV::Image(d) => widen_root(style, root, base, d, fs),
            _ => root,
        };
        root_from(style, evs, i + 1, next, base, fs)
    }
}

/// The serve root of a document: its normalized folder, widened over its
/// images in order.
pub open spec fn spec_serve_root_for(style: PathStyle, 
    markdown: Seq<char>,
    base_dir: Seq<char>,
    fs: Seq<(Seq<char>, Option<Seq<u8>>)>,
) -> Seq<char> {
    let base = spec_normalize_path(style, base_dir);
    root_from(style, parsed_events(spec_strip_bom(markdown), suite_options()), 0, base, base, fs)
}

/// Compute the serve root for a document's content: starts at `base_dir` and
/// widens to the shared ancestor whenever an image resolves to an existing
/// file outside the current root. Images with no shared ancestor never widen
/// the root — they are inlined instead.
pub fn serve_root_for(style: PathStyle, markdown: &str, base_dir: &str, facts: &FileFacts) -> (res: String)
    ensures
        res@ == spec_serve_root_for(style, markdown@, base_dir@, facts@),
{
    let md = strip_bom(markdown);
    let base = normalize_path(style, base_dir);
    let mut root = normalize_path(style, base_dir);
    let evs = parse_events(md, md_options());
    let ghost ev = event_views(evs@);
    let mut i: usize = 0;
    while i < evs.len()
        invariant
            i <= evs@.len(),
            ev == event_views(evs@),
            root_from(style, ev, 0, base@, base@, facts@) == root_from(style, ev, i as int, root@, base@, facts@),
        decreases evs.len() - i,
    {
        proof {
            assert(ev[i as int] == evs@[i as int]@);
        }
        if let MdEvent::Image(d) = &evs[i] {
            if is_local_dest(d.as_str()) {
                let abs = local_target_of(style, base.as_str(), d.as_str());
                let ac = chars_of(abs.as_str());
                if facts.find(&ac).is_some() {
                    let cs = components(style, abs.as_str());
                    let rc = components(style, root.as_str());
                    if !comps_start_with(&cs, &rc) {
                        match shared_prefix(style, root.as_str(), abs.as_str()) {
                            Some(sh) => {
                                root = sh;
                            },
                            None => {},
                        }
                    }
                }
            }
        }
        i += 1;
    }
    root
}

/// The destination `dest`, resolved from the folder `base`, starts at the
/// root `base` starts at: on Unix every destination from an absolute folder
/// does; on Windows those on the folder's drive or share do, at its root.
pub open spec fn same_root(style: PathStyle, base: Seq<char>, dest: Seq<char>) -> bool {
    let j = spec_join(style, base, spec_percent_decode(dest));
    is_absolute(style, j) && spec_components(style, j)[0] == spec_components(style, base)[0]
}

/// The image event `e`, if it is a local image resolving (from `base`) to an
/// existing file at the root `base` starts at, has that file under the root
/// `r`.
pub open spec fn image_covered(
    style: PathStyle,
    e: MdEventV,
    base: Seq<char>,
    r: Seq<char>,
    fs: Seq<(Seq<char>, Option<Seq<u8>>)>,
) -> bool {
    match e {
        MdEventV::Image(d) => spec_is_local_dest(d) && fact_is_file(fs, local_target(style, base, d))
            && same_root(style, base, d) ==> strip_comps(
            spec_components(style, local_target(style, base, d)),
            spec_components(style, r),
        ) is Some,
        _ => true,
    }
}

/// A normalized absolute path is the text of its names.
proof fn lemma_normalized_abs(style: PathStyle, s: Seq<char>) -> (segs: Seq<Seq<char>>)
    requires
        style == PathStyle::Unix,
        is_absolute(style, s),
    ensures
        plain_names(segs),
        norm_comps(spec_components(style, s)) == abs_path(segs),
        spec_normalize_path(style, s) == slash_string(abs_path(segs)),
        spec_components(style, spec_normalize_path(style, s)) == npath_comps(abs_path(segs)),
{
    let cs = spec_components(style, s);
    assert(cs[0] == CompV::Root);
    lemma_slash_no_prefix(s, false, false);
    lemma_norm_no_prefix(cs);
    lemma_norm_abs(cs);
    lemma_components_plain(s);
    lemma_norm_plain(cs);
    let p = norm_comps(cs);
    assert(p == abs_path(p.segs));
    lemma_components_of_npath(p);
    p.segs
}

/// The target of a local destination from an absolute folder is absolute.
proof fn lemma_target_abs(style: PathStyle, base: Seq<char>, d: Seq<char>)
    requires
        style == PathStyle::Unix,
        is_absolute(style, base),
    ensures
        is_absolute(style, spec_join(style, base, spec_percent_decode(d))),
{
    let x = spec_percent_decode(d);
    if !is_absolute(style, x) {
        let j = spec_join(style, base, x);
        if base.last() != '/' {
            assert(j == base + seq!['/'] + x);
            assert(j[0] == base[0]);
        } else {
            assert(j == base + x);
            assert(j[0] == base[0]);
        }
    }
}

/// Widening the serve root over `evs[i..]`, from the rooted path with
/// prefix `pre` and names `sr`, ends at the rooted path of some first names
/// `sf` of `sr`, which covers every existing local image among `evs[i..]`
/// at the root `base` starts at.
pub(crate) proof fn lemma_root_from_covers(
    style: PathStyle,
    evs: Seq<MdEventV>,
    i: int,
    pre: Option<Seq<char>>,
    sr: Seq<Seq<char>>,
    base: Seq<char>,
    fs: Seq<(Seq<char>, Option<Seq<u8>>)>,
) -> (sf: Seq<Seq<char>>)
    requires
        0 <= i <= evs.len(),
        valid_root_prefix(style, pre),
        style_names(style, sr),
        drive_free(style, sr),
        spec_components(style, base).len() > 0,
        spec_components(style, base)[0] == root_head(pre)[0],
    ensures
        style_names(style, sf),
        drive_free(style, sf),
        segs_prefix(sf, sr),
        root_from(style, evs, i, path_string(style, rooted(pre, sr)), base, fs) == path_string(
            style,
            rooted(pre, sf),
        ),
        forall|j: int|
            i <= j < evs.len() ==> image_covered(
                style,
                #[trigger] evs[j],
                base,
                path_string(style, rooted(pre, sf)),
                fs,
            ),
    decreases evs.len() - i,
{
    assert(sr.take(sr.len() as int) =~= sr);
    if i == evs.len() {
        return sr;
    }
    let r = path_string(style, rooted(pre, sr));
    lemma_rooted_components(style, pre, sr);
    let e = evs[i];
    let mut s1 = sr;
    if let MdEventV::Image(d) = e {
        if spec_is_local_dest(d) {
            let abs = local_target(style, base, d);
            let k = lemma_shared_with_rooted(style, pre, sr, abs);
            if fact_is_file(fs, abs) && strip_comps(spec_components(style, abs), spec_components(style, r)) is None {
                match spec_shared_prefix(style, r, abs) {
                    Some(o) => {
                        s1 = sr.take(k);
                        assert(segs_prefix(s1, sr));
                    },
                    None => {},
                }
            }
            assert(widen_root(style, r, base, d, fs) == path_string(style, rooted(pre, s1)));
        }
    }
    assert(style_names(style, s1) && drive_free(style, s1)) by {
        assert forall|j: int| 0 <= j < s1.len() implies style_name(style, #[trigger] s1[j]) by {
            assert(s1[j] == sr[j]);
        }
        if style is Windows {
            assert forall|j: int| 0 <= j < s1.len() implies win_prefix_len(#[trigger] s1[j]) == 0 by {
                assert(s1[j] == sr[j]);
            }
        }
    }
    assert(root_from(style, evs, i, r, base, fs) == root_from(
        style,
        evs,
        i + 1,
        path_string(style, rooted(pre, s1)),
        base,
        fs,
    ));
    let sf = lemma_root_from_covers(style, evs, i + 1, pre, s1, base, fs);
    lemma_segs_prefix_trans(sf, s1, sr);
    lemma_rooted_components(style, pre, sf);
    assert(image_covered(style, evs[i], base, path_string(style, rooted(pre, sf)), fs)) by {
        if let MdEventV::Image(d) = e {
            let abs = local_target(style, base, d);
            if spec_is_local_dest(d) && fact_is_file(fs, abs) && same_root(style, base, d) {
                let jn = spec_join(style, base, spec_percent_decode(d));
                let ra = lemma_normalized_rooted(style, jn);
                assert(npath_comps(ra)[0] == root_head(pre)[0]);
                lemma_rooted_comps_split(ra.prefix, ra.segs);
                assert(ra.prefix == pre) by {
                    if ra.prefix is Some || pre is Some {
                        assert(root_head(ra.prefix)[0] == root_head(pre)[0]);
                        match style {
                            PathStyle::Unix => {},
                            PathStyle::Windows => {},
                        }
                    }
                }
                let sa = ra.segs;
                assert(ra == rooted(pre, sa));
                lemma_rooted_strip(pre, sa, pre, sr);
                if segs_prefix(sr, sa) {
                    lemma_segs_prefix_trans(sf, sr, sa);
                } else {
                    let cn = common_names(sr, sa);
                    lemma_common_names_prefix(sr, sa);
                    lemma_prefix_plain_style(style, cn, sr);
                    lemma_rooted_common(pre, sr, sa);
                    lemma_rooted_comps_string(style, pre, cn);
                    lemma_rooted_components(style, pre, cn);
                    assert(spec_shared_prefix(style, r, abs) == Some(path_string(style, rooted(pre, cn))));
                    assert(widen_root(style, r, base, d, fs) == path_string(style, rooted(pre, cn)));
                    assert(path_string(style, rooted(pre, s1)) == path_string(style, rooted(pre, cn)));
                    lemma_rooted_components(style, pre, s1);
                    lemma_rooted_same_names(pre, s1, cn);
                    lemma_common_names_prefix(sr, sa);
                    lemma_segs_prefix_trans(sf, s1, sa);
                }
                lemma_rooted_strip(pre, sa, pre, sf);
            }
        }
    }
    sf
}

/// The names of a prefix of names of the style are names of the style, and
/// read as no drive when those do not.
proof fn lemma_prefix_plain_style(style: PathStyle, a: Seq<Seq<char>>, b: Seq<Seq<char>>)
    requires
        segs_prefix(a, b),
        style_names(style, b),
        drive_free(style, b),
    ensures
        style_names(style, a),
        drive_free(style, a),
{
    assert forall|j: int| 0 <= j < a.len() implies style_name(style, #[trigger] a[j]) by {
        assert(a[j] == b.take(a.len() as int)[j]);
    }
    if style is Windows {
        assert forall|j: int| 0 <= j < a.len() implies win_prefix_len(#[trigger] a[j]) == 0 by {
            assert(a[j] == b.take(a.len() as int)[j]);
        }
    }
}

/// Rooted paths with the same components have the same names.
proof fn lemma_rooted_same_names(pre: Option<Seq<char>>, a: Seq<Seq<char>>, b: Seq<Seq<char>>)
    requires
        npath_comps(rooted(pre, a)) == npath_comps(rooted(pre, b)),
    ensures
        a == b,
{
    lemma_norm_of_npath(rooted(pre, a));
    lemma_norm_of_npath(rooted(pre, b));
}

/// On Unix, every destination from an absolute folder starts at its root.
proof fn lemma_unix_same_root(base: Seq<char>, d: Seq<char>)
    requires
        slash_absolute(base),
    ensures
        same_root(PathStyle::Unix, base, d),
{
    lemma_target_abs(PathStyle::Unix, base, d);
}

/// The serve root covers the document: for a document in an absolute
/// folder, the serve root contains the document's (normalized) folder and
/// every local image of the document that resolves, from that folder, to an
/// existing file at the folder's root (on Unix: every one; on Windows: those
/// on the folder's drive or share), so each of them is served from the
/// document virtual host rather than inlined. On Windows the folder's
/// names must not read as drives (`X:`), which Windows file names cannot.
pub proof fn law_serve_root_covers_images(
    style: PathStyle,
    markdown: Seq<char>,
    base_dir: Seq<char>,
    fs: Seq<(Seq<char>, Option<Seq<u8>>)>,
)
    requires
        is_absolute(style, base_dir),
        drive_free(style, norm_comps(spec_components(style, base_dir)).segs),
    ensures
        ({
            let nb = spec_normalize_path(style, base_dir);
            let root = spec_serve_root_for(style, markdown, base_dir, fs);
            let evs = parsed_events(spec_strip_bom(markdown), suite_options());
            &&& strip_comps(spec_components(style, nb), spec_components(style, root)) is Some
            &&& forall|j: int| 0 <= j < evs.len() ==> image_covered(style, #[trigger] evs[j], nb, root, fs)
        }),
{
    let nb = spec_normalize_path(style, base_dir);
    let evs = parsed_events(spec_strip_bom(markdown), suite_options());
    let rb = lemma_normalized_rooted(style, base_dir);
    assert(rb == rooted(rb.prefix, rb.segs));
    lemma_rooted_comps_split(rb.prefix, rb.segs);
    let sf = lemma_root_from_covers(style, evs, 0, rb.prefix, rb.segs, nb, fs);
    lemma_rooted_components(style, rb.prefix, sf);
    lemma_rooted_strip(rb.prefix, rb.segs, rb.prefix, sf);
}

/// The normalized text of a Windows path that starts at a root reads back
/// with the same prefix, at a root.
proof fn lemma_win_normalized_prefix(b: Seq<char>) -> (rb: NPath)
    requires
        is_absolute(PathStyle::Windows, b),
    ensures
        rb == norm_comps(spec_components(PathStyle::Windows, b)),
        rb == rooted(Some(b.take(win_prefix_len(b))), rb.segs),
        spec_normalize_path(PathStyle::Windows, b) == path_string(PathStyle::Windows, rb),
        spec_components(PathStyle::Windows, spec_normalize_path(PathStyle::Windows, b)) == npath_comps(rb),
        win_prefix_len(spec_normalize_path(PathStyle::Windows, b)) == win_prefix_len(b),
        spec_normalize_path(PathStyle::Windows, b).take(win_prefix_len(b)) == b.take(win_prefix_len(b)),
        is_absolute(PathStyle::Windows, spec_normalize_path(PathStyle::Windows, b)),
{
    let w = PathStyle::Windows;
    let rb = lemma_normalized_rooted(w, b);
    lemma_win_prefix_len_range(b);
    let n = win_prefix_len(b);
    let p = b.take(n);
    lemma_rooted_comps_split(rb.prefix, rb.segs);
    assert(rb.prefix == Some(p));
    assert forall|j: int| 0 <= j < rb.segs.len() implies win_name(#[trigger] rb.segs[j]) by {
        assert(style_name(w, rb.segs[j]));
    }
    lemma_win_rooted_components(p, rb.segs);
    assert(p.take(win_prefix_len(p)) =~= p);
    assert(win_rooted(p, rb.segs) == rb);
    let nb = win_string(rb);
    assert(nb.take(n) =~= p);
    if n <= 2 {
        assert(nb[n] == '\\');
    }
    rb
}

/// From an absolute folder, a destination resolves to the same file
/// whether the folder is normalized first or not.
pub(crate) proof fn lemma_target_from_normalized(style: PathStyle, b: Seq<char>, d: Seq<char>)
    requires
        is_absolute(style, b),
    ensures
        local_target(style, spec_normalize_path(style, b), d) == local_target(style, b, d),
{
    let x = spec_percent_decode(d);
    let nb = spec_normalize_path(style, b);
    match style {
        PathStyle::Unix => {
            let sb = lemma_normalized_abs(style, b);
            if !is_absolute(style, x) {
                assert(nb.len() > 0) by {
                    assert(slash_string(abs_path(sb))[0] == '/');
                }
                lemma_components_join(nb, x);
                lemma_components_join(b, x);
                let t = piece_comps(spec_split(x, '/'));
                lemma_norm_concat(spec_components(style, nb), t);
                lemma_norm_concat(spec_components(style, b), t);
                lemma_norm_of_npath(abs_path(sb));
            }
        },
        PathStyle::Windows => {
            let rb = lemma_win_normalized_prefix(b);
            if win_prefix_len(x) == 0 && !(x.len() > 0 && is_win_sep(x[0])) {
                lemma_win_components_join(b, x);
                lemma_win_components_join(nb, x);
                let t = piece_comps(spec_split(to_slash(x), '/'));
                lemma_norm_concat(spec_components(style, nb), t);
                lemma_norm_concat(spec_components(style, b), t);
                lemma_norm_of_npath(rb);
            }
        },
    }
}

/// A destination that starts at the root of an absolute folder starts at
/// the root of the normalized folder too.
pub(crate) proof fn lemma_same_root_normalized(style: PathStyle, b: Seq<char>, d: Seq<char>)
    requires
        is_absolute(style, b),
        same_root(style, b, d),
    ensures
        same_root(style, spec_normalize_path(style, b), d),
{
    let nb = spec_normalize_path(style, b);
    let x = spec_percent_decode(d);
    match style {
        PathStyle::Unix => {
            let sb = lemma_normalized_abs(style, b);
            assert(slash_absolute(nb)) by {
                assert(slash_string(abs_path(sb))[0] == '/');
            }
            lemma_unix_same_root(nb, d);
        },
        PathStyle::Windows => {
            let rb = lemma_win_normalized_prefix(b);
            let cb = spec_components(style, b);
            lemma_rooted_comps_split(rb.prefix, rb.segs);
            assert(cb[0] == npath_comps(rb)[0]);
            if win_prefix_len(x) == 0 && !(x.len() > 0 && is_win_sep(x[0])) {
                lemma_win_components_join(nb, x);
                lemma_win_components_join(b, x);
                let t = piece_comps(spec_split(to_slash(x), '/'));
                assert((spec_components(style, nb) + t)[0] == spec_components(style, nb)[0]);
            }
        },
    }
}

/// A served URL starts with the document base URL.
proof fn lemma_served_url_prefix(doc: Seq<char>, rel: Seq<CompV>)
    ensures
        doc.is_prefix_of(served_url(doc, rel)),
    decreases rel.len(),
{
    if rel.len() == 0 {
        assert(doc.subrange(0, doc.len() as int) =~= doc);
    } else {
        lemma_served_url_prefix(doc, rel.drop_last());
        let u = served_url(doc, rel.drop_last());
        let tail: Seq<char> = match rel.last() {
            CompV::Normal(x) => seq!['/'] + spec_percent_encode(x),
            _ => Seq::<char>::empty(),
        };
        assert(served_url(doc, rel) == u + tail);
        assert((u + tail).subrange(0, doc.len() as int) =~= u.subrange(0, doc.len() as int));
    }
}

/// The piece `p`, if it gives an image a new destination, gives it the
/// one [`spec_rewrite_image_dest`] makes.
pub open spec fn image_dest_of(style: PathStyle, 
    p: PieceV,
    evs: Seq<MdEventV>,
    base: Seq<char>,
    root: Seq<char>,
    doc: Seq<char>,
    fs: Seq<(Seq<char>, Option<Seq<u8>>)>,
) -> bool {
    match p {
        PieceV::Dest(i, nd) => 0 <= i < evs.len() ==> match evs[i] {
            MdEventV::Image(d) => nd == spec_rewrite_image_dest(style, d, base, root, doc, fs),
            _ => true,
        },
        _ => true,
    }
}

pub(crate) proof fn lemma_pieces_image_dests<H: LinkRewrite>(style: PathStyle, cwd: Option<Seq<char>>, 
    evs: Seq<MdEventV>,
    i: int,
    in_mermaid: bool,
    src: Seq<char>,
    base: Seq<char>,
    root: Seq<char>,
    doc: Seq<char>,
    hook: Option<H>,
    fs: Seq<(Seq<char>, Option<Seq<u8>>)>,
)
    ensures
        forall|k: int|
            0 <= k < pieces_from(style, cwd, evs, i, in_mermaid, src, Some(base), Some(root), Some(doc), hook, fs).len()
                ==> image_dest_of(style, 
                #[trigger] pieces_from(style, cwd, evs, i, in_mermaid, src, Some(base), Some(root), Some(doc), hook, fs)[k],
                evs,
                base,
                root,
                doc,
                fs,
            ),
    decreases evs.len() - i,
{
    if 0 <= i < evs.len() {
        let st = step_spec(style, cwd, evs[i], i, in_mermaid, src, Some(base), Some(root), Some(doc), hook, fs);
        lemma_pieces_image_dests(style, cwd, evs, i + 1, st.1, st.2, base, root, doc, hook, fs);
        let rest = pieces_from(style, cwd, evs, i + 1, st.1, st.2, Some(base), Some(root), Some(doc), hook, fs);
        assert forall|k: int| 0 <= k < (st.0 + rest).len() implies image_dest_of(style, 
            #[trigger] (st.0 + rest)[k],
            evs,
            base,
            root,
            doc,
            fs,
        ) by {
            if k < st.0.len() {
                assert((st.0 + rest)[k] == st.0[k]);
            } else {
                assert((st.0 + rest)[k] == rest[k - st.0.len()]);
            }
        }
    }
}

/// The piece `p`, if it gives a local image resolving to an existing file
/// a new destination, gives it one under the document base URL `doc`.
pub open spec fn served_when_found(style: PathStyle, 
    p: PieceV,
    evs: Seq<MdEventV>,
    base: Seq<char>,
    doc: Seq<char>,
    fs: Seq<(Seq<char>, Option<Seq<u8>>)>,
) -> bool {
    match p {
        PieceV::Dest(i, nd) => 0 <= i < evs.len() ==> match evs[i] {
            MdEventV::Image(d) => spec_is_local_dest(d) && fact_is_file(fs, local_target(style, base, d))
                && same_root(style, base, d) ==> doc.is_prefix_of(nd),
            _ => true,
        },
        _ => true,
    }
}

/// Rendering from an absolute folder serves every local image that
/// resolves to an existing file at the folder's root (on Unix: every one;
/// on Windows: those on the folder's drive or share) from the document base
/// URL: its new destination starts with `doc`, so none is left as written or
/// inlined. (A document that opens with two byte-order marks is left out:
/// its serve root is computed past the second one. On Windows the folder's
/// names must not read as drives, which Windows file names cannot.)
pub proof fn law_render_serves_existing_images<H: LinkRewrite>(style: PathStyle, cwd: Option<Seq<char>>, 
    markdown: Seq<char>,
    base_dir: Seq<char>,
    doc: Seq<char>,
    hook: Option<H>,
    fs: Seq<(Seq<char>, Option<Seq<u8>>)>,
)
    requires
        is_absolute(style, base_dir),
        drive_free(style, norm_comps(spec_components(style, base_dir)).segs),
        spec_strip_bom(spec_strip_bom(markdown)) == spec_strip_bom(markdown),
    ensures
        ({
            let evs = parsed_events(spec_strip_bom(markdown), suite_options());
            let ps = render_stream(style, cwd, markdown, Some(base_dir), Some(doc), hook, fs);
            forall|k: int| 0 <= k < ps.len() ==> served_when_found(style, #[trigger] ps[k], evs, base_dir, doc, fs)
        }),
{
    let m1 = spec_strip_bom(markdown);
    let evs = parsed_events(m1, suite_options());
    let root = spec_serve_root_for(style, m1, base_dir, fs);
    let nb = spec_normalize_path(style, base_dir);
    law_serve_root_covers_images(style, m1, base_dir, fs);
    lemma_pieces_image_dests(style, cwd, evs, 0, false, seq![], base_dir, root, doc, hook, fs);
    let ps = render_stream(style, cwd, markdown, Some(base_dir), Some(doc), hook, fs);
    assert(ps == pieces_from(style, cwd, evs, 0, false, seq![], Some(base_dir), Some(root), Some(doc), hook, fs));
    assert forall|k: int| 0 <= k < ps.len() implies served_when_found(style, #[trigger] ps[k], evs, base_dir, doc, fs) by {
        assert(image_dest_of(style, ps[k], evs, base_dir, root, doc, fs));
        if let PieceV::Dest(i, nd) = ps[k] {
            if 0 <= i < evs.len() {
                if let MdEventV::Image(d) = evs[i] {
                    if spec_is_local_dest(d) && fact_is_file(fs, local_target(style, base_dir, d))
                        && same_root(style, base_dir, d) {
                        lemma_target_from_normalized(style, base_dir, d);
                        lemma_same_root_normalized(style, base_dir, d);
                        assert(image_covered(style, evs[i], nb, root, fs));
                        let abs = local_target(style, base_dir, d);
                        let rel = strip_comps(spec_components(style, abs), spec_components(style, root))->Some_0;
                        assert(nd == served_url(doc, rel));
                        lemma_served_url_prefix(doc, rel);
                    }
                }
            }
        }
    }
}

/// Images on another drive are inlined: for a document in an absolute
/// folder, a local image that resolves to an existing file whose path starts
/// elsewhere than the folder's (on Windows: another drive or share) is not
/// under the serve root, so it is rewritten as a base64 `data:` URI when its
/// contents were read. (On Windows the folder's names must not read as
/// drives, which Windows file names cannot.)
pub proof fn law_other_drive_images_inlined(
    style: PathStyle,
    markdown: Seq<char>,
    base_dir: Seq<char>,
    dest: Seq<char>,
    doc: Seq<char>,
    fs: Seq<(Seq<char>, Option<Seq<u8>>)>,
)
    requires
        is_absolute(style, base_dir),
        drive_free(style, norm_comps(spec_components(style, base_dir)).segs),
        spec_is_local_dest(dest),
        fact_is_file(fs, local_target(style, base_dir, dest)),
        fact_read(fs, local_target(style, base_dir, dest)) is Some,
        spec_components(style, local_target(style, base_dir, dest)).len() > 0,
        spec_components(style, local_target(style, base_dir, dest))[0] != spec_components(style, base_dir)[0],
    ensures
        ({
            let t = local_target(style, base_dir, dest);
            let root = spec_serve_root_for(style, markdown, base_dir, fs);
            spec_rewrite_image_dest(style, dest, base_dir, root, doc, fs) == "data:"@ + spec_mime_for(style, t)
                + ";base64,"@ + spec_base64(fact_read(fs, t)->Some_0)
        }),
{
    let t = local_target(style, base_dir, dest);
    let nb = spec_normalize_path(style, base_dir);
    let evs = parsed_events(spec_strip_bom(markdown), suite_options());
    let rb = lemma_normalized_rooted(style, base_dir);
    assert(rb == rooted(rb.prefix, rb.segs));
    lemma_rooted_comps_split(rb.prefix, rb.segs);
    let sf = lemma_root_from_covers(style, evs, 0, rb.prefix, rb.segs, nb, fs);
    let root = spec_serve_root_for(style, markdown, base_dir, fs);
    lemma_rooted_components(style, rb.prefix, sf);
    lemma_rooted_comps_split(rb.prefix, sf);
    let cr = spec_components(style, root);
    let ct = spec_components(style, t);
    assert(cr[0] == spec_components(style, base_dir)[0]);
    if cr.len() <= ct.len() && ct.take(cr.len() as int) == cr {
        assert(ct.take(cr.len() as int)[0] == ct[0]);
    }
    assert(strip_comps(ct, cr) is None);
}

// ---------------------------------------------------------------------------
// Rendering
// ---------------------------------------------------------------------------

/// The HTML that replaces a mermaid code block: the escaped source inside a
/// `<pre class="mermaid">` container.
pub open spec fn mermaid_block(src: Seq<char>) -> Seq<char> {
    "<pre class=\"mermaid\">"@ + spec_escape_html(src) + "</pre>\n"@
}

/// The output piece for the image start at index `i`.
pub open spec fn image_piece(style: PathStyle, 
    i: int,
    dest: Seq<char>,
    base: Option<Seq<char>>,
    root: Option<Seq<char>>,
    doc: Option<Seq<char>>,
    fs: Seq<(Seq<char>, Option<Seq<u8>>)>,
) -> PieceV {
    match (base, root, doc) {
        (Some(b), Some(r), Some(u)) => PieceV::Dest(i, spec_rewrite_image_dest(style, dest, b, r, u, fs)),
        _ => PieceV::Keep(i),
    }
}

/// The output piece for the link start at index `i`.
pub open spec fn link_piece<H: LinkRewrite>(style: PathStyle, cwd: Option<Seq<char>>, 
    i: int,
    dest: Seq<char>,
    base: Option<Seq<char>>,
    hook: Option<H>,
    fs: Seq<(Seq<char>, Option<Seq<u8>>)>,
) -> PieceV {
    match (base, hook) {
        (Some(b), Some(h)) => PieceV::Dest(i, spec_rewrite_md_link(style, cwd, dest, b, h, fs)),
        _ => PieceV::Keep(i),
    }
}

/// One event's effect on the output stream: the pieces it emits, whether a
/// mermaid block is open after it, and the mermaid source gathered so far.
/// A mermaid fence starts gathering, text inside it is gathered, its end
/// emits [`mermaid_block`]; images and links get their pieces; every other
/// event is kept.
pub open spec fn step_spec<H: LinkRewrite>(style: PathStyle, cwd: Option<Seq<char>>, 
    e: MdEventV,
    i: int,
    in_mermaid: bool,
    src: Seq<char>,
    base: Option<Seq<char>>,
    root: Option<Seq<char>>,
    doc: Option<Seq<char>>,
    hook: Option<H>,
    fs: Seq<(Seq<char>, Option<Seq<u8>>)>,
) -> (Seq<PieceV>, bool, Seq<char>) {
    if e matches MdEventV::Fence(info) && spec_is_mermaid(info) {
        (seq![], true, seq![])
    } else if in_mermaid && e is Text {
        (seq![], true, src + e->Text_0)
    } else if in_mermaid && e == MdEventV::End(Block::CodeBlock) {
        (seq![PieceV::Html(mermaid_block(src))], false, src)
    } else if e is Image {
        (seq![image_piece(style, i, e->Image_0, base, root, doc, fs)], in_mermaid, src)
    } else if e is Link {
        (seq![link_piece(style, cwd, i, e->Link_0, base, hook, fs)], in_mermaid, src)
    } else {
        (seq![PieceV::Keep(i)], in_mermaid, src)
    }
}

/// The output stream for `evs[i..]`, given whether a mermaid block is open
/// and the source gathered in it so far (see [`step_spec`]).
pub open spec fn pieces_from<H: LinkRewrite>(style: PathStyle, cwd: Option<Seq<char>>, 
    evs: Seq<MdEventV>,
    i: int,
    in_mermaid: bool,
    src: Seq<char>,
    base: Option<Seq<char>>,
    root: Option<Seq<char>>,
    doc: Option<Seq<char>>,
    hook: Option<H>,
    fs: Seq<(Seq<char>, Option<Seq<u8>>)>,
) -> Seq<PieceV>
    decreases evs.len() - i,
{
    if i < 0 || i >= evs.len() {
        seq![]
    } else {
        let st = step_spec(style, cwd, evs[i], i, in_mermaid, src, base, root, doc, hook, fs);
        st.0 + pieces_from(style, cwd, evs, i + 1, st.1, st.2, base, root, doc, hook, fs)
    }
}

/// The text carried by the text events `evs[a..b]`, in order.
pub open spec fn text_run(evs: Seq<MdEventV>, a: int, b: int) -> Seq<char>
    decreases b - a,
{
    if b <= a {
        seq![]
    } else {
        text_run(evs, a, b - 1) + match evs[b - 1] {
            MdEventV::Text(t) => t,
            _ => seq![],
        }
    }
}

proof fn lemma_mermaid_body<H: LinkRewrite>(style: PathStyle, cwd: Option<Seq<char>>, 
    evs: Seq<MdEventV>,
    a: int,
    k: int,
    j: int,
    base: Option<Seq<char>>,
    root: Option<Seq<char>>,
    doc: Option<Seq<char>>,
    hook: Option<H>,
    fs: Seq<(Seq<char>, Option<Seq<u8>>)>,
)
    requires
        0 <= a <= k <= j < evs.len(),
        forall|m: int| a <= m < j ==> #[trigger] evs[m] is Text,
        evs[j] == MdEventV::End(Block::CodeBlock),
    ensures
        pieces_from(style, cwd, evs, k, true, text_run(evs, a, k), base, root, doc, hook, fs)
            == seq![PieceV::Html(mermaid_block(text_run(evs, a, j)))]
            + pieces_from(style, cwd, evs, j + 1, false, text_run(evs, a, j), base, root, doc, hook, fs),
    decreases j - k,
{
    if k < j {
        assert(evs[k] is Text);
        lemma_mermaid_body(style, cwd, evs, a, k + 1, j, base, root, doc, hook, fs);
        let rest = pieces_from(style, cwd, evs, k + 1, true, text_run(evs, a, k + 1), base, root, doc, hook, fs);
        assert(seq![] + rest =~= rest);
    }
}

/// Each mermaid container holds exactly the source of its own fenced block:
/// a mermaid fence at event `i` whose code block ends at event `j`, with
/// only text between them, emits `mermaid_block` of the text of those
/// events, whatever was gathered before the fence (another diagram's source
/// among it), and leaves that source as the one gathered.
pub proof fn law_mermaid_block_holds_its_own_source<H: LinkRewrite>(style: PathStyle, cwd: Option<Seq<char>>, 
    evs: Seq<MdEventV>,
    i: int,
    j: int,
    in_mermaid: bool,
    src: Seq<char>,
    base: Option<Seq<char>>,
    root: Option<Seq<char>>,
    doc: Option<Seq<char>>,
    hook: Option<H>,
    fs: Seq<(Seq<char>, Option<Seq<u8>>)>,
)
    requires
        0 <= i < j < evs.len(),
        evs[i] matches MdEventV::Fence(info) && spec_is_mermaid(info),
        forall|m: int| i < m < j ==> #[trigger] evs[m] is Text,
        evs[j] == MdEventV::End(Block::CodeBlock),
    ensures
        pieces_from(style, cwd, evs, i, in_mermaid, src, base, root, doc, hook, fs)
            == seq![PieceV::Html(mermaid_block(text_run(evs, i + 1, j)))]
            + pieces_from(style, cwd, evs, j + 1, false, text_run(evs, i + 1, j), base, root, doc, hook, fs),
{
    assert(text_run(evs, i + 1, i + 1) == Seq::<char>::empty());
    lemma_mermaid_body(style, cwd, evs, i + 1, i + 1, j, base, root, doc, hook, fs);
    let rest = pieces_from(style, cwd, evs, i + 1, true, Seq::<char>::empty(), base, root, doc, hook, fs);
    assert(seq![] + rest =~= rest);
}

/// Every piece in `ps` is raw HTML or refers to event `i`.
pub open spec fn pieces_at(ps: Seq<PieceV>, i: int) -> bool {
    forall|j: int|
        0 <= j < ps.len() ==> match #[trigger] ps[j] {
            PieceV::Keep(k) => k == i,
            PieceV::Html(_) => true,
            PieceV::Dest(k, _) => k == i,
        }
}

/// Everything [`render`] needs to know about the document's surroundings.
pub struct RenderOptions<'a, H> {
    /// Folder the document's relative paths resolve against. `None` leaves
    /// image and link destinations untouched (plain conversion for a browser).
    pub base_dir: Option<&'a str>,
    /// Base URL (no trailing slash) local images are served from, e.g.
    /// `https://mdfiles.doc`. Only used when `base_dir` is `Some`.
    pub doc_url_base: Option<&'a str>,
    /// When set, a local link to an existing `.md`/`.markdown` file is passed
    /// to this hook (absolute normalized path + optional `#fragment`) and
    /// replaced with the returned URL.
    pub md_link_rewrite: Option<&'a H>,
    /// The working folder a relative `base_dir` is taken from, so that the
    /// link hook always gets absolute paths.
    pub working_dir: Option<&'a str>,
}

impl<'a, H> Default for RenderOptions<'a, H> {
    /// No base folder, no document base URL and no link hook: plain
    /// conversion for a browser.
    fn default() -> (r: Self)
        ensures
            r.base_dir is None,
            r.doc_url_base is None,
            r.md_link_rewrite is None,
            r.working_dir is None,
    {
        RenderOptions { base_dir: None, doc_url_base: None, md_link_rewrite: None, working_dir: None }
    }
}

/// The link hook an option holds, if any.
pub open spec fn opt_hook<H>(h: Option<&H>) -> Option<H> {
    match h {
        Some(x) => Some(*x),
        None => None,
    }
}

/// A rendered document body plus the folder its file references live under.
pub struct Rendered {
    /// The HTML fragment (no `<html>` wrapper — see `wrap_html`).
    pub body: String,
    /// The folder the document virtual host must serve so every rewritten
    /// image URL resolves; `None` when rendering without a `base_dir`.
    pub serve_root: Option<String>,
}

/// The view of an optional string.
pub open spec fn opt_string_view(o: Option<String>) -> Option<Seq<char>> {
    match o {
        Some(t) => Some(t@),
        None => None,
    }
}

/// The serve root `render` reports: that of the BOM-stripped text.
pub open spec fn render_root(style: PathStyle, 
    markdown: Seq<char>,
    base: Option<Seq<char>>,
    fs: Seq<(Seq<char>, Option<Seq<u8>>)>,
) -> Option<Seq<char>> {
    match base {
        Some(b) => Some(spec_serve_root_for(style, spec_strip_bom(markdown), b, fs)),
        None => None,
    }
}

/// The output stream `render` hands to the HTML writer.
pub open spec fn render_stream<H: LinkRewrite>(style: PathStyle, cwd: Option<Seq<char>>, 
    markdown: Seq<char>,
    base: Option<Seq<char>>,
    doc: Option<Seq<char>>,
    hook: Option<H>,
    fs: Seq<(Seq<char>, Option<Seq<u8>>)>,
) -> Seq<PieceV> {
    pieces_from(style, cwd, 
        parsed_events(spec_strip_bom(markdown), suite_options()),
        0,
        false,
        seq![],
        base,
        render_root(style, markdown, base, fs),
        doc,
        hook,
        fs,
    )
}

/// Applies one event to the output stream (see [`step_spec`]).
fn render_step<H: LinkRewrite>(style: PathStyle, 
    e: &MdEvent,
    i: usize,
    in_mermaid: &mut bool,
    src: &mut String,
    out: &mut Vec<Piece>,
    opts: &RenderOptions<H>,
    serve_root: &Option<String>,
    facts: &FileFacts,
)
    requires
        opt_view(opts.base_dir) is Some <==> serve_root is Some,
    ensures
        ({
            let st = step_spec(
                style,
                opt_view(opts.working_dir),
                e@,
                i as int,
                *old(in_mermaid),
                old(src)@,
                opt_view(opts.base_dir),
                opt_string_view(*serve_root),
                opt_view(opts.doc_url_base),
                opt_hook(opts.md_link_rewrite),
                facts@,
            );
            &&& piece_views(final(out)@) == piece_views(old(out)@) + st.0
            &&& *final(in_mermaid) == st.1
            &&& final(src)@ == st.2
            &&& pieces_at(st.0, i as int)
        }),
{
    let ghost before = piece_views(out@);
    if let MdEvent::Fence(info) = e {
        if is_mermaid(info.as_str()) {
            *in_mermaid = true;
            *src = empty_string();
            proof {
                assert(piece_views(out@) =~= before + Seq::<PieceV>::empty());
            }
            return;
        }
    }
    if *in_mermaid {
        match e {
            MdEvent::Text(t) => {
                push_str(src, t.as_str());
                proof {
                    assert(piece_views(out@) =~= before + Seq::<PieceV>::empty());
                }
                return;
            },
            MdEvent::End(Block::CodeBlock) => {
                *in_mermaid = false;
                let mut block = empty_string();
                push_str(&mut block, "<pre class=\"mermaid\">");
                let esc = escape_html(src.as_str());
                push_str(&mut block, esc.as_str());
                push_str(&mut block, "</pre>\n");
                let ghost bv = block@;
                out.push(Piece::Html(block));
                proof {
                    assert(piece_views(out@) =~= before + seq![PieceV::Html(bv)]);
                }
                return;
            },
            _ => {},
        }
    }
    match e {
        MdEvent::Image(d) => {
            match (opts.base_dir, serve_root, opts.doc_url_base) {
                (Some(b), Some(r), Some(u)) => {
                    let nd = rewrite_image_dest(style, d.as_str(), b, r.as_str(), u, facts);
                    let ghost nv = nd@;
                    out.push(Piece::Dest(i, nd));
                    proof {
                        assert(piece_views(out@) =~= before + seq![PieceV::Dest(i as int, nv)]);
                    }
                },
                _ => {
                    out.push(Piece::Keep(i));
                    proof {
                        assert(piece_views(out@) =~= before + seq![PieceV::Keep(i as int)]);
                    }
                },
            }
        },
        MdEvent::Link(d) => {
            match (opts.base_dir, opts.md_link_rewrite) {
                (Some(b), Some(h)) => {
                    let nd = rewrite_md_link(style, opts.working_dir, d.as_str(), b, h, facts);
                    let ghost nv = nd@;
                    out.push(Piece::Dest(i, nd));
                    proof {
                        assert(piece_views(out@) =~= before + seq![PieceV::Dest(i as int, nv)]);
                    }
                },
                _ => {
                    out.push(Piece::Keep(i));
                    proof {
                        assert(piece_views(out@) =~= before + seq![PieceV::Keep(i as int)]);
                    }
                },
            }
        },
        _ => {
            out.push(Piece::Keep(i));
            proof {
                assert(piece_views(out@) =~= before + seq![PieceV::Keep(i as int)]);
            }
        },
    }
}

/// The output stream for the events `evs` of a document (see
/// [`pieces_from`]): what [`render`] hands to the HTML writer, given the
/// serve root it computed (`Some` exactly when `opts.base_dir` is).
#[verifier::rlimit(100)]
#[verifier::spinoff_prover]
pub fn stream_pieces<H: LinkRewrite>(
    style: PathStyle,
    evs: &Vec<MdEvent>,
    opts: &RenderOptions<H>,
    serve_root: &Option<String>,
    facts: &FileFacts,
) -> (out: Vec<Piece>)
    requires
        opt_view(opts.base_dir) is Some <==> serve_root is Some,
    ensures
        piece_views(out@) == pieces_from(
            style,
            opt_view(opts.working_dir),
            event_views(evs@),
            0,
            false,
            seq![],
            opt_view(opts.base_dir),
            opt_string_view(*serve_root),
            opt_view(opts.doc_url_base),
            opt_hook(opts.md_link_rewrite),
            facts@,
        ),
        pieces_in_range(piece_views(out@), evs@.len() as int),
{
    let ghost ev = event_views(evs@);
    let ghost cwd = opt_view(opts.working_dir);
    let ghost base = opt_view(opts.base_dir);
    let ghost root = opt_string_view(*serve_root);
    let ghost doc = opt_view(opts.doc_url_base);
    let ghost hook = opt_hook(opts.md_link_rewrite);
    let mut out: Vec<Piece> = Vec::new();
    let mut in_mermaid = false;
    let mut src = empty_string();
    let mut i: usize = 0;
    while i < evs.len()
        invariant
            i <= evs@.len(),
            ev == event_views(evs@),
            cwd == opt_view(opts.working_dir),
            base == opt_view(opts.base_dir),
            root == opt_string_view(*serve_root),
            opt_view(opts.base_dir) is Some <==> serve_root is Some,
            doc == opt_view(opts.doc_url_base),
            hook == opt_hook(opts.md_link_rewrite),
            piece_views(out@) + pieces_from(style, cwd, ev, i as int, in_mermaid, src@, base, root, doc, hook, facts@)
                == pieces_from(style, cwd, ev, 0, false, seq![], base, root, doc, hook, facts@),
            forall|j: int|
                0 <= j < out@.len() ==> match #[trigger] piece_views(out@)[j] {
                    PieceV::Keep(k) => 0 <= k < i,
                    PieceV::Html(_) => true,
                    PieceV::Dest(k, _) => 0 <= k < i,
                },
        decreases evs.len() - i,
    {
        let ghost before = piece_views(out@);
        let ghost st = step_spec(style, cwd, ev[i as int], i as int, in_mermaid, src@, base, root, doc, hook, facts@);
        proof {
            assert(ev[i as int] == evs@[i as int]@);
        }
        render_step(style, &evs[i], i, &mut in_mermaid, &mut src, &mut out, opts, serve_root, facts);
        proof {
            assert(piece_views(out@) == before + st.0);
            assert forall|j: int| 0 <= j < out@.len() implies match #[trigger] piece_views(out@)[j] {
                PieceV::Keep(k) => 0 <= k < i + 1,
                PieceV::Html(_) => true,
                PieceV::Dest(k, _) => 0 <= k < i + 1,
            } by {
                if j >= before.len() {
                    assert(piece_views(out@)[j] == st.0[j - before.len()]);
                } else {
                    assert(piece_views(out@)[j] == before[j]);
                }
            }
        }
        i += 1;
    }
    proof {
        assert(piece_views(out@) =~= piece_views(out@) + Seq::<PieceV>::empty());
    }
    out
}

/// Render markdown to an HTML fragment according to `opts` (see
/// [`RenderOptions`] and [`Rendered`]).
pub fn render<H: LinkRewrite>(style: PathStyle, markdown: &str, opts: &RenderOptions<H>, facts: &FileFacts) -> (res:
    Rendered)
    ensures
        res.body@ == rendered_html(
            spec_strip_bom(markdown@),
            suite_options(),
            render_stream(
                style,
                opt_view(opts.working_dir),
                markdown@,
                opt_view(opts.base_dir),
                opt_view(opts.doc_url_base),
                opt_hook(opts.md_link_rewrite),
                facts@,
            ),
        ),
        opt_string_view(res.serve_root) == render_root(style, markdown@, opt_view(opts.base_dir), facts@),
{
    let md = strip_bom(markdown);
    let serve_root = match opts.base_dir {
        Some(dir) => Some(serve_root_for(style, md, dir, facts)),
        None => None,
    };
    let evs = parse_events(md, md_options());
    let out = stream_pieces(style, &evs, opts, &serve_root, facts);
    let body = render_pieces(md, md_options(), &out);
    Rendered { body, serve_root }
}

/// No piece of `ps` gives an image or link a new destination.
pub open spec fn keeps_destinations(ps: Seq<PieceV>) -> bool {
    forall|j: int| 0 <= j < ps.len() ==> !(#[trigger] ps[j] is Dest)
}

proof fn lemma_pieces_keep_without_base<H: LinkRewrite>(style: PathStyle, cwd: Option<Seq<char>>, 
    evs: Seq<MdEventV>,
    i: int,
    in_mermaid: bool,
    src: Seq<char>,
    root: Option<Seq<char>>,
    doc: Option<Seq<char>>,
    hook: Option<H>,
    fs: Seq<(Seq<char>, Option<Seq<u8>>)>,
)
    ensures
        keeps_destinations(pieces_from(style, cwd, evs, i, in_mermaid, src, None, root, doc, hook, fs)),
    decreases evs.len() - i,
{
    if 0 <= i < evs.len() {
        let st = step_spec(style, cwd, evs[i], i, in_mermaid, src, None, root, doc, hook, fs);
        lemma_pieces_keep_without_base(style, cwd, evs, i + 1, st.1, st.2, root, doc, hook, fs);
        let rest = pieces_from(style, cwd, evs, i + 1, st.1, st.2, None, root, doc, hook, fs);
        assert forall|j: int| 0 <= j < (st.0 + rest).len() implies !(#[trigger] (st.0 + rest)[j] is Dest) by {
            if j < st.0.len() {
                assert((st.0 + rest)[j] == st.0[j]);
            } else {
                assert((st.0 + rest)[j] == rest[j - st.0.len()]);
            }
        }
    }
}

/// Without a base folder, rendering leaves every image and link
/// destination as written: the output stream gives none a new destination.
pub proof fn law_no_base_dir_keeps_destinations<H: LinkRewrite>(style: PathStyle, cwd: Option<Seq<char>>, 
    markdown: Seq<char>,
    doc: Option<Seq<char>>,
    hook: Option<H>,
    fs: Seq<(Seq<char>, Option<Seq<u8>>)>,
)
    ensures
        keeps_destinations(render_stream(style, cwd, markdown, None, doc, hook, fs)),
{
    lemma_pieces_keep_without_base(style, cwd, 
        parsed_events(spec_strip_bom(markdown), suite_options()),
        0,
        false,
        seq![],
        render_root(style, markdown, None, fs),
        doc,
        hook,
        fs,
    );
}

proof fn lemma_pieces_without_base<H: LinkRewrite>(
    style: PathStyle,
    cwd: Option<Seq<char>>,
    evs: Seq<MdEventV>,
    i: int,
    in_mermaid: bool,
    src: Seq<char>,
    root: Option<Seq<char>>,
    doc: Option<Seq<char>>,
    hook: Option<H>,
    fs: Seq<(Seq<char>, Option<Seq<u8>>)>,
)
    ensures
        pieces_from(style, cwd, evs, i, in_mermaid, src, None, root, doc, hook, fs) == pieces_from(
            style,
            None,
            evs,
            i,
            in_mermaid,
            src,
            None,
            None,
            None,
            None::<H>,
            Seq::empty(),
        ),
    decreases evs.len() - i,
{
    if 0 <= i < evs.len() {
        let st = step_spec(style, cwd, evs[i], i, in_mermaid, src, None, root, doc, hook, fs);
        let st2 = step_spec(style, None, evs[i], i, in_mermaid, src, None, None, None, None::<H>, Seq::empty());
        assert(st == st2);
        lemma_pieces_without_base(style, cwd, evs, i + 1, st.1, st.2, root, doc, hook, fs);
    }
}

/// Without a base folder, rendering is the default rendering: no serve root,
/// and an output stream that depends neither on the document base URL, nor
/// on the link hook (which is never called), nor on the working folder, nor
/// on what is known of the disk.
pub proof fn law_render_without_base_dir<H: LinkRewrite>(
    style: PathStyle,
    cwd: Option<Seq<char>>,
    markdown: Seq<char>,
    doc: Option<Seq<char>>,
    hook: Option<H>,
    fs: Seq<(Seq<char>, Option<Seq<u8>>)>,
)
    ensures
        render_root(style, markdown, None, fs) is None,
        render_stream(style, cwd, markdown, None, doc, hook, fs) == render_stream(
            style,
            None,
            markdown,
            None,
            None,
            None::<H>,
            Seq::empty(),
        ),
{
    lemma_pieces_without_base(
        style,
        cwd,
        parsed_events(spec_strip_bom(markdown), suite_options()),
        0,
        false,
        seq![],
        None,
        doc,
        hook,
        fs,
    );
}

/// The document base URL [`markdown_to_html`] serves images from.
pub open spec fn default_doc_base(base_dir: Option<Seq<char>>) -> Option<Seq<char>> {
    match base_dir {
        Some(_) => Some("https://mdfiles.doc"@),
        None => None,
    }
}

/// Render markdown to an HTML fragment, serving local images from
/// `https://mdfiles.doc` when `base_dir` is given and leaving links as
/// written. Convenience wrapper over [`render`] for callers that only need
/// the body.
pub fn markdown_to_html(style: PathStyle, markdown: &str, base_dir: Option<&str>, facts: &FileFacts) -> (res: String)
    ensures
        res@ == rendered_html(
            spec_strip_bom(markdown@),
            suite_options(),
            render_stream(
                style,
                None,
                markdown@,
                opt_view(base_dir),
                default_doc_base(opt_view(base_dir)),
                None::<PageLinks>,
                facts@,
            ),
        ),
{
    let doc_base: Option<&str> = match base_dir {
        Some(_) => Some("https://mdfiles.doc"),
        None => None,
    };
    let opts: RenderOptions<PageLinks> = RenderOptions {
        base_dir,
        doc_url_base: doc_base,
        md_link_rewrite: None,
        working_dir: None,
    };
    render(style, markdown, &opts, facts).body
}

// ---------------------------------------------------------------------------
// What the caller must find out about the disk
// ---------------------------------------------------------------------------

/// The normalized paths of the local images among `evs`, from `base`.
pub open spec fn image_targets(style: PathStyle, evs: Seq<MdEventV>, base: Seq<char>) -> Seq<Seq<char>>
    decreases evs.len(),
{
    if evs.len() == 0 {
        seq![]
    } else {
        image_targets(style, evs.drop_last(), base) + match evs.last() {
            MdEventV::Image(d) => if spec_is_local_dest(d) {
                seq![local_target(style, base, d)]
            } else {
                seq![]
            },
            _ => seq![],
        }
    }
}

/// The normalized paths of the markdown files linked among `evs`, from `base`.
pub open spec fn link_targets(style: PathStyle, cwd: Option<Seq<char>>, evs: Seq<MdEventV>, base: Seq<char>) -> Seq<Seq<char>>
    decreases evs.len(),
{
    if evs.len() == 0 {
        seq![]
    } else {
        link_targets(style, cwd, evs.drop_last(), base) + match evs.last() {
            MdEventV::Link(d) => match md_link_target(style, cwd, d, base) {
                Some((abs, _)) => seq![abs],
                None => seq![],
            },
            _ => seq![],
        }
    }
}

/// Every path [`render`] asks [`FileFacts`] about: the images as the serve
/// root sees them, the images as they are rewritten, and the linked
/// markdown files.
pub open spec fn spec_disk_queries(style: PathStyle, cwd: Option<Seq<char>>, markdown: Seq<char>, base_dir: Seq<char>) -> Seq<Seq<char>> {
    let m1 = spec_strip_bom(markdown);
    let m2 = spec_strip_bom(m1);
    image_targets(style, parsed_events(m2, suite_options()), spec_normalize_path(style, base_dir)) + image_targets(style, 
        parsed_events(m1, suite_options()),
        base_dir,
    ) + link_targets(style, cwd, parsed_events(m1, suite_options()), base_dir)
}

/// The paths among `evs` that [`rewrite_image_dest`] would inline: existing
/// image files outside the serve root.
pub open spec fn inline_targets(style: PathStyle, 
    evs: Seq<MdEventV>,
    base: Seq<char>,
    root: Seq<char>,
    fs: Seq<(Seq<char>, Option<Seq<u8>>)>,
) -> Seq<Seq<char>>
    decreases evs.len(),
{
    if evs.len() == 0 {
        seq![]
    } else {
        inline_targets(style, evs.drop_last(), base, root, fs) + match evs.last() {
            MdEventV::Image(d) => if spec_is_local_dest(d) && fact_is_file(fs, local_target(style, base, d))
                && strip_comps(spec_components(style, local_target(style, base, d)), spec_components(style, root)) is None {
                seq![local_target(style, base, d)]
            } else {
                seq![]
            },
            _ => seq![],
        }
    }
}

/// The image files whose contents [`render`] inlines.
pub open spec fn spec_inline_queries(style: PathStyle, 
    markdown: Seq<char>,
    base_dir: Seq<char>,
    fs: Seq<(Seq<char>, Option<Seq<u8>>)>,
) -> Seq<Seq<char>> {
    let m1 = spec_strip_bom(markdown);
    inline_targets(style, parsed_events(m1, suite_options()), base_dir, spec_serve_root_for(style, m1, base_dir, fs), fs)
}

/// `fs1` and `fs2` agree on which of `paths` are existing files.
pub open spec fn agree_on_files(
    fs1: Seq<(Seq<char>, Option<Seq<u8>>)>,
    fs2: Seq<(Seq<char>, Option<Seq<u8>>)>,
    paths: Seq<Seq<char>>,
) -> bool {
    forall|k: int| 0 <= k < paths.len() ==> fact_is_file(fs1, #[trigger] paths[k]) == fact_is_file(fs2, paths[k])
}

/// `fs1` and `fs2` agree on the contents read of `paths`.
pub open spec fn agree_on_reads(
    fs1: Seq<(Seq<char>, Option<Seq<u8>>)>,
    fs2: Seq<(Seq<char>, Option<Seq<u8>>)>,
    paths: Seq<Seq<char>>,
) -> bool {
    forall|k: int| 0 <= k < paths.len() ==> fact_read(fs1, #[trigger] paths[k]) == fact_read(fs2, paths[k])
}

proof fn lemma_listed_files_agree(
    fs1: Seq<(Seq<char>, Option<Seq<u8>>)>,
    fs2: Seq<(Seq<char>, Option<Seq<u8>>)>,
    a: Seq<Seq<char>>,
    b: Seq<Seq<char>>,
)
    requires
        agree_on_files(fs1, fs2, a + b),
    ensures
        agree_on_files(fs1, fs2, a),
        agree_on_files(fs1, fs2, b),
{
    assert forall|k: int| 0 <= k < a.len() implies fact_is_file(fs1, #[trigger] a[k]) == fact_is_file(fs2, a[k]) by {
        assert((a + b)[k] == a[k]);
    }
    assert forall|k: int| 0 <= k < b.len() implies fact_is_file(fs1, #[trigger] b[k]) == fact_is_file(fs2, b[k]) by {
        assert((a + b)[k + a.len()] == b[k]);
    }
}

/// The image at `evs[j]`, if local, has its target among the image targets.
proof fn lemma_image_target_listed(style: PathStyle, evs: Seq<MdEventV>, base: Seq<char>, j: int)
    requires
        0 <= j < evs.len(),
        evs[j] is Image,
        spec_is_local_dest(evs[j]->Image_0),
    ensures
        image_targets(style, evs, base).contains(local_target(style, base, evs[j]->Image_0)),
    decreases evs.len(),
{
    let d = evs.drop_last();
    let t = image_targets(style, d, base);
    if j == evs.len() - 1 {
        assert(evs.last() == evs[j]);
        let x = local_target(style, base, evs[j]->Image_0);
        assert(image_targets(style, evs, base) == t + seq![x]);
        assert((t + seq![x])[t.len() as int] == x);
    } else {
        assert(d[j] == evs[j]);
        lemma_image_target_listed(style, d, base, j);
        let x = local_target(style, base, evs[j]->Image_0);
        let k = choose|k: int| 0 <= k < t.len() && t[k] == x;
        let tail: Seq<Seq<char>> = match evs.last() {
            MdEventV::Image(dd) => if spec_is_local_dest(dd) {
                seq![local_target(style, base, dd)]
            } else {
                seq![]
            },
            _ => seq![],
        };
        assert(image_targets(style, evs, base) == t + tail);
        assert((t + tail)[k] == x);
    }
}

/// The link at `evs[j]`, if it names a markdown file, has that file among
/// the link targets.
proof fn lemma_link_target_listed(style: PathStyle, cwd: Option<Seq<char>>, evs: Seq<MdEventV>, base: Seq<char>, j: int)
    requires
        0 <= j < evs.len(),
        evs[j] is Link,
        md_link_target(style, cwd, evs[j]->Link_0, base) is Some,
    ensures
        link_targets(style, cwd, evs, base).contains(md_link_target(style, cwd, evs[j]->Link_0, base)->Some_0.0),
    decreases evs.len(),
{
    let d = evs.drop_last();
    let t = link_targets(style, cwd, d, base);
    let x = md_link_target(style, cwd, evs[j]->Link_0, base)->Some_0.0;
    if j == evs.len() - 1 {
        assert(evs.last() == evs[j]);
        assert(link_targets(style, cwd, evs, base) == t + seq![x]);
        assert((t + seq![x])[t.len() as int] == x);
    } else {
        assert(d[j] == evs[j]);
        lemma_link_target_listed(style, cwd, d, base, j);
        let k = choose|k: int| 0 <= k < t.len() && t[k] == x;
        let tail: Seq<Seq<char>> = match evs.last() {
            MdEventV::Link(dd) => match md_link_target(style, cwd, dd, base) {
                Some((abs, _)) => seq![abs],
                None => seq![],
            },
            _ => seq![],
        };
        assert(link_targets(style, cwd, evs, base) == t + tail);
        assert((t + tail)[k] == x);
    }
}

/// The image at `evs[j]`, if it is inlined, has its target among the inline
/// targets.
proof fn lemma_inline_target_listed(style: PathStyle, 
    evs: Seq<MdEventV>,
    base: Seq<char>,
    root: Seq<char>,
    fs: Seq<(Seq<char>, Option<Seq<u8>>)>,
    j: int,
)
    requires
        0 <= j < evs.len(),
        evs[j] is Image,
        spec_is_local_dest(evs[j]->Image_0),
        fact_is_file(fs, local_target(style, base, evs[j]->Image_0)),
        strip_comps(spec_components(style, local_target(style, base, evs[j]->Image_0)), spec_components(style, root)) is None,
    ensures
        inline_targets(style, evs, base, root, fs).contains(local_target(style, base, evs[j]->Image_0)),
    decreases evs.len(),
{
    let d = evs.drop_last();
    let t = inline_targets(style, d, base, root, fs);
    let x = local_target(style, base, evs[j]->Image_0);
    if j == evs.len() - 1 {
        assert(evs.last() == evs[j]);
        assert(inline_targets(style, evs, base, root, fs) == t + seq![x]);
        assert((t + seq![x])[t.len() as int] == x);
    } else {
        assert(d[j] == evs[j]);
        lemma_inline_target_listed(style, d, base, root, fs, j);
        let k = choose|k: int| 0 <= k < t.len() && t[k] == x;
        let tail: Seq<Seq<char>> = match evs.last() {
            MdEventV::Image(dd) => if spec_is_local_dest(dd) && fact_is_file(fs, local_target(style, base, dd))
                && strip_comps(spec_components(style, local_target(style, base, dd)), spec_components(style, root)) is None {
                seq![local_target(style, base, dd)]
            } else {
                seq![]
            },
            _ => seq![],
        };
        assert(inline_targets(style, evs, base, root, fs) == t + tail);
        assert((t + tail)[k] == x);
    }
}

/// Both fact sets know the image at `evs[j]`'s file alike (or it is no
/// local image).
pub open spec fn image_file_agrees(style: PathStyle, 
    e: MdEventV,
    base: Seq<char>,
    fs1: Seq<(Seq<char>, Option<Seq<u8>>)>,
    fs2: Seq<(Seq<char>, Option<Seq<u8>>)>,
) -> bool {
    match e {
        MdEventV::Image(d) => spec_is_local_dest(d) ==> fact_is_file(fs1, local_target(style, base, d))
            == fact_is_file(fs2, local_target(style, base, d)),
        _ => true,
    }
}

proof fn lemma_root_from_agree(style: PathStyle, 
    evs: Seq<MdEventV>,
    i: int,
    root: Seq<char>,
    base: Seq<char>,
    fs1: Seq<(Seq<char>, Option<Seq<u8>>)>,
    fs2: Seq<(Seq<char>, Option<Seq<u8>>)>,
)
    requires
        forall|j: int| i <= j < evs.len() ==> image_file_agrees(style, #[trigger] evs[j], base, fs1, fs2),
    ensures
        root_from(style, evs, i, root, base, fs1) == root_from(style, evs, i, root, base, fs2),
    decreases evs.len() - i,
{
    if 0 <= i < evs.len() {
        assert(image_file_agrees(style, evs[i], base, fs1, fs2));
        let next = match evs[i] {
            MdEventV::Image(d) => widen_root(style, root, base, d, fs1),
            _ => root,
        };
        lemma_root_from_agree(style, evs, i + 1, next, base, fs1, fs2);
    }
}

/// Both fact sets make the same piece of `evs[j]`: they agree on the files
/// its image or link names, and on the contents of an image file outside
/// the serve root.
pub open spec fn piece_facts_agree(style: PathStyle, cwd: Option<Seq<char>>, 
    e: MdEventV,
    base: Seq<char>,
    root: Seq<char>,
    fs1: Seq<(Seq<char>, Option<Seq<u8>>)>,
    fs2: Seq<(Seq<char>, Option<Seq<u8>>)>,
) -> bool {
    match e {
        MdEventV::Image(d) => spec_is_local_dest(d) ==> {
            let abs = local_target(style, base, d);
            &&& fact_is_file(fs1, abs) == fact_is_file(fs2, abs)
            &&& (fact_is_file(fs1, abs) && strip_comps(spec_components(style, abs), spec_components(style, root)) is None)
                ==> fact_read(fs1, abs) == fact_read(fs2, abs)
        },
        MdEventV::Link(d) => match md_link_target(style, cwd, d, base) {
            Some((abs, _)) => fact_is_file(fs1, abs) == fact_is_file(fs2, abs),
            None => true,
        },
        _ => true,
    }
}

proof fn lemma_pieces_agree<H: LinkRewrite>(style: PathStyle, cwd: Option<Seq<char>>, 
    evs: Seq<MdEventV>,
    i: int,
    in_mermaid: bool,
    src: Seq<char>,
    base: Seq<char>,
    root: Seq<char>,
    doc: Option<Seq<char>>,
    hook: Option<H>,
    fs1: Seq<(Seq<char>, Option<Seq<u8>>)>,
    fs2: Seq<(Seq<char>, Option<Seq<u8>>)>,
)
    requires
        forall|j: int| i <= j < evs.len() ==> piece_facts_agree(style, cwd, #[trigger] evs[j], base, root, fs1, fs2),
    ensures
        pieces_from(style, cwd, evs, i, in_mermaid, src, Some(base), Some(root), doc, hook, fs1) == pieces_from(style, cwd, 
            evs,
            i,
            in_mermaid,
            src,
            Some(base),
            Some(root),
            doc,
            hook,
            fs2,
        ),
    decreases evs.len() - i,
{
    if 0 <= i < evs.len() {
        assert(piece_facts_agree(style, cwd, evs[i], base, root, fs1, fs2));
        let st1 = step_spec(style, cwd, evs[i], i, in_mermaid, src, Some(base), Some(root), doc, hook, fs1);
        let st2 = step_spec(style, cwd, evs[i], i, in_mermaid, src, Some(base), Some(root), doc, hook, fs2);
        assert(st1 == st2);
        lemma_pieces_agree(style, cwd, evs, i + 1, st1.1, st1.2, base, root, doc, hook, fs1, fs2);
    }
}

/// Rendering needs to know of the disk only what [`disk_queries`] and
/// [`inline_queries`] ask: two fact sets that agree on which of the queried
/// paths are files, and on the contents of the files to inline, render a
/// document alike — the same serve root and the same output stream.
pub proof fn law_render_needs_only_queried_facts<H: LinkRewrite>(style: PathStyle, cwd: Option<Seq<char>>, 
    markdown: Seq<char>,
    base: Seq<char>,
    doc: Option<Seq<char>>,
    hook: Option<H>,
    fs1: Seq<(Seq<char>, Option<Seq<u8>>)>,
    fs2: Seq<(Seq<char>, Option<Seq<u8>>)>,
)
    requires
        agree_on_files(fs1, fs2, spec_disk_queries(style, cwd, markdown, base)),
        agree_on_reads(fs1, fs2, spec_inline_queries(style, markdown, base, fs1)),
    ensures
        render_root(style, markdown, Some(base), fs1) == render_root(style, markdown, Some(base), fs2),
        render_stream(style, cwd, markdown, Some(base), doc, hook, fs1) == render_stream(style, cwd, 
            markdown,
            Some(base),
            doc,
            hook,
            fs2,
        ),
{
    let m1 = spec_strip_bom(markdown);
    let m2 = spec_strip_bom(m1);
    let nb = spec_normalize_path(style, base);
    let e1 = parsed_events(m1, suite_options());
    let e2 = parsed_events(m2, suite_options());
    let q1 = image_targets(style, e2, nb);
    let q2 = image_targets(style, e1, base);
    let q3 = link_targets(style, cwd, e1, base);
    assert(spec_disk_queries(style, cwd, markdown, base) == q1 + q2 + q3);
    lemma_listed_files_agree(fs1, fs2, q1 + q2, q3);
    lemma_listed_files_agree(fs1, fs2, q1, q2);
    assert forall|j: int| 0 <= j < e2.len() implies image_file_agrees(style, #[trigger] e2[j], nb, fs1, fs2) by {
        if e2[j] is Image && spec_is_local_dest(e2[j]->Image_0) {
            lemma_image_target_listed(style, e2, nb, j);
        }
    }
    lemma_root_from_agree(style, e2, 0, nb, nb, fs1, fs2);
    let root = spec_serve_root_for(style, m1, base, fs1);
    assert(root == spec_serve_root_for(style, m1, base, fs2));
    let q4 = spec_inline_queries(style, markdown, base, fs1);
    assert(q4 == inline_targets(style, e1, base, root, fs1));
    assert forall|j: int| 0 <= j < e1.len() implies piece_facts_agree(style, cwd, #[trigger] e1[j], base, root, fs1, fs2) by {
        if e1[j] is Image && spec_is_local_dest(e1[j]->Image_0) {
            lemma_image_target_listed(style, e1, base, j);
            let abs = local_target(style, base, e1[j]->Image_0);
            if fact_is_file(fs1, abs) && strip_comps(spec_components(style, abs), spec_components(style, root)) is None {
                lemma_inline_target_listed(style, e1, base, root, fs1, j);
            }
        }
        if e1[j] is Link && md_link_target(style, cwd, e1[j]->Link_0, base) is Some {
            lemma_link_target_listed(style, cwd, e1, base, j);
        }
    }
    lemma_pieces_agree(style, cwd, e1, 0, false, seq![], base, root, doc, hook, fs1, fs2);
}

/// The views of a sequence of strings.
pub open spec fn string_views(v: Seq<String>) -> Seq<Seq<char>> {
    v.map_values(|s: String| s@)
}

/// Appends the targets among `evs` of the kind `links` selects.
fn collect_targets(style: PathStyle, cwd: Option<&str>, evs: &Vec<MdEvent>, base: &str, links: bool, out: &mut Vec<String>)
    ensures
        string_views(final(out)@) == string_views(old(out)@) + if links {
            link_targets(style, opt_view(cwd), event_views(evs@), base@)
        } else {
            image_targets(style, event_views(evs@), base@)
        },
{
    let ghost start = string_views(out@);
    let ghost ev = event_views(evs@);
    let mut i: usize = 0;
    proof {
        assert(ev.take(0) =~= Seq::<MdEventV>::empty());
        assert(string_views(out@) =~= start + Seq::<Seq<char>>::empty());
    }
    while i < evs.len()
        invariant
            i <= evs@.len(),
            ev == event_views(evs@),
            string_views(out@) == start + if links {
                link_targets(style, opt_view(cwd), ev.take(i as int), base@)
            } else {
                image_targets(style, ev.take(i as int), base@)
            },
        decreases evs.len() - i,
    {
        let ghost t = ev.take(i as int + 1);
        let ghost before = string_views(out@);
        proof {
            assert(t.drop_last() == ev.take(i as int));
            assert(t.last() == evs@[i as int]@);
        }
        match &evs[i] {
            MdEvent::Image(d) => {
                if !links && is_local_dest(d.as_str()) {
                    let abs = local_target_of(style, base, d.as_str());
                    out.push(abs);
                }
            },
            MdEvent::Link(d) => {
                if links {
                    if let Some((abs, _)) = md_link_target_of(style, cwd, d.as_str(), base) {
                        out.push(abs);
                    }
                }
            },
            _ => {},
        }
        proof {
            assert(string_views(out@) =~= before + string_views(out@).skip(before.len() as int));
        }
        i += 1;
    }
    proof {
        assert(ev.take(evs@.len() as int) == ev);
    }
}

/// The normalized paths whose existence as regular files [`render`] depends
/// on for this document and base folder (see [`spec_disk_queries`]).
pub fn disk_queries(style: PathStyle, cwd: Option<&str>, markdown: &str, base_dir: &str) -> (res: Vec<String>)
    ensures
        string_views(res@) == spec_disk_queries(style, opt_view(cwd), markdown@, base_dir@),
{
    let m1 = strip_bom(markdown);
    let m2 = strip_bom(m1);
    let nb = normalize_path(style, base_dir);
    let mut out: Vec<String> = Vec::new();
    proof {
        assert(string_views(out@) =~= Seq::<Seq<char>>::empty());
    }
    let e2 = parse_events(m2, md_options());
    collect_targets(style, cwd, &e2, nb.as_str(), false, &mut out);
    let e1 = parse_events(m1, md_options());
    collect_targets(style, cwd, &e1, base_dir, false, &mut out);
    collect_targets(style, cwd, &e1, base_dir, true, &mut out);
    out
}

/// The image files among those known to exist whose contents [`render`]
/// inlines as `data:` URIs: those outside the serve root.
pub fn inline_queries(style: PathStyle, markdown: &str, base_dir: &str, facts: &FileFacts) -> (res: Vec<String>)
    ensures
        string_views(res@) == spec_inline_queries(style, markdown@, base_dir@, facts@),
{
    let m1 = strip_bom(markdown);
    let root = serve_root_for(style, m1, base_dir, facts);
    let rc = components(style, root.as_str());
    let evs = parse_events(m1, md_options());
    let ghost ev = event_views(evs@);
    let mut out: Vec<String> = Vec::new();
    let mut i: usize = 0;
    proof {
        assert(ev.take(0) =~= Seq::<MdEventV>::empty());
        assert(string_views(out@) =~= Seq::<Seq<char>>::empty());
    }
    while i < evs.len()
        invariant
            i <= evs@.len(),
            ev == event_views(evs@),
            comp_views(rc@) == spec_components(style, root@),
            string_views(out@) == inline_targets(style, ev.take(i as int), base_dir@, root@, facts@),
        decreases evs.len() - i,
    {
        let ghost t = ev.take(i as int + 1);
        let ghost before = string_views(out@);
        proof {
            assert(t.drop_last() == ev.take(i as int));
            assert(t.last() == evs@[i as int]@);
        }
        if let MdEvent::Image(d) = &evs[i] {
            if is_local_dest(d.as_str()) {
                let abs = local_target_of(style, base_dir, d.as_str());
                let ac = chars_of(abs.as_str());
                if facts.find(&ac).is_some() {
                    let cs = components(style, abs.as_str());
                    if !comps_start_with(&cs, &rc) {
                        out.push(abs);
                    }
                }
            }
        }
        proof {
            assert(string_views(out@) =~= before + string_views(out@).skip(before.len() as int));
        }
        i += 1;
    }
    proof {
        assert(ev.take(evs@.len() as int) == ev);
    }
    out
}

} // verus!
