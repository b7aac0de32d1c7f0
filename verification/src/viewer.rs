//! The reader's URL scheme: every page is served on demand through the
//! `mdfiles` protocol. A page URL carries the percent-encoded absolute path
//! of the markdown file it renders; image URLs carry their serve root.
use vstd::prelude::*;
use crate::text::{
    chars_eq_str, chars_of, empty_string, find_char, index_of, lemma_index_of, lemma_split_nonempty,
    opt_view, push_str, spec_split, split_chars, starts_with_str, string_of_chars, sub_chars, views,
};
use crate::uri::{
    law_percent_decode_inverts_encode, law_percent_encoding_lacks_reserved, percent_decode,
    percent_encode, spec_percent_decode, spec_percent_encode, escape_html, spec_escape_html,
};
use crate::text::{lacks, lemma_lacks_index_of, lemma_split_append_sep, lemma_split_single};
use crate::paths::{
    dot_dot, piece_comp, piece_comps, push_path, pushed_comps, lemma_components_push,
    spec_components, CompV,
};
use crate::paths::{
    drive_free, lemma_normalized_rooted, lemma_rooted_comps_split, lemma_rooted_comps_string,
    lemma_rooted_strip, name_comps, npath_comps, path_string, root_head, rooted, segs_prefix,
    strip_comps, style_name, style_names, valid_root_prefix,
};
use crate::render::{
    render, render_root, render_stream, serve_root_for, spec_serve_root_for, FileFacts, LinkRewrite,
    RenderOptions,
};
use crate::render::{
    fact_is_file, image_covered, image_dest_of, lemma_pieces_image_dests, lemma_root_from_covers,
    lemma_same_root_normalized, lemma_target_from_normalized, local_target, pieces_from, same_root,
    served_url,
};
use crate::markdown::{parsed_events, MdEventV, PieceV};
use crate::uri::spec_is_local_dest;
use crate::paths::{lemma_rooted_components, norm_comps, spec_normalize_path};
use crate::markdown::{rendered_html, spec_strip_bom, suite_options};
use crate::page::{
    hljs_cdn, library_tag, mermaid_cdn, spec_wrap_html, wrap_html, AssetMode, AssetModeV, PageOptions,
};
use crate::assets::{HIGHLIGHT_JS, MERMAID_JS};
use crate::paths::{
    file_name, is_absolute, join_path, lemma_win_components_join, spec_file_name, spec_join, to_slash,
    win_join, win_prefix_len, win_prefix_len_of, PathStyle,
};

verus! {

/// The URL prefix the custom protocol is reachable under: wry maps custom
/// protocols to `https://mdfiles.localhost` on Windows and Android, and to
/// `mdfiles://localhost` elsewhere.
pub open spec fn spec_proto_base(https_host: bool) -> Seq<char> {
    if https_host {
        "https://mdfiles.localhost"@
    } else {
        "mdfiles://localhost"@
    }
}

/// The URL prefix the custom protocol is reachable under; `https_host`
/// selects the `https://mdfiles.localhost` form that WebView2 (Windows) and
/// Android use.
pub fn proto_base(https_host: bool) -> (r: &'static str)
    ensures
        r@ == spec_proto_base(https_host),
{
    if https_host {
        "https://mdfiles.localhost"
    } else {
        "mdfiles://localhost"
    }
}

/// The text of an optional `#fragment` suffix.
pub open spec fn fragment_suffix(fragment: Option<Seq<char>>) -> Seq<char> {
    match fragment {
        Some(f) => seq!['#'] + f,
        None => seq![],
    }
}

/// The viewer URL that renders a given markdown file (+ optional fragment).
pub open spec fn spec_page_url(base: Seq<char>, path: Seq<char>, fragment: Option<Seq<char>>) -> Seq<
    char,
> {
    base + "/page?p="@ + spec_percent_encode(path) + fragment_suffix(fragment)
}

/// The viewer URL that renders a given markdown file (+ optional fragment),
/// under the protocol prefix `base`.
pub fn page_url(base: &str, path: &str, fragment: Option<&str>) -> (url: String)
    ensures
        url@ == spec_page_url(base@, path@, opt_view(fragment)),
{
    let mut url = empty_string();
    push_str(&mut url, base);
    push_str(&mut url, "/page?p=");
    let enc = percent_encode(path);
    push_str(&mut url, enc.as_str());
    if let Some(frag) = fragment {
        push_str(&mut url, "#");
        proof {
            reveal_strlit("#");
        }
        push_str(&mut url, frag);
    }
    url
}

/// Local markdown links as page URLs under a protocol prefix, so clicking
/// them is a plain navigation and the WebView's history drives Back/Forward.
pub struct PageLinks {
    pub base: String,
}

impl LinkRewrite for PageLinks {
    open spec fn rewrite_spec(&self, abs: Seq<char>, fragment: Option<Seq<char>>) -> Seq<char> {
        spec_page_url(self.base@, abs, fragment)
    }

    fn rewrite(&self, abs: &str, fragment: Option<&str>) -> (url: String) {
        page_url(self.base.as_str(), abs, fragment)
    }
}

// ---------------------------------------------------------------------------
// The glue script
// ---------------------------------------------------------------------------

/// The reader's glue script, up to the protocol prefix it is told about.
pub const GLUE_JS_HEAD: &'static str = "\n(function(){\n  var BASE = \"";

/// The reader's glue script, after the protocol prefix.
pub const GLUE_JS_TAIL: &'static str = "\";\n  function skey(){ return \"mdread-scroll:\" + location.href.split('#')[0]; }\n  var scrollTimer = null;\n  window.addEventListener('scroll', function(){\n    if (scrollTimer) return;\n    scrollTimer = setTimeout(function(){\n      scrollTimer = null;\n      try { sessionStorage.setItem(skey(), String(Math.round(window.scrollY || 0))); } catch (e) {}\n    }, 100);\n  }, {passive:true});\n  window.addEventListener('DOMContentLoaded', function(){\n    try {\n      var y = sessionStorage.getItem(skey());\n      if (y && !location.hash) window.scrollTo(0, parseInt(y, 10));\n    } catch (e) {}\n    try { window.ipc.postMessage('loaded'); } catch (e) {}\n  });\n  document.addEventListener('click', function(e){\n    var link = e.target && e.target.closest ? e.target.closest('a') : null;\n    if (!link) return;\n    var href = link.getAttribute('href') || '';\n    if (!href || href.charAt(0) === '#') return;\n    var abs = link.href || href;\n    if (abs.indexOf(BASE) === 0) return; // internal: native navigation + history\n    e.preventDefault();\n    window.ipc.postMessage('open-external:' + abs);\n  });\n  document.addEventListener('keydown', function(e){\n    if (e.key === 'Escape') { window.ipc.postMessage('close'); return; }\n    if (!(e.ctrlKey || e.metaKey)) return;\n    if (e.key === 'o' || e.key === 'O') { e.preventDefault(); window.ipc.postMessage('open-dialog'); }\n    else if (e.key === '0') { e.preventDefault(); window.ipc.postMessage('zoom-reset'); }\n    else if (e.key === '+' || e.key === '=') { e.preventDefault(); window.ipc.postMessage('zoom-in'); }\n    else if (e.key === '-') { e.preventDefault(); window.ipc.postMessage('zoom-out'); }\n  });\n  window.addEventListener('wheel', function(e){\n    if (!e.ctrlKey) return;\n    e.preventDefault();\n    window.ipc.postMessage(e.deltaY < 0 ? 'zoom-in' : 'zoom-out');\n  }, {passive:false});\n})();\n";

/// The script injected into every page: scroll persistence across reloads,
/// external-link interception (links outside the protocol prefix `proto`
/// go to the system handler), and the keyboard and zoom shortcuts.
pub open spec fn spec_glue_script(proto: Seq<char>) -> Seq<char> {
    GLUE_JS_HEAD@ + proto + GLUE_JS_TAIL@
}

/// The glue script for the protocol prefix `proto`.
pub fn glue_script(proto: &str) -> (s: String)
    ensures
        s@ == spec_glue_script(proto@),
{
    let mut s = empty_string();
    push_str(&mut s, GLUE_JS_HEAD);
    push_str(&mut s, proto);
    push_str(&mut s, GLUE_JS_TAIL);
    s
}

// ---------------------------------------------------------------------------
// Query strings
// ---------------------------------------------------------------------------

/// A `key=value` pair split at its first `=`.
pub open spec fn key_value(kv: Seq<char>) -> Option<(Seq<char>, Seq<char>)> {
    let k = index_of(kv, '=');
    if k < 0 {
        None
    } else {
        Some((kv.take(k), kv.skip(k + 1)))
    }
}

/// The decoded value of the first `p=` pair among `ps`.
pub open spec fn find_p(ps: Seq<Seq<char>>) -> Option<Seq<char>>
    decreases ps.len(),
{
    if ps.len() == 0 {
        None
    } else {
        match key_value(ps[0]) {
            Some(kv) => if kv.0 == "p"@ {
                Some(spec_percent_decode(kv.1))
            } else {
                find_p(ps.drop_first())
            },
            None => find_p(ps.drop_first()),
        }
    }
}

/// The decoded `p=` parameter of a query string.
pub open spec fn spec_query_path(query: Seq<char>) -> Option<Seq<char>> {
    find_p(spec_split(query, '&'))
}

/// Extract and decode the `p=` parameter of a page URL's query string.
pub fn query_path(query: &str) -> (res: Option<String>)
    ensures
        res is None ==> spec_query_path(query@) is None,
        res matches Some(p) ==> spec_query_path(query@) == Some(p@),
{
    let v = chars_of(query);
    let ps = split_chars(&v, '&');
    let mut i: usize = 0;
    proof {
        assert(views(ps@).skip(0) == views(ps@));
    }
    while i < ps.len()
        invariant
            i <= ps@.len(),
            views(ps@) == spec_split(query@, '&'),
            find_p(views(ps@)) == find_p(views(ps@).skip(i as int)),
        decreases ps.len() - i,
    {
        let kv = &ps[i];
        proof {
            assert(views(ps@).skip(i as int)[0] == kv@);
            assert(views(ps@).skip(i as int).drop_first() == views(ps@).skip(i + 1));
            lemma_index_of(kv@, '=');
        }
        if let Some(k) = find_char(kv, '=') {
            let key = sub_chars(kv, 0, k);
            proof {
                assert(kv@.take(k as int) == kv@.subrange(0, k as int));
            }
            if chars_eq_str(&key, "p") {
                let val = sub_chars(kv, k + 1, kv.len());
                proof {
                    assert(kv@.skip(k + 1) == kv@.subrange(k + 1, kv@.len() as int));
                }
                let vs = string_of_chars(&val);
                return Some(percent_decode(vs.as_str()));
            }
        }
        i += 1;
    }
    None
}

/// Reading the `p=` parameter back gives the path: for every path,
/// `query_path("p=" + percent_encode(path)) == Some(path)`.
pub proof fn law_query_path_inverts_page_query(path: Seq<char>)
    ensures
        spec_query_path("p="@ + spec_percent_encode(path)) == Some(path),
{
    reveal_strlit("p=");
    let enc = spec_percent_encode(path);
    let q = "p="@ + enc;
    law_percent_encoding_lacks_reserved(path, '&');
    assert(lacks(q, '&')) by {
        assert forall|j: int| 0 <= j < q.len() implies q[j] != '&' by {
            if j >= 2 {
                assert(q[j] == enc[j - 2]);
            }
        }
    }
    lemma_split_single(q, '&');
    assert(index_of(q, '=') == 1) by {
        assert(q[0] == 'p');
        assert(q.drop_first()[0] == '=');
        assert(index_of(q.drop_first(), '=') == 0);
    }
    assert(q.take(1) =~= "p"@) by {
        reveal_strlit("p");
    }
    assert(q.skip(2) =~= enc);
    assert(seq![q].drop_first() =~= Seq::<Seq<char>>::empty());
    law_percent_decode_inverts_encode(path);
}

/// The query of a page URL names its document: when the protocol prefix
/// holds no `?`, the URL's text after its first `?` is read back by
/// `query_path` as the path.
pub proof fn law_query_path_reads_page_url(base: Seq<char>, path: Seq<char>)
    requires
        lacks(base, '?'),
    ensures
        spec_split(spec_page_url(base, path, None), '?').len() == 2,
        spec_query_path(spec_split(spec_page_url(base, path, None), '?')[1]) == Some(path),
{
    reveal_strlit("/page?p=");
    reveal_strlit("/page");
    reveal_strlit("p=");
    let enc = spec_percent_encode(path);
    let head = base + "/page"@;
    let q = "p="@ + enc;
    assert(spec_page_url(base, path, None) =~= head + seq!['?'] + q);
    law_percent_encoding_lacks_reserved(path, '?');
    assert(lacks(head, '?')) by {
        assert forall|j: int| 0 <= j < head.len() implies head[j] != '?' by {
            if j < base.len() {
                assert(head[j] == base[j]);
            } else {
                assert(head[j] == "/page"@[j - base.len()]);
            }
        }
    }
    assert(lacks(q, '?')) by {
        assert forall|j: int| 0 <= j < q.len() implies q[j] != '?' by {
            if j >= 2 {
                assert(q[j] == enc[j - 2]);
            }
        }
    }
    lemma_split_single(head, '?');
    lemma_split_append_sep(head, q, '?');
    law_query_path_inverts_page_query(path);
}

// ---------------------------------------------------------------------------
// Files under a serve root
// ---------------------------------------------------------------------------

/// A decoded segment that could leave its folder: `..`, one that carries a
/// path separator, or on Windows one that starts with a prefix (a drive such
/// as `D:x`), which would replace the whole path.
pub open spec fn bad_segment(style: PathStyle, d: Seq<char>) -> bool {
    d == dot_dot() || index_of(d, '\\') >= 0 || index_of(d, '/') >= 0 || (style is Windows
        && win_prefix_len(d) > 0)
}

/// `file` with each decoded segment pushed in turn; `None` as soon as one is
/// a bad segment.
pub open spec fn push_segments(style: PathStyle, file: Seq<char>, segs: Seq<Seq<char>>) -> Option<Seq<char>>
    decreases segs.len(),
{
    if segs.len() == 0 {
        Some(file)
    } else {
        let d = spec_percent_decode(segs[0]);
        if bad_segment(style, d) {
            None
        } else {
            push_segments(style, spec_join(style, file, d), segs.drop_first())
        }
    }
}

/// The file a `/root/<encoded root>/<segments…>` URL path addresses.
pub open spec fn spec_resolve_root_file(style: PathStyle, rest: Seq<char>) -> Option<Seq<char>> {
    let ps = spec_split(rest, '/');
    push_segments(style, spec_percent_decode(ps[0]), ps.drop_first())
}

/// Resolve a `/root/<encoded abs root>/<rel segments…>` URL path (with the
/// `/root/` prefix already stripped) to the on-disk file it addresses. The
/// first segment is the percent-encoded absolute serve root; the remaining
/// segments are the file's path below it. Returns `None` for traversal or
/// separator-carrying segments — the root already encodes the full allowed
/// prefix.
pub fn resolve_root_file(style: PathStyle, rest: &str) -> (res: Option<String>)
    ensures
        res is None ==> spec_resolve_root_file(style, rest@) is None,
        res matches Some(f) ==> spec_resolve_root_file(style, rest@) == Some(f@),
{
    let v = chars_of(rest);
    let ps = split_chars(&v, '/');
    proof {
        lemma_split_nonempty(v@, '/');
    }
    let root_enc = string_of_chars(&ps[0]);
    let mut file = percent_decode(root_enc.as_str());
    let ghost segs = views(ps@).drop_first();
    let mut i: usize = 1;
    proof {
        assert(segs.skip(0) == segs);
    }
    while i < ps.len()
        invariant
            1 <= i <= ps@.len(),
            segs == views(ps@).drop_first(),
            spec_resolve_root_file(style, rest@) == push_segments(style, file@, segs.skip(i - 1)),
        decreases ps.len() - i,
    {
        proof {
            assert(segs.skip(i - 1)[0] == ps@[i as int]@);
            assert(segs.skip(i - 1).drop_first() == segs.skip(i as int));
        }
        let seg = string_of_chars(&ps[i]);
        let decoded = percent_decode(seg.as_str());
        let dv = chars_of(decoded.as_str());
        let is_parent = dv.len() == 2 && dv[0] == '.' && dv[1] == '.';
        proof {
            if is_parent {
                assert(dv@ =~= dot_dot());
            }
        }
        let drive = match style {
            PathStyle::Windows => win_prefix_len_of(&dv) > 0,
            PathStyle::Unix => false,
        };
        if is_parent || find_char(&dv, '\\').is_some() || find_char(&dv, '/').is_some() || drive {
            return None;
        }
        file = join_path(style, file.as_str(), decoded.as_str());
        i += 1;
    }
    proof {
        assert(segs.skip(ps@.len() - 1) == Seq::<Seq<char>>::empty());
    }
    Some(file)
}

/// No component of `cs` from position `from` on is `..`.
pub open spec fn no_parent_from(cs: Seq<CompV>, from: int) -> bool {
    forall|j: int| from <= j < cs.len() ==> cs[j] != CompV::Parent
}

proof fn lemma_pushed_no_parent(buf: Seq<char>, d: Seq<char>)
    requires
        lacks(d, '/'),
        d != dot_dot(),
    ensures
        no_parent_from(pushed_comps(buf, d), 0),
{
    if buf.len() == 0 {
        lemma_split_single(d, '/');
        let ps = seq![d];
        assert(ps.drop_last() =~= Seq::<Seq<char>>::empty());
        assert(piece_comps(ps) == piece_comps(ps.drop_last()) + piece_comp(d));
        assert(piece_comps(ps) =~= piece_comp(d));
        if d.len() > 0 {
            assert(d[0] != '/');
        }
    }
}

/// Pushing a decoded segment that is no bad segment onto a Windows path that
/// starts at a root appends it as one name.
proof fn lemma_win_push_segment(file: Seq<char>, d: Seq<char>)
    requires
        is_absolute(PathStyle::Windows, file),
        !bad_segment(PathStyle::Windows, d),
    ensures
        is_absolute(PathStyle::Windows, win_join(file, d)),
        file.is_prefix_of(win_join(file, d)),
        spec_components(PathStyle::Windows, win_join(file, d)) == spec_components(PathStyle::Windows, file)
            + piece_comp(d),
        no_parent_from(piece_comp(d), 0),
{
    lemma_lacks_index_of(d, '/');
    lemma_lacks_index_of(d, '\\');
    if d.len() > 0 {
        assert(d[0] != '/' && d[0] != '\\');
    }
    lemma_win_components_join(file, d);
    assert(to_slash(d) =~= d);
    lemma_split_single(d, '/');
    let ps = seq![d];
    assert(ps.drop_last() =~= Seq::<Seq<char>>::empty());
    assert(piece_comps(ps) == piece_comps(ps.drop_last()) + piece_comp(d));
    assert(piece_comps(ps) =~= piece_comp(d));
    let j = win_join(file, d);
    assert(j.subrange(0, file.len() as int) =~= file);
}

proof fn lemma_push_segments_below(style: PathStyle, file: Seq<char>, segs: Seq<Seq<char>>)
    requires
        style == PathStyle::Unix || is_absolute(style, file),
    ensures
        push_segments(style, file, segs) matches Some(f) ==> file.is_prefix_of(f) && spec_components(style, 
            file,
        ).is_prefix_of(spec_components(style, f)) && no_parent_from(
            spec_components(style, f),
            spec_components(style, file).len() as int,
        ),
    decreases segs.len(),
{
    if segs.len() == 0 {
        assert(file.is_prefix_of(file)) by {
            assert(file.subrange(0, file.len() as int) =~= file);
        }
        let c = spec_components(style, file);
        assert(c.subrange(0, c.len() as int) =~= c);
    } else {
        let d = spec_percent_decode(segs[0]);
        if !bad_segment(style, d) {
            let next = spec_join(style, file, d);
            let t: Seq<CompV> = match style {
                PathStyle::Unix => pushed_comps(file, d),
                PathStyle::Windows => piece_comp(d),
            };
            match style {
                PathStyle::Unix => {
                    lemma_lacks_index_of(d, '/');
                    assert(next == push_path(file, d)) by {
                        if d.len() > 0 {
                            assert(d[0] != '/');
                        }
                    }
                    lemma_components_push(file, d);
                    lemma_pushed_no_parent(file, d);
                    assert(next.subrange(0, file.len() as int) =~= file);
                },
                PathStyle::Windows => {
                    lemma_win_push_segment(file, d);
                },
            }
            lemma_push_segments_below(style, next, segs.drop_first());
            if let Some(f) = push_segments(style, file, segs) {
                assert(push_segments(style, file, segs) == push_segments(style, next, segs.drop_first()));
                assert(file.is_prefix_of(next));
                assert(f.subrange(0, file.len() as int) =~= next.subrange(0, file.len() as int));
                let cf = spec_components(style, file);
                let cn = spec_components(style, next);
                let c = spec_components(style, f);
                assert(cn == cf + t);
                assert(c.subrange(0, cf.len() as int) =~= cn.subrange(0, cf.len() as int));
                assert(cn.subrange(0, cf.len() as int) =~= cf);
                assert forall|j: int| cf.len() <= j < c.len() implies c[j] != CompV::Parent by {
                    if j < cn.len() {
                        assert(c[j] == cn.subrange(0, cn.len() as int)[j]);
                        assert(cn[j] == t[j - cf.len()]);
                    }
                }
            }
        }
    }
}

/// A `/root/…` URL never reaches outside its serve root: the file it
/// resolves to is the decoded root with plain names appended, so its
/// components continue those of the root and none of the added ones is
/// `..` (encoded separators, encoded `..` and, on Windows, segments that start
/// with a drive are refused too). On Windows the decoded root must start at
/// a root.
pub proof fn law_resolve_root_file_stays_under_root(style: PathStyle, rest: Seq<char>)
    requires
        style == PathStyle::Unix || is_absolute(style, spec_percent_decode(spec_split(rest, '/')[0])),
    ensures
        spec_resolve_root_file(style, rest) matches Some(f) ==> ({
            let root = spec_percent_decode(spec_split(rest, '/')[0]);
            &&& root.is_prefix_of(f)
            &&& spec_components(style, root).is_prefix_of(spec_components(style, f))
            &&& no_parent_from(spec_components(style, f), spec_components(style, root).len() as int)
        }),
{
    let ps = spec_split(rest, '/');
    lemma_push_segments_below(style, spec_percent_decode(ps[0]), ps.drop_first());
}

// ---------------------------------------------------------------------------
// Routing and pages
// ---------------------------------------------------------------------------

/// What a request of the `mdfiles` protocol asks for.
pub enum Route {
    /// `/page`: the document path of the `p=` parameter, if there is one.
    Page(Option<String>),
    /// `/assets/mermaid.min.js`
    MermaidAsset,
    /// `/assets/highlight.min.js`
    HighlightAsset,
    /// Any other name under `/assets/`.
    UnknownAsset,
    /// `/root/…`: the file addressed below its serve root, unless a segment
    /// was rejected.
    RootFile(Option<String>),
    /// Anything else.
    NotFound,
}

/// The view of a [`Route`].
pub enum RouteV {
    Page(Option<Seq<char>>),
    MermaidAsset,
    HighlightAsset,
    UnknownAsset,
    RootFile(Option<Seq<char>>),
    NotFound,
}

/// The view of an optional string.
pub open spec fn opt_string(o: Option<String>) -> Option<Seq<char>> {
    match o {
        Some(t) => Some(t@),
        None => None,
    }
}

impl View for Route {
    type V = RouteV;

    open spec fn view(&self) -> RouteV {
        match self {
            Route::Page(p) => RouteV::Page(opt_string(*p)),
            Route::MermaidAsset => RouteV::MermaidAsset,
            Route::HighlightAsset => RouteV::HighlightAsset,
            Route::UnknownAsset => RouteV::UnknownAsset,
            Route::RootFile(f) => RouteV::RootFile(opt_string(*f)),
            Route::NotFound => RouteV::NotFound,
        }
    }
}

/// Routes: `/page?p=<encoded abs path>` renders that markdown file,
/// `/assets/<bundle>` serves an embedded bundle, `/root/<encoded root>/<rel…>`
/// a file on disk under that serve root.
pub open spec fn spec_route(style: PathStyle, path: Seq<char>, query: Option<Seq<char>>) -> RouteV {
    if path == "/page"@ {
        RouteV::Page(
            match query {
                Some(q) => spec_query_path(q),
                None => None,
            },
        )
    } else if "/assets/"@.is_prefix_of(path) {
        let a = path.skip("/assets/"@.len() as int);
        if a == "mermaid.min.js"@ {
            RouteV::MermaidAsset
        } else if a == "highlight.min.js"@ {
            RouteV::HighlightAsset
        } else {
            RouteV::UnknownAsset
        }
    } else if "/root/"@.is_prefix_of(path) {
        RouteV::RootFile(spec_resolve_root_file(style, path.skip("/root/"@.len() as int)))
    } else {
        RouteV::NotFound
    }
}

/// Classify one request of the `mdfiles` protocol by its URL path and query.
pub fn route(style: PathStyle, path: &str, query: Option<&str>) -> (r: Route)
    ensures
        r@ == spec_route(style, path@, opt_view(query)),
{
    let v = chars_of(path);
    if chars_eq_str(&v, "/page") {
        return Route::Page(
            match query {
                Some(q) => query_path(q),
                None => None,
            },
        );
    }
    let assets = chars_of("/assets/");
    if starts_with_str(&v, "/assets/") {
        let a = sub_chars(&v, assets.len(), v.len());
        proof {
            assert(path@.skip("/assets/"@.len() as int) =~= a@);
        }
        if chars_eq_str(&a, "mermaid.min.js") {
            return Route::MermaidAsset;
        } else if chars_eq_str(&a, "highlight.min.js") {
            return Route::HighlightAsset;
        } else {
            return Route::UnknownAsset;
        }
    }
    let root = chars_of("/root/");
    if starts_with_str(&v, "/root/") {
        let rest = sub_chars(&v, root.len(), v.len());
        proof {
            assert(path@.skip("/root/"@.len() as int) =~= rest@);
        }
        let rs = string_of_chars(&rest);
        return Route::RootFile(resolve_root_file(style, rs.as_str()));
    }
    Route::NotFound
}

/// A page whose libraries come from the reader's `<host>/assets` base URL
/// loads each bundle from a URL that the protocol serves as that bundle:
/// the script source is `host` followed by a path that routes to
/// highlight.js (resp. mermaid).
pub proof fn law_asset_base_scripts_route_to_bundles(
    style: PathStyle,
    host: Seq<char>,
    bundle: Seq<char>,
    cdn_url: Seq<char>,
)
    ensures
        ({
            let hl = "/assets/highlight.min.js"@;
            &&& library_tag(AssetModeV::BaseUrl(host + "/assets"@), bundle, cdn_url, "highlight.min.js"@)
                == "<script src=\""@ + (host + hl) + "\"></script>\n"@
            &&& spec_route(style, hl, None) == RouteV::HighlightAsset
        }),
        ({
            let mm = "/assets/mermaid.min.js"@;
            &&& library_tag(AssetModeV::BaseUrl(host + "/assets"@), bundle, cdn_url, "mermaid.min.js"@)
                == "<script src=\""@ + (host + mm) + "\"></script>\n"@
            &&& spec_route(style, mm, None) == RouteV::MermaidAsset
        }),
{
    reveal_strlit("/assets/highlight.min.js");
    reveal_strlit("/assets/mermaid.min.js");
    reveal_strlit("/assets");
    reveal_strlit("/assets/");
    reveal_strlit("/");
    reveal_strlit("highlight.min.js");
    reveal_strlit("mermaid.min.js");
    reveal_strlit("/page");
    let hl = "/assets/highlight.min.js"@;
    let mm = "/assets/mermaid.min.js"@;
    assert(host + "/assets"@ + "/"@ + "highlight.min.js"@ =~= host + hl);
    assert(host + "/assets"@ + "/"@ + "mermaid.min.js"@ =~= host + mm);
    assert(hl != "/page"@);
    assert(mm != "/page"@);
    assert("/assets/"@.is_prefix_of(hl));
    assert("/assets/"@.is_prefix_of(mm));
    assert(hl.skip("/assets/"@.len() as int) =~= "highlight.min.js"@);
    assert(mm.skip("/assets/"@.len() as int) =~= "mermaid.min.js"@);
    assert("highlight.min.js"@ != "mermaid.min.js"@);
}

/// The base URL image references of a page are rewritten to: the page's
/// serve root, percent-encoded, under `/root/`.
pub open spec fn spec_doc_url_base(proto: Seq<char>, serve_root: Seq<char>) -> Seq<char> {
    proto + "/root/"@ + spec_percent_encode(serve_root)
}

/// The title of a document's page: its file name, or `Markdown`.
pub open spec fn page_title(style: PathStyle, doc: Seq<char>) -> Seq<char> {
    match spec_file_name(style, doc) {
        Some(n) => n,
        None => "Markdown"@,
    }
}

/// The output stream of a document's page: image URLs carry the
/// document's serve root under `/root/`, markdown links become page URLs
/// under the protocol prefix `links.base`.
pub open spec fn page_stream(style: PathStyle, 
    links: PageLinks,
    markdown: Seq<char>,
    base_dir: Seq<char>,
    fs: Seq<(Seq<char>, Option<Seq<u8>>)>,
) -> Seq<PieceV> {
    let proto = links.base@;
    let doc_base = spec_doc_url_base(proto, spec_serve_root_for(style, markdown, base_dir, fs));
    render_stream(style, None, markdown, Some(base_dir), Some(doc_base), Some(links), fs)
}

/// The page the reader shows for a document: rendered with image URLs that
/// carry its serve root and markdown links as page URLs under the protocol
/// prefix `links.base`, wrapped with the libraries served from the
/// protocol's `/assets`.
pub open spec fn spec_render_page(style: PathStyle, 
    links: PageLinks,
    doc: Seq<char>,
    markdown: Seq<char>,
    base_dir: Seq<char>,
    dark_mode: bool,
    fs: Seq<(Seq<char>, Option<Seq<u8>>)>,
) -> Seq<char> {
    let proto = links.base@;
    let body = rendered_html(
        spec_strip_bom(markdown),
        suite_options(),
        page_stream(style, links, markdown, base_dir, fs),
    );
    spec_wrap_html(
        body,
        dark_mode,
        page_title(style, doc),
        AssetModeV::BaseUrl(proto + "/assets"@),
        ""@,
    )
}

/// Render one markdown document (the file `doc`, its text `markdown`, its
/// folder `base_dir`) into the complete HTML page the reader shows.
pub fn render_page(style: PathStyle, 
    links: &PageLinks,
    doc: &str,
    markdown: &str,
    base_dir: &str,
    dark_mode: bool,
    facts: &FileFacts,
) -> (page: String)
    ensures
        page@ == spec_render_page(style, *links, doc@, markdown@, base_dir@, dark_mode, facts@),
{
    let proto = links.base.as_str();
    let serve_root = serve_root_for(style, markdown, base_dir, facts);
    let mut doc_url_base = empty_string();
    push_str(&mut doc_url_base, proto);
    push_str(&mut doc_url_base, "/root/");
    let enc = percent_encode(serve_root.as_str());
    push_str(&mut doc_url_base, enc.as_str());
    let opts = RenderOptions {
        base_dir: Some(base_dir),
        doc_url_base: Some(doc_url_base.as_str()),
        md_link_rewrite: Some(links),
        working_dir: None,
    };
    let rendered = render(style, markdown, &opts, facts);
    proof {
        assert(opt_view(Some(base_dir)) == Some(base_dir@));
        assert(render_root(style, markdown@, Some(base_dir@), facts@) == Some(spec_serve_root_for(style, 
            spec_strip_bom(markdown@),
            base_dir@,
            facts@,
        )));
    }
    let title_chars = file_name(style, doc);
    let title = match title_chars {
        Some(n) => string_of_chars(&n),
        None => "Markdown".to_owned(),
    };
    let mut asset_base = empty_string();
    push_str(&mut asset_base, proto);
    push_str(&mut asset_base, "/assets");
    let popts = PageOptions {
        dark_mode,
        title: title.as_str(),
        assets: AssetMode::BaseUrl(asset_base),
        extra_js: "",
    };
    wrap_html(rendered.body.as_str(), &popts)
}

/// The reader's page loads its libraries from the protocol it is served
/// by: it is a page whose highlight.js and mermaid script tags point at
/// `links.base` followed by paths that the protocol routes to those
/// bundles.
pub proof fn law_reader_page_scripts_route_to_bundles(
    style: PathStyle,
    links: PageLinks,
    doc: Seq<char>,
    markdown: Seq<char>,
    base_dir: Seq<char>,
    dark_mode: bool,
    fs: Seq<(Seq<char>, Option<Seq<u8>>)>,
)
    ensures
        exists|body: Seq<char>, title: Seq<char>, assets: Seq<char>|
            {
                &&& spec_render_page(style, links, doc, markdown, base_dir, dark_mode, fs) == #[trigger] spec_wrap_html(
                    body,
                    dark_mode,
                    title,
                    AssetModeV::BaseUrl(assets),
                    ""@,
                )
                &&& library_tag(AssetModeV::BaseUrl(assets), HIGHLIGHT_JS@, hljs_cdn(), "highlight.min.js"@)
                    == "<script src=\""@ + (links.base@ + "/assets/highlight.min.js"@) + "\"></script>\n"@
                &&& library_tag(AssetModeV::BaseUrl(assets), MERMAID_JS@, mermaid_cdn(), "mermaid.min.js"@)
                    == "<script src=\""@ + (links.base@ + "/assets/mermaid.min.js"@) + "\"></script>\n"@
            },
        spec_route(style, "/assets/highlight.min.js"@, None) == RouteV::HighlightAsset,
        spec_route(style, "/assets/mermaid.min.js"@, None) == RouteV::MermaidAsset,
{
    let proto = links.base@;
    law_asset_base_scripts_route_to_bundles(style, proto, HIGHLIGHT_JS@, hljs_cdn());
    law_asset_base_scripts_route_to_bundles(style, proto, MERMAID_JS@, mermaid_cdn());
    let body = rendered_html(
        spec_strip_bom(markdown),
        suite_options(),
        page_stream(style, links, markdown, base_dir, fs),
    );
    let title = page_title(style, doc);
    let assets = proto + "/assets"@;
    assert(spec_render_page(style, links, doc, markdown, base_dir, dark_mode, fs) == spec_wrap_html(
        body,
        dark_mode,
        title,
        AssetModeV::BaseUrl(assets),
        ""@,
    ));
}

/// The page shown when a document cannot be opened: its path and the error,
/// both escaped.
pub open spec fn spec_open_error_page(doc: Seq<char>, error: Seq<char>) -> Seq<char> {
    "<!DOCTYPE html><meta charset=\"utf-8\"><h2>Cannot open document</h2><p>"@ + spec_escape_html(doc)
        + "</p><p>"@ + spec_escape_html(error) + "</p>"@
}

/// The page shown when the document `doc` cannot be opened, with `error`.
pub fn open_error_page(doc: &str, error: &str) -> (page: String)
    ensures
        page@ == spec_open_error_page(doc@, error@),
{
    let mut out = empty_string();
    push_str(&mut out, "<!DOCTYPE html><meta charset=\"utf-8\"><h2>Cannot open document</h2><p>");
    let d = escape_html(doc);
    push_str(&mut out, d.as_str());
    push_str(&mut out, "</p><p>");
    let e = escape_html(error);
    push_str(&mut out, e.as_str());
    push_str(&mut out, "</p>");
    out
}


// ---------------------------------------------------------------------------
// Image URLs of a page resolve back to their files
// ---------------------------------------------------------------------------

/// The names `segs` hold names of the style that read as no drive.
proof fn lemma_names_prefix_ok(style: PathStyle, segs: Seq<Seq<char>>, n: int)
    requires
        0 <= n <= segs.len(),
        style_names(style, segs),
        drive_free(style, segs),
    ensures
        style_names(style, segs.take(n)),
        drive_free(style, segs.take(n)),
{
    assert forall|j: int| 0 <= j < n implies style_name(style, #[trigger] segs.take(n)[j]) by {
        assert(segs.take(n)[j] == segs[j]);
    }
    if style is Windows {
        assert forall|j: int| 0 <= j < n implies win_prefix_len(#[trigger] segs.take(n)[j]) == 0 by {
            assert(segs.take(n)[j] == segs[j]);
        }
    }
}

/// Joining the text of a rooted normalized path with one more name gives
/// the text of the path with that name appended.
proof fn lemma_join_rooted(style: PathStyle, pre: Option<Seq<char>>, segs: Seq<Seq<char>>)
    requires
        segs.len() > 0,
        valid_root_prefix(style, pre),
        style_names(style, segs),
        drive_free(style, segs),
    ensures
        spec_join(style, path_string(style, rooted(pre, segs.drop_last())), segs.last())
            == path_string(style, rooted(pre, segs)),
{
    let d = segs.drop_last();
    let x = segs.last();
    lemma_names_prefix_ok(style, segs, segs.len() - 1);
    assert(segs.take(segs.len() - 1) =~= d);
    lemma_rooted_comps_string(style, pre, segs);
    lemma_rooted_comps_string(style, pre, d);
    let cs = npath_comps(rooted(pre, segs));
    lemma_rooted_comps_split(pre, segs);
    lemma_rooted_comps_split(pre, d);
    assert(cs.drop_last() =~= npath_comps(rooted(pre, d)));
    assert(cs.last() == CompV::Normal(x));
    assert(style_name(style, segs[segs.len() - 1]));
    match style {
        PathStyle::Unix => {
            if x.len() > 0 {
                assert(x[0] != '/');
            }
        },
        PathStyle::Windows => {},
    }
}

/// Pushing the percent-encoded names `ns` onto the text of a rooted path
/// with names `s0` decodes each and appends it, when none is refused.
proof fn lemma_push_encoded_names(style: PathStyle, pre: Option<Seq<char>>, s0: Seq<Seq<char>>, ns: Seq<Seq<char>>)
    requires
        valid_root_prefix(style, pre),
        style_names(style, s0 + ns),
        drive_free(style, s0 + ns),
        forall|j: int| 0 <= j < ns.len() ==> !bad_segment(style, #[trigger] ns[j]),
    ensures
        push_segments(style, path_string(style, rooted(pre, s0)), ns.map_values(|x: Seq<char>| spec_percent_encode(x)))
            == Some(path_string(style, rooted(pre, s0 + ns))),
    decreases ns.len(),
{
    let segs = ns.map_values(|x: Seq<char>| spec_percent_encode(x));
    if ns.len() == 0 {
        assert(s0 + ns =~= s0);
    } else {
        let n0 = ns[0];
        let s1 = s0.push(n0);
        let rest = ns.drop_first();
        assert(segs[0] == spec_percent_encode(n0));
        law_percent_decode_inverts_encode(n0);
        assert(!bad_segment(style, ns[0]));
        lemma_names_prefix_ok(style, s0 + ns, s0.len() + 1int);
        assert((s0 + ns).take(s0.len() + 1int) =~= s1);
        assert(s1.drop_last() =~= s0);
        lemma_join_rooted(style, pre, s1);
        assert(s1 + rest =~= s0 + ns);
        assert forall|j: int| 0 <= j < rest.len() implies !bad_segment(style, #[trigger] rest[j]) by {
            assert(rest[j] == ns[j + 1]);
        }
        lemma_push_encoded_names(style, pre, s1, rest);
        assert(segs.drop_first() =~= rest.map_values(|x: Seq<char>| spec_percent_encode(x)));
    }
}


/// The URL path tail that serves the names `ns` below a serve root: each
/// name percent-encoded after a `/`.
pub open spec fn encoded_names_url(ns: Seq<Seq<char>>) -> Seq<char>
    decreases ns.len(),
{
    if ns.len() == 0 {
        seq![]
    } else {
        encoded_names_url(ns.drop_last()) + seq!['/'] + spec_percent_encode(ns.last())
    }
}

proof fn lemma_served_url_names(doc: Seq<char>, ns: Seq<Seq<char>>)
    ensures
        served_url(doc, name_comps(ns)) == doc + encoded_names_url(ns),
    decreases ns.len(),
{
    if ns.len() == 0 {
        assert(doc + Seq::<char>::empty() =~= doc);
    } else {
        let rel = name_comps(ns);
        assert(rel.drop_last() =~= name_comps(ns.drop_last()));
        assert(rel.last() == CompV::Normal(ns.last()));
        lemma_served_url_names(doc, ns.drop_last());
        assert(doc + encoded_names_url(ns.drop_last()) + (seq!['/'] + spec_percent_encode(ns.last()))
            =~= doc + encoded_names_url(ns));
    }
}

proof fn lemma_split_encoded_names(e: Seq<char>, ns: Seq<Seq<char>>)
    requires
        lacks(e, '/'),
    ensures
        spec_split(e + encoded_names_url(ns), '/') == seq![e] + ns.map_values(|x: Seq<char>| spec_percent_encode(x)),
    decreases ns.len(),
{
    if ns.len() == 0 {
        assert(e + Seq::<char>::empty() =~= e);
        lemma_split_single(e, '/');
        assert(seq![e] + ns.map_values(|x: Seq<char>| spec_percent_encode(x)) =~= seq![e]);
    } else {
        lemma_split_encoded_names(e, ns.drop_last());
        let x = spec_percent_encode(ns.last());
        law_percent_encoding_lacks_reserved(ns.last(), '/');
        let h = e + encoded_names_url(ns.drop_last());
        lemma_split_append_sep(h, x, '/');
        assert(h + seq!['/'] + x =~= e + encoded_names_url(ns));
        assert((seq![e] + ns.drop_last().map_values(|x: Seq<char>| spec_percent_encode(x))).push(x)
            =~= seq![e] + ns.map_values(|x: Seq<char>| spec_percent_encode(x)));
    }
}

/// The components a rooted path has below a rooted path whose names begin
/// its own: its remaining names.
proof fn lemma_strip_rooted_names(pre: Option<Seq<char>>, sa: Seq<Seq<char>>, sf: Seq<Seq<char>>)
    requires
        segs_prefix(sf, sa),
    ensures
        strip_comps(npath_comps(rooted(pre, sa)), npath_comps(rooted(pre, sf)))
            == Some(name_comps(sa.skip(sf.len() as int))),
{
    lemma_rooted_strip(pre, sa, pre, sf);
    lemma_rooted_comps_split(pre, sa);
    lemma_rooted_comps_split(pre, sf);
    let ca = npath_comps(rooted(pre, sa));
    let cr = npath_comps(rooted(pre, sf));
    let h = root_head(pre).len() as int;
    assert(ca.skip(cr.len() as int) =~= name_comps(sa.skip(sf.len() as int))) by {
        assert forall|k: int| 0 <= k < ca.skip(cr.len() as int).len() implies ca.skip(cr.len() as int)[k]
            == name_comps(sa.skip(sf.len() as int))[k] by {
            assert(ca[cr.len() + k] == CompV::Normal(sa[sf.len() + k]));
        }
    }
}


/// A URL served below the document base of the rooted serve root with
/// names `sf`, for the names of `sa` after those, is routed back to the
/// rooted path with names `sa`.
proof fn lemma_served_url_resolves(
    style: PathStyle,
    proto: Seq<char>,
    pre: Option<Seq<char>>,
    sf: Seq<Seq<char>>,
    sa: Seq<Seq<char>>,
)
    requires
        valid_root_prefix(style, pre),
        style_names(style, sa),
        drive_free(style, sa),
        segs_prefix(sf, sa),
        forall|j: int| sf.len() <= j < sa.len() ==> !bad_segment(style, #[trigger] sa[j]),
    ensures
        ({
            let doc = spec_doc_url_base(proto, path_string(style, rooted(pre, sf)));
            let nd = served_url(doc, name_comps(sa.skip(sf.len() as int)));
            &&& (proto + "/root/"@).is_prefix_of(nd)
            &&& spec_resolve_root_file(style, nd.skip((proto + "/root/"@).len() as int))
                == Some(path_string(style, rooted(pre, sa)))
        }),
{
    let root = path_string(style, rooted(pre, sf));
    let e = spec_percent_encode(root);
    let head = proto + "/root/"@;
    let doc = spec_doc_url_base(proto, root);
    let ns = sa.skip(sf.len() as int);
    lemma_served_url_names(doc, ns);
    let nd = doc + encoded_names_url(ns);
    assert(nd =~= head + (e + encoded_names_url(ns)));
    assert(nd.subrange(0, head.len() as int) =~= head);
    assert(nd.skip(head.len() as int) =~= e + encoded_names_url(ns));
    law_percent_encoding_lacks_reserved(root, '/');
    lemma_split_encoded_names(e, ns);
    let ps = spec_split(e + encoded_names_url(ns), '/');
    assert(ps[0] == e);
    law_percent_decode_inverts_encode(root);
    assert(ps.drop_first() =~= ns.map_values(|x: Seq<char>| spec_percent_encode(x)));
    assert(sf + ns =~= sa);
    assert forall|j: int| 0 <= j < ns.len() implies !bad_segment(style, #[trigger] ns[j]) by {
        assert(ns[j] == sa[sf.len() + j]);
    }
    lemma_push_encoded_names(style, pre, sf, ns);
}

/// No name of the path `t` is a segment the protocol refuses: the names
/// carry no separator (on Unix, no `\`) and on Windows none reads as a drive.
pub open spec fn names_accepted(style: PathStyle, t: Seq<char>) -> bool {
    let cs = spec_components(style, t);
    forall|j: int| 0 <= j < cs.len() ==> (#[trigger] cs[j] matches CompV::Normal(x) ==> !bad_segment(style, x))
}

/// The piece `p`, if it gives a local image that resolves (from `base`) to
/// an existing file at the folder's root a new destination, gives it a URL
/// under `proto` + `/root/` that the protocol resolves to that very file.
pub open spec fn image_url_resolves(
    style: PathStyle,
    p: PieceV,
    evs: Seq<MdEventV>,
    base: Seq<char>,
    proto: Seq<char>,
    fs: Seq<(Seq<char>, Option<Seq<u8>>)>,
) -> bool {
    match p {
        PieceV::Dest(i, nd) => 0 <= i < evs.len() ==> match evs[i] {
            MdEventV::Image(d) => spec_is_local_dest(d) && fact_is_file(fs, local_target(style, base, d))
                && same_root(style, base, d) && names_accepted(style, local_target(style, base, d)) ==> {
                &&& (proto + "/root/"@).is_prefix_of(nd)
                &&& spec_resolve_root_file(style, nd.skip((proto + "/root/"@).len() as int))
                    == Some(local_target(style, base, d))
            },
            _ => true,
        },
        _ => true,
    }
}

/// Images outside the document folder still render in the reader: every
/// image the page serves from the document host, once routed back through
/// the protocol (root segment decoded, the rest joined), names exactly the
/// file it was rewritten from. The page's image base URL carries the same
/// serve root the image paths were taken relative to. (A document that
/// opens with two byte-order marks is left out: its serve root is computed
/// past the second one. The folder must be absolute; on Windows its names
/// must not read as drives, which Windows file names cannot.)
pub proof fn law_page_image_urls_resolve_to_their_files(
    style: PathStyle,
    links: PageLinks,
    markdown: Seq<char>,
    base_dir: Seq<char>,
    fs: Seq<(Seq<char>, Option<Seq<u8>>)>,
)
    requires
        is_absolute(style, base_dir),
        drive_free(style, norm_comps(spec_components(style, base_dir)).segs),
        spec_strip_bom(spec_strip_bom(markdown)) == spec_strip_bom(markdown),
    ensures
        ({
            let evs = parsed_events(spec_strip_bom(markdown), suite_options());
            let ps = page_stream(style, links, markdown, base_dir, fs);
            forall|k: int|
                0 <= k < ps.len() ==> image_url_resolves(style, #[trigger] ps[k], evs, base_dir, links.base@, fs)
        }),
{
    let proto = links.base@;
    let m1 = spec_strip_bom(markdown);
    let evs = parsed_events(m1, suite_options());
    let nb = spec_normalize_path(style, base_dir);
    let rb = lemma_normalized_rooted(style, base_dir);
    let pre = rb.prefix;
    assert(rb == rooted(pre, rb.segs));
    lemma_rooted_comps_split(pre, rb.segs);
    let sf = lemma_root_from_covers(style, evs, 0, pre, rb.segs, nb, fs);
    let root = path_string(style, rooted(pre, sf));
    assert(spec_serve_root_for(style, markdown, base_dir, fs) == root);
    assert(spec_serve_root_for(style, m1, base_dir, fs) == root);
    lemma_rooted_components(style, pre, sf);
    let doc_base = spec_doc_url_base(proto, root);
    lemma_pieces_image_dests(style, None, evs, 0, false, seq![], base_dir, root, doc_base, Some(links), fs);
    let ps = page_stream(style, links, markdown, base_dir, fs);
    assert(ps == pieces_from(style, None, evs, 0, false, seq![], Some(base_dir), Some(root), Some(doc_base), Some(links), fs));
    assert forall|k: int| 0 <= k < ps.len() implies image_url_resolves(style, #[trigger] ps[k], evs, base_dir, proto, fs) by {
        assert(image_dest_of(style, ps[k], evs, base_dir, root, doc_base, fs));
        if let PieceV::Dest(i, nd) = ps[k] {
            if 0 <= i < evs.len() {
                if let MdEventV::Image(d) = evs[i] {
                    let abs = local_target(style, base_dir, d);
                    if spec_is_local_dest(d) && fact_is_file(fs, abs) && same_root(style, base_dir, d)
                        && names_accepted(style, abs) {
                        lemma_target_from_normalized(style, base_dir, d);
                        lemma_same_root_normalized(style, base_dir, d);
                        assert(image_covered(style, evs[i], nb, root, fs));
                        let jn = spec_join(style, base_dir, spec_percent_decode(d));
                        let ra = lemma_normalized_rooted(style, jn);
                        let sa = ra.segs;
                        lemma_rooted_comps_split(ra.prefix, sa);
                        assert(ra.prefix == pre) by {
                            assert(npath_comps(ra)[0] == root_head(ra.prefix)[0]);
                            assert(npath_comps(rb)[0] == root_head(pre)[0]);
                            if ra.prefix is Some || pre is Some {
                                assert(root_head(ra.prefix)[0] == root_head(pre)[0]);
                            }
                        }
                        assert(ra == rooted(pre, sa));
                        assert(abs == path_string(style, rooted(pre, sa)));
                        lemma_rooted_strip(pre, sa, pre, sf);
                        lemma_strip_rooted_names(pre, sa, sf);
                        let rel = name_comps(sa.skip(sf.len() as int));
                        assert(nd == served_url(doc_base, rel));
                        let ca = spec_components(style, abs);
                        let h = root_head(pre).len() as int;
                        assert forall|j: int| 0 <= j < sa.len() implies !bad_segment(style, #[trigger] sa[j]) by {
                            assert(ca[h + j] == CompV::Normal(sa[j]));
                        }
                        assert(drive_free(style, sa)) by {
                            if style is Windows {
                                assert forall|j: int| 0 <= j < sa.len() implies win_prefix_len(#[trigger] sa[j]) == 0 by {
                                    assert(!bad_segment(style, sa[j]));
                                }
                            }
                        }
                        lemma_served_url_resolves(style, proto, pre, sf, sa);
                    }
                }
            }
        }
    }
}

} // verus!
