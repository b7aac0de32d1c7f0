//! Self-contained pages: local images referenced by `src="…"` attributes of
//! a rendered body are inlined as `data:` URIs.
use vstd::prelude::*;
use crate::text::{
    chars_of, empty_string, matches_at, occurs_at, push_chars, push_str, string_of_chars,
    sub_chars,
};
use crate::uri::{is_local_dest, spec_is_local_dest};
use crate::paths::{mime_for, spec_mime_for, PathStyle};
use crate::base64::{base64_encode, spec_base64};
use crate::render::{agree_on_reads, fact_read, local_target, string_views, FileFacts};

verus! {

/// The attribute opening `src="`.
pub open spec fn src_attr() -> Seq<char> {
    seq!['s', 'r', 'c', '=', '"']
}

/// The first position at or after `p` where `pat` occurs in `v`, or -1.
pub open spec fn next_occ(v: Seq<char>, pat: Seq<char>, p: int) -> int
    decreases v.len() + 1 - p,
{
    if p < 0 || p + pat.len() > v.len() {
        -1
    } else if occurs_at(v, pat, p) {
        p
    } else {
        next_occ(v, pat, p + 1)
    }
}

/// The first position at or after `p` holding `c` in `v`, or -1.
pub open spec fn next_char(v: Seq<char>, c: char, p: int) -> int
    decreases v.len() - p,
{
    if p < 0 || p >= v.len() {
        -1
    } else if v[p] == c {
        p
    } else {
        next_char(v, c, p + 1)
    }
}

/// What one image URL becomes: a local one whose file was read is inlined
/// as a base64 `data:` URI; every other stays as written.
pub open spec fn inlined_url(style: PathStyle, 
    url: Seq<char>,
    base: Seq<char>,
    fs: Seq<(Seq<char>, Option<Seq<u8>>)>,
) -> Seq<char> {
    if !spec_is_local_dest(url) {
        url
    } else {
        match fact_read(fs, local_target(style, base, url)) {
            Some(b) => "data:"@ + spec_mime_for(style, local_target(style, base, url)) + ";base64,"@ + spec_base64(b),
            None => url,
        }
    }
}

/// The body from position `p` on with every complete `src="…"` value
/// replaced by its [`inlined_url`].
pub open spec fn inline_from(style: PathStyle, 
    v: Seq<char>,
    p: int,
    base: Seq<char>,
    fs: Seq<(Seq<char>, Option<Seq<u8>>)>,
) -> Seq<char>
    decreases v.len() - p,
{
    let k = next_occ(v, src_attr(), p);
    if p < 0 || p > v.len() {
        seq![]
    } else if k < p {
        v.skip(p)
    } else {
        let a = k + src_attr().len();
        let e = next_char(v, '"', a);
        if e < a || e > v.len() {
            v.skip(p)
        } else {
            v.subrange(p, a) + inlined_url(style, v.subrange(a, e), base, fs) + inline_from(style, v, e, base, fs)
        }
    }
}

/// The local image URLs of `v` from position `p` on, as normalized paths.
pub open spec fn src_targets(style: PathStyle, v: Seq<char>, p: int, base: Seq<char>) -> Seq<Seq<char>>
    decreases v.len() - p,
{
    let k = next_occ(v, src_attr(), p);
    if p < 0 || p > v.len() || k < p {
        seq![]
    } else {
        let a = k + src_attr().len();
        let e = next_char(v, '"', a);
        if e < a || e > v.len() {
            seq![]
        } else {
            let url = v.subrange(a, e);
            (if spec_is_local_dest(url) { seq![local_target(style, base, url)] } else { seq![] })
                + src_targets(style, v, e, base)
        }
    }
}

/// Inlining needs to know of the disk only the contents of the files that
/// [`src_queries`] lists: two fact sets that agree on those inline a body
/// alike.
pub proof fn law_inlining_needs_only_queried_reads(style: PathStyle, 
    v: Seq<char>,
    p: int,
    base: Seq<char>,
    fs1: Seq<(Seq<char>, Option<Seq<u8>>)>,
    fs2: Seq<(Seq<char>, Option<Seq<u8>>)>,
)
    requires
        agree_on_reads(fs1, fs2, src_targets(style, v, p, base)),
    ensures
        inline_from(style, v, p, base, fs1) == inline_from(style, v, p, base, fs2),
    decreases v.len() - p,
{
    let k = next_occ(v, src_attr(), p);
    if 0 <= p <= v.len() && k >= p {
        let a = k + src_attr().len();
        let e = next_char(v, '"', a);
        if a <= e <= v.len() {
            let url = v.subrange(a, e);
            let head: Seq<Seq<char>> = if spec_is_local_dest(url) { seq![local_target(style, base, url)] } else { seq![] };
            let rest = src_targets(style, v, e, base);
            assert(src_targets(style, v, p, base) == head + rest);
            assert forall|j: int| 0 <= j < rest.len() implies fact_read(fs1, #[trigger] rest[j]) == fact_read(
                fs2,
                rest[j],
            ) by {
                assert((head + rest)[j + head.len()] == rest[j]);
            }
            if spec_is_local_dest(url) {
                assert((head + rest)[0] == local_target(style, base, url));
            }
            law_inlining_needs_only_queried_reads(style, v, e, base, fs1, fs2);
        }
    }
}

pub(crate) fn find_occ(v: &Vec<char>, pat: &Vec<char>, p: usize) -> (r: Option<usize>)
    requires
        p <= v.len(),
    ensures
        r is None ==> next_occ(v@, pat@, p as int) < 0,
        r matches Some(k) ==> next_occ(v@, pat@, p as int) == k && p <= k && k + pat@.len() <= v@.len(),
{
    let mut i = p;
    loop
        invariant
            p <= i <= v.len(),
            next_occ(v@, pat@, p as int) == next_occ(v@, pat@, i as int),
        decreases v.len() - i,
    {
        if pat.len() > v.len() - i {
            return None;
        }
        if matches_at(v, pat, i) {
            return Some(i);
        }
        if i == v.len() {
            proof {
                assert(v@.subrange(i as int, i as int) =~= pat@);
            }
            return None;
        }
        i += 1;
    }
}

fn find_char_from(v: &Vec<char>, c: char, p: usize) -> (r: Option<usize>)
    ensures
        r is None ==> next_char(v@, c, p as int) < 0,
        r matches Some(k) ==> next_char(v@, c, p as int) == k && p <= k < v@.len(),
{
    let mut i = p;
    while i < v.len()
        invariant
            p <= i,
            next_char(v@, c, p as int) == next_char(v@, c, i as int),
        decreases v.len() - i,
    {
        if v[i] == c {
            return Some(i);
        }
        i += 1;
    }
    None
}

/// Replace `src="<local path>"` attributes with `data:` URIs for every local
/// image whose contents are known, relative to `base_dir`. External URLs
/// and already-inlined images are left untouched.
pub fn inline_local_images(style: PathStyle, body: &str, base_dir: &str, facts: &FileFacts) -> (res: String)
    ensures
        res@ == inline_from(style, body@, 0, base_dir@, facts@),
{
    let v = chars_of(body);
    let pat: Vec<char> = vec!['s', 'r', 'c', '=', '"'];
    proof {
        assert(pat@ =~= src_attr());
    }
    let mut out = empty_string();
    let mut p: usize = 0;
    loop
        invariant
            p <= v@.len(),
            v@ == body@,
            pat@ == src_attr(),
            out@ + inline_from(style, v@, p as int, base_dir@, facts@) == inline_from(style, v@, 0, base_dir@, facts@),
        decreases v.len() - p,
    {
        let found = find_occ(&v, &pat, p);
        let e_found = match found {
            Some(k) => find_char_from(&v, '"', k + 5),
            None => None,
        };
        if found.is_none() || e_found.is_none() {
            let tail = sub_chars(&v, p, v.len());
            proof {
                assert(v@.skip(p as int) =~= v@.subrange(p as int, v@.len() as int));
            }
            push_chars(&mut out, &tail);
            return out;
        }
        let a = found.unwrap() + 5;
        let e = e_found.unwrap();
        let head = sub_chars(&v, p, a);
        push_chars(&mut out, &head);
        let url_chars = sub_chars(&v, a, e);
        let url = string_of_chars(&url_chars);
        let replaced = inlined(style, url.as_str(), base_dir, facts);
        push_str(&mut out, replaced.as_str());
        p = e;
    }
}

/// One image URL as [`inlined_url`] makes it.
fn inlined(style: PathStyle, url: &str, base_dir: &str, facts: &FileFacts) -> (res: String)
    ensures
        res@ == inlined_url(style, url@, base_dir@, facts@),
{
    if !is_local_dest(url) {
        return url.to_owned();
    }
    let abs = crate::render::local_target_of(style, base_dir, url);
    match facts.read(abs.as_str()) {
        Some(b) => {
            let mut out = empty_string();
            push_str(&mut out, "data:");
            push_str(&mut out, mime_for(style, abs.as_str()));
            push_str(&mut out, ";base64,");
            let enc = base64_encode(b.as_slice());
            push_str(&mut out, enc.as_str());
            out
        },
        None => url.to_owned(),
    }
}

/// The normalized paths of the local image URLs in `src="…"` attributes of
/// `body`, whose contents [`inline_local_images`] inlines when read.
pub fn src_queries(style: PathStyle, body: &str, base_dir: &str) -> (res: Vec<String>)
    ensures
        string_views(res@) == src_targets(style, body@, 0, base_dir@),
{
    let v = chars_of(body);
    let pat: Vec<char> = vec!['s', 'r', 'c', '=', '"'];
    proof {
        assert(pat@ =~= src_attr());
    }
    let mut out: Vec<String> = Vec::new();
    let mut p: usize = 0;
    proof {
        assert(string_views(out@) =~= Seq::<Seq<char>>::empty());
    }
    loop
        invariant
            p <= v@.len(),
            v@ == body@,
            pat@ == src_attr(),
            string_views(out@) + src_targets(style, v@, p as int, base_dir@) == src_targets(style, v@, 0, base_dir@),
        decreases v.len() - p,
    {
        let found = find_occ(&v, &pat, p);
        let e_found = match found {
            Some(k) => find_char_from(&v, '"', k + 5),
            None => None,
        };
        if found.is_none() || e_found.is_none() {
            proof {
                assert(string_views(out@) + Seq::<Seq<char>>::empty() =~= string_views(out@));
            }
            return out;
        }
        let a = found.unwrap() + 5;
        let e = e_found.unwrap();
        let url_chars = sub_chars(&v, a, e);
        let url = string_of_chars(&url_chars);
        let ghost before = string_views(out@);
        if is_local_dest(url.as_str()) {
            out.push(crate::render::local_target_of(style, base_dir, url.as_str()));
        }
        proof {
            assert(string_views(out@) =~= before + string_views(out@).skip(before.len() as int));
        }
        p = e;
    }
}

} // verus!
