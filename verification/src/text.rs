//! Character-level building blocks shared by every module: the few std
//! string operations the engine relies on, and spec helpers over `Seq<char>`.
use vstd::prelude::*;

verus! {

broadcast use vstd::string::axiom_spec_iter;

/// The characters of `s`, one element per `char` (std `str::chars`).
pub(crate) fn chars_of(s: &str) -> (v: Vec<char>)
    ensures
        v@ == s@,
{
    let mut v: Vec<char> = Vec::new();
    for c in it: s.chars()
        invariant
            it.seq() == s@,
            v@ == it.seq().take(it.index() as int),
    {
        proof {
            assert(it.seq().take(it.index() + 1) == it.seq().take(it.index() as int).push(c));
        }
        v.push(c);
    }
    proof {
        assert(s@.take(s@.len() as int) == s@);
    }
    v
}

/// Appends one character (std `String::push`).
#[verifier::external_body]
pub(crate) fn push_char(s: &mut String, c: char)
    ensures
        final(s)@ == old(s)@.push(c),
{
    s.push(c)
}

/// Appends a string slice.
pub(crate) fn push_str(s: &mut String, t: &str)
    ensures
        final(s)@ == old(s)@ + t@,
{
    s.append(t);
}

/// A fresh empty string.
pub fn empty_string() -> (s: String)
    ensures
        s@ == Seq::<char>::empty(),
{
    String::new()
}

/// Appends every character of `v` to `s`.
pub fn push_chars(s: &mut String, v: &Vec<char>)
    ensures
        final(s)@ == old(s)@ + v@,
{
    let mut i: usize = 0;
    while i < v.len()
        invariant
            i <= v.len(),
            s@ == old(s)@ + v@.take(i as int),
        decreases v.len() - i,
    {
        push_char(s, v[i]);
        proof {
            assert(v@.take(i as int + 1) == v@.take(i as int).push(v@[i as int]));
        }
        i += 1;
    }
    proof {
        assert(v@.take(v.len() as int) == v@);
    }
}

/// True when `pat` occurs in `s` starting at character index `i`.
pub open spec fn occurs_at(s: Seq<char>, pat: Seq<char>, i: int) -> bool {
    0 <= i && i + pat.len() <= s.len() && s.subrange(i, i + pat.len()) == pat
}

/// True when `pat` occurs anywhere in `s` (std `str::contains`).
pub open spec fn seq_contains(s: Seq<char>, pat: Seq<char>) -> bool {
    exists|i: int| occurs_at(s, pat, i)
}

/// Whether `pat` occurs in `s` starting at index `i`.
pub fn matches_at(s: &Vec<char>, pat: &Vec<char>, i: usize) -> (b: bool)
    ensures
        b == occurs_at(s@, pat@, i as int),
{
    if i > s.len() || pat.len() > s.len() - i {
        return false;
    }
    let mut j: usize = 0;
    while j < pat.len()
        invariant
            i + pat.len() <= s.len(),
            j <= pat.len(),
            forall|k: int| 0 <= k < j ==> s@[i + k] == pat@[k],
        decreases pat.len() - j,
    {
        if s[i + j] != pat[j] {
            proof {
                assert(s@.subrange(i as int, i + pat.len())[j as int] != pat@[j as int]);
            }
            return false;
        }
        j += 1;
    }
    proof {
        assert(s@.subrange(i as int, i + pat.len()) =~= pat@);
    }
    true
}

/// Whether `pat` occurs anywhere in `s`.
pub fn contains_chars(s: &Vec<char>, pat: &Vec<char>) -> (b: bool)
    ensures
        b == seq_contains(s@, pat@),
{
    if pat.len() > s.len() {
        proof {
            assert forall|i: int| !occurs_at(s@, pat@, i) by {}
        }
        return false;
    }
    let last = s.len() - pat.len();
    let mut i: usize = 0;
    loop
        invariant
            last == s.len() - pat.len(),
            i <= last,
            forall|k: int| 0 <= k < i ==> !occurs_at(s@, pat@, k),
        ensures
            i == last,
            forall|k: int| 0 <= k <= i ==> !occurs_at(s@, pat@, k),
        decreases last - i,
    {
        let found = matches_at(s, pat, i);
        if found {
            return true;
        }
        if i == last {
            assert(!occurs_at(s@, pat@, i as int));
            break;
        }
        i += 1;
    }
    proof {
        assert forall|k: int| !occurs_at(s@, pat@, k) by {
            if 0 <= k < i {
            } else if k == i {
            }
        }
    }
    false
}

/// Whether `s` contains `pat` (both as string slices).
pub fn str_contains(s: &str, pat: &str) -> (b: bool)
    ensures
        b == seq_contains(s@, pat@),
{
    let sv = chars_of(s);
    let pv = chars_of(pat);
    contains_chars(&sv, &pv)
}

/// The string views of a sequence of character vectors.
pub open spec fn views(v: Seq<Vec<char>>) -> Seq<Seq<char>> {
    v.map_values(|x: Vec<char>| x@)
}

/// `s` cut at every occurrence of `sep` (std `str::split` with a `char`):
/// always at least one piece, empty pieces kept.
pub open spec fn spec_split(s: Seq<char>, sep: char) -> Seq<Seq<char>>
    decreases s.len(),
{
    if s.len() == 0 {
        seq![Seq::<char>::empty()]
    } else {
        let r = spec_split(s.drop_last(), sep);
        if s.last() == sep {
            r.push(Seq::<char>::empty())
        } else {
            r.update(r.len() - 1, r.last().push(s.last()))
        }
    }
}

/// A split has at least one piece.
pub proof fn lemma_split_nonempty(s: Seq<char>, sep: char)
    ensures
        spec_split(s, sep).len() >= 1,
    decreases s.len(),
{
    if s.len() > 0 {
        lemma_split_nonempty(s.drop_last(), sep);
    }
}

/// The pieces of `s` between occurrences of `sep`.
pub fn split_chars(s: &Vec<char>, sep: char) -> (parts: Vec<Vec<char>>)
    ensures
        views(parts@) == spec_split(s@, sep),
{
    let mut done: Vec<Vec<char>> = Vec::new();
    let mut cur: Vec<char> = Vec::new();
    let mut i: usize = 0;
    while i < s.len()
        invariant
            i <= s.len(),
            views(done@).push(cur@) == spec_split(s@.take(i as int), sep),
        decreases s.len() - i,
    {
        let c = s[i];
        let ghost t = s@.take(i as int + 1);
        proof {
            assert(t.drop_last() == s@.take(i as int));
            lemma_split_nonempty(s@.take(i as int), sep);
        }
        if c == sep {
            let old_cur = cur;
            cur = Vec::new();
            done.push(old_cur);
            proof {
                assert(views(done@) == views(done@).drop_last().push(old_cur@));
            }
        } else {
            cur.push(c);
        }
        proof {
            assert(views(done@).push(cur@) =~= spec_split(t, sep));
        }
        i += 1;
    }
    proof {
        assert(s@.take(s.len() as int) == s@);
    }
    done.push(cur);
    proof {
        assert(views(done@) =~= spec_split(s@, sep));
    }
    done
}

/// Whether two character vectors are equal.
pub fn chars_eq(a: &Vec<char>, b: &Vec<char>) -> (r: bool)
    ensures
        r == (a@ == b@),
{
    if a.len() != b.len() {
        return false;
    }
    let mut i: usize = 0;
    while i < a.len()
        invariant
            a.len() == b.len(),
            i <= a.len(),
            forall|k: int| 0 <= k < i ==> a@[k] == b@[k],
        decreases a.len() - i,
    {
        if a[i] != b[i] {
            return false;
        }
        i += 1;
    }
    proof {
        assert(a@ =~= b@);
    }
    true
}

/// Whether the characters of `a` spell out the string slice `lit`.
pub fn chars_eq_str(a: &Vec<char>, lit: &str) -> (r: bool)
    ensures
        r == (a@ == lit@),
{
    let b = chars_of(lit);
    chars_eq(a, &b)
}

/// The string holding the characters of `v`.
pub fn string_of_chars(v: &Vec<char>) -> (s: String)
    ensures
        s@ == v@,
{
    let mut s = empty_string();
    push_chars(&mut s, v);
    s
}

/// A copy of a character vector.
pub fn clone_chars(v: &Vec<char>) -> (r: Vec<char>)
    ensures
        r@ == v@,
{
    let mut r: Vec<char> = Vec::new();
    let mut i: usize = 0;
    while i < v.len()
        invariant
            i <= v.len(),
            r@ == v@.take(i as int),
        decreases v.len() - i,
    {
        r.push(v[i]);
        proof {
            assert(v@.take(i as int + 1) == v@.take(i as int).push(v@[i as int]));
        }
        i += 1;
    }
    proof {
        assert(v@.take(v.len() as int) == v@);
    }
    r
}

/// The view of an optional string slice.
pub open spec fn opt_view(o: Option<&str>) -> Option<Seq<char>> {
    match o {
        Some(t) => Some(t@),
        None => None,
    }
}

/// Unicode `White_Space` (std `char::is_whitespace`).
pub open spec fn is_white_space(c: char) -> bool {
    ('\t' <= c && c <= '\r') || c == ' ' || c == '\u{85}' || c == '\u{a0}' || c == '\u{1680}' || (
    '\u{2000}' <= c && c <= '\u{200a}') || c == '\u{2028}' || c == '\u{2029}' || c == '\u{202f}'
        || c == '\u{205f}' || c == '\u{3000}'
}

/// Whether `c` is Unicode whitespace.
pub fn white_space(c: char) -> (b: bool)
    ensures
        b == is_white_space(c),
{
    ('\t' <= c && c <= '\r') || c == ' ' || c == '\u{85}' || c == '\u{a0}' || c == '\u{1680}' || (
    '\u{2000}' <= c && c <= '\u{200a}') || c == '\u{2028}' || c == '\u{2029}' || c == '\u{202f}'
        || c == '\u{205f}' || c == '\u{3000}'
}

/// The leading run of non-whitespace characters of `s`.
pub open spec fn leading_word(s: Seq<char>) -> Seq<char>
    decreases s.len(),
{
    if s.len() == 0 || is_white_space(s[0]) {
        seq![]
    } else {
        seq![s[0]] + leading_word(s.drop_first())
    }
}

/// The first whitespace-separated word of `s` (std `split_whitespace`).
pub open spec fn first_word(s: Seq<char>) -> Option<Seq<char>>
    decreases s.len(),
{
    if s.len() == 0 {
        None
    } else if is_white_space(s[0]) {
        first_word(s.drop_first())
    } else {
        Some(leading_word(s))
    }
}

/// The first whitespace-separated word of `v`, if any.
pub fn first_word_of(v: &Vec<char>) -> (res: Option<Vec<char>>)
    ensures
        res matches Some(w) ==> first_word(v@) == Some(w@),
        res is None ==> first_word(v@) is None,
{
    let mut i: usize = 0;
    proof {
        assert(v@.skip(0) == v@);
    }
    while i < v.len() && white_space(v[i])
        invariant
            i <= v.len(),
            first_word(v@) == first_word(v@.skip(i as int)),
        decreases v.len() - i,
    {
        proof {
            assert(v@.skip(i as int).drop_first() == v@.skip(i + 1));
        }
        i += 1;
    }
    if i == v.len() {
        proof {
            assert(v@.skip(i as int).len() == 0);
        }
        return None;
    }
    let start = i;
    let mut w: Vec<char> = Vec::new();
    proof {
        assert(leading_word(v@.skip(start as int)) == w@ + leading_word(v@.skip(i as int)));
    }
    while i < v.len() && !white_space(v[i])
        invariant
            start <= i <= v.len(),
            leading_word(v@.skip(start as int)) == w@ + leading_word(v@.skip(i as int)),
        decreases v.len() - i,
    {
        proof {
            assert(v@.skip(i as int).drop_first() == v@.skip(i + 1));
            assert(v@.skip(i as int)[0] == v@[i as int]);
        }
        w.push(v[i]);
        proof {
            assert(w@ + leading_word(v@.skip(i + 1)) =~= w@.drop_last() + (seq![v@[i as int]]
                + leading_word(v@.skip(i + 1))));
        }
        i += 1;
    }
    proof {
        if i < v.len() {
            assert(v@.skip(i as int)[0] == v@[i as int]);
        }
        assert(leading_word(v@.skip(i as int)) == Seq::<char>::empty());
        assert(w@ + Seq::<char>::empty() == w@);
    }
    Some(w)
}

/// Whether `v` ends with the characters of `lit`.
pub fn ends_with_str(v: &Vec<char>, lit: &str) -> (r: bool)
    ensures
        r == lit@.is_suffix_of(v@),
{
    let l = chars_of(lit);
    if l.len() > v.len() {
        return false;
    }
    let off = v.len() - l.len();
    let r = matches_at(v, &l, off);
    proof {
        assert(v@.subrange(off as int, off + l@.len()) == v@.subrange(
            (v@.len() - l@.len()) as int,
            v@.len() as int,
        ));
    }
    r
}

/// Whether `v` starts with the characters of `lit`.
pub fn starts_with_str(v: &Vec<char>, lit: &str) -> (r: bool)
    ensures
        r == lit@.is_prefix_of(v@),
{
    let l = chars_of(lit);
    matches_at(v, &l, 0)
}

/// Index of the first `c` in `s`, or -1.
pub open spec fn index_of(s: Seq<char>, c: char) -> int
    decreases s.len(),
{
    if s.len() == 0 {
        -1
    } else if s[0] == c {
        0
    } else if index_of(s.drop_first(), c) < 0 {
        -1
    } else {
        index_of(s.drop_first(), c) + 1
    }
}

/// `index_of` finds the first occurrence, or reports that there is none.
pub proof fn lemma_index_of(s: Seq<char>, c: char)
    ensures
        -1 <= index_of(s, c) < s.len(),
        index_of(s, c) >= 0 ==> s[index_of(s, c)] == c,
        forall|j: int| 0 <= j < s.len() && (index_of(s, c) < 0 || j < index_of(s, c)) ==> s[j] != c,
    decreases s.len(),
{
    if s.len() > 0 && s[0] != c {
        lemma_index_of(s.drop_first(), c);
        assert forall|j: int| 0 <= j < s.len() && (index_of(s, c) < 0 || j < index_of(s, c)) implies s[j]
            != c by {
            if j > 0 {
                assert(s[j] == s.drop_first()[j - 1]);
            }
        }
    }
}

/// The position of the first `c` in `v`, if any.
pub fn find_char(v: &Vec<char>, c: char) -> (r: Option<usize>)
    ensures
        r is None ==> index_of(v@, c) == -1,
        r matches Some(k) ==> index_of(v@, c) == k,
{
    proof {
        lemma_index_of(v@, c);
    }
    let mut k: usize = 0;
    while k < v.len()
        invariant
            k <= v.len(),
            forall|j: int| 0 <= j < k ==> v@[j] != c,
        decreases v.len() - k,
    {
        if v[k] == c {
            proof {
                lemma_index_of(v@, c);
                if index_of(v@, c) < 0 {
                } else if index_of(v@, c) < k {
                } else if index_of(v@, c) > k {
                }
            }
            return Some(k);
        }
        k += 1;
    }
    proof {
        if index_of(v@, c) >= 0 {
            assert(v@[index_of(v@, c)] != c);
        }
    }
    None
}

/// The characters of `v` from `start` to `end`.
pub fn sub_chars(v: &Vec<char>, start: usize, end: usize) -> (r: Vec<char>)
    requires
        start <= end <= v.len(),
    ensures
        r@ == v@.subrange(start as int, end as int),
{
    let mut r: Vec<char> = Vec::new();
    let mut i = start;
    while i < end
        invariant
            start <= i <= end <= v.len(),
            r@ == v@.subrange(start as int, i as int),
        decreases end - i,
    {
        r.push(v[i]);
        proof {
            assert(v@.subrange(start as int, i + 1) == v@.subrange(start as int, i as int).push(v@[i as int]));
        }
        i += 1;
    }
    r
}

/// `sep` does not occur in `x`.
pub open spec fn lacks(x: Seq<char>, sep: char) -> bool {
    forall|j: int| 0 <= j < x.len() ==> x[j] != sep
}

/// A text lacks a character exactly when `index_of` finds none.
pub proof fn lemma_lacks_index_of(x: Seq<char>, sep: char)
    ensures
        lacks(x, sep) <==> index_of(x, sep) < 0,
{
    lemma_index_of(x, sep);
}

/// Appending text without separators extends the last piece.
pub proof fn lemma_split_append_plain(s: Seq<char>, x: Seq<char>, sep: char)
    requires
        lacks(x, sep),
    ensures
        spec_split(s, sep).len() >= 1,
        spec_split(s + x, sep) == spec_split(s, sep).update(
            spec_split(s, sep).len() - 1,
            spec_split(s, sep).last() + x,
        ),
    decreases x.len(),
{
    lemma_split_nonempty(s, sep);
    if x.len() == 0 {
        assert(s + x =~= s);
        assert(spec_split(s, sep).last() + x =~= spec_split(s, sep).last());
        assert(spec_split(s, sep).update(spec_split(s, sep).len() - 1, spec_split(s, sep).last())
            =~= spec_split(s, sep));
    } else {
        let xp = x.drop_last();
        lemma_split_append_plain(s, xp, sep);
        assert((s + x).drop_last() =~= s + xp);
        assert((s + x).last() == x.last());
        lemma_split_nonempty(s + xp, sep);
        let ss = spec_split(s, sep);
        let r = spec_split(s + xp, sep);
        assert(x.last() != sep);
        assert(r.len() == ss.len());
        assert(r.last() == ss.last() + xp);
        assert(r.last().push(x.last()) =~= ss.last() + x);
        assert(spec_split(s + x, sep) == r.update(r.len() - 1, r.last().push(x.last())));
        assert(spec_split(s + x, sep) =~= ss.update(ss.len() - 1, ss.last() + x));
    }
}

/// A separator followed by text without separators starts a new last piece.
pub proof fn lemma_split_append_sep(s: Seq<char>, x: Seq<char>, sep: char)
    requires
        lacks(x, sep),
    ensures
        spec_split(s + seq![sep] + x, sep) == spec_split(s, sep).push(x),
{
    let t = s + seq![sep];
    assert(t.drop_last() =~= s);
    lemma_split_append_plain(t, x, sep);
    assert(spec_split(t, sep) == spec_split(s, sep).push(Seq::<char>::empty()));
    assert(Seq::<char>::empty() + x =~= x);
}

/// Every piece of a split lacks the separator.
pub proof fn lemma_split_pieces_lack(s: Seq<char>, sep: char)
    ensures
        forall|j: int| 0 <= j < spec_split(s, sep).len() ==> lacks(
            #[trigger] spec_split(s, sep)[j],
            sep,
        ),
    decreases s.len(),
{
    if s.len() > 0 {
        lemma_split_pieces_lack(s.drop_last(), sep);
        lemma_split_nonempty(s.drop_last(), sep);
        let r = spec_split(s.drop_last(), sep);
        if s.last() != sep {
            let l = r.last().push(s.last());
            assert(lacks(r.last(), sep));
            assert(lacks(l, sep)) by {
                assert forall|k: int| 0 <= k < l.len() implies l[k] != sep by {
                    if k < r.last().len() {
                        assert(l[k] == r.last()[k]);
                    }
                }
            }
        }
    }
}

/// Splitting two texts joined by a separator gives the pieces of each.
pub proof fn lemma_split_concat(a: Seq<char>, b: Seq<char>, sep: char)
    ensures
        spec_split(a + seq![sep] + b, sep) == spec_split(a, sep) + spec_split(b, sep),
    decreases b.len(),
{
    let t = a + seq![sep] + b;
    if b.len() == 0 {
        assert(t =~= a + seq![sep]);
        assert((a + seq![sep]).drop_last() =~= a);
        assert(spec_split(b, sep) == seq![Seq::<char>::empty()]);
        assert(spec_split(a, sep).push(Seq::<char>::empty()) =~= spec_split(a, sep) + seq![
            Seq::<char>::empty(),
        ]);
    } else {
        let bp = b.drop_last();
        lemma_split_concat(a, bp, sep);
        assert(t.drop_last() =~= a + seq![sep] + bp);
        assert(t.last() == b.last());
        lemma_split_nonempty(bp, sep);
        let r = spec_split(a + seq![sep] + bp, sep);
        let sa = spec_split(a, sep);
        let sb = spec_split(bp, sep);
        assert(r == sa + sb);
        if b.last() == sep {
            assert(spec_split(b, sep) == sb.push(Seq::<char>::empty()));
            assert((sa + sb).push(Seq::<char>::empty()) =~= sa + sb.push(Seq::<char>::empty()));
        } else {
            assert(spec_split(b, sep) == sb.update(sb.len() - 1, sb.last().push(b.last())));
            assert(r.last() == sb.last());
            assert(r.update(r.len() - 1, r.last().push(b.last())) =~= sa + sb.update(
                sb.len() - 1,
                sb.last().push(b.last()),
            ));
        }
    }
}

/// Text without separators is a single piece.
pub proof fn lemma_split_single(x: Seq<char>, sep: char)
    requires
        lacks(x, sep),
    ensures
        spec_split(x, sep) == seq![x],
{
    lemma_split_append_plain(Seq::<char>::empty(), x, sep);
    assert(Seq::<char>::empty() + x =~= x);
    assert(Seq::<char>::empty() + x =~= x);
    assert(spec_split(Seq::<char>::empty(), sep) == seq![Seq::<char>::empty()]);
}

/// `s` without leading whitespace.
pub open spec fn trim_start(s: Seq<char>) -> Seq<char>
    decreases s.len(),
{
    if s.len() > 0 && is_white_space(s[0]) {
        trim_start(s.drop_first())
    } else {
        s
    }
}

/// `s` without trailing whitespace.
pub open spec fn trim_end(s: Seq<char>) -> Seq<char>
    decreases s.len(),
{
    if s.len() > 0 && is_white_space(s.last()) {
        trim_end(s.drop_last())
    } else {
        s
    }
}

/// `s` without leading and trailing whitespace (std `str::trim`).
pub open spec fn spec_trim(s: Seq<char>) -> Seq<char> {
    trim_end(trim_start(s))
}

/// The characters of `v` without leading and trailing whitespace.
pub fn trim_chars(v: &Vec<char>) -> (r: Vec<char>)
    ensures
        r@ == spec_trim(v@),
{
    let mut a: usize = 0;
    proof {
        assert(v@.subrange(0, v@.len() as int) == v@);
    }
    while a < v.len() && white_space(v[a])
        invariant
            a <= v.len(),
            trim_start(v@) == trim_start(v@.subrange(a as int, v@.len() as int)),
        decreases v.len() - a,
    {
        proof {
            assert(v@.subrange(a as int, v@.len() as int).drop_first() == v@.subrange(a + 1, v@.len() as int));
        }
        a += 1;
    }
    let ghost ts = v@.subrange(a as int, v@.len() as int);
    proof {
        assert(trim_start(ts) == ts);
    }
    let mut b: usize = v.len();
    while b > a && white_space(v[b - 1])
        invariant
            a <= b <= v.len(),
            ts == v@.subrange(a as int, v@.len() as int),
            trim_end(ts) == trim_end(v@.subrange(a as int, b as int)),
        decreases b,
    {
        proof {
            assert(v@.subrange(a as int, b as int).drop_last() == v@.subrange(a as int, b - 1));
        }
        b -= 1;
    }
    proof {
        let t = v@.subrange(a as int, b as int);
        assert(trim_end(t) == t);
    }
    sub_chars(v, a, b)
}

} // verus!
