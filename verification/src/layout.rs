//! The reader's window layout, kept in its config file next to the zoom
//! level: position, size, and whether the window was maximized. Geometry is
//! tracked only while the window is not maximized, so maximizing never
//! overwrites the normal layout. Implausible stored values — the position
//! Windows parks minimized windows at, sizes under 200 px, corrupted lines
//! — are rejected, and the window opens at its 1000×800 default.
use vstd::prelude::*;
use crate::text::{
    chars_of, empty_string, push_str, spec_split, split_chars, trim_chars, spec_trim, views,
};
use crate::convert::{decimal, decimal_text};

verus! {

/// Where and how large the window is while not maximized.
pub struct Geometry {
    pub x: i32,
    pub y: i32,
    pub width: u32,
    pub height: u32,
}

/// The layout the reader restores: the stored geometry, if it is plausible
/// (else the default size at a position the system picks), and whether the
/// window was maximized.
pub struct Layout {
    pub geometry: Option<Geometry>,
    pub maximized: bool,
}

/// The width of a window opened without a stored geometry.
pub const DEFAULT_WIDTH: u32 = 1000;

/// The height of a window opened without a stored geometry.
pub const DEFAULT_HEIGHT: u32 = 800;

/// The smallest width or height a stored geometry may have.
pub const MIN_SIZE: u32 = 200;

/// Windows parks minimized windows at this position on both axes.
pub const PARKED: i32 = -32000;

// ---------------------------------------------------------------------------
// Numbers
// ---------------------------------------------------------------------------

/// An ASCII decimal digit.
pub open spec fn is_digit(c: char) -> bool {
    '0' <= c && c <= '9'
}

/// The value of a run of decimal digits.
pub open spec fn digits_value(s: Seq<char>) -> int
    decreases s.len(),
{
    if s.len() == 0 {
        0
    } else {
        10 * digits_value(s.drop_last()) + (s.last() as int - '0' as int)
    }
}

/// Every character is a decimal digit.
pub open spec fn all_digits(s: Seq<char>) -> bool {
    forall|j: int| 0 <= j < s.len() ==> is_digit(#[trigger] s[j])
}

/// The integer a text spells: an optional `-`, then one or more digits.
pub open spec fn int_value(s: Seq<char>) -> Option<int> {
    if s.len() > 0 && s[0] == '-' {
        let d = s.drop_first();
        if d.len() > 0 && all_digits(d) {
            Some(-digits_value(d))
        } else {
            None
        }
    } else if s.len() > 0 && all_digits(s) {
        Some(digits_value(s))
    } else {
        None
    }
}

/// The bound beyond which no stored coordinate or size is plausible.
pub open spec fn int_bound() -> int {
    0x1_0000_0000
}

/// The integer a text spells, when it lies within [`int_bound`].
pub open spec fn bounded_int(s: Seq<char>) -> Option<int> {
    match int_value(s) {
        Some(v) => if -int_bound() <= v <= int_bound() {
            Some(v)
        } else {
            None
        },
        None => None,
    }
}

proof fn lemma_digits_grow(s: Seq<char>, i: int, j: int)
    requires
        0 <= i <= j <= s.len(),
        all_digits(s),
    ensures
        digits_value(s.take(i)) <= digits_value(s.take(j)),
        0 <= digits_value(s.take(i)),
    decreases j - i,
{
    if i < j {
        lemma_digits_grow(s, i, j - 1);
        assert(s.take(j).drop_last() =~= s.take(j - 1));
        assert(is_digit(s[j - 1]));
        assert(s.take(j).last() == s[j - 1]);
    } else {
        lemma_digits_nonneg(s.take(i));
    }
}

proof fn lemma_digits_nonneg(s: Seq<char>)
    requires
        all_digits(s),
    ensures
        0 <= digits_value(s),
    decreases s.len(),
{
    if s.len() > 0 {
        assert(is_digit(s.last())) by {
            assert(s.last() == s[s.len() - 1]);
        }
        assert(all_digits(s.drop_last())) by {
            assert forall|j: int| 0 <= j < s.drop_last().len() implies is_digit(#[trigger] s.drop_last()[j]) by {
                assert(s.drop_last()[j] == s[j]);
            }
        }
        lemma_digits_nonneg(s.drop_last());
    }
}

/// The value of the digits `v[from..]`, when they are all digits and it
/// stays within [`int_bound`].
fn digits_in(v: &Vec<char>, from: usize) -> (r: Option<i64>)
    requires
        from <= v.len(),
    ensures
        ({
            let d = v@.skip(from as int);
            match r {
                Some(n) => d.len() > 0 && all_digits(d) && n == digits_value(d) && 0 <= n <= int_bound(),
                None => !(d.len() > 0 && all_digits(d) && digits_value(d) <= int_bound()),
            }
        }),
{
    let ghost d = v@.skip(from as int);
    if from == v.len() {
        return None;
    }
    let mut acc: i64 = 0;
    let mut i: usize = from;
    proof {
        assert(d.take(0) =~= Seq::<char>::empty());
    }
    while i < v.len()
        invariant
            from <= i <= v.len(),
            d == v@.skip(from as int),
            forall|j: int| 0 <= j < i - from ==> is_digit(#[trigger] d[j]),
            acc == digits_value(d.take(i - from)),
            0 <= acc <= int_bound(),
        decreases v.len() - i,
    {
        let c = v[i];
        proof {
            assert(d[i - from] == c);
        }
        if !('0' <= c && c <= '9') {
            proof {
                assert(!is_digit(d[i - from]));
            }
            return None;
        }
        let digit = (c as u32 - '0' as u32) as i64;
        proof {
            assert(d.take(i - from + 1).drop_last() =~= d.take(i - from));
            assert(d.take(i - from + 1).last() == c);
        }
        if acc > 0x1999_9999 || 10 * acc + digit > 0x1_0000_0000 {
            proof {
                assert(digits_value(d.take(i - from + 1)) > int_bound());
                assert forall|j: int| 0 <= j < i - from + 1 implies is_digit(#[trigger] d[j]) by {}
                if all_digits(d) {
                    lemma_digits_grow(d, i - from + 1, d.len() as int);
                    assert(d.take(d.len() as int) =~= d);
                }
            }
            return None;
        }
        acc = 10 * acc + digit;
        i += 1;
    }
    proof {
        assert(d.take(d.len() as int) =~= d);
        assert(all_digits(d));
    }
    Some(acc)
}

/// The integer `text` spells, when it lies within [`int_bound`].
fn bounded_int_of(text: &Vec<char>) -> (r: Option<i64>)
    ensures
        match r {
            Some(n) => bounded_int(text@) == Some(n as int),
            None => bounded_int(text@) is None,
        },
{
    if text.len() > 0 && text[0] == '-' {
        proof {
            assert(text@.skip(1) =~= text@.drop_first());
        }
        match digits_in(text, 1) {
            Some(n) => Some(-n),
            None => {
                proof {
                    if text@.drop_first().len() > 0 && all_digits(text@.drop_first()) {
                        lemma_digits_nonneg(text@.drop_first());
                    }
                }
                None
            },
        }
    } else {
        proof {
            assert(text@.skip(0) =~= text@);
            if text@.len() > 0 && all_digits(text@) {
                lemma_digits_nonneg(text@);
            }
        }
        digits_in(text, 0)
    }
}

// ---------------------------------------------------------------------------
// Reading the config file
// ---------------------------------------------------------------------------

/// The value of `key` on the line `l`, if `l` sets it: the trimmed text
/// after `key=`.
pub open spec fn line_value(l: Seq<char>, key: Seq<char>) -> Option<Seq<char>> {
    let k = key + seq!['='];
    if k.is_prefix_of(l) {
        Some(spec_trim(l.skip(k.len() as int)))
    } else {
        None
    }
}

/// The integer the first line among `ls[i..]` that sets `key` to a bounded
/// integer sets it to.
pub open spec fn find_int(ls: Seq<Seq<char>>, i: int, key: Seq<char>) -> Option<int>
    decreases ls.len() - i,
{
    if i < 0 || i >= ls.len() {
        None
    } else {
        match line_value(ls[i], key) {
            Some(v) => match bounded_int(v) {
                Some(n) => Some(n),
                None => find_int(ls, i + 1, key),
            },
            None => find_int(ls, i + 1, key),
        }
    }
}

/// The flag the first line among `ls[i..]` that sets `key` to `true` or
/// `false` sets it to.
pub open spec fn find_flag(ls: Seq<Seq<char>>, i: int, key: Seq<char>) -> Option<bool>
    decreases ls.len() - i,
{
    if i < 0 || i >= ls.len() {
        None
    } else {
        match line_value(ls[i], key) {
            Some(v) => if v == "true"@ {
                Some(true)
            } else if v == "false"@ {
                Some(false)
            } else {
                find_flag(ls, i + 1, key)
            },
            None => find_flag(ls, i + 1, key),
        }
    }
}

/// A stored geometry the window can be restored to: not parked off-screen
/// and at least [`MIN_SIZE`] on each side.
pub open spec fn plausible(x: int, y: int, width: int, height: int) -> bool {
    PARKED < x <= i32::MAX && PARKED < y <= i32::MAX && MIN_SIZE <= width <= u32::MAX && MIN_SIZE
        <= height <= u32::MAX
}

/// The geometry a config file stores, when it is complete and plausible.
pub open spec fn stored_geometry(text: Seq<char>) -> Option<(int, int, int, int)> {
    let ls = spec_split(text, '\n');
    match (find_int(ls, 0, "x"@), find_int(ls, 0, "y"@), find_int(ls, 0, "width"@), find_int(
        ls,
        0,
        "height"@,
    )) {
        (Some(x), Some(y), Some(w), Some(h)) => if plausible(x, y, w, h) {
            Some((x, y, w, h))
        } else {
            None
        },
        _ => None,
    }
}

/// Whether a config file says the window was maximized (not, when it does
/// not say).
pub open spec fn stored_maximized(text: Seq<char>) -> bool {
    find_flag(spec_split(text, '\n'), 0, "maximized"@) == Some(true)
}

/// The view of an optional geometry: position, width and height.
pub open spec fn geometry_view(g: Option<Geometry>) -> Option<(int, int, int, int)> {
    match g {
        Some(g) => Some((g.x as int, g.y as int, g.width as int, g.height as int)),
        None => None,
    }
}

/// The trimmed value `l` sets `key` to, if it sets it.
fn value_of(l: &Vec<char>, key: &str) -> (r: Option<Vec<char>>)
    ensures
        match r {
            Some(v) => line_value(l@, key@) == Some(v@),
            None => line_value(l@, key@) is None,
        },
{
    let mut k = chars_of(key);
    k.push('=');
    let ghost kk = k@;
    proof {
        assert(kk =~= key@ + seq!['=']);
    }
    if k.len() > l.len() {
        proof {
            assert(!kk.is_prefix_of(l@));
        }
        return None;
    }
    let mut i: usize = 0;
    while i < k.len()
        invariant
            k.len() <= l.len(),
            k@ == kk,
            kk == key@ + seq!['='],
            i <= k.len(),
            forall|j: int| 0 <= j < i ==> l@[j] == k@[j],
        decreases k.len() - i,
    {
        if l[i] != k[i] {
            proof {
                assert(l@.subrange(0, k@.len() as int)[i as int] != k@[i as int]);
                assert(!kk.is_prefix_of(l@));
            }
            return None;
        }
        i += 1;
    }
    proof {
        assert(l@.subrange(0, k@.len() as int) =~= k@);
    }
    let rest = crate::text::sub_chars(l, k.len(), l.len());
    proof {
        assert(rest@ =~= l@.skip(k@.len() as int));
    }
    Some(trim_chars(&rest))
}

/// The integer the first line of `ls` setting `key` to one sets it to.
fn int_setting(ls: &Vec<Vec<char>>, key: &str) -> (r: Option<i64>)
    ensures
        match r {
            Some(n) => find_int(views(ls@), 0, key@) == Some(n as int),
            None => find_int(views(ls@), 0, key@) is None,
        },
{
    let ghost lv = views(ls@);
    let mut i: usize = 0;
    while i < ls.len()
        invariant
            i <= ls@.len(),
            lv == views(ls@),
            find_int(lv, 0, key@) == find_int(lv, i as int, key@),
        decreases ls.len() - i,
    {
        proof {
            assert(lv[i as int] == ls@[i as int]@);
        }
        if let Some(v) = value_of(&ls[i], key) {
            if let Some(n) = bounded_int_of(&v) {
                return Some(n);
            }
        }
        i += 1;
    }
    None
}

/// The flag the first line of `ls` setting `key` to `true` or `false` sets.
fn flag_setting(ls: &Vec<Vec<char>>, key: &str) -> (r: Option<bool>)
    ensures
        r == find_flag(views(ls@), 0, key@),
{
    let ghost lv = views(ls@);
    let mut i: usize = 0;
    while i < ls.len()
        invariant
            i <= ls@.len(),
            lv == views(ls@),
            find_flag(lv, 0, key@) == find_flag(lv, i as int, key@),
        decreases ls.len() - i,
    {
        proof {
            assert(lv[i as int] == ls@[i as int]@);
        }
        if let Some(v) = value_of(&ls[i], key) {
            if crate::text::chars_eq_str(&v, "true") {
                return Some(true);
            } else if crate::text::chars_eq_str(&v, "false") {
                return Some(false);
            }
        }
        i += 1;
    }
    None
}

/// The layout a config file's text stores (see the module documentation).
pub fn parse_layout(text: &str) -> (r: Layout)
    ensures
        geometry_view(r.geometry) == stored_geometry(text@),
        r.maximized == stored_maximized(text@),
{
    let v = chars_of(text);
    let ls = split_chars(&v, '\n');
    let x = int_setting(&ls, "x");
    let y = int_setting(&ls, "y");
    let w = int_setting(&ls, "width");
    let h = int_setting(&ls, "height");
    let geometry = match (x, y, w, h) {
        (Some(x), Some(y), Some(w), Some(h)) => {
            let parked = PARKED as i64;
            let min = MIN_SIZE as i64;
            if parked < x && x <= 0x7fff_ffff && parked < y && y <= 0x7fff_ffff && min <= w && w
                <= 0xffff_ffff && min <= h && h <= 0xffff_ffff {
                Some(Geometry { x: x as i32, y: y as i32, width: w as u32, height: h as u32 })
            } else {
                None
            }
        },
        _ => None,
    };
    let maximized = match flag_setting(&ls, "maximized") {
        Some(b) => b,
        None => false,
    };
    Layout { geometry, maximized }
}

// ---------------------------------------------------------------------------
// Tracking and writing the layout
// ---------------------------------------------------------------------------

/// The layout after the window moved or was resized to `g`: the geometry
/// follows only while the window is not maximized.
pub fn track_geometry(layout: &Layout, maximized: bool, g: Geometry) -> (r: Layout)
    ensures
        r.maximized == maximized,
        geometry_view(r.geometry) == if maximized {
            geometry_view(layout.geometry)
        } else {
            Some((g.x as int, g.y as int, g.width as int, g.height as int))
        },
{
    if maximized {
        let geometry = match &layout.geometry {
            Some(old) => Some(Geometry { x: old.x, y: old.y, width: old.width, height: old.height }),
            None => None,
        };
        Layout { geometry, maximized: true }
    } else {
        Layout { geometry: Some(g), maximized: false }
    }
}

/// The decimal text of an integer, with a `-` when negative.
pub open spec fn int_text(n: int) -> Seq<char> {
    if n < 0 {
        seq!['-'] + decimal((-n) as nat)
    } else {
        decimal(n as nat)
    }
}

fn push_int(out: &mut String, n: i64)
    requires
        -0x1_0000_0000 <= n <= 0x1_0000_0000,
    ensures
        final(out)@ == old(out)@ + int_text(n as int),
{
    if n < 0 {
        push_str(out, "-");
        proof {
            reveal_strlit("-");
        }
        let d = decimal_text((-n) as u64);
        push_str(out, d.as_str());
    } else {
        let d = decimal_text(n as u64);
        push_str(out, d.as_str());
    }
}

/// The config lines that store a layout: the geometry (when there is one)
/// and the maximized flag, each line ending in `\n`.
pub open spec fn spec_layout_text(geometry: Option<(int, int, int, int)>, maximized: bool) -> Seq<char> {
    (match geometry {
        Some((x, y, w, h)) => "x="@ + int_text(x) + "\ny="@ + int_text(y) + "\nwidth="@ + int_text(w)
            + "\nheight="@ + int_text(h) + "\n"@,
        None => Seq::<char>::empty(),
    }) + "maximized="@ + (if maximized { "true"@ } else { "false"@ }) + "\n"@
}

/// The config lines that store `layout`.
pub fn layout_text(layout: &Layout) -> (s: String)
    ensures
        s@ == spec_layout_text(geometry_view(layout.geometry), layout.maximized),
{
    let mut s = empty_string();
    if let Some(g) = &layout.geometry {
        push_str(&mut s, "x=");
        push_int(&mut s, g.x as i64);
        push_str(&mut s, "\ny=");
        push_int(&mut s, g.y as i64);
        push_str(&mut s, "\nwidth=");
        push_int(&mut s, g.width as i64);
        push_str(&mut s, "\nheight=");
        push_int(&mut s, g.height as i64);
        push_str(&mut s, "\n");
    }
    push_str(&mut s, "maximized=");
    push_str(&mut s, if layout.maximized { "true" } else { "false" });
    push_str(&mut s, "\n");
    proof {
        reveal_strlit("");
    }
    s
}


// ---------------------------------------------------------------------------
// What is written is read back
// ---------------------------------------------------------------------------

proof fn lemma_digit_char(d: nat)
    requires
        d < 10,
    ensures
        is_digit(crate::convert::digit_char(d)),
        crate::convert::digit_char(d) as int - '0' as int == d,
{
}

proof fn lemma_decimal_digits(n: nat)
    ensures
        decimal(n).len() > 0,
        all_digits(decimal(n)),
        digits_value(decimal(n)) == n,
    decreases n,
{
    if n < 10 {
        lemma_digit_char(n);
        let s = decimal(n);
        assert(s.drop_last() =~= Seq::<char>::empty());
        assert(digits_value(s.drop_last()) == 0);
        assert(s.last() == crate::convert::digit_char(n));
        assert(digits_value(s) == 10 * digits_value(s.drop_last()) + (s.last() as int - '0' as int));
    } else {
        lemma_decimal_digits(n / 10);
        lemma_digit_char(n % 10);
        let a = decimal(n / 10);
        let s = decimal(n);
        assert(s == a + seq![crate::convert::digit_char(n % 10)]);
        assert(s.drop_last() =~= a);
        assert(s.last() == crate::convert::digit_char(n % 10));
        assert(10 * (n / 10) + n % 10 == n);
        assert(digits_value(s) == 10 * digits_value(s.drop_last()) + (s.last() as int - '0' as int));
        assert forall|j: int| 0 <= j < s.len() implies is_digit(#[trigger] s[j]) by {
            if j < a.len() {
                assert(s[j] == a[j]);
            }
        }
    }
}

/// The text of an integer spells it back, and has no whitespace or line
/// break at either end.
proof fn lemma_int_text(n: int)
    ensures
        int_value(int_text(n)) == Some(n),
        spec_trim(int_text(n)) == int_text(n),
        crate::text::lacks(int_text(n), '\n'),
        int_text(n).len() > 0,
{
    let t = int_text(n);
    if n < 0 {
        lemma_decimal_digits((-n) as nat);
        let d = decimal((-n) as nat);
        assert(t.drop_first() =~= d);
        assert(t.last() == d.last());
        assert(is_digit(d.last())) by {
            assert(d.last() == d[d.len() - 1]);
        }
        assert forall|j: int| 0 <= j < t.len() implies t[j] != '\n' by {
            if j > 0 {
                assert(t[j] == d[j - 1]);
            }
        }
    } else {
        lemma_decimal_digits(n as nat);
        assert(is_digit(t[0]));
        assert(is_digit(t.last())) by {
            assert(t.last() == t[t.len() - 1]);
        }
        assert forall|j: int| 0 <= j < t.len() implies t[j] != '\n' by {
            assert(is_digit(t[j]));
        }
    }
    assert(crate::text::trim_start(t) == t);
    assert(crate::text::trim_end(t) == t);
}

/// The line that sets `key` to `value`.
pub open spec fn setting(key: Seq<char>, value: Seq<char>) -> Seq<char> {
    key + seq!['='] + value
}

proof fn lemma_setting_value(key: Seq<char>, value: Seq<char>)
    requires
        spec_trim(value) == value,
    ensures
        line_value(setting(key, value), key) == Some(value),
{
    let k = key + seq!['='];
    let l = setting(key, value);
    assert(l.subrange(0, k.len() as int) =~= k);
    assert(l.skip(k.len() as int) =~= value);
}

proof fn lemma_setting_other(key: Seq<char>, value: Seq<char>, other: Seq<char>)
    requires
        key.len() > 0,
        other.len() > 0,
        key[0] != other[0],
    ensures
        line_value(setting(key, value), other) is None,
{
    let k = other + seq!['='];
    let l = setting(key, value);
    if k.is_prefix_of(l) {
        assert(l.subrange(0, k.len() as int)[0] == k[0]);
    }
}

/// The text of a flag: `true` or `false`.
pub open spec fn flag_text(b: bool) -> Seq<char> {
    if b { "true"@ } else { "false"@ }
}

/// The lines of a written layout with a geometry.
pub open spec fn geometry_lines(x: int, y: int, w: int, h: int, maximized: bool) -> Seq<Seq<char>> {
    seq![
        setting("x"@, int_text(x)),
        setting("y"@, int_text(y)),
        setting("width"@, int_text(w)),
        setting("height"@, int_text(h)),
        setting("maximized"@, flag_text(maximized)),
        Seq::<char>::empty(),
    ]
}

proof fn lemma_lacks_setting(key: Seq<char>, value: Seq<char>)
    requires
        crate::text::lacks(key, '\n'),
        crate::text::lacks(value, '\n'),
    ensures
        crate::text::lacks(setting(key, value), '\n'),
{
    let l = setting(key, value);
    assert forall|j: int| 0 <= j < l.len() implies l[j] != '\n' by {
        if j < key.len() {
            assert(l[j] == key[j]);
        } else if j > key.len() {
            assert(l[j] == value[j - key.len() - 1]);
        }
    }
}

proof fn lemma_flag_text(b: bool)
    ensures
        spec_trim(flag_text(b)) == flag_text(b),
        crate::text::lacks(flag_text(b), '\n'),
        crate::text::lacks("maximized"@, '\n'),
{
    reveal_strlit("true");
    reveal_strlit("false");
    reveal_strlit("maximized");
    let f = flag_text(b);
    assert(crate::text::trim_start(f) == f);
    assert(crate::text::trim_end(f) == f);
}

proof fn lemma_geometry_split(x: int, y: int, w: int, h: int, maximized: bool)
    ensures
        spec_split(spec_layout_text(Some((x, y, w, h)), maximized), '\n') == geometry_lines(
            x,
            y,
            w,
            h,
            maximized,
        ),
{
    reveal_strlit("x=");
    reveal_strlit("\ny=");
    reveal_strlit("\nwidth=");
    reveal_strlit("\nheight=");
    reveal_strlit("\n");
    reveal_strlit("maximized=");
    reveal_strlit("x");
    reveal_strlit("y");
    reveal_strlit("width");
    reveal_strlit("height");
    reveal_strlit("maximized");
    lemma_int_text(x);
    lemma_int_text(y);
    lemma_int_text(w);
    lemma_int_text(h);
    lemma_flag_text(maximized);
    let nl = seq!['\n'];
    let g = geometry_lines(x, y, w, h, maximized);
    let l0 = g[0];
    let l1 = g[1];
    let l2 = g[2];
    let l3 = g[3];
    let l4 = g[4];
    assert(spec_layout_text(Some((x, y, w, h)), maximized) =~= l0 + nl + l1 + nl + l2 + nl + l3 + nl + l4
        + nl + Seq::<char>::empty());
    lemma_lacks_setting("x"@, int_text(x));
    lemma_lacks_setting("y"@, int_text(y));
    lemma_lacks_setting("width"@, int_text(w));
    lemma_lacks_setting("height"@, int_text(h));
    lemma_lacks_setting("maximized"@, flag_text(maximized));
    crate::text::lemma_split_single(l0, '\n');
    crate::text::lemma_split_append_sep(l0, l1, '\n');
    crate::text::lemma_split_append_sep(l0 + nl + l1, l2, '\n');
    crate::text::lemma_split_append_sep(l0 + nl + l1 + nl + l2, l3, '\n');
    crate::text::lemma_split_append_sep(l0 + nl + l1 + nl + l2 + nl + l3, l4, '\n');
    crate::text::lemma_split_append_sep(
        l0 + nl + l1 + nl + l2 + nl + l3 + nl + l4,
        Seq::<char>::empty(),
        '\n',
    );
    assert(seq![l0].push(l1).push(l2).push(l3).push(l4).push(Seq::<char>::empty()) =~= g);
}

/// Every layout the reader writes it reads back: for a plausible geometry
/// (or none) and either maximized state, parsing the written lines gives
/// the same geometry and state.
pub proof fn law_layout_read_back(geometry: Option<(int, int, int, int)>, maximized: bool)
    requires
        geometry matches Some((x, y, w, h)) ==> plausible(x, y, w, h),
    ensures
        stored_geometry(spec_layout_text(geometry, maximized)) == geometry,
        stored_maximized(spec_layout_text(geometry, maximized)) == maximized,
{
    reveal_strlit("x");
    reveal_strlit("y");
    reveal_strlit("width");
    reveal_strlit("height");
    reveal_strlit("maximized");
    reveal_strlit("true");
    reveal_strlit("false");
    lemma_flag_text(maximized);
    let lm = setting("maximized"@, flag_text(maximized));
    lemma_setting_value("maximized"@, flag_text(maximized));
    match geometry {
        Some((x, y, w, h)) => {
            lemma_geometry_split(x, y, w, h, maximized);
            let ls = geometry_lines(x, y, w, h, maximized);
            lemma_int_text(x);
            lemma_int_text(y);
            lemma_int_text(w);
            lemma_int_text(h);
            lemma_setting_value("x"@, int_text(x));
            lemma_setting_value("y"@, int_text(y));
            lemma_setting_value("width"@, int_text(w));
            lemma_setting_value("height"@, int_text(h));
            lemma_setting_other("x"@, int_text(x), "y"@);
            lemma_setting_other("x"@, int_text(x), "width"@);
            lemma_setting_other("x"@, int_text(x), "height"@);
            lemma_setting_other("x"@, int_text(x), "maximized"@);
            lemma_setting_other("y"@, int_text(y), "width"@);
            lemma_setting_other("y"@, int_text(y), "height"@);
            lemma_setting_other("y"@, int_text(y), "maximized"@);
            lemma_setting_other("width"@, int_text(w), "height"@);
            lemma_setting_other("width"@, int_text(w), "maximized"@);
            lemma_setting_other("height"@, int_text(h), "maximized"@);
            assert(find_int(ls, 0, "x"@) == Some(x));
            assert(find_int(ls, 1, "y"@) == Some(y));
            assert(find_int(ls, 0, "y"@) == Some(y));
            assert(find_int(ls, 2, "width"@) == Some(w));
            assert(find_int(ls, 1, "width"@) == Some(w));
            assert(find_int(ls, 0, "width"@) == Some(w));
            assert(find_int(ls, 3, "height"@) == Some(h));
            assert(find_int(ls, 2, "height"@) == Some(h));
            assert(find_int(ls, 1, "height"@) == Some(h));
            assert(find_int(ls, 0, "height"@) == Some(h));
            assert(find_flag(ls, 4, "maximized"@) == Some(maximized));
            assert(find_flag(ls, 3, "maximized"@) == Some(maximized));
            assert(find_flag(ls, 2, "maximized"@) == Some(maximized));
            assert(find_flag(ls, 1, "maximized"@) == Some(maximized));
            assert(find_flag(ls, 0, "maximized"@) == Some(maximized));
        },
        None => {
            reveal_strlit("maximized=");
            reveal_strlit("\n");
            let nl = seq!['\n'];
            let text = spec_layout_text(geometry, maximized);
            assert(text =~= lm + nl + Seq::<char>::empty());
            lemma_lacks_setting("maximized"@, flag_text(maximized));
            crate::text::lemma_split_single(lm, '\n');
            crate::text::lemma_split_append_sep(lm, Seq::<char>::empty(), '\n');
            let ls = spec_split(text, '\n');
            assert(ls =~= seq![lm, Seq::<char>::empty()]);
            lemma_setting_other("maximized"@, flag_text(maximized), "x"@);
            assert(line_value(Seq::<char>::empty(), "x"@) is None);
            assert(find_int(ls, 2, "x"@) is None);
            assert(find_int(ls, 1, "x"@) is None);
            assert(find_int(ls, 0, "x"@) is None);
            assert(find_flag(ls, 0, "maximized"@) == Some(maximized));
        },
    }
}

} // verus!
