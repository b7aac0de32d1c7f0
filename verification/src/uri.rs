//! URL-level helpers: scheme detection, percent-encoding and -decoding,
//! and HTML text escaping.
use vstd::prelude::*;
use vstd::utf8::*;
use crate::text::{chars_of, empty_string, lacks, push_char, push_str};

verus! {

broadcast use vstd::utf8::group_utf8_lib;

// ---------------------------------------------------------------------------
// URI schemes
// ---------------------------------------------------------------------------

/// An ASCII letter.
pub open spec fn is_ascii_alpha(c: char) -> bool {
    ('a' <= c && c <= 'z') || ('A' <= c && c <= 'Z')
}

/// An ASCII decimal digit.
pub open spec fn is_ascii_digit(c: char) -> bool {
    '0' <= c && c <= '9'
}

/// A character allowed in a URI scheme after its first letter.
pub open spec fn is_scheme_char(c: char) -> bool {
    is_ascii_alpha(c) || is_ascii_digit(c) || c == '+' || c == '-' || c == '.'
}

/// Index of the first occurrence of `c` in `s`, if any.
pub open spec fn first_index_of(s: Seq<char>, c: char) -> Option<int> {
    if exists|i: int| 0 <= i < s.len() && s[i] == c {
        Some(choose|i: int| 0 <= i < s.len() && s[i] == c && forall|j: int| 0 <= j < i ==> s[j] != c)
    } else {
        None
    }
}

/// `k` is the position of the first `:` in `s`.
pub open spec fn is_first_colon(s: Seq<char>, k: int) -> bool {
    0 <= k < s.len() && s[k] == ':' && forall|j: int| 0 <= j < k ==> s[j] != ':'
}

/// The text before position `k` is a URI scheme of at least two characters:
/// an ASCII letter followed by letters, digits, `+`, `-` or `.`.
pub open spec fn is_scheme_prefix(s: Seq<char>, k: int) -> bool {
    k >= 2 && is_ascii_alpha(s[0]) && forall|j: int| 0 <= j < k ==> #[trigger] is_scheme_char(s[j])
}

/// `s` begins with `scheme:` (see [`is_scheme_prefix`]).
pub open spec fn spec_has_uri_scheme(s: Seq<char>) -> bool {
    exists|k: int| #[trigger] is_first_colon(s, k) && is_scheme_prefix(s, k)
}

proof fn lemma_first_colon_unique(s: Seq<char>, k: int, kk: int)
    requires
        is_first_colon(s, k),
        is_first_colon(s, kk),
    ensures
        k == kk,
{
    if kk < k {
        assert(s[kk] != ':');
    } else if kk > k {
        assert(s[k] != ':');
    }
}

fn ascii_alpha(c: char) -> (b: bool)
    ensures
        b == is_ascii_alpha(c),
{
    ('a' <= c && c <= 'z') || ('A' <= c && c <= 'Z')
}

fn scheme_char(c: char) -> (b: bool)
    ensures
        b == is_scheme_char(c),
{
    ascii_alpha(c) || ('0' <= c && c <= '9') || c == '+' || c == '-' || c == '.'
}

/// True if `s` begins with a URI scheme (`scheme:`), where scheme is at least
/// two characters. The two-char minimum keeps Windows drive-letter paths like
/// `C:\images\x.png` from being mistaken for a `c:` URL scheme.
pub fn has_uri_scheme(s: &str) -> (b: bool)
    ensures
        b == spec_has_uri_scheme(s@),
{
    let v = chars_of(s);
    let mut k: usize = 0;
    while k < v.len()
        invariant
            k <= v.len(),
            forall|j: int| 0 <= j < k ==> v@[j] != ':',
        ensures
            k <= v.len(),
            forall|j: int| 0 <= j < k ==> v@[j] != ':',
            k < v.len() ==> v@[k as int] == ':',
        decreases v.len() - k,
    {
        if v[k] == ':' {
            break;
        }
        k += 1;
    }
    if k == v.len() {
        proof {
            assert forall|kk: int| !is_first_colon(v@, kk) by {
                if is_first_colon(v@, kk) {
                    assert(v@[kk] != ':');
                }
            }
        }
        return false;
    }
    assert(is_first_colon(v@, k as int));
    proof {
        assert forall|kk: int| #[trigger] is_first_colon(v@, kk) implies kk == k by {
            lemma_first_colon_unique(v@, k as int, kk);
        }
    }
    if k < 2 || !ascii_alpha(v[0]) {
        return false;
    }
    let mut j: usize = 0;
    while j < k
        invariant
            v@ == s@,
            k < v.len(),
            j <= k,
            is_first_colon(v@, k as int),
            forall|kk: int| #[trigger] is_first_colon(v@, kk) ==> kk == k,
            forall|i: int| 0 <= i < j ==> #[trigger] is_scheme_char(v@[i]),
        decreases k - j,
    {
        if !scheme_char(v[j]) {
            assert(!is_scheme_prefix(v@, k as int));
            return false;
        }
        j += 1;
    }
    assert(is_scheme_prefix(v@, k as int));
    true
}

/// A Windows drive-letter path such as `C:\images\x.png` is never taken
/// for a URI scheme: a scheme has at least two characters before its colon.
pub proof fn law_drive_letter_is_not_a_scheme(s: Seq<char>)
    requires
        s.len() >= 2,
        is_ascii_alpha(s[0]),
        s[1] == ':',
    ensures
        !spec_has_uri_scheme(s),
{
    if spec_has_uri_scheme(s) {
        let k = choose|k: int| #[trigger] is_first_colon(s, k) && is_scheme_prefix(s, k);
        assert(s[1] != ':');
    }
}

/// A destination that refers to a local file: not empty, not a bare
/// fragment, not protocol-relative and without a URI scheme.
pub open spec fn spec_is_local_dest(d: Seq<char>) -> bool {
    d.len() > 0 && d[0] != '#' && !(d.len() >= 2 && d[0] == '/' && d[1] == '/')
        && !spec_has_uri_scheme(d)
}

/// Whether a link or image destination refers to a local file.
pub fn is_local_dest(d: &str) -> (b: bool)
    ensures
        b == spec_is_local_dest(d@),
{
    let v = chars_of(d);
    if v.len() == 0 || v[0] == '#' || (v.len() >= 2 && v[0] == '/' && v[1] == '/') {
        return false;
    }
    !has_uri_scheme(d)
}

// ---------------------------------------------------------------------------
// Percent-encoding
// ---------------------------------------------------------------------------

/// Bytes that pass through percent-encoding unchanged (RFC 3986 unreserved).
pub open spec fn is_unreserved_byte(b: u8) -> bool {
    (0x41 <= b && b <= 0x5A) || (0x61 <= b && b <= 0x7A) || (0x30 <= b && b <= 0x39) || b == 0x2D
        || b == 0x2E || b == 0x5F || b == 0x7E
}

/// The upper-case hexadecimal digit for `n < 16`.
pub open spec fn hex_digit(n: u8) -> char {
    if n < 10 {
        (0x30 + n) as char
    } else {
        (0x37 + n) as char
    }
}

/// One byte as it appears in a percent-encoded segment.
pub open spec fn encode_byte(b: u8) -> Seq<char> {
    if is_unreserved_byte(b) {
        seq![b as char]
    } else {
        seq!['%', hex_digit(b / 16), hex_digit(b % 16)]
    }
}

/// Percent-encoding of a byte sequence.
pub open spec fn encode_bytes(bs: Seq<u8>) -> Seq<char>
    decreases bs.len(),
{
    if bs.len() == 0 {
        seq![]
    } else {
        encode_byte(bs[0]) + encode_bytes(bs.drop_first())
    }
}

/// Percent-encoding of the UTF-8 bytes of `s`.
pub open spec fn spec_percent_encode(s: Seq<char>) -> Seq<char> {
    encode_bytes(encode_utf8(s))
}

fn unreserved_byte(b: u8) -> (r: bool)
    ensures
        r == is_unreserved_byte(b),
{
    (0x41 <= b && b <= 0x5A) || (0x61 <= b && b <= 0x7A) || (0x30 <= b && b <= 0x39) || b == 0x2D
        || b == 0x2E || b == 0x5F || b == 0x7E
}

fn hex_digit_char(n: u8) -> (c: char)
    requires
        n < 16,
    ensures
        c == hex_digit(n),
{
    if n < 10 {
        (0x30 + n) as char
    } else {
        (0x37 + n) as char
    }
}

/// Percent-encode a single URL path segment (unreserved chars pass through).
pub fn percent_encode(s: &str) -> (res: String)
    ensures
        res@ == spec_percent_encode(s@),
{
    let bytes = s.as_bytes();
    let mut out = empty_string();
    let mut i: usize = 0;
    proof {
        assert(bytes@.skip(0) == bytes@);
    }
    while i < bytes.len()
        invariant
            i <= bytes@.len(),
            bytes@ == encode_utf8(s@),
            out@ + encode_bytes(bytes@.skip(i as int)) == encode_bytes(bytes@),
        decreases bytes.len() - i,
    {
        let b = bytes[i];
        proof {
            assert(bytes@.skip(i as int).drop_first() == bytes@.skip(i + 1));
        }
        if unreserved_byte(b) {
            push_char(&mut out, b as char);
        } else {
            push_char(&mut out, '%');
            push_char(&mut out, hex_digit_char(b / 16));
            push_char(&mut out, hex_digit_char(b % 16));
        }
        i += 1;
    }
    proof {
        assert(bytes@.skip(bytes@.len() as int) == Seq::<u8>::empty());
    }
    out
}

/// The value of an ASCII hexadecimal digit.
pub open spec fn spec_hex_val(b: u8) -> Option<u8> {
    if 0x30 <= b && b <= 0x39 {
        Some((b - 0x30) as u8)
    } else if 0x61 <= b && b <= 0x66 {
        Some((b - 0x61 + 10) as u8)
    } else if 0x41 <= b && b <= 0x46 {
        Some((b - 0x41 + 10) as u8)
    } else {
        None
    }
}

/// The value of a hexadecimal digit byte, if it is one.
pub fn hex_val(b: u8) -> (r: Option<u8>)
    ensures
        r == spec_hex_val(b),
{
    if 0x30 <= b && b <= 0x39 {
        Some(b - 0x30)
    } else if 0x61 <= b && b <= 0x66 {
        Some(b - 0x61 + 10)
    } else if 0x41 <= b && b <= 0x46 {
        Some(b - 0x41 + 10)
    } else {
        None
    }
}

/// Decoding of `bs` from index `i` on: `%XY` with two hex digits (and room
/// for both) becomes one byte, every other byte is kept.
pub open spec fn decode_from(bs: Seq<u8>, i: int) -> Seq<u8>
    decreases bs.len() - i,
{
    if i < 0 || i >= bs.len() {
        seq![]
    } else if bs[i] == 0x25 && i + 2 < bs.len() && spec_hex_val(bs[i + 1]) is Some && spec_hex_val(
        bs[i + 2],
    ) is Some {
        seq![(spec_hex_val(bs[i + 1])->0 * 16 + spec_hex_val(bs[i + 2])->0) as u8] + decode_from(
            bs,
            i + 3,
        )
    } else {
        seq![bs[i]] + decode_from(bs, i + 1)
    }
}

/// What `String::from_utf8_lossy` makes of `bytes`.
pub uninterp spec fn utf8_lossy(bytes: Seq<u8>) -> Seq<char>;

/// Text of a byte sequence: its UTF-8 decoding when valid, else the lossy
/// decoding in which invalid sequences become U+FFFD.
pub open spec fn text_of_bytes(bytes: Seq<u8>) -> Seq<char> {
    if valid_utf8(bytes) {
        decode_utf8(bytes)
    } else {
        utf8_lossy(bytes)
    }
}

/// std `String::from_utf8_lossy`: valid UTF-8 decodes as such; the contract
/// names the result on invalid input without saying which replacement
/// characters it holds.
#[verifier::external_body]
fn string_from_utf8_lossy(bytes: Vec<u8>) -> (s: String)
    ensures
        s@ == text_of_bytes(bytes@),
        s@ == utf8_lossy(bytes@),
{
    String::from_utf8_lossy(&bytes).into_owned()
}

/// Percent-decoding of `s`: its UTF-8 bytes are decoded (see
/// [`decode_from`]) and read back as text.
pub open spec fn spec_percent_decode(s: Seq<char>) -> Seq<char> {
    text_of_bytes(decode_from(encode_utf8(s), 0))
}

/// Percent-decode a string (invalid escapes are left literal).
pub fn percent_decode(s: &str) -> (res: String)
    ensures
        res@ == spec_percent_decode(s@),
{
    let bytes = s.as_bytes();
    let mut out: Vec<u8> = Vec::new();
    let mut i: usize = 0;
    while i < bytes.len()
        invariant
            i <= bytes@.len(),
            bytes@ == encode_utf8(s@),
            out@ + decode_from(bytes@, i as int) == decode_from(bytes@, 0),
        decreases bytes.len() - i,
    {
        if bytes[i] == 0x25 && 2 < bytes.len() - i {
            let h = hex_val(bytes[i + 1]);
            let l = hex_val(bytes[i + 2]);
            if let (Some(h), Some(l)) = (h, l) {
                proof {
                    assert(out@.push((h * 16 + l) as u8) + decode_from(bytes@, i + 3) == out@
                        + decode_from(bytes@, i as int));
                }
                out.push(h * 16 + l);
                i += 3;
                continue;
            }
        }
        proof {
            assert(out@.push(bytes@[i as int]) + decode_from(bytes@, i + 1) == out@ + decode_from(
                bytes@,
                i as int,
            ));
        }
        out.push(bytes[i]);
        i += 1;
    }
    string_from_utf8_lossy(out)
}

/// The byte values of a sequence of ASCII characters.
pub open spec fn ascii_bytes(cs: Seq<char>) -> Seq<u8> {
    Seq::new(cs.len(), |i: int| cs[i] as u8)
}

proof fn lemma_encode_byte_ascii(b: u8)
    ensures
        is_ascii_chars(encode_byte(b)),
        encode_byte(b).len() == 1 || encode_byte(b).len() == 3,
{
}

proof fn lemma_encode_bytes_ascii(bs: Seq<u8>)
    ensures
        is_ascii_chars(encode_bytes(bs)),
    decreases bs.len(),
{
    if bs.len() > 0 {
        lemma_encode_byte_ascii(bs[0]);
        lemma_encode_bytes_ascii(bs.drop_first());
        let a = encode_byte(bs[0]);
        let r = encode_bytes(bs.drop_first());
        assert forall|i: int| 0 <= i < (a + r).len() implies '\0' <= #[trigger] (a + r)[i] <= '\u{7f}' by {
            if i < a.len() {
                assert((a + r)[i] == a[i]);
            } else {
                assert((a + r)[i] == r[i - a.len()]);
            }
        }
    }
}

proof fn lemma_hex_digit_value(n: u8)
    requires
        n < 16,
    ensures
        spec_hex_val(hex_digit(n) as u8) == Some(n),
{
}

proof fn lemma_decode_shift(p: Seq<u8>, z: Seq<u8>, j: int)
    requires
        0 <= j,
    ensures
        decode_from(p + z, p.len() + j) == decode_from(z, j),
    decreases z.len() - j,
{
    let w = p + z;
    let k = p.len() + j;
    if j >= z.len() {
    } else {
        assert(w[k] == z[j]);
        if j + 1 < z.len() {
            assert(w[k + 1] == z[j + 1]);
        }
        if j + 2 < z.len() {
            assert(w[k + 2] == z[j + 2]);
        }
        if z[j] == 0x25 && j + 2 < z.len() && spec_hex_val(z[j + 1]) is Some && spec_hex_val(
            z[j + 2],
        ) is Some {
            lemma_decode_shift(p, z, j + 3);
        } else {
            lemma_decode_shift(p, z, j + 1);
        }
    }
}

proof fn lemma_decode_encoded(bs: Seq<u8>)
    ensures
        decode_from(ascii_bytes(encode_bytes(bs)), 0) == bs,
    decreases bs.len(),
{
    if bs.len() == 0 {
        assert(ascii_bytes(encode_bytes(bs)) =~= Seq::<u8>::empty());
    } else {
        let b = bs[0];
        let y = ascii_bytes(encode_byte(b));
        let z = ascii_bytes(encode_bytes(bs.drop_first()));
        let w = ascii_bytes(encode_bytes(bs));
        assert(w =~= y + z);
        lemma_decode_encoded(bs.drop_first());
        if is_unreserved_byte(b) {
            assert(w[0] == b);
            lemma_decode_shift(y, z, 0);
            assert(decode_from(w, 0) == seq![b] + decode_from(w, 1));
        } else {
            lemma_hex_digit_value(b / 16);
            lemma_hex_digit_value(b % 16);
            assert(w[0] == 0x25);
            assert(w[1] == hex_digit(b / 16) as u8);
            assert(w[2] == hex_digit(b % 16) as u8);
            assert((b / 16) * 16 + b % 16 == b);
            lemma_decode_shift(y, z, 0);
            assert(decode_from(w, 0) == seq![b] + decode_from(w, 3));
        }
        assert(seq![b] + bs.drop_first() =~= bs);
    }
}

/// Percent-decoding undoes percent-encoding: for every string `s`,
/// `percent_decode(&percent_encode(s)) == s`.
pub proof fn law_percent_decode_inverts_encode(s: Seq<char>)
    ensures
        spec_percent_decode(spec_percent_encode(s)) == s,
{
    let bs = encode_utf8(s);
    let e = encode_bytes(bs);
    lemma_encode_bytes_ascii(bs);
    is_ascii_chars_encode_utf8(e);
    assert(encode_utf8(e) =~= ascii_bytes(e));
    lemma_decode_encoded(bs);
}

/// A character that percent-encoding can emit: an unreserved one or `%`.
pub open spec fn is_encoded_char(c: char) -> bool {
    c == '%' || (c as u32) < 128 && is_unreserved_byte(c as u8)
}

proof fn lemma_encode_bytes_alphabet(bs: Seq<u8>)
    ensures
        forall|j: int| 0 <= j < encode_bytes(bs).len() ==> is_encoded_char(#[trigger] encode_bytes(bs)[j]),
    decreases bs.len(),
{
    if bs.len() > 0 {
        lemma_encode_bytes_alphabet(bs.drop_first());
        let a = encode_byte(bs[0]);
        let r = encode_bytes(bs.drop_first());
        assert forall|j: int| 0 <= j < (a + r).len() implies is_encoded_char(#[trigger] (a + r)[j]) by {
            if j < a.len() {
                assert((a + r)[j] == a[j]);
                if !is_unreserved_byte(bs[0]) {
                    if j > 0 {
                        let n: u8 = if j == 1 { bs[0] / 16 } else { bs[0] % 16 };
                        assert(a[j] == hex_digit(n));
                    }
                }
            } else {
                assert((a + r)[j] == r[j - a.len()]);
            }
        }
    }
}

/// Percent-encoded text never holds a character outside the unreserved set
/// and `%` — in particular no `/`, `?`, `#`, `&` or `=`.
pub proof fn law_percent_encoding_lacks_reserved(s: Seq<char>, c: char)
    requires
        !is_encoded_char(c),
    ensures
        lacks(spec_percent_encode(s), c),
{
    lemma_encode_bytes_alphabet(encode_utf8(s));
}

// ---------------------------------------------------------------------------
// HTML escaping
// ---------------------------------------------------------------------------

/// One character as escaped HTML text.
pub open spec fn escape_char(c: char) -> Seq<char> {
    if c == '&' {
        seq!['&', 'a', 'm', 'p', ';']
    } else if c == '<' {
        seq!['&', 'l', 't', ';']
    } else if c == '>' {
        seq!['&', 'g', 't', ';']
    } else if c == '"' {
        seq!['&', 'q', 'u', 'o', 't', ';']
    } else {
        seq![c]
    }
}

/// `s` with `&`, `<`, `>` and `"` replaced by their HTML entities.
pub open spec fn spec_escape_html(s: Seq<char>) -> Seq<char>
    decreases s.len(),
{
    if s.len() == 0 {
        seq![]
    } else {
        escape_char(s[0]) + spec_escape_html(s.drop_first())
    }
}

/// Escaped text holds no `<`, `>` or `"`: raw source embedded with it can
/// neither open nor close an element or an attribute value.
pub proof fn law_escaped_text_has_no_markup(s: Seq<char>)
    ensures
        lacks(spec_escape_html(s), '<'),
        lacks(spec_escape_html(s), '>'),
        lacks(spec_escape_html(s), '"'),
    decreases s.len(),
{
    if s.len() > 0 {
        law_escaped_text_has_no_markup(s.drop_first());
        let a = escape_char(s[0]);
        let r = spec_escape_html(s.drop_first());
        assert forall|j: int| 0 <= j < (a + r).len() implies (a + r)[j] != '<' && (a + r)[j] != '>'
            && (a + r)[j] != '"' by {
            if j < a.len() {
                assert((a + r)[j] == a[j]);
            } else {
                assert((a + r)[j] == r[j - a.len()]);
            }
        }
    }
}

/// Minimal HTML-text escaping for embedding raw source as element content.
pub fn escape_html(s: &str) -> (res: String)
    ensures
        res@ == spec_escape_html(s@),
{
    let v = chars_of(s);
    let mut out = empty_string();
    let mut i: usize = 0;
    proof {
        assert(v@.skip(0) == v@);
    }
    while i < v.len()
        invariant
            i <= v@.len(),
            v@ == s@,
            out@ + spec_escape_html(v@.skip(i as int)) == spec_escape_html(v@),
        decreases v.len() - i,
    {
        let c = v[i];
        proof {
            assert(v@.skip(i as int).drop_first() == v@.skip(i + 1));
        }
        if c == '&' {
            push_str(&mut out, "&amp;");
            proof { reveal_strlit("&amp;"); }
        } else if c == '<' {
            push_str(&mut out, "&lt;");
            proof { reveal_strlit("&lt;"); }
        } else if c == '>' {
            push_str(&mut out, "&gt;");
            proof { reveal_strlit("&gt;"); }
        } else if c == '"' {
            push_str(&mut out, "&quot;");
            proof { reveal_strlit("&quot;"); }
        } else {
            push_char(&mut out, c);
        }
        i += 1;
    }
    proof {
        assert(v@.skip(v@.len() as int) == Seq::<char>::empty());
    }
    out
}

} // verus!
