//! Standard base64 encoding (RFC 4648 alphabet, `=` padding) for `data:` URIs.
use vstd::prelude::*;
use crate::text::{empty_string, push_char};

verus! {

/// The base64 alphabet character for a 6-bit value.
pub open spec fn b64_digit(n: u8) -> char {
    if n < 26 {
        (0x41 + n) as char
    } else if n < 52 {
        (0x61 + (n - 26)) as char
    } else if n < 62 {
        (0x30 + (n - 52)) as char
    } else if n == 62 {
        '+'
    } else {
        '/'
    }
}

/// The four output characters of one group of one to three input bytes;
/// missing bytes count as zero and their positions become `=`.
pub open spec fn b64_group(bs: Seq<u8>) -> Seq<char>
    recommends
        1 <= bs.len() <= 3,
{
    let b0 = bs[0];
    let b1: u8 = if bs.len() > 1 { bs[1] } else { 0 };
    let b2: u8 = if bs.len() > 2 { bs[2] } else { 0 };
    seq![
        b64_digit(b0 / 4),
        b64_digit(((b0 % 4) * 16 + b1 / 16) as u8),
        if bs.len() > 1 { b64_digit(((b1 % 16) * 4 + b2 / 64) as u8) } else { '=' },
        if bs.len() > 2 { b64_digit(b2 % 64) } else { '=' },
    ]
}

/// Base64 encoding of a byte sequence, three bytes per group.
pub open spec fn spec_base64(bs: Seq<u8>) -> Seq<char>
    decreases bs.len(),
{
    if bs.len() == 0 {
        seq![]
    } else if bs.len() <= 3 {
        b64_group(bs)
    } else {
        b64_group(bs.take(3)) + spec_base64(bs.skip(3))
    }
}

fn digit(n: u8) -> (c: char)
    requires
        n < 64,
    ensures
        c == b64_digit(n),
{
    if n < 26 {
        (0x41 + n) as char
    } else if n < 52 {
        (0x61 + (n - 26)) as char
    } else if n < 62 {
        (0x30 + (n - 52)) as char
    } else if n == 62 {
        '+'
    } else {
        '/'
    }
}

/// Base64 output has four characters for every started group of three
/// input bytes.
pub proof fn law_base64_length(bs: Seq<u8>)
    ensures
        spec_base64(bs).len() == 4 * ((bs.len() + 2) / 3),
    decreases bs.len(),
{
    if bs.len() > 3 {
        law_base64_length(bs.skip(3));
        assert(bs.skip(3).len() == bs.len() - 3);
        assert((bs.len() - 3 + 2) / 3 + 1 == (bs.len() + 2) / 3);
    }
}

/// No alphabet character is the padding `=`.
proof fn lemma_digit_not_pad(n: u8)
    requires
        n < 64,
    ensures
        b64_digit(n) != '=',
{
    if n < 26 {
        assert((0x41 + n) as char != '=');
    } else if n < 52 {
        assert((0x61 + (n - 26)) as char != '=');
    } else if n < 62 {
        assert((0x30 + (n - 52)) as char != '=');
    }
}

/// The number of `=` a base64 text ends with, for `n` input bytes.
pub open spec fn pad_count(n: nat) -> int {
    (3 - n % 3) % 3
}

/// Base64 output ends with exactly `(3 - n % 3) % 3` padding characters for
/// `n` input bytes, and holds `=` nowhere else.
pub proof fn law_base64_padding(bs: Seq<u8>)
    ensures
        ({
            let r = spec_base64(bs);
            let k = pad_count(bs.len());
            &&& k <= r.len()
            &&& forall|i: int| 0 <= i < r.len() - k ==> #[trigger] r[i] != '='
            &&& forall|i: int| r.len() - k <= i < r.len() ==> #[trigger] r[i] == '='
        }),
    decreases bs.len(),
{
    let r = spec_base64(bs);
    if bs.len() == 0 {
    } else if bs.len() <= 3 {
        let b0 = bs[0];
        let b1: u8 = if bs.len() > 1 { bs[1] } else { 0 };
        let b2: u8 = if bs.len() > 2 { bs[2] } else { 0 };
        lemma_digit_not_pad(b0 / 4);
        assert(((b0 % 4) * 16 + b1 / 16) < 64) by (nonlinear_arith)
            requires
                b1 < 256,
        ;
        lemma_digit_not_pad(((b0 % 4) * 16 + b1 / 16) as u8);
        if bs.len() > 1 {
            assert(((b1 % 16) * 4 + b2 / 64) < 64) by (nonlinear_arith)
                requires
                    b2 < 256,
            ;
            lemma_digit_not_pad(((b1 % 16) * 4 + b2 / 64) as u8);
        }
        if bs.len() > 2 {
            lemma_digit_not_pad(b2 % 64);
        }
    } else {
        law_base64_padding(bs.skip(3));
        law_base64_padding(bs.take(3));
        let g = b64_group(bs.take(3));
        let t = spec_base64(bs.skip(3));
        assert(spec_base64(bs.take(3)) == g);
        assert(r == g + t);
        assert(pad_count(bs.len()) == pad_count(bs.skip(3).len()));
        assert forall|i: int| 0 <= i < r.len() - pad_count(bs.len()) implies #[trigger] r[i] != '=' by {
            if i < 4 {
                assert(r[i] == g[i]);
            } else {
                assert(r[i] == t[i - 4]);
            }
        }
        assert forall|i: int| r.len() - pad_count(bs.len()) <= i < r.len() implies #[trigger] r[i] == '=' by {
            assert(r[i] == t[i - 4]);
        }
    }
}

/// Base64 encodes a text cut after a whole number of three-byte groups as
/// the encodings of the two parts, one after the other.
pub proof fn law_base64_concat(a: Seq<u8>, b: Seq<u8>)
    requires
        a.len() % 3 == 0,
    ensures
        spec_base64(a + b) == spec_base64(a) + spec_base64(b),
    decreases a.len(),
{
    if a.len() == 0 {
        assert(a + b =~= b);
        assert(spec_base64(a) + spec_base64(b) =~= spec_base64(b));
    } else {
        let ab = a + b;
        law_base64_concat(a.skip(3), b);
        assert(ab.take(3) =~= a.take(3));
        assert(ab.skip(3) =~= a.skip(3) + b);
        if a.len() == 3 {
            assert(a.take(3) =~= a);
            assert(a.skip(3) + b =~= b);
            if b.len() == 0 {
                assert(ab =~= a);
                assert(spec_base64(a) + spec_base64(b) =~= spec_base64(a));
            }
        }
        assert(spec_base64(a) + spec_base64(b) =~= b64_group(a.take(3)) + (spec_base64(a.skip(3)) + spec_base64(
            b,
        ))) by {
            if a.len() == 3 {
                assert(a.skip(3) =~= Seq::<u8>::empty());
            }
        }
    }
}

/// Standard base64 encoding (for `data:` URIs).
pub fn base64_encode(data: &[u8]) -> (res: String)
    ensures
        res@ == spec_base64(data@),
{
    let mut out = empty_string();
    let mut i: usize = 0;
    proof {
        assert(data@.skip(0) == data@);
    }
    while i < data.len()
        invariant
            i <= data@.len(),
            out@ + spec_base64(data@.skip(i as int)) == spec_base64(data@),
        decreases data.len() - i,
    {
        let rest = data.len() - i;
        let b0 = data[i];
        let b1: u8 = if rest > 1 { data[i + 1] } else { 0 };
        let b2: u8 = if rest > 2 { data[i + 2] } else { 0 };
        let ghost chunk = if rest <= 3 { data@.skip(i as int) } else { data@.skip(i as int).take(3) };
        proof {
            assert(chunk[0] == b0);
            assert(chunk.len() > 1 ==> chunk[1] == b1);
            assert(chunk.len() > 2 ==> chunk[2] == b2);
        }
        push_char(&mut out, digit(b0 / 4));
        push_char(&mut out, digit((b0 % 4) * 16 + b1 / 16));
        if rest > 1 {
            push_char(&mut out, digit((b1 % 16) * 4 + b2 / 64));
        } else {
            push_char(&mut out, '=');
        }
        if rest > 2 {
            push_char(&mut out, digit(b2 % 64));
        } else {
            push_char(&mut out, '=');
        }
        proof {
            assert(out@.subrange(out@.len() - 4, out@.len() as int) =~= b64_group(chunk));
        }
        if rest <= 3 {
            proof {
                assert(data@.skip(data@.len() as int) == Seq::<u8>::empty());
            }
            i = data.len();
        } else {
            proof {
                assert(data@.skip(i as int).skip(3) == data@.skip(i + 3));
            }
            i = i + 3;
        }
    }
    out
}

} // verus!
