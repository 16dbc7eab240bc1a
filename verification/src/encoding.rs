//! Bytes as text: base64 and hexadecimal digits.

use vstd::prelude::*;
use crate::text::is_hex;
use base64::Engine;

verus! {

// ---------------------------------------------------------------- base64

/// The character for six bits. The alphabet for addresses has its own last two.
pub open spec fn sextet(n: int, url: bool) -> char {
    if n < 26 {
        ('A' as int + n) as char
    } else if n < 52 {
        ('a' as int + n - 26) as char
    } else if n < 62 {
        ('0' as int + n - 52) as char
    } else if n == 62 {
        if url {
            '-'
        } else {
            '+'
        }
    } else {
        if url {
            '_'
        } else {
            '/'
        }
    }
}

/// Bytes in base64: with the alphabet for addresses and no padding, or with the
/// standard alphabet and padding.
pub open spec fn base64_of(b: Seq<u8>, url: bool) -> Seq<char>
    decreases b.len(),
{
    if b.len() == 0 {
        Seq::empty()
    } else if b.len() == 1 {
        seq![sextet(b[0] as int / 4, url), sextet(b[0] as int % 4 * 16, url)] + if url {
            Seq::empty()
        } else {
            seq!['=', '=']
        }
    } else if b.len() == 2 {
        seq![
            sextet(b[0] as int / 4, url),
            sextet(b[0] as int % 4 * 16 + b[1] as int / 16, url),
            sextet(b[1] as int % 16 * 4, url),
        ] + if url {
            Seq::empty()
        } else {
            seq!['=']
        }
    } else {
        seq![
            sextet(b[0] as int / 4, url),
            sextet(b[0] as int % 4 * 16 + b[1] as int / 16, url),
            sextet(b[1] as int % 16 * 4 + b[2] as int / 64, url),
            sextet(b[2] as int % 64, url),
        ] + base64_of(b.skip(3), url)
    }
}

/// The bytes that a text stands for in base64 with the alphabet for addresses.
pub open spec fn base64_bytes(s: Seq<char>) -> Option<Seq<u8>> {
    if exists|b: Seq<u8>| #[trigger] base64_of(b, true) == s {
        Some(choose|b: Seq<u8>| #[trigger] base64_of(b, true) == s)
    } else {
        None
    }
}

/// What is said of a text that is no base64 of that alphabet.
pub uninterp spec fn base64_fault(s: Seq<char>) -> Seq<char>;

/// `base64::Engine::encode` of the engine `URL_SAFE_NO_PAD`: three bytes become
/// four characters of the alphabet for addresses, and what is left over becomes two
/// or three, with no padding. The text of at most half as many bytes as a slice can hold
/// always fits in memory that can be addressed.
#[verifier::external_body]
pub(crate) fn base64_url(bytes: &[u8]) -> (r: String)
    requires
        bytes@.len() <= isize::MAX / 2,
    ensures
        r@ == base64_of(bytes@, true),
{
    base64::engine::general_purpose::URL_SAFE_NO_PAD.encode(bytes)
}

/// `base64::Engine::encode` of the engine `STANDARD`: as above with the standard
/// alphabet, filled up with `=` to a multiple of four characters.
#[verifier::external_body]
pub(crate) fn base64_standard(bytes: &[u8]) -> (r: String)
    requires
        bytes@.len() <= isize::MAX / 2,
    ensures
        r@ == base64_of(bytes@, false),
{
    base64::engine::general_purpose::STANDARD.encode(bytes)
}

/// `base64::Engine::decode` of the engine `URL_SAFE_NO_PAD`. The engine takes no
/// padding and no stray bits behind the last byte, so a text is decoded exactly where
/// it is what the engine makes of some bytes, and those bytes come back. Of the
/// message for any other text only that the text decides it is said.
#[verifier::external_body]
fn base64_decode(s: &str) -> (r: Result<Vec<u8>, String>)
    ensures
        match r {
            Ok(b) => base64_of(b@, true) == s@,
            Err(m) => m@ == base64_fault(s@) && forall|b: Seq<u8>|
                #[trigger] base64_of(b, true) != s@,
        },
{
    base64::engine::general_purpose::URL_SAFE_NO_PAD.decode(s).map_err(|e| e.to_string())
}

/// Two sextets with the same character are the same.
proof fn lemma_sextet(m: int, n: int)
    requires
        0 <= m < 64,
        0 <= n < 64,
        sextet(m, true) == sextet(n, true),
    ensures
        m == n,
{
    assert('A' as int == 65 && 'a' as int == 97 && '0' as int == 48 && '-' as int == 45 && '_'
        as int == 95);
}

/// Different bytes have different texts.
#[verifier::rlimit(50)]
#[verifier::spinoff_prover]
pub proof fn lemma_base64_unique(a: Seq<u8>, b: Seq<u8>)
    requires
        base64_of(a, true) == base64_of(b, true),
    ensures
        a == b,
    decreases a.len(),
{
    lemma_base64_length(a);
    lemma_base64_length(b);
    let s = base64_of(a, true);
    if a.len() == 0 || b.len() == 0 {
        assert(a =~= b);
    } else {
        assert(a.len() >= 3 <==> s.len() >= 4);
        assert(b.len() >= 3 <==> s.len() >= 4);
        assert(a.len() == b.len() || a.len() >= 3 && b.len() >= 3);
        assert(s[0] == sextet(a[0] as int / 4, true));
        assert(s[0] == sextet(b[0] as int / 4, true));
        lemma_sextet(a[0] as int / 4, b[0] as int / 4);
        if a.len() == 1 {
            assert(s[1] == sextet(a[0] as int % 4 * 16, true));
            assert(s[1] == sextet(b[0] as int % 4 * 16, true));
            lemma_sextet(a[0] as int % 4 * 16, b[0] as int % 4 * 16);
            assert(a =~= b);
        } else {
            assert(s[1] == sextet(a[0] as int % 4 * 16 + a[1] as int / 16, true));
            assert(s[1] == sextet(b[0] as int % 4 * 16 + b[1] as int / 16, true));
            lemma_sextet(
                a[0] as int % 4 * 16 + a[1] as int / 16,
                b[0] as int % 4 * 16 + b[1] as int / 16,
            );
            if a.len() == 2 {
                assert(s[2] == sextet(a[1] as int % 16 * 4, true));
                assert(s[2] == sextet(b[1] as int % 16 * 4, true));
                lemma_sextet(a[1] as int % 16 * 4, b[1] as int % 16 * 4);
                assert(a =~= b);
            } else {
                assert(s[2] == sextet(a[1] as int % 16 * 4 + a[2] as int / 64, true));
                assert(s[2] == sextet(b[1] as int % 16 * 4 + b[2] as int / 64, true));
                lemma_sextet(
                    a[1] as int % 16 * 4 + a[2] as int / 64,
                    b[1] as int % 16 * 4 + b[2] as int / 64,
                );
                assert(s[3] == sextet(a[2] as int % 64, true));
                assert(s[3] == sextet(b[2] as int % 64, true));
                lemma_sextet(a[2] as int % 64, b[2] as int % 64);
                assert(s.skip(4) =~= base64_of(a.skip(3), true));
                assert(s.skip(4) =~= base64_of(b.skip(3), true));
                lemma_base64_unique(a.skip(3), b.skip(3));
                assert(a =~= seq![a[0], a[1], a[2]] + a.skip(3));
                assert(b =~= seq![b[0], b[1], b[2]] + b.skip(3));
            }
        }
    }
}

/// How many characters there are for that many bytes.
proof fn lemma_base64_length(b: Seq<u8>)
    ensures
        base64_of(b, true).len() == (4 * b.len() + 2) / 3,
    decreases b.len(),
{
    if b.len() >= 3 {
        lemma_base64_length(b.skip(3));
    }
}

/// Decoding gives back what was encoded.
pub proof fn law_base64_reads_back(b: Seq<u8>)
    ensures
        base64_bytes(base64_of(b, true)) == Some(b),
{
    let c = choose|c: Seq<u8>| #[trigger] base64_of(c, true) == base64_of(b, true);
    lemma_base64_unique(c, b);
}

/// The bytes that a text stands for.
pub fn decode_url(s: &str) -> (r: Result<Vec<u8>, String>)
    ensures
        match r {
            Ok(b) => base64_bytes(s@) == Some(b@),
            Err(m) => base64_bytes(s@) is None && m@ == base64_fault(s@),
        },
{
    let r = base64_decode(s);
    proof {
        if r is Ok {
            law_base64_reads_back(r->Ok_0@);
        }
    }
    r
}

// ----------------------------------------------------------- hexadecimal

/// The number that a hexadecimal digit of either case stands for.
pub open spec fn hex_number(c: char) -> int {
    if '0' <= c <= '9' {
        c as int - '0' as int
    } else if 'a' <= c <= 'f' {
        c as int - 'a' as int + 10
    } else {
        c as int - 'A' as int + 10
    }
}

/// Whether a text is of hexadecimal digits, two for each byte.
pub open spec fn is_hex_text(s: Seq<char>) -> bool {
    s.len() % 2 == 0 && forall|i: int| 0 <= i < s.len() ==> is_hex(#[trigger] s[i])
}

/// The bytes that hexadecimal digits stand for, the upper half of each first.
pub open spec fn hex_bytes(s: Seq<char>) -> Seq<u8> {
    Seq::new(
        s.len() / 2,
        |i: int| (16 * hex_number(s[2 * i]) + hex_number(s[2 * i + 1])) as u8,
    )
}

/// What is said of a text that is not of hexadecimal digits.
pub uninterp spec fn hex_fault(s: Seq<char>) -> Seq<char>;

/// `hex::decode`: a byte for each two digits of either case. Anything else is refused, with
/// a message that the text decides.
#[verifier::external_body]
pub(crate) fn hex_decode(s: &str) -> (r: Result<Vec<u8>, String>)
    ensures
        match r {
            Ok(b) => is_hex_text(s@) && b@ == hex_bytes(s@),
            Err(m) => !is_hex_text(s@) && m@ == hex_fault(s@),
        },
{
    hex::decode(s).map_err(|e| e.to_string())
}

/// A pair of hexadecimal digits is one byte, the first digit the higher half.
pub proof fn law_two_digits_make_a_byte(s: Seq<char>, i: int, high: int, low: int)
    requires
        0 <= i < s.len() / 2,
        0 <= high < 16,
        0 <= low < 16,
        s[2 * i] == (if high < 10 {
            (48 + high) as char
        } else {
            (87 + high) as char
        }),
        s[2 * i + 1] == (if low < 10 {
            (48 + low) as char
        } else {
            (87 + low) as char
        }),
    ensures
        hex_bytes(s).len() == s.len() / 2,
        hex_bytes(s)[i] == 16 * high + low,
{
}

} // verus!
