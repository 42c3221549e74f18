//! Base64 in the alphabet for URLs, without padding.

use base64::Engine;
use vstd::prelude::*;

verus! {

/// The character for six bits.
pub open spec fn symbol(n: int) -> char {
    if n < 26 {
        (n + 65) as char
    } else if n < 52 {
        (n + 71) as char
    } else if n < 62 {
        (n - 4) as char
    } else if n == 62 {
        '-'
    } else {
        '_'
    }
}

/// `bytes` in base64: four characters for three bytes, and two or three for a rest of one or two.
pub open spec fn encoded(bytes: Seq<u8>) -> Seq<char>
    decreases bytes.len(),
{
    if bytes.len() == 0 {
        Seq::empty()
    } else if bytes.len() == 1 {
        let a = bytes[0] as int;
        seq![symbol(a / 4), symbol(a % 4 * 16)]
    } else if bytes.len() == 2 {
        let a = bytes[0] as int;
        let b = bytes[1] as int;
        seq![symbol(a / 4), symbol(a % 4 * 16 + b / 16), symbol(b % 16 * 4)]
    } else {
        let a = bytes[0] as int;
        let b = bytes[1] as int;
        let c = bytes[2] as int;
        seq![
            symbol(a / 4),
            symbol(a % 4 * 16 + b / 16),
            symbol(b % 16 * 4 + c / 64),
            symbol(c % 64),
        ] + encoded(bytes.skip(3))
    }
}

/// `Engine::decode` of the `base64` crate, with its engine `URL_SAFE_NO_PAD`: decodes a text that
/// is the encoding of some bytes to those bytes, and refuses every other text. It takes no padding,
/// and in the last character no bits that belong to no byte.
#[verifier::external_body]
fn decode_base64url(text: &str) -> (r: Option<Vec<u8>>)
    ensures
        match r {
            Some(bytes) => text@ == encoded(bytes@),
            None => forall|bytes: Seq<u8>| text@ != #[trigger] encoded(bytes),
        },
{
    base64::engine::general_purpose::URL_SAFE_NO_PAD.decode(text).ok()
}

/// The bytes that `text` is the encoding of, where there are any.
pub open spec fn decoded(text: Seq<char>) -> Option<Seq<u8>> {
    if exists|bytes: Seq<u8>| text == #[trigger] encoded(bytes) {
        Some(choose|bytes: Seq<u8>| text == #[trigger] encoded(bytes))
    } else {
        None
    }
}

/// What is encoded is decoded to what it was.
pub proof fn decoding_undoes_encoding(bytes: Seq<u8>)
    ensures
        decoded(encoded(bytes)) == Some(bytes),
{
    let text = encoded(bytes);
    let back = choose|back: Seq<u8>| text == #[trigger] encoded(back);
    encodings_are_unique(back, bytes);
}

/// Decodes base64 in the alphabet for URLs, without padding.
pub fn decode(text: &str) -> (r: Option<Vec<u8>>)
    ensures
        match r {
            Some(bytes) => decoded(text@) == Some(bytes@),
            None => decoded(text@) is None,
        },
{
    let r = decode_base64url(text);
    proof {
        if r is Some {
            decoding_undoes_encoding(r->0@);
        }
    }
    r
}

/// Whether `c` is a character of the alphabet.
pub open spec fn in_alphabet(c: char) -> bool {
    ('A' <= c && c <= 'Z') || ('a' <= c && c <= 'z') || ('0' <= c && c <= '9') || c == '-' || c
        == '_'
}

/// An encoding holds characters of the alphabet only.
pub proof fn encodings_stay_in_the_alphabet(bytes: Seq<u8>, i: int)
    requires
        0 <= i < encoded(bytes).len(),
    ensures
        in_alphabet(encoded(bytes)[i]),
    decreases bytes.len(),
{
    if bytes.len() >= 3 && i >= 4 {
        encodings_stay_in_the_alphabet(bytes.skip(3), i - 4);
    }
}

proof fn symbols_differ(m: int, n: int)
    requires
        0 <= m < 64,
        0 <= n < 64,
        symbol(m) == symbol(n),
    ensures
        m == n,
{
}

proof fn encoded_len(bytes: Seq<u8>)
    ensures
        encoded(bytes).len() == bytes.len() / 3 * 4 + (if bytes.len() % 3 == 0 {
            0nat
        } else {
            bytes.len() % 3 + 1
        }),
    decreases bytes.len(),
{
    if bytes.len() >= 3 {
        encoded_len(bytes.skip(3));
    }
}

/// No text is the encoding of two byte strings.
pub proof fn encodings_are_unique(x: Seq<u8>, y: Seq<u8>)
    requires
        encoded(x) == encoded(y),
    ensures
        x == y,
    decreases x.len(),
{
    encoded_len(x);
    encoded_len(y);
    assert(x.len() == y.len());
    let s = encoded(x);
    let t = encoded(y);
    if x.len() >= 1 {
        let a = x[0] as int;
        let c = y[0] as int;
        assert(s[0] == symbol(a / 4) && t[0] == symbol(c / 4));
        symbols_differ(a / 4, c / 4);
        if x.len() == 1 {
            assert(s[1] == symbol(a % 4 * 16) && t[1] == symbol(c % 4 * 16));
            symbols_differ(a % 4 * 16, c % 4 * 16);
        } else {
            let b = x[1] as int;
            let d = y[1] as int;
            assert(s[1] == symbol(a % 4 * 16 + b / 16));
            assert(t[1] == symbol(c % 4 * 16 + d / 16));
            symbols_differ(a % 4 * 16 + b / 16, c % 4 * 16 + d / 16);
            if x.len() == 2 {
                assert(s[2] == symbol(b % 16 * 4) && t[2] == symbol(d % 16 * 4));
                symbols_differ(b % 16 * 4, d % 16 * 4);
            } else {
                let e = x[2] as int;
                let f = y[2] as int;
                assert(s[2] == symbol(b % 16 * 4 + e / 64));
                assert(t[2] == symbol(d % 16 * 4 + f / 64));
                symbols_differ(b % 16 * 4 + e / 64, d % 16 * 4 + f / 64);
                assert(s[3] == symbol(e % 64) && t[3] == symbol(f % 64));
                symbols_differ(e % 64, f % 64);
                assert(s.skip(4) =~= encoded(x.skip(3)));
                assert(t.skip(4) =~= encoded(y.skip(3)));
                encodings_are_unique(x.skip(3), y.skip(3));
                assert forall|i: int| 0 <= i < x.len() implies x[i] == y[i] by {
                    if i >= 3 {
                        assert(x.skip(3)[i - 3] == y.skip(3)[i - 3]);
                    }
                }
            }
        }
        assert(x =~= y);
    } else {
        assert(x =~= y);
    }
}

} // verus!
