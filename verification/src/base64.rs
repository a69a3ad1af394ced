//! Base64 with the standard alphabet and `=` padding (RFC 4648, section 4).
//!
//! The encoding and the decoding are each stated as a function on byte
//! sequences; the text handed out is the ASCII rendering of those bytes.
use vstd::prelude::*;
use vstd::utf8::*;
use crate::text::ascii_string;

verus! {

/// The padding character `=`.
pub const PAD: u8 = 61;

/// The character of the standard alphabet that stands for the six-bit value `v`.
pub open spec fn alphabet_char(v: int) -> u8 {
    if v < 26 {
        (v + 65) as u8
    } else if v < 52 {
        (v - 26 + 97) as u8
    } else if v < 62 {
        (v - 52 + 48) as u8
    } else if v == 62 {
        43u8
    } else {
        47u8
    }
}

/// The six-bit value that a character of the standard alphabet stands for.
pub open spec fn sextet_value(c: u8) -> Option<int> {
    if 65 <= c <= 90 {
        Some(c - 65)
    } else if 97 <= c <= 122 {
        Some(c - 97 + 26)
    } else if 48 <= c <= 57 {
        Some(c - 48 + 52)
    } else if c == 43 {
        Some(62int)
    } else if c == 47 {
        Some(63int)
    } else {
        None
    }
}

/// The four characters that encode three bytes.
pub open spec fn encode_triple(a: u8, b: u8, c: u8) -> Seq<u8> {
    seq![
        alphabet_char(a as int / 4),
        alphabet_char((a % 4) * 16 + b / 16),
        alphabet_char((b % 16) * 4 + c / 64),
        alphabet_char(c as int % 64),
    ]
}

/// The two characters and two pads that encode a single trailing byte.
pub open spec fn encode_single(a: u8) -> Seq<u8> {
    seq![alphabet_char(a as int / 4), alphabet_char((a % 4) * 16), PAD, PAD]
}

/// The three characters and one pad that encode two trailing bytes.
pub open spec fn encode_pair(a: u8, b: u8) -> Seq<u8> {
    seq![
        alphabet_char(a as int / 4),
        alphabet_char((a % 4) * 16 + b / 16),
        alphabet_char((b % 16) * 4),
        PAD,
    ]
}

/// The Base64 encoding of `bytes`, as ASCII bytes: every three bytes give
/// four characters, and a last group of one or two bytes is padded to four.
pub open spec fn base64_encode(bytes: Seq<u8>) -> Seq<u8>
    decreases bytes.len(),
{
    if bytes.len() == 0 {
        Seq::empty()
    } else if bytes.len() == 1 {
        encode_single(bytes[0])
    } else if bytes.len() == 2 {
        encode_pair(bytes[0], bytes[1])
    } else {
        encode_triple(bytes[0], bytes[1], bytes[2]) + base64_encode(bytes.skip(3))
    }
}

/// The encoding of `bytes` as text.
pub open spec fn base64_text(bytes: Seq<u8>) -> Seq<char> {
    let encoded = base64_encode(bytes);
    Seq::new(encoded.len(), |i: int| encoded[i] as char)
}

/// The three bytes that four alphabet characters stand for; `None` when one
/// of them is outside the alphabet.
pub open spec fn decode_quad(g: Seq<u8>) -> Option<Seq<u8>>
    recommends
        g.len() == 4,
{
    match (sextet_value(g[0]), sextet_value(g[1]), sextet_value(g[2]), sextet_value(g[3])) {
        (Some(v0), Some(v1), Some(v2), Some(v3)) => Some(
            seq![
                (v0 * 4 + v1 / 16) as u8,
                ((v1 % 16) * 16 + v2 / 4) as u8,
                ((v2 % 4) * 64 + v3) as u8,
            ],
        ),
        _ => None,
    }
}

/// The bytes that the last group of an encoding stands for. A padded group is
/// accepted only in its canonical form, with the unused low bits zero.
pub open spec fn decode_last(g: Seq<u8>) -> Option<Seq<u8>>
    recommends
        g.len() == 4,
{
    if g[3] != PAD {
        decode_quad(g)
    } else if g[2] != PAD {
        match (sextet_value(g[0]), sextet_value(g[1]), sextet_value(g[2])) {
            (Some(v0), Some(v1), Some(v2)) => if v2 % 4 == 0 {
                Some(seq![(v0 * 4 + v1 / 16) as u8, ((v1 % 16) * 16 + v2 / 4) as u8])
            } else {
                None
            },
            _ => None,
        }
    } else {
        match (sextet_value(g[0]), sextet_value(g[1])) {
            (Some(v0), Some(v1)) => if v1 % 16 == 0 {
                Some(seq![(v0 * 4 + v1 / 16) as u8])
            } else {
                None
            },
            _ => None,
        }
    }
}

/// The bytes that `text` encodes; `None` when `text` is no canonical Base64
/// encoding: its length is no multiple of four, a character is outside the
/// alphabet, padding stands anywhere but at the end, or padded bits are set.
pub open spec fn base64_decode(text: Seq<u8>) -> Option<Seq<u8>>
    decreases text.len(),
{
    if text.len() == 0 {
        Some(Seq::empty())
    } else if text.len() < 4 {
        None
    } else if text.len() == 4 {
        decode_last(text)
    } else {
        match (decode_quad(text.take(4)), base64_decode(text.skip(4))) {
            (Some(head), Some(tail)) => Some(head + tail),
            _ => None,
        }
    }
}

/// Every character that the encoder writes for a six-bit value lies in the
/// alphabet, is no pad, and stands for that value again.
pub proof fn lemma_alphabet_inverse(v: int)
    requires
        0 <= v < 64,
    ensures
        sextet_value(alphabet_char(v)) == Some(v),
        alphabet_char(v) != PAD,
        alphabet_char(v) < 128,
{
}

/// Four alphabet characters written for three bytes stand for those bytes.
proof fn lemma_triple_inverse(a: u8, b: u8, c: u8)
    ensures
        decode_quad(encode_triple(a, b, c)) == Some(seq![a, b, c]),
        encode_triple(a, b, c)[3] != PAD,
{
    let v0 = a as int / 4;
    let v1 = (a as int % 4) * 16 + b as int / 16;
    let v2 = (b as int % 16) * 4 + c as int / 64;
    let v3 = c as int % 64;
    lemma_alphabet_inverse(v0);
    lemma_alphabet_inverse(v1);
    lemma_alphabet_inverse(v2);
    lemma_alphabet_inverse(v3);
    assert(v0 * 4 + v1 / 16 == a);
    assert((v1 % 16) * 16 + v2 / 4 == b);
    assert((v2 % 4) * 64 + v3 == c);
    assert(decode_quad(encode_triple(a, b, c)).unwrap() =~= seq![a, b, c]);
}

/// The padded group written for two trailing bytes stands for those bytes.
proof fn lemma_pair_inverse(a: u8, b: u8)
    ensures
        decode_last(encode_pair(a, b)) == Some(seq![a, b]),
{
    let v0 = a as int / 4;
    let v1 = (a as int % 4) * 16 + b as int / 16;
    let v2 = (b as int % 16) * 4;
    lemma_alphabet_inverse(v0);
    lemma_alphabet_inverse(v1);
    lemma_alphabet_inverse(v2);
    assert(v0 * 4 + v1 / 16 == a);
    assert((v1 % 16) * 16 + v2 / 4 == b);
    assert(v2 % 4 == 0);
    assert(decode_last(encode_pair(a, b)).unwrap() =~= seq![a, b]);
}

/// The padded group written for one trailing byte stands for that byte.
proof fn lemma_single_inverse(a: u8)
    ensures
        decode_last(encode_single(a)) == Some(seq![a]),
{
    let v0 = a as int / 4;
    let v1 = (a as int % 4) * 16;
    lemma_alphabet_inverse(v0);
    lemma_alphabet_inverse(v1);
    assert(v0 * 4 + v1 / 16 == a);
    assert(v1 % 16 == 0);
    assert(decode_last(encode_single(a)).unwrap() =~= seq![a]);
}

/// Decoding inverts encoding: for every byte sequence, of a digest's length
/// or any other, the decoder gives back exactly the bytes that were encoded.
pub proof fn lemma_decode_inverts_encode(bytes: Seq<u8>)
    ensures
        base64_decode(base64_encode(bytes)) == Some(bytes),
    decreases bytes.len(),
{
    let n = bytes.len();
    if n == 0 {
    } else if n == 1 {
        lemma_single_inverse(bytes[0]);
        assert(seq![bytes[0]] =~= bytes);
    } else if n == 2 {
        lemma_pair_inverse(bytes[0], bytes[1]);
        assert(seq![bytes[0], bytes[1]] =~= bytes);
    } else {
        let group = encode_triple(bytes[0], bytes[1], bytes[2]);
        let rest = base64_encode(bytes.skip(3));
        let whole = base64_encode(bytes);
        lemma_triple_inverse(bytes[0], bytes[1], bytes[2]);
        lemma_decode_inverts_encode(bytes.skip(3));
        lemma_encode_len(bytes.skip(3));
        assert(seq![bytes[0], bytes[1], bytes[2]] + bytes.skip(3) =~= bytes);
        if n == 3 {
            assert(whole =~= group);
        } else {
            assert(whole.take(4) =~= group);
            assert(whole.skip(4) =~= rest);
        }
    }
}

/// The encoding has four characters for every started group of three bytes,
/// and every one of them is ASCII.
pub proof fn lemma_encode_len(bytes: Seq<u8>)
    ensures
        base64_encode(bytes).len() == 4 * ((bytes.len() + 2) / 3),
        forall|i: int| 0 <= i < base64_encode(bytes).len() ==> base64_encode(bytes)[i] < 128,
    decreases bytes.len(),
{
    if bytes.len() >= 3 {
        lemma_encode_len(bytes.skip(3));
    }
}

/// Returns the character of the standard alphabet for a six-bit value.
fn sextet_char(v: u8) -> (c: u8)
    requires
        v < 64,
    ensures
        c == alphabet_char(v as int),
{
    if v < 26 {
        v + 65
    } else if v < 52 {
        v - 26 + 97
    } else if v < 62 {
        v - 52 + 48
    } else if v == 62 {
        43
    } else {
        47
    }
}

/// Returns the six-bit value of an alphabet character, or `None` for any
/// other byte.
fn char_sextet(c: u8) -> (v: Option<u8>)
    ensures
        match v {
            Some(x) => sextet_value(c) == Some(x as int) && x < 64,
            None => sextet_value(c) is None,
        },
{
    if 65 <= c && c <= 90 {
        Some(c - 65)
    } else if 97 <= c && c <= 122 {
        Some(c - 97 + 26)
    } else if 48 <= c && c <= 57 {
        Some(c - 48 + 52)
    } else if c == 43 {
        Some(62)
    } else if c == 47 {
        Some(63)
    } else {
        None
    }
}

/// Encodes `bytes` in Base64 and returns the encoding as ASCII bytes.
pub fn encode_bytes(bytes: &[u8]) -> (out: Vec<u8>)
    ensures
        out@ == base64_encode(bytes@),
{
    let n: usize = bytes.len();
    let mut out: Vec<u8> = Vec::new();
    let mut i: usize = 0;
    assert(out@ + base64_encode(bytes@.skip(0)) =~= base64_encode(bytes@)) by {
        assert(bytes@.skip(0) =~= bytes@);
    }
    while n - i >= 3
        invariant
            n == bytes@.len(),
            i <= n,
            out@ + base64_encode(bytes@.skip(i as int)) == base64_encode(bytes@),
        decreases n - i,
    {
        let ghost before = out@;
        let ghost rest = bytes@.skip(i as int);
        let a: u8 = bytes[i];
        let b: u8 = bytes[i + 1];
        let c: u8 = bytes[i + 2];
        out.push(sextet_char(a / 4));
        out.push(sextet_char((a % 4) * 16 + b / 16));
        out.push(sextet_char((b % 16) * 4 + c / 64));
        out.push(sextet_char(c % 64));
        proof {
            assert(rest.skip(3) =~= bytes@.skip(i + 3));
            assert(out@ =~= before + encode_triple(a, b, c));
            assert(out@ + base64_encode(bytes@.skip(i + 3)) =~= before + base64_encode(rest));
        }
        i = i + 3;
    }
    let ghost before = out@;
    let ghost rest = bytes@.skip(i as int);
    if n - i == 1 {
        let a: u8 = bytes[i];
        out.push(sextet_char(a / 4));
        out.push(sextet_char((a % 4) * 16));
        out.push(PAD);
        out.push(PAD);
        assert(out@ =~= before + encode_single(a));
    } else if n - i == 2 {
        let a: u8 = bytes[i];
        let b: u8 = bytes[i + 1];
        out.push(sextet_char(a / 4));
        out.push(sextet_char((a % 4) * 16 + b / 16));
        out.push(sextet_char((b % 16) * 4));
        out.push(PAD);
        assert(out@ =~= before + encode_pair(a, b));
    } else {
        assert(out@ =~= before + Seq::<u8>::empty());
    }
    out
}

/// Encodes `bytes` in Base64 and returns the encoding as text.
pub fn encode(bytes: &[u8]) -> (text: String)
    ensures
        text@ == base64_text(bytes@),
        encode_utf8(text@) == base64_encode(bytes@),
{
    let encoded = encode_bytes(bytes);
    proof {
        lemma_encode_len(bytes@);
    }
    ascii_string(encoded.as_slice())
}

/// Decodes three bytes from four alphabet characters.
fn decode_four(c0: u8, c1: u8, c2: u8, c3: u8) -> (r: Option<(u8, u8, u8)>)
    ensures
        match r {
            Some(t) => decode_quad(seq![c0, c1, c2, c3]) == Some(seq![t.0, t.1, t.2]),
            None => decode_quad(seq![c0, c1, c2, c3]) is None,
        },
{
    match (char_sextet(c0), char_sextet(c1), char_sextet(c2), char_sextet(c3)) {
        (Some(v0), Some(v1), Some(v2), Some(v3)) => {
            let t: (u8, u8, u8) = (v0 * 4 + v1 / 16, (v1 % 16) * 16 + v2 / 4, (v2 % 4) * 64 + v3);
            assert(decode_quad(seq![c0, c1, c2, c3]).unwrap() =~= seq![t.0, t.1, t.2]);
            Some(t)
        },
        _ => None,
    }
}

/// Decodes the bytes of a Base64 text given as ASCII bytes.
pub fn decode_bytes(text: &[u8]) -> (r: Option<Vec<u8>>)
    ensures
        match r {
            Some(bytes) => base64_decode(text@) == Some(bytes@),
            None => base64_decode(text@) is None,
        },
{
    let n: usize = text.len();
    let mut out: Vec<u8> = Vec::new();
    let mut i: usize = 0;
    proof {
        assert(text@.skip(0) =~= text@);
        if let Some(tail) = base64_decode(text@) {
            assert(out@ + tail =~= tail);
        }
    }
    while n - i > 4
        invariant
            n == text@.len(),
            i <= n,
            base64_decode(text@) == match base64_decode(text@.skip(i as int)) {
                Some(tail) => Some(out@ + tail),
                None => None,
            },
        decreases n - i,
    {
        let ghost before = out@;
        let ghost rest = text@.skip(i as int);
        proof {
            assert(rest.take(4) =~= seq![
                text@[i as int],
                text@[i + 1],
                text@[i + 2],
                text@[i + 3],
            ]);
            assert(rest.skip(4) =~= text@.skip(i + 4));
        }
        match decode_four(text[i], text[i + 1], text[i + 2], text[i + 3]) {
            Some(t) => {
                out.push(t.0);
                out.push(t.1);
                out.push(t.2);
                proof {
                    let head = seq![t.0, t.1, t.2];
                    assert(out@ =~= before + head);
                    match base64_decode(text@.skip(i + 4)) {
                        Some(tail) => {
                            assert(before + (head + tail) =~= out@ + tail);
                        },
                        None => {},
                    }
                }
            },
            None => {
                return None;
            },
        }
        i = i + 4;
    }
    let ghost before = out@;
    let ghost rest = text@.skip(i as int);
    if n - i == 0 {
        assert(out@ + Seq::<u8>::empty() =~= out@);
        return Some(out);
    }
    if n - i < 4 {
        return None;
    }
    let c0: u8 = text[i];
    let c1: u8 = text[i + 1];
    let c2: u8 = text[i + 2];
    let c3: u8 = text[i + 3];
    proof {
        assert(rest =~= seq![c0, c1, c2, c3]);
    }
    if c3 != PAD {
        match decode_four(c0, c1, c2, c3) {
            Some(t) => {
                out.push(t.0);
                out.push(t.1);
                out.push(t.2);
                assert(out@ =~= before + seq![t.0, t.1, t.2]);
                Some(out)
            },
            None => None,
        }
    } else if c2 != PAD {
        match (char_sextet(c0), char_sextet(c1), char_sextet(c2)) {
            (Some(v0), Some(v1), Some(v2)) => {
                if v2 % 4 == 0 {
                    let b0: u8 = v0 * 4 + v1 / 16;
                    let b1: u8 = (v1 % 16) * 16 + v2 / 4;
                    out.push(b0);
                    out.push(b1);
                    assert(out@ =~= before + seq![b0, b1]);
                    assert(decode_last(rest).unwrap() =~= seq![b0, b1]);
                    Some(out)
                } else {
                    None
                }
            },
            _ => None,
        }
    } else {
        match (char_sextet(c0), char_sextet(c1)) {
            (Some(v0), Some(v1)) => {
                if v1 % 16 == 0 {
                    let b0: u8 = v0 * 4 + v1 / 16;
                    out.push(b0);
                    assert(out@ =~= before + seq![b0]);
                    assert(decode_last(rest).unwrap() =~= seq![b0]);
                    Some(out)
                } else {
                    None
                }
            },
            _ => None,
        }
    }
}

/// Decodes the bytes that a Base64 text stands for; `None` when the text is
/// no canonical Base64 encoding.
pub fn decode(text: &str) -> (r: Option<Vec<u8>>)
    ensures
        match r {
            Some(bytes) => base64_decode(encode_utf8(text@)) == Some(bytes@),
            None => base64_decode(encode_utf8(text@)) is None,
        },
{
    decode_bytes(text.as_bytes())
}

} // verus!
