//! Conversions between byte strings and text.
use vstd::prelude::*;
use vstd::utf8::*;

verus! {

/// The text whose characters are the given ASCII bytes.
pub open spec fn ascii_text(bytes: Seq<u8>) -> Seq<char> {
    Seq::new(bytes.len(), |i: int| bytes[i] as char)
}

/// True when every byte is below 128.
pub open spec fn is_ascii_bytes(bytes: Seq<u8>) -> bool {
    forall|i: int| 0 <= i < bytes.len() ==> bytes[i] < 128
}

/// `core::str::from_utf8`: the bytes are handed back as a string slice
/// exactly when they are well-formed UTF-8, and the slice then consists of
/// those very bytes. The error of the standard function, which says where
/// the bytes stop being well-formed, is dropped.
#[verifier::external_body]
pub(crate) fn utf8_str(bytes: &[u8]) -> (r: Option<&str>)
    ensures
        r is Some <==> valid_utf8(bytes@),
        r matches Some(s) ==> encode_utf8(s@) == bytes@,
{
    core::str::from_utf8(bytes).ok()
}

/// ASCII bytes are the UTF-8 encoding of the text they spell.
pub proof fn lemma_ascii_text_bytes(bytes: Seq<u8>)
    requires
        is_ascii_bytes(bytes),
    ensures
        encode_utf8(ascii_text(bytes)) == bytes,
        valid_utf8(bytes),
{
    let chars = ascii_text(bytes);
    assert(is_ascii_chars(chars));
    is_ascii_chars_encode_utf8(chars);
    assert(encode_utf8(chars) =~= bytes);
    encode_utf8_valid_utf8(chars);
}

/// Returns true when `bytes` is well-formed UTF-8.
pub fn is_valid_utf8(bytes: &[u8]) -> (ok: bool)
    ensures
        ok == valid_utf8(bytes@),
{
    utf8_str(bytes).is_some()
}

/// Returns the text that ASCII bytes spell.
pub(crate) fn ascii_string(bytes: &[u8]) -> (s: String)
    requires
        is_ascii_bytes(bytes@),
    ensures
        s@ == ascii_text(bytes@),
        encode_utf8(s@) == bytes@,
{
    proof {
        lemma_ascii_text_bytes(bytes@);
    }
    match utf8_str(bytes) {
        Some(s) => {
            proof {
                encode_utf8_decode_utf8(s@);
                encode_utf8_decode_utf8(ascii_text(bytes@));
            }
            s.to_owned()
        },
        None => vstd::pervasive::unreached(),
    }
}

} // verus!
