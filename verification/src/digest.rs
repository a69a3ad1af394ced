//! The digest stage: a cryptographic hash of a byte string.
use vstd::prelude::*;
use vstd::utf8::*;
use crate::bytes::bytes_equal;
use crate::error::Error;

verus! {

/// The identifier of SHA-1 in XML signatures.
pub const SHA1: &'static str = "http://www.w3.org/2000/09/xmldsig#sha1";

/// The SHA-1 hash of a byte string, as OpenSSL computes it.
pub uninterp spec fn sha1(data: Seq<u8>) -> Seq<u8>;

/// `openssl::sha::sha1`: the twenty bytes of the SHA-1 hash of `data`. The
/// hash depends on the bytes of `data` alone. The function has no way to
/// report a failure: the claim is made of an OpenSSL that provides SHA-1.
#[verifier::external_body]
fn sha1_of(data: &[u8]) -> (hash: [u8; 20])
    ensures
        hash@ == sha1(data@),
{
    openssl::sha::sha1(data)
}

/// True when `algorithm` identifies a digest that this stage computes.
pub open spec fn is_supported(algorithm: Seq<char>) -> bool {
    algorithm == SHA1@
}

/// The digest of `data` under a supported algorithm.
pub open spec fn digest_of(data: Seq<u8>, algorithm: Seq<char>) -> Seq<u8>
    recommends
        is_supported(algorithm),
{
    sha1(data)
}

/// Returns true when `algorithm` identifies a digest that this stage computes.
pub fn supports(algorithm: &str) -> (yes: bool)
    ensures
        yes == is_supported(algorithm@),
{
    proof {
        encode_utf8_decode_utf8(algorithm@);
        encode_utf8_decode_utf8(SHA1@);
    }
    bytes_equal(algorithm.as_bytes(), SHA1.as_bytes())
}

/// Hashes `data` with the algorithm that `algorithm` identifies. SHA-1 is
/// supported and gives twenty bytes; any other identifier is refused with
/// `UnknownAlgorithm`, and nothing is computed.
pub fn digest(data: &[u8], algorithm: &str) -> (r: Result<Vec<u8>, Error>)
    ensures
        match r {
            Ok(hash) => is_supported(algorithm@) && hash@ == digest_of(data@, algorithm@)
                && hash@.len() == 20,
            Err(e) => !is_supported(algorithm@) && e == Error::UnknownAlgorithm,
        },
{
    if supports(algorithm) {
        let hash: [u8; 20] = sha1_of(data);
        let mut out: Vec<u8> = Vec::new();
        let mut i: usize = 0;
        while i < 20
            invariant
                i <= 20,
                out@ == hash@.take(i as int),
            decreases 20 - i,
        {
            out.push(hash[i]);
            assert(out@ =~= hash@.take(i + 1));
            i = i + 1;
        }
        assert(out@ =~= hash@);
        Ok(out)
    } else {
        Err(Error::UnknownAlgorithm)
    }
}

} // verus!
