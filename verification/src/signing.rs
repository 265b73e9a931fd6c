//! Digest computation over package bytes, and the pluggable signing and
//! verifying backend capabilities.

use sha2::Digest;
use vstd::prelude::*;

use crate::RPMError;
use crate::cursor::SeqCursor;

verus! {

/// The MD5 digest of a byte sequence: 16 bytes, a function of the input
/// bytes alone.
pub uninterp spec fn md5_of(data: Seq<u8>) -> Seq<u8>;

/// Relies on md5::Md5 through the Digest trait (default, update,
/// finalize): the 16-byte MD5 digest of the concatenation of the two
/// inputs, fed incrementally so the two parts are never joined in memory.
#[verifier::external_body]
pub fn md5_digest_parts(a: &[u8], b: &[u8]) -> (r: Vec<u8>)
    ensures
        r@ == md5_of(a@ + b@),
        r@.len() == 16,
{
    let mut hasher = md5::Md5::default();
    hasher.update(a);
    hasher.update(b);
    hasher.finalize().to_vec()
}

/// The SHA1 digest of a byte sequence: 20 bytes, a function of the input
/// bytes alone.
pub uninterp spec fn sha1_of(data: Seq<u8>) -> Seq<u8>;

/// Relies on sha1::Sha1 (from, digest, bytes): the 20-byte SHA1 digest
/// of the input.
#[verifier::external_body]
pub fn sha1_digest(data: &[u8]) -> (r: Vec<u8>)
    ensures
        r@ == sha1_of(data@),
        r@.len() == 20,
{
    sha1::Sha1::from(data).digest().bytes().to_vec()
}

/// The lowercase ASCII hex digit for a value below 16.
pub open spec fn hex_digit(n: u8) -> u8
    recommends
        n < 16,
{
    if n < 10 {
        (n + 48) as u8
    } else {
        (n + 87) as u8
    }
}

/// The lowercase ASCII hex encoding of a byte sequence: two digits per
/// byte, high nibble first.
pub open spec fn hex_bytes(s: Seq<u8>) -> Seq<u8> {
    Seq::new(
        2 * s.len(),
        |i: int|
            if i % 2 == 0 {
                hex_digit(s[i / 2] >> 4)
            } else {
                hex_digit(s[i / 2] & 0xf)
            },
    )
}

/// Hex digits are never NUL, so a hex string survives NUL-terminated
/// storage unchanged.
pub proof fn lemma_hex_bytes_nonzero(s: Seq<u8>)
    ensures
        forall|i: int| 0 <= i < hex_bytes(s).len() ==> hex_bytes(s)[i] != 0,
{
    assert forall|i: int| 0 <= i < hex_bytes(s).len() implies hex_bytes(s)[i] != 0 by {
        let x = s[i / 2];
        assert(x >> 4 < 16) by (bit_vector);
        assert((x & 0xf) < 16) by (bit_vector);
    }
}

fn hex_digit_of(n: u8) -> (r: u8)
    requires
        n < 16,
    ensures
        r == hex_digit(n),
{
    if n < 10 {
        n + 48
    } else {
        n + 87
    }
}

/// Encodes bytes as lowercase ASCII hex, two digits per byte.
pub fn to_hex(data: &[u8]) -> (r: Vec<u8>)
    ensures
        r@ == hex_bytes(data@),
{
    let mut out: Vec<u8> = Vec::new();
    let mut k: usize = 0;
    while k < data.len()
        invariant
            0 <= k <= data@.len(),
            out@.len() == 2 * k,
            forall|i: int| 0 <= i < 2 * k ==> out@[i] == hex_bytes(data@)[i],
        decreases data@.len() - k,
    {
        let x = data[k];
        proof {
            assert(x >> 4 < 16) by (bit_vector);
            assert((x & 0xf) < 16) by (bit_vector);
        }
        out.push(hex_digit_of(x >> 4));
        out.push(hex_digit_of(x & 0xf));
        proof {
            assert((2 * k as int) % 2 == 0 && (2 * k as int) / 2 == k as int);
            assert((2 * k as int + 1) % 2 == 1 && (2 * k as int + 1) / 2 == k as int);
        }
        k += 1;
    }
    proof {
        assert(out@ =~= hex_bytes(data@));
    }
    out
}

/// A signing backend: an externally supplied capability that produces
/// signature bytes over a complete byte range or over a logical stream.
/// Nothing is assumed of the signature bytes; a backend may well be
/// non-deterministic.
pub trait Signing {
    /// Signs a complete in-memory byte range. A backend reports its
    /// failure as a crypto error, or as an I/O error when its transport
    /// failed; it never reports a format error, which this library
    /// reserves for malformed package bytes.
    fn sign(&self, data: &[u8]) -> (r: Result<Vec<u8>, RPMError>)
        ensures
            r matches Err(e) ==> e == RPMError::Crypto || e == RPMError::Io,
    ;

    /// Signs the remainder of a logical byte stream, under the same
    /// error discipline.
    fn sign_stream(&self, data: &mut SeqCursor<'_>) -> (r: Result<Vec<u8>, RPMError>)
        ensures
            r matches Err(e) ==> e == RPMError::Crypto || e == RPMError::Io,
    ;
}

/// A verifying backend: checks signature bytes over a complete byte
/// range or over a logical stream. Which inputs verify is entirely the
/// backend's decision.
pub trait Verifying {
    /// Verifies a signature over a complete in-memory byte range. A
    /// rejected or unverifiable signature is a crypto error; a failed
    /// transport is an I/O error; a format error is never a backend's to
    /// report.
    fn verify(&self, data: &[u8], signature: &[u8]) -> (r: Result<(), RPMError>)
        ensures
            r matches Err(e) ==> e == RPMError::Crypto || e == RPMError::Io,
    ;

    /// Verifies a signature over the remainder of a logical byte stream,
    /// under the same error discipline.
    fn verify_stream(&self, data: &mut SeqCursor<'_>, signature: &[u8]) -> (r: Result<
        (),
        RPMError,
    >)
        ensures
            r matches Err(e) ==> e == RPMError::Crypto || e == RPMError::Io,
    ;
}

} // verus!
