//! Content digests of line text: CRC32 (crc32fast), MD5 (md-5) and SHA-256 (sha2).
//!
//! Each digest is a pure function of the bytes that are hashed.  Its value is
//! given a name here (the algorithms themselves are the outside crates'
//! business), and each wrapper states that it returns that named value for the
//! bytes it was handed.
use vstd::prelude::*;

use md5::Md5;
use sha2::{Digest, Sha256};

verus! {

/// The CRC-32 (IEEE 802.3 / ISO-HDLC polynomial) checksum of `bytes`.
pub uninterp spec fn crc32_of(bytes: Seq<u8>) -> u32;

/// The 16-byte MD5 digest of `bytes`.
pub uninterp spec fn md5_of(bytes: Seq<u8>) -> Seq<u8>;

/// The 32-byte SHA-256 digest of `bytes`.
pub uninterp spec fn sha256_of(bytes: Seq<u8>) -> Seq<u8>;

/// Calls `crc32fast::hash`.  Trusted: the result is the CRC-32 of the given
/// bytes, a deterministic function of them and of nothing else.
#[verifier::external_body]
pub(crate) fn crc32_hash(bytes: &[u8]) -> (r: u32)
    ensures
        r == crc32_of(bytes@),
{
    crc32fast::hash(bytes)
}

/// Calls `<md5::Md5 as digest::Digest>::digest`.  Trusted: the result is the
/// MD5 digest of the given bytes (16 bytes, a function of the bytes alone).
#[verifier::external_body]
pub(crate) fn md5_digest(bytes: &[u8]) -> (r: [u8; 16])
    ensures
        r@ == md5_of(bytes@),
{
    Md5::digest(bytes).into()
}

/// Calls `<sha2::Sha256 as digest::Digest>::digest`.  Trusted: the result is
/// the SHA-256 digest of the given bytes (32 bytes, a function of the bytes
/// alone).
#[verifier::external_body]
pub(crate) fn sha256_digest(bytes: &[u8]) -> (r: [u8; 32])
    ensures
        r@ == sha256_of(bytes@),
{
    Sha256::digest(bytes).into()
}

} // verus!
