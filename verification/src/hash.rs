//! Content hashing: a fast 64-bit fingerprint used to key duplicate
//! groups, and a strong digest used to confirm them.

use vstd::prelude::*;
use crate::error::AppError;
use crate::strutil::{dec_rep, dec_val, hex_lower, hex_rep, is_digits, parse_u64, u64_to_string};

verus! {

/// The 64-bit fingerprint of a byte string, as computed by the XXH3-64
/// hash: deterministic, the same for identical inputs on every run and
/// platform.
pub uninterp spec fn xxh3_of(data: Seq<u8>) -> u64;

/// The SHA-256 digest of a byte string.
pub uninterp spec fn sha256_of(data: Seq<u8>) -> Seq<u8>;

/// Relies on xxhash_rust's xxh3_64: the fingerprint depends on the bytes
/// alone.
#[verifier::external_body]
pub fn xxh3_64(data: &[u8]) -> (r: u64)
    ensures
        r == xxh3_of(data@),
{
    xxhash_rust::xxh3::xxh3_64(data)
}

/// Relies on sha2's Sha256: the digest depends on the bytes alone and is
/// 32 bytes long.
#[verifier::external_body]
fn sha256_digest(data: &[u8]) -> (r: Vec<u8>)
    ensures
        r@ == sha256_of(data@),
        r@.len() == 32,
{
    <sha2::Sha256 as sha2::Digest>::digest(data).to_vec()
}

/// The strong digest of a byte string, rendered as 64 lowercase hex
/// characters.
pub fn sha256(data: &[u8]) -> (r: String)
    ensures
        r@ == hex_rep(sha256_of(data@)),
        r@.len() == 64,
{
    let digest = sha256_digest(data);
    let r = hex_lower(digest.as_slice());
    proof {
        assert(r@.len() == sha256_of(data@).len() * 2);
    }
    r
}

/// Wrapper around the content fingerprint.
///
/// The intention is to be able to swap out the hashing algorithm without
/// touching the calling code.
#[derive(Debug, Clone, Copy, PartialEq, Eq, Hash)]
pub struct Checksum {
    xx3_hash: u64,
}

impl Checksum {
    /// The underlying fingerprint value.
    pub closed spec fn spec_value(&self) -> u64 {
        self.xx3_hash
    }

    /// Wraps a fingerprint value.
    pub fn new(value: u64) -> (r: Self)
        ensures
            r.spec_value() == value,
    {
        Self { xx3_hash: value }
    }

    /// The checksum of a file with the given contents.
    pub fn of_bytes(data: &[u8]) -> (r: Self)
        ensures
            r.spec_value() == xxh3_of(data@),
    {
        Self { xx3_hash: xxh3_64(data) }
    }

    /// Parses a checksum from its decimal rendering; fails on anything
    /// but a decimal digit string whose value fits in 64 bits.
    pub fn parse(s: &str) -> (r: Result<Self, AppError>)
        ensures
            match r {
                Ok(c) => is_digits(s@) && dec_val(s@) == c.spec_value(),
                Err(e) => (!is_digits(s@) || dec_val(s@) > u64::MAX) && e == AppError::ChecksumParsing,
            },
    {
        match parse_u64(s) {
            Some(v) => Ok(Self { xx3_hash: v }),
            None => Err(AppError::ChecksumParsing),
        }
    }

    /// Returns the actual fingerprint value.
    pub fn value(&self) -> (r: u64)
        ensures
            r == self.spec_value(),
    {
        self.xx3_hash
    }

    /// The decimal rendering of the checksum.
    pub fn render(&self) -> (r: String)
        ensures
            r@ == dec_rep(self.spec_value() as nat),
    {
        u64_to_string(self.xx3_hash)
    }
}

} // verus!
