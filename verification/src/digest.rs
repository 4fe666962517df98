//! Content digests as lower-case hex strings.
//!
//! The digest is only used to compare file contents for equality. The three
//! algorithms are computed by their crates (`md5`, `xxhash-rust`, `sha2`);
//! what this module adds is the choice among them and the hex text.
use vstd::prelude::*;
use crate::scan::HashAlgo;
use crate::text::{hex_bytes, hex_u64, hex_of_bytes, hex_of_u64, string_of, lemma_hex_bytes_len, lemma_hex_padded_len, lemma_hex_bytes_injective, lemma_hex_u64_injective};

verus! {

/// The MD5 digest of `data` (16 bytes), as the `md5` crate computes it.
pub uninterp spec fn md5_of(data: Seq<u8>) -> Seq<u8>;

/// The XXH64 hash of `data` with the given seed, as `xxhash-rust` computes it.
pub uninterp spec fn xxh64_of(data: Seq<u8>, seed: u64) -> u64;

/// The SHA-256 digest of `data` (32 bytes), as the `sha2` crate computes it.
pub uninterp spec fn sha256_of(data: Seq<u8>) -> Seq<u8>;

/// `md5::compute`: the MD5 digest of `data`. Claimed: the result is
/// `md5_of(data)` and has 16 bytes (the crate's `Digest` holds a `[u8; 16]`).
/// Inputs of any length are hashed whole: on 64-bit targets the crate's
/// `Context::consume` feeds them in pieces of at most `u32::MAX` bytes and
/// keeps a 64-bit bit count, so the digest is that of feeding the same bytes
/// in smaller chunks.
#[verifier::external_body]
fn md5_digest(data: &[u8]) -> (r: Vec<u8>)
    ensures
        r@ == md5_of(data@),
        r@.len() == 16,
{
    md5::compute(data).0.to_vec()
}

/// `xxhash_rust::xxh64::xxh64`: the XXH64 hash of `data` with `seed`.
/// Claimed: the result is `xxh64_of(data, seed)`.
#[verifier::external_body]
fn xxh64_digest(data: &[u8], seed: u64) -> (r: u64)
    ensures
        r == xxh64_of(data@, seed),
{
    xxhash_rust::xxh64::xxh64(data, seed)
}

/// `sha2::Sha256::digest`: the SHA-256 digest of `data`. Claimed: the result
/// is `sha256_of(data)` and has 32 bytes (the crate's output type is a
/// 32-byte array).
#[verifier::external_body]
fn sha256_digest(data: &[u8]) -> (r: Vec<u8>)
    ensures
        r@ == sha256_of(data@),
        r@.len() == 32,
{
    <sha2::Sha256 as sha2::Digest>::digest(data).to_vec()
}

/// The digest text of `data` under `algo`: `{:x}` of the MD5 or SHA-256
/// bytes, `{:016x}` of the XXH64 value (seed 0).
pub open spec fn digest_text(algo: HashAlgo, data: Seq<u8>) -> Seq<char> {
    match algo {
        HashAlgo::Md5 => hex_bytes(md5_of(data)),
        HashAlgo::Xxhash => hex_u64(xxh64_of(data, 0)),
        HashAlgo::Sha256 => hex_bytes(sha256_of(data)),
    }
}

/// How many hex digits a digest text has: 32 for MD5, 16 for XXH64, 64
/// for SHA-256.
pub open spec fn digest_text_len(algo: HashAlgo) -> nat {
    match algo {
        HashAlgo::Md5 => 32,
        HashAlgo::Xxhash => 16,
        HashAlgo::Sha256 => 64,
    }
}

/// The digest of a file's contents as a lower-case hex string.
pub fn digest_hex(algo: HashAlgo, data: &[u8]) -> (r: String)
    ensures
        r@ == digest_text(algo, data@),
        r@.len() == digest_text_len(algo),
{
    let v = match algo {
        HashAlgo::Md5 => {
            let d = md5_digest(data);
            proof {
                lemma_hex_bytes_len(d@);
            }
            hex_of_bytes(d.as_slice())
        },
        HashAlgo::Xxhash => {
            let h = xxh64_digest(data, 0);
            proof {
                lemma_hex_padded_len(h as nat, 16);
            }
            hex_of_u64(h)
        },
        HashAlgo::Sha256 => {
            let d = sha256_digest(data);
            proof {
                lemma_hex_bytes_len(d@);
            }
            hex_of_bytes(d.as_slice())
        },
    };
    string_of(&v)
}

/// Two contents get the same digest text exactly when the algorithm's hash
/// of the whole contents is the same (for XXH64, with seed 0): the text
/// tells contents apart as well as the hash does.
pub proof fn law_digest_text_is_the_hash_of_the_contents(algo: HashAlgo, d1: Seq<u8>, d2: Seq<u8>)
    ensures
        digest_text(algo, d1) == digest_text(algo, d2) <==> match algo {
            HashAlgo::Md5 => md5_of(d1) == md5_of(d2),
            HashAlgo::Xxhash => xxh64_of(d1, 0) == xxh64_of(d2, 0),
            HashAlgo::Sha256 => sha256_of(d1) == sha256_of(d2),
        },
{
    if digest_text(algo, d1) == digest_text(algo, d2) {
        match algo {
            HashAlgo::Md5 => lemma_hex_bytes_injective(md5_of(d1), md5_of(d2)),
            HashAlgo::Xxhash => lemma_hex_u64_injective(xxh64_of(d1, 0), xxh64_of(d2, 0)),
            HashAlgo::Sha256 => lemma_hex_bytes_injective(sha256_of(d1), sha256_of(d2)),
        }
    }
}

} // verus!
