//! Content hashes: the SHA3-256 digest of a file's bytes, written as 64
//! lower-case hexadecimal digits. The index compares hashes to see whether a
//! file has changed; nothing here is meant as a security measure.

use sha3::{Digest, Sha3_256};
use vstd::prelude::*;

verus! {

/// The SHA3-256 digest of `data`, as FIPS 202 defines it.
pub uninterp spec fn sha3_256(data: Seq<u8>) -> Seq<u8>;

/// Calls `sha3::Sha3_256::digest`. The digest depends on the bytes alone, and
/// its type fixes its length at 32 bytes.
#[verifier::external_body]
fn sha3_256_digest(data: &[u8]) -> (digest: Vec<u8>)
    ensures
        digest@ == sha3_256(data@),
        digest@.len() == 32,
{
    Sha3_256::digest(data).to_vec()
}

/// The digit that stands for `n` in base 16, for `n` below 16.
pub open spec fn hex_digit(n: int) -> char {
    if n < 10 {
        (48 + n) as char
    } else {
        (87 + n) as char
    }
}

/// Two digits for each byte, the high half first.
pub open spec fn hex(data: Seq<u8>) -> Seq<char> {
    Seq::new(
        2 * data.len(),
        |i: int|
            if i % 2 == 0 {
                hex_digit(data[i / 2] as int / 16)
            } else {
                hex_digit(data[i / 2] as int % 16)
            },
    )
}

/// The content hash of a file that holds `content`.
pub open spec fn hash_of(content: Seq<u8>) -> Seq<char> {
    hex(sha3_256(content))
}

fn digit(n: u8) -> (c: char)
    requires
        n < 16,
    ensures
        c == hex_digit(n as int),
{
    if n < 10 {
        (48 + n) as char
    } else {
        (87 + n) as char
    }
}

/// Writes `data` in lower-case hexadecimal.
pub fn hex_encode(data: &[u8]) -> (out: String)
    ensures
        out@ == hex(data@),
{
    let mut out = String::new();
    let mut i: usize = 0;
    while i < data.len()
        invariant
            i <= data@.len(),
            out@ == hex(data@.take(i as int)),
        decreases data@.len() - i,
    {
        let byte = data[i];
        out.push(digit(byte / 16));
        out.push(digit(byte % 16));
        i = i + 1;
        assert(out@ =~= hex(data@.take(i as int)));
    }
    assert(data@.take(i as int) =~= data@);
    out
}

/// The content hash of `content`.
pub fn content_hash(content: &[u8]) -> (hash: String)
    ensures
        hash@ == hash_of(content@),
        hash@.len() == 64,
{
    let digest = sha3_256_digest(content);
    hex_encode(digest.as_slice())
}

} // verus!
