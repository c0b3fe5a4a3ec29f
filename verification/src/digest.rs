//! SHA-256 digests and the identities derived from them.

use sha2::{Digest, Sha256};
use vstd::prelude::*;
use vstd::utf8::encode_utf8;

use crate::ids::TokenScriptId;
use crate::numerals::{append_hex, hex};
use crate::text::{chars_of, string_of, trim, trimmed};

verus! {

/// The SHA-256 digest of `data`.
pub uninterp spec fn sha256(data: Seq<u8>) -> Seq<u8>;

/// `sha2::Sha256::digest`: the digest depends on the data alone and has 32
/// bytes.
#[verifier::external_body]
pub(crate) fn sha256_digest(data: &[u8]) -> (digest: Vec<u8>)
    ensures
        digest@ == sha256(data@),
        digest@.len() == 32,
{
    Sha256::digest(data).to_vec()
}

/// The number whose big-endian bytes are given.
pub open spec fn big_endian(bytes: Seq<u8>) -> nat
    decreases bytes.len(),
{
    if bytes.len() == 0 {
        0
    } else {
        256 * big_endian(bytes.drop_last()) + bytes.last() as nat
    }
}

/// `value`, with one in the place of zero.
pub open spec fn at_least_one(value: nat) -> nat {
    if value == 0 {
        1
    } else {
        value
    }
}

/// The digest of the UTF-8 form of `text`.
pub open spec fn text_digest(text: Seq<char>) -> Seq<u8> {
    sha256(encode_utf8(text))
}

/// The token ID for a token script's key.
pub open spec fn token_id(key: Seq<char>) -> nat {
    at_least_one(big_endian(text_digest(key).take(4)))
}

/// The numeric name of a runtime object.
pub open spec fn runtime_object_id(name: Seq<char>) -> nat {
    at_least_one(big_endian(text_digest(trim(name)).take(8)))
}

/// The number in the first `count` bytes.
fn leading_number(bytes: &[u8], count: usize) -> (value: u64)
    requires
        count <= 8,
        count <= bytes@.len(),
    ensures
        value == big_endian(bytes@.take(count as int)),
        count == 4 ==> value <= u32::MAX,
{
    let mut value: u128 = 0;
    let mut bound: u128 = 1;
    let mut i: usize = 0;
    while i < count
        invariant
            i <= count <= 8,
            count <= bytes@.len(),
            value == big_endian(bytes@.take(i as int)),
            value < bound,
            bound == (if i == 0 { 1u128 } else if i == 1 { 0x100 } else if i == 2 { 0x1_0000 } else
                if i == 3 { 0x100_0000 } else if i == 4 { 0x1_0000_0000 } else if i == 5 {
                    0x100_0000_0000
                } else if i == 6 { 0x1_0000_0000_0000 } else if i == 7 { 0x100_0000_0000_0000 } else {
                    0x1_0000_0000_0000_0000
                }),
        decreases count - i,
    {
        assert(bytes@.take(i + 1).drop_last() == bytes@.take(i as int));
        value = value * 256 + bytes[i] as u128;
        bound = bound * 256;
        i += 1;
    }
    value as u64
}

/// The token ID that a digest stands for: its first four bytes, never zero.
pub fn token_id_from_digest(digest: &[u8]) -> (id: TokenScriptId)
    requires
        digest@.len() >= 4,
    ensures
        id.0 == at_least_one(big_endian(digest@.take(4))),
{
    let value: u64 = leading_number(digest, 4);
    if value == 0 {
        TokenScriptId(1)
    } else {
        TokenScriptId(value as u32)
    }
}

/// The runtime object ID that a digest stands for: its first eight bytes,
/// never zero.
pub fn runtime_object_id_from_digest(digest: &[u8]) -> (id: u64)
    requires
        digest@.len() >= 8,
    ensures
        id == at_least_one(big_endian(digest@.take(8))),
{
    let value: u64 = leading_number(digest, 8);
    if value == 0 {
        1
    } else {
        value
    }
}

/// The lowercase hexadecimal SHA-256 digest of the bytes.
pub fn hex_sha256(bytes: &[u8]) -> (out: String)
    ensures
        out@ == hex(sha256(bytes@)),
{
    let digest = sha256_digest(bytes);
    let mut out: Vec<char> = Vec::new();
    append_hex(&mut out, digest.as_slice());
    string_of(out.as_slice())
}

/// The stable token ID for a token script's key.
pub fn token_id_for_key(key: &str) -> (id: TokenScriptId)
    ensures
        id.0 == token_id(key@),
        id.0 > 0,
{
    let digest = sha256_digest(key.as_bytes());
    token_id_from_digest(digest.as_slice())
}

/// The stable numeric name for a runtime object.
pub fn stable_runtime_object_id(value: &str) -> (id: u64)
    ensures
        id == runtime_object_id(value@),
        id > 0,
{
    let chars = chars_of(value);
    let name = string_of(trimmed(chars.as_slice()));
    let digest = sha256_digest(name.as_str().as_bytes());
    runtime_object_id_from_digest(digest.as_slice())
}

} // verus!
