//! Content identifiers: CIDv1 of a single raw block under SHA-256, in base32.

use vstd::prelude::*;

use crate::digest::{sha256, sha256_digest};
use crate::text::string_of;

verus! {

/// Two to a power below eight.
pub open spec fn weight(power: int) -> int {
    if power == 0 {
        1
    } else if power == 1 {
        2
    } else if power == 2 {
        4
    } else if power == 3 {
        8
    } else if power == 4 {
        16
    } else if power == 5 {
        32
    } else if power == 6 {
        64
    } else {
        128
    }
}

/// The bit at a place, counted from the most significant bit of the first
/// byte; zeros follow the last byte.
pub open spec fn bit_at(bytes: Seq<u8>, place: int) -> int {
    if 0 <= place < 8 * bytes.len() {
        (bytes[place / 8] as int / weight(7 - place % 8)) % 2
    } else {
        0
    }
}

/// The number that five bits from a place on form.
pub open spec fn five_bits(bytes: Seq<u8>, place: int) -> int {
    16 * bit_at(bytes, place) + 8 * bit_at(bytes, place + 1) + 4 * bit_at(bytes, place + 2) + 2
        * bit_at(bytes, place + 3) + bit_at(bytes, place + 4)
}

/// The lowercase base32 digit for a value below 32.
pub open spec fn base32_digit(value: int) -> char {
    if value < 26 {
        (97 + value) as char
    } else {
        (24 + value) as char
    }
}

/// The lowercase base32 form without padding.
pub open spec fn base32(bytes: Seq<u8>) -> Seq<char> {
    Seq::new(
        ((8 * bytes.len() + 4) / 5) as nat,
        |i: int| base32_digit(five_bits(bytes, 5 * i)),
    )
}

/// The bytes of the content identifier for a digest: version one, raw codec,
/// SHA-256 of 32 bytes.
pub open spec fn cid_bytes(digest: Seq<u8>) -> Seq<u8> {
    seq![0x01u8, 0x55, 0x12, 0x20] + digest
}

/// The content identifier for a digest; `b` stands for base32.
pub open spec fn cid_of_digest(digest: Seq<u8>) -> Seq<char> {
    seq!['b'] + base32(cid_bytes(digest))
}

/// The content identifier of the data.
pub open spec fn cid_of(data: Seq<u8>) -> Seq<char> {
    cid_of_digest(sha256(data))
}

/// Two to a power below eight.
fn power_of_two(power: u8) -> (out: u8)
    requires
        power < 8,
    ensures
        out == weight(power as int),
        out > 0,
{
    if power == 0 {
        1
    } else if power == 1 {
        2
    } else if power == 2 {
        4
    } else if power == 3 {
        8
    } else if power == 4 {
        16
    } else if power == 5 {
        32
    } else if power == 6 {
        64
    } else {
        128
    }
}

/// The bit at a place.
fn bit(bytes: &[u8], place: usize) -> (out: u8)
    requires
        bytes@.len() <= 1024,
    ensures
        out == bit_at(bytes@, place as int),
        out < 2,
{
    if place < 8 * bytes.len() {
        let power: u8 = 7 - (place % 8) as u8;
        (bytes[place / 8] / power_of_two(power)) % 2
    } else {
        0
    }
}

/// The content identifier for a SHA-256 digest.
pub fn cid_for_digest(digest: &[u8]) -> (cid: String)
    requires
        digest@.len() == 32,
    ensures
        cid@ == cid_of_digest(digest@),
{
    let mut bytes: Vec<u8> = Vec::new();
    bytes.push(0x01);
    bytes.push(0x55);
    bytes.push(0x12);
    bytes.push(0x20);
    let mut i: usize = 0;
    assert(bytes@ =~= seq![0x01u8, 0x55, 0x12, 0x20] + digest@.take(0));
    while i < digest.len()
        invariant
            i <= digest@.len(),
            bytes@ == seq![0x01u8, 0x55, 0x12, 0x20] + digest@.take(i as int),
        decreases digest@.len() - i,
    {
        bytes.push(digest[i]);
        assert(bytes@ =~= seq![0x01u8, 0x55, 0x12, 0x20] + digest@.take(i + 1));
        i += 1;
    }
    assert(digest@.take(32) =~= digest@);
    let ghost all = cid_bytes(digest@);
    let block = bytes.as_slice();
    let mut out: Vec<char> = Vec::new();
    out.push('b');
    let mut at: usize = 0;
    assert(out@ =~= seq!['b'] + base32(all).take(0));
    while at < 58
        invariant
            at <= 58,
            block@ == all,
            all.len() == 36,
            out@ == seq!['b'] + base32(all).take(at as int),
        decreases 58 - at,
    {
        let place: usize = 5 * at;
        let value: u8 = 16 * bit(block, place) + 8 * bit(block, place + 1) + 4 * bit(
            block,
            place + 2,
        ) + 2 * bit(block, place + 3) + bit(block, place + 4);
        let c = if value < 26 {
            (97 + value) as char
        } else {
            (24 + value) as char
        };
        out.push(c);
        proof {
            assert(c == base32(all)[at as int]);
            assert(out@ =~= seq!['b'] + base32(all).take(at + 1));
        }
        at += 1;
    }
    assert(base32(all).take(58) =~= base32(all));
    string_of(out.as_slice())
}

/// The content identifier of the data.
pub fn cid_for_bytes(data: &[u8]) -> (cid: String)
    ensures
        cid@ == cid_of(data@),
{
    let digest = sha256_digest(data);
    cid_for_digest(digest.as_slice())
}

} // verus!
