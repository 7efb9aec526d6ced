//! The hashing and combination primitive of the tree protocol.
//!
//! A block is hashed by feeding its UTF-8 bytes, followed by a single
//! terminator byte, to `std`'s `DefaultHasher`; that is exactly the byte
//! stream `std` feeds when hashing a string slice, so the digests agree with
//! `std`'s. Two hashes are combined by hex-encoding each one's little-endian
//! bytes, concatenating the two encodings, and hashing that text. The
//! canonical encoding is part of the protocol: a verifier that deviates from
//! it computes different roots.

use vstd::prelude::*;
use vstd::std_specs::hash::DefaultHasherAdditionalSpecFns;
use vstd::utf8::encode_utf8;
use std::collections::hash_map::DefaultHasher;
use std::hash::Hasher;

verus! {

/// The fixed-width unsigned integer used as the only hash representation.
pub type HashValue = u64;

/// The digest of one data block: what `DefaultHasher` returns after being fed
/// the block's UTF-8 bytes and the terminator byte. `spec_finish` is vstd's
/// model of `DefaultHasher`, an unknown but fixed function of the byte stream,
/// so the digest is a pure function of the block's characters.
pub open spec fn str_hash(s: Seq<char>) -> u64 {
    DefaultHasher::spec_finish(seq![encode_utf8(s), seq![0xffu8]])
}

/// Hashes one data block.
pub fn hash(t: &str) -> (r: HashValue)
    ensures
        r == str_hash(t@),
{
    let mut hasher = DefaultHasher::new();
    hasher.write(t.as_bytes());
    let mut terminator: Vec<u8> = Vec::new();
    terminator.push(0xff);
    hasher.write(terminator.as_slice());
    proof {
        assert(hasher@ =~~= seq![encode_utf8(t@), seq![0xffu8]]);
    }
    hasher.finish()
}

/// The sixteen hexadecimal digits, lower case.
pub open spec fn hex_digit(n: int) -> char {
    seq!['0', '1', '2', '3', '4', '5', '6', '7', '8', '9', 'a', 'b', 'c', 'd', 'e', 'f'][n]
}

/// Two lowercase hexadecimal digits for one byte, high nibble first.
pub open spec fn hex_byte(b: u8) -> Seq<char> {
    seq![hex_digit(b as int / 16), hex_digit(b as int % 16)]
}

/// The lowercase hexadecimal text of a byte sequence, byte by byte.
pub open spec fn hex_bytes(bs: Seq<u8>) -> Seq<char>
    decreases bs.len(),
{
    if bs.len() == 0 {
        seq![]
    } else {
        hex_byte(bs[0]) + hex_bytes(bs.drop_first())
    }
}

/// The eight bytes of a 64-bit value, least significant first.
pub open spec fn u64_le_bytes(v: u64) -> Seq<u8> {
    seq![
        (v & 0xff) as u8,
        ((v >> 8) & 0xff) as u8,
        ((v >> 16) & 0xff) as u8,
        ((v >> 24) & 0xff) as u8,
        ((v >> 32) & 0xff) as u8,
        ((v >> 40) & 0xff) as u8,
        ((v >> 48) & 0xff) as u8,
        ((v >> 56) & 0xff) as u8,
    ]
}

/// The canonical text encoding of a hash value: lowercase hex of its
/// little-endian bytes, sixteen characters in all.
pub open spec fn hex_le(v: u64) -> Seq<char> {
    hex_bytes(u64_le_bytes(v))
}

/// Relies on `hex::encode`, which renders each input byte as two lowercase
/// hexadecimal digits (high nibble first) in input order, and on
/// `u64::to_le_bytes`, which yields the value's bytes least significant first.
#[verifier::external_body]
pub(crate) fn hex_encode_le(v: u64) -> (r: String)
    ensures
        r@ == hex_le(v),
{
    hex::encode(v.to_le_bytes())
}

/// The combination of two hash values: the hash of the concatenation of their
/// canonical text encodings, left before right. Order-sensitive by
/// construction, since the two encodings stand in fixed positions.
pub open spec fn combine_of(left: u64, right: u64) -> u64 {
    str_hash(hex_le(left) + hex_le(right))
}

/// UTF-8 encoding distributes over concatenation.
proof fn lemma_encode_utf8_concat(a: Seq<char>, b: Seq<char>)
    ensures
        encode_utf8(a + b) == encode_utf8(a) + encode_utf8(b),
    decreases a.len(),
{
    if a.len() == 0 {
        assert(a + b =~= b);
        assert(encode_utf8(a) + encode_utf8(b) =~= encode_utf8(b));
    } else {
        assert((a + b).drop_first() =~= a.drop_first() + b);
        lemma_encode_utf8_concat(a.drop_first(), b);
        assert(encode_utf8(a + b) =~= encode_utf8(a) + encode_utf8(b));
    }
}

/// Combines two hash values into the hash of their parent node.
pub fn concatenate_hash_values(left: HashValue, right: HashValue) -> (r: HashValue)
    ensures
        r == combine_of(left, right),
{
    let left_text = hex_encode_le(left);
    let right_text = hex_encode_le(right);
    let mut data: Vec<u8> = Vec::new();
    data.extend_from_slice(left_text.as_str().as_bytes());
    data.extend_from_slice(right_text.as_str().as_bytes());
    proof {
        lemma_encode_utf8_concat(hex_le(left), hex_le(right));
        assert(data@ =~= encode_utf8(hex_le(left) + hex_le(right)));
    }
    let mut hasher = DefaultHasher::new();
    hasher.write(data.as_slice());
    let mut terminator: Vec<u8> = Vec::new();
    terminator.push(0xff);
    hasher.write(terminator.as_slice());
    proof {
        assert(hasher@ =~~= seq![encode_utf8(hex_le(left) + hex_le(right)), seq![0xffu8]]);
    }
    hasher.finish()
}

/// The blocks of a sentence: the maximal runs of non-whitespace characters,
/// in order. Named here; the splitting itself is done by `str`'s splitter.
pub uninterp spec fn words_of(s: Seq<char>) -> Seq<Seq<char>>;

/// Relies on `str::split_whitespace`: it yields the maximal runs of
/// non-whitespace characters of the sentence, in order, a pure function of the
/// characters. Each block takes at least one character and the vector's
/// backing allocation is bounded by `isize::MAX` bytes, so the count is well
/// below `usize::MAX / 2`.
#[verifier::external_body]
pub(crate) fn split_into_words(s: &str) -> (r: Vec<String>)
    ensures
        r@.map_values(|w: String| w@) == words_of(s@),
        r@.len() <= usize::MAX / 2,
{
    s.split_whitespace().map(|w| w.to_string()).collect()
}

} // verus!
