//! Hexadecimal text: the canonical textual form of hashes and of stored
//! state keys. Encoding and decoding are done by the `hex` crate behind
//! trusted wrappers whose contracts state the digit mapping exactly.

use vstd::prelude::*;
use vstd::bytes::{spec_u64_to_le_bytes, u64_to_le_bytes, u64_from_le_bytes, lemma_auto_spec_u64_to_from_le_bytes};
use vstd::slice::slice_subrange;
use crate::primitives::CryptoHash;

verus! {

/// The lowercase hex digit of a value below 16.
pub open spec fn hex_digit(n: int) -> u8
    recommends
        0 <= n < 16,
{
    if n < 10 {
        (48 + n) as u8  // '0' + n
    } else {
        (87 + n) as u8  // 'a' + (n - 10)
    }
}

/// Lowercase hex text of a byte string: two digits for each byte, high
/// nibble first.
pub open spec fn hex_of(bytes: Seq<u8>) -> Seq<u8>
    decreases bytes.len(),
{
    if bytes.len() == 0 {
        Seq::empty()
    } else {
        seq![hex_digit(bytes[0] as int / 16), hex_digit(bytes[0] as int % 16)] + hex_of(
            bytes.skip(1),
        )
    }
}

pub open spec fn is_hex_digit(c: u8) -> bool {
    (48 <= c <= 57) || (97 <= c <= 102) || (65 <= c <= 70)
}

/// The value of a hex digit, either case.
pub open spec fn hex_digit_val(c: u8) -> int {
    if 48 <= c <= 57 {
        c - 48
    } else if 97 <= c <= 102 {
        c - 87
    } else {
        c - 55
    }
}

/// A byte string is hex text when its length is even and every byte is a
/// hex digit, either case.
pub open spec fn hex_valid(s: Seq<u8>) -> bool {
    &&& s.len() % 2 == 0
    &&& forall|i: int| 0 <= i < s.len() ==> is_hex_digit(#[trigger] s[i])
}

/// The bytes denoted by hex text: each digit pair becomes one byte.
pub open spec fn unhex(s: Seq<u8>) -> Seq<u8>
    recommends
        hex_valid(s),
    decreases s.len(),
{
    if s.len() < 2 {
        Seq::empty()
    } else {
        seq![(hex_digit_val(s[0]) * 16 + hex_digit_val(s[1])) as u8] + unhex(s.skip(2))
    }
}

/// Relies on hex::encode: lowercase hex text of the bytes, two digits per
/// byte, high nibble first.
#[verifier::external_body]
pub fn hex_encode(data: &Vec<u8>) -> (r: Vec<u8>)
    ensures
        r@ == hex_of(data@),
{
    hex::encode(data).into_bytes()
}

/// Relies on hex::decode: succeeds exactly on even-length strings of hex
/// digits (either case) and returns the denoted bytes; odd length or a
/// non-digit is rejected.
#[verifier::external_body]
pub fn hex_decode(data: &Vec<u8>) -> (r: Option<Vec<u8>>)
    ensures
        match r {
            Some(b) => hex_valid(data@) && b@ == unhex(data@),
            None => !hex_valid(data@),
        },
{
    hex::decode(data).ok()
}

/// Text that denotes exactly one hash: valid hex for 32 bytes.
pub open spec fn hash_text_ok(s: Seq<u8>) -> bool {
    hex_valid(s) && unhex(s).len() == 32
}

/// The 32 bytes of a hash: the four limbs, little-endian, in order.
pub open spec fn hash_bytes(h: CryptoHash) -> Seq<u8> {
    spec_u64_to_le_bytes(h.w0) + spec_u64_to_le_bytes(h.w1) + spec_u64_to_le_bytes(h.w2)
        + spec_u64_to_le_bytes(h.w3)
}

/// The canonical textual form of a hash: 64 lowercase hex digits.
pub open spec fn hash_text(h: CryptoHash) -> Seq<u8> {
    hex_of(hash_bytes(h))
}

pub proof fn lemma_hash_bytes_len(h: CryptoHash)
    ensures
        hash_bytes(h).len() == 32,
{
    lemma_auto_spec_u64_to_from_le_bytes();
}

/// Two hashes with the same bytes are the same hash.
pub proof fn lemma_hash_bytes_injective(a: CryptoHash, b: CryptoHash)
    requires
        hash_bytes(a) == hash_bytes(b),
    ensures
        a == b,
{
    lemma_auto_spec_u64_to_from_le_bytes();
    assert(spec_u64_to_le_bytes(a.w0) =~= hash_bytes(a).subrange(0, 8));
    assert(spec_u64_to_le_bytes(a.w1) =~= hash_bytes(a).subrange(8, 16));
    assert(spec_u64_to_le_bytes(a.w2) =~= hash_bytes(a).subrange(16, 24));
    assert(spec_u64_to_le_bytes(a.w3) =~= hash_bytes(a).subrange(24, 32));
    assert(spec_u64_to_le_bytes(b.w0) =~= hash_bytes(b).subrange(0, 8));
    assert(spec_u64_to_le_bytes(b.w1) =~= hash_bytes(b).subrange(8, 16));
    assert(spec_u64_to_le_bytes(b.w2) =~= hash_bytes(b).subrange(16, 24));
    assert(spec_u64_to_le_bytes(b.w3) =~= hash_bytes(b).subrange(24, 32));
    assert(vstd::bytes::spec_u64_from_le_bytes(spec_u64_to_le_bytes(a.w0)) == a.w0);
    assert(vstd::bytes::spec_u64_from_le_bytes(spec_u64_to_le_bytes(a.w1)) == a.w1);
    assert(vstd::bytes::spec_u64_from_le_bytes(spec_u64_to_le_bytes(a.w2)) == a.w2);
    assert(vstd::bytes::spec_u64_from_le_bytes(spec_u64_to_le_bytes(a.w3)) == a.w3);
}

impl CryptoHash {
    /// The 32 raw bytes of this hash, little-endian limbs in order.
    pub fn to_bytes(&self) -> (r: Vec<u8>)
        ensures
            r@ == hash_bytes(*self),
            r@.len() == 32,
    {
        let mut out = u64_to_le_bytes(self.w0);
        let mut b1 = u64_to_le_bytes(self.w1);
        let mut b2 = u64_to_le_bytes(self.w2);
        let mut b3 = u64_to_le_bytes(self.w3);
        out.append(&mut b1);
        out.append(&mut b2);
        out.append(&mut b3);
        proof {
            lemma_hash_bytes_len(*self);
            assert(out@ =~= hash_bytes(*self));
        }
        out
    }

    /// A hash from 32 raw bytes.
    pub fn from_bytes(b: &[u8]) -> (r: CryptoHash)
        requires
            b@.len() == 32,
        ensures
            hash_bytes(r) == b@,
    {
        let w0 = u64_from_le_bytes(slice_subrange(b, 0, 8));
        let w1 = u64_from_le_bytes(slice_subrange(b, 8, 16));
        let w2 = u64_from_le_bytes(slice_subrange(b, 16, 24));
        let w3 = u64_from_le_bytes(slice_subrange(b, 24, 32));
        let r = CryptoHash { w0, w1, w2, w3 };
        proof {
            lemma_auto_spec_u64_to_from_le_bytes();
            assert(spec_u64_to_le_bytes(r.w0) == b@.subrange(0, 8));
            assert(spec_u64_to_le_bytes(r.w1) == b@.subrange(8, 16));
            assert(spec_u64_to_le_bytes(r.w2) == b@.subrange(16, 24));
            assert(spec_u64_to_le_bytes(r.w3) == b@.subrange(24, 32));
            assert(hash_bytes(r) =~= b@);
        }
        r
    }

    /// The canonical textual form: 64 lowercase hex digits.
    pub fn to_text(&self) -> (r: Vec<u8>)
        ensures
            r@ == hash_text(*self),
    {
        let bytes = self.to_bytes();
        hex_encode(&bytes)
    }

    /// Parse the canonical textual form: any even-length hex text denoting
    /// exactly 32 bytes, either digit case.
    pub fn try_from_text(s: &Vec<u8>) -> (r: Option<CryptoHash>)
        ensures
            match r {
                Some(h) => hex_valid(s@) && unhex(s@).len() == 32 && hash_bytes(h) == unhex(s@),
                None => !(hex_valid(s@) && unhex(s@).len() == 32),
            },
    {
        match hex_decode(s) {
            None => None,
            Some(bytes) => {
                if bytes.len() == 32 {
                    Some(CryptoHash::from_bytes(bytes.as_slice()))
                } else {
                    None
                }
            },
        }
    }
}

} // verus!
