//! Hashcash-style proof of work over the static public key. Raises the cost of minting fresh
//! identities (sybil friction); it does not make sybil impossible without an out-of-band CA.

use vstd::prelude::*;
use vstd::arithmetic::power2::{lemma2_to64, pow2};
use vstd::std_specs::bits::u8_leading_zeros;

use crate::bytes::{append_bytes, push_u64_be, u64_be};
use crate::crypto::{sha256, sha256_digest};

verus! {

broadcast use vstd::std_specs::bits::axiom_u8_leading_zeros;

/// Leading zero bits of one byte: how many of the thresholds 128, 64, ..., 1 it stays below.
pub open spec fn byte_leading_zeros(b: u8) -> nat {
    if b >= 128 {
        0
    } else if b >= 64 {
        1
    } else if b >= 32 {
        2
    } else if b >= 16 {
        3
    } else if b >= 8 {
        4
    } else if b >= 4 {
        5
    } else if b >= 2 {
        6
    } else if b >= 1 {
        7
    } else {
        8
    }
}

/// Leading zero bits of a byte string, most significant bit of the first byte first.
pub open spec fn leading_zero_bits_of(s: Seq<u8>) -> nat
    decreases s.len(),
{
    if s.len() == 0 {
        0
    } else if s[0] == 0 {
        8 + leading_zero_bits_of(s.drop_first())
    } else {
        byte_leading_zeros(s[0])
    }
}

/// `u8::leading_zeros` counts what `byte_leading_zeros` counts.
proof fn lemma_u8_leading_zeros(b: u8)
    ensures
        u8_leading_zeros(b) == byte_leading_zeros(b),
{
    let k = u8_leading_zeros(b) as u8;
    assert(k as u32 == u8_leading_zeros(b));
    assert(b >> ((8 - k) as u8) == 0);
    assert(k < 8 ==> (b >> ((7 - k) as u8)) & 1u8 != 0u8);
    assert(k == (if b >= 128 {
        0u8
    } else if b >= 64 {
        1u8
    } else if b >= 32 {
        2u8
    } else if b >= 16 {
        3u8
    } else if b >= 8 {
        4u8
    } else if b >= 4 {
        5u8
    } else if b >= 2 {
        6u8
    } else if b >= 1 {
        7u8
    } else {
        8u8
    })) by (bit_vector)
        requires
            k <= 8,
            b == 0 <==> k == 8,
            b >> ((8 - k) as u8) == 0,
            k < 8 ==> (b >> ((7 - k) as u8)) & 1u8 != 0u8,
    ;
}

/// The bits of a non-zero byte below its leading zeros: `b` lies in `[2^(7-k), 2^(8-k))`.
proof fn lemma_byte_leading_zeros_range(b: u8)
    requires
        b != 0,
    ensures
        byte_leading_zeros(b) < 8,
        pow2((7 - byte_leading_zeros(b)) as nat) <= b,
        b < pow2((8 - byte_leading_zeros(b)) as nat),
{
    lemma2_to64();
}

/// The leading zero count of a byte string is eight for each zero byte before the first non-zero
/// byte, plus the leading zero bits `k` of that byte, which are those for which the byte lies in
/// `[2^(7-k), 2^(8-k))`: a byte `0x01` adds seven. A string of zero bytes counts all its bits.
pub proof fn law_leading_zero_bits(s: Seq<u8>, i: int)
    requires
        0 <= i <= s.len(),
        forall|j: int| 0 <= j < i ==> s[j] == 0,
        i < s.len() ==> s[i] != 0,
    ensures
        i == s.len() ==> leading_zero_bits_of(s) == 8 * s.len(),
        i < s.len() ==> 8 * i <= leading_zero_bits_of(s) < 8 * i + 8,
        i < s.len() ==> pow2((8 * i + 7 - leading_zero_bits_of(s)) as nat) <= s[i],
        i < s.len() ==> s[i] < pow2((8 * i + 8 - leading_zero_bits_of(s)) as nat),
    decreases i,
{
    if i == 0 {
        if s.len() > 0 {
            lemma_byte_leading_zeros_range(s[0]);
        }
    } else {
        let t = s.drop_first();
        assert forall|j: int| 0 <= j < i - 1 implies t[j] == 0 by {
            assert(t[j] == s[j + 1]);
        }
        if i - 1 < t.len() {
            assert(t[i - 1] == s[i]);
        }
        law_leading_zero_bits(t, i - 1);
    }
}

/// The work hash of a public key and nonce: SHA-256 over the key, then the nonce big-endian.
pub open spec fn work_hash(pubkey: Seq<u8>, nonce: u64) -> Seq<u8> {
    sha256(pubkey + u64_be(nonce))
}

/// Whether `nonce` is a valid proof of `bits` leading zero bits for `pubkey`.
pub open spec fn spec_valid(pubkey: Seq<u8>, nonce: u64, bits: u32) -> bool {
    leading_zero_bits_of(work_hash(pubkey, nonce)) >= bits
}

fn leading_zero_bits(bytes: &[u8; 32]) -> (count: u32)
    ensures
        count == leading_zero_bits_of(bytes@),
{
    let mut count: u32 = 0;
    let mut i: usize = 0;
    assert(bytes@.subrange(0, 32) =~= bytes@);
    while i < 32
        invariant
            i <= 32,
            bytes@.len() == 32,
            count == 8 * i,
            forall|j: int| 0 <= j < i ==> bytes@[j] == 0,
            leading_zero_bits_of(bytes@) == count + leading_zero_bits_of(
                bytes@.subrange(i as int, 32),
            ),
        decreases 32 - i,
    {
        let b = bytes[i];
        assert(bytes@.subrange(i as int, 32).drop_first() =~= bytes@.subrange(i + 1, 32));
        if b == 0 {
            count = count + 8;
        } else {
            let lz = b.leading_zeros();
            proof {
                lemma_u8_leading_zeros(b);
            }
            return count + lz;
        }
        i = i + 1;
    }
    count
}

fn hash(pubkey: &[u8], nonce: u64) -> (h: [u8; 32])
    ensures
        h@ == work_hash(pubkey@, nonce),
{
    let mut buf: Vec<u8> = Vec::new();
    append_bytes(&mut buf, pubkey);
    push_u64_be(&mut buf, nonce);
    sha256_digest(buf.as_slice())
}

/// Find the least nonce whose `SHA-256(pubkey || nonce)` has at least `bits` leading zero bits.
/// Should no nonce below `u64::MAX` qualify, the search ends at `u64::MAX`.
pub fn mint(pubkey: &[u8], bits: u32) -> (nonce: u64)
    ensures
        spec_valid(pubkey@, nonce, bits) || nonce == u64::MAX,
        forall|n: u64| n < nonce ==> !spec_valid(pubkey@, n, bits),
{
    let mut nonce: u64 = 0;
    loop
        invariant
            forall|n: u64| n < nonce ==> !spec_valid(pubkey@, n, bits),
        decreases u64::MAX - nonce,
    {
        if leading_zero_bits(&hash(pubkey, nonce)) >= bits {
            return nonce;
        }
        if nonce == u64::MAX {
            return nonce;
        }
        nonce = nonce + 1;
    }
}

/// Check a claimed proof of work.
pub fn verify(pubkey: &[u8], nonce: u64, bits: u32) -> (ok: bool)
    ensures
        ok == spec_valid(pubkey@, nonce, bits),
{
    leading_zero_bits(&hash(pubkey, nonce)) >= bits
}

/// A minted nonce passes verification, unless the search ran out of nonces.
pub proof fn law_mint_then_verify(pubkey: Seq<u8>, nonce: u64, bits: u32)
    requires
        spec_valid(pubkey, nonce, bits) || nonce == u64::MAX,
        forall|n: u64| n < nonce ==> !spec_valid(pubkey, n, bits),
        nonce < u64::MAX,
    ensures
        spec_valid(pubkey, nonce, bits),
{
}

} // verus!
