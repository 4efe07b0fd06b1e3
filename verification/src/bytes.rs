//! Byte-level helpers shared by the codecs: big-endian integers, appends, fixed-size copies.

use vstd::prelude::*;

verus! {

/// The eight big-endian bytes of `x`.
pub open spec fn u64_be(x: u64) -> Seq<u8> {
    seq![
        ((x >> 56u64) & 0xffu64) as u8,
        ((x >> 48u64) & 0xffu64) as u8,
        ((x >> 40u64) & 0xffu64) as u8,
        ((x >> 32u64) & 0xffu64) as u8,
        ((x >> 24u64) & 0xffu64) as u8,
        ((x >> 16u64) & 0xffu64) as u8,
        ((x >> 8u64) & 0xffu64) as u8,
        (x & 0xffu64) as u8,
    ]
}

/// The value of eight big-endian bytes.
pub open spec fn be_u64_value(b0: u8, b1: u8, b2: u8, b3: u8, b4: u8, b5: u8, b6: u8, b7: u8) -> u64 {
    ((b0 as u64) << 56u64) | ((b1 as u64) << 48u64) | ((b2 as u64) << 40u64) | ((b3 as u64)
        << 32u64) | ((b4 as u64) << 24u64) | ((b5 as u64) << 16u64) | ((b6 as u64) << 8u64) | (
    b7 as u64)
}

/// The value of an eight-byte big-endian sequence.
pub open spec fn be_u64_of(s: Seq<u8>) -> u64 {
    be_u64_value(s[0], s[1], s[2], s[3], s[4], s[5], s[6], s[7])
}

/// The two big-endian bytes of `n mod 2^16`.
pub open spec fn u16_be(n: nat) -> Seq<u8> {
    seq![((n / 256) % 256) as u8, (n % 256) as u8]
}

/// The four big-endian bytes of `n mod 2^32`.
pub open spec fn u32_be(n: nat) -> Seq<u8> {
    seq![
        ((n / 0x1000000) % 256) as u8,
        ((n / 0x10000) % 256) as u8,
        ((n / 256) % 256) as u8,
        (n % 256) as u8,
    ]
}

pub proof fn lemma_u64_be_roundtrip(x: u64)
    ensures
        be_u64_of(u64_be(x)) == x,
{
    assert(be_u64_value(
        ((x >> 56u64) & 0xffu64) as u8,
        ((x >> 48u64) & 0xffu64) as u8,
        ((x >> 40u64) & 0xffu64) as u8,
        ((x >> 32u64) & 0xffu64) as u8,
        ((x >> 24u64) & 0xffu64) as u8,
        ((x >> 16u64) & 0xffu64) as u8,
        ((x >> 8u64) & 0xffu64) as u8,
        (x & 0xffu64) as u8,
    ) == x) by (bit_vector);
}

pub proof fn lemma_be_u64_bytes_roundtrip(s: Seq<u8>)
    requires
        s.len() == 8,
    ensures
        u64_be(be_u64_of(s)) == s,
{
    let (b0, b1, b2, b3, b4, b5, b6, b7) = (s[0], s[1], s[2], s[3], s[4], s[5], s[6], s[7]);
    let x = be_u64_value(b0, b1, b2, b3, b4, b5, b6, b7);
    assert(((x >> 56u64) & 0xffu64) as u8 == b0 && ((x >> 48u64) & 0xffu64) as u8 == b1 && ((x
        >> 40u64) & 0xffu64) as u8 == b2 && ((x >> 32u64) & 0xffu64) as u8 == b3 && ((x >> 24u64)
        & 0xffu64) as u8 == b4 && ((x >> 16u64) & 0xffu64) as u8 == b5 && ((x >> 8u64) & 0xffu64)
        as u8 == b6 && (x & 0xffu64) as u8 == b7) by (bit_vector)
        requires
            x == be_u64_value(b0, b1, b2, b3, b4, b5, b6, b7),
    ;
    assert(u64_be(x) =~= s);
}

/// Append the bytes of `src` to `buf`.
pub fn append_bytes(buf: &mut Vec<u8>, src: &[u8])
    ensures
        final(buf)@ == old(buf)@ + src@,
{
    let ghost start = buf@;
    let mut i: usize = 0;
    while i < src.len()
        invariant
            i <= src@.len(),
            buf@ == start + src@.subrange(0, i as int),
        decreases src@.len() - i,
    {
        buf.push(src[i]);
        i = i + 1;
        assert(src@.subrange(0, i as int) =~= src@.subrange(0, (i - 1) as int).push(src@[i - 1]));
    }
    assert(src@.subrange(0, src@.len() as int) =~= src@);
}

/// A copy of `src`.
pub fn copy_bytes(src: &[u8]) -> (out: Vec<u8>)
    ensures
        out@ == src@,
{
    let mut out: Vec<u8> = Vec::new();
    append_bytes(&mut out, src);
    assert(out@ =~= src@);
    out
}

/// Append the eight big-endian bytes of `x`.
pub fn push_u64_be(buf: &mut Vec<u8>, x: u64)
    ensures
        final(buf)@ == old(buf)@ + u64_be(x),
{
    buf.push(((x >> 56u64) & 0xffu64) as u8);
    buf.push(((x >> 48u64) & 0xffu64) as u8);
    buf.push(((x >> 40u64) & 0xffu64) as u8);
    buf.push(((x >> 32u64) & 0xffu64) as u8);
    buf.push(((x >> 24u64) & 0xffu64) as u8);
    buf.push(((x >> 16u64) & 0xffu64) as u8);
    buf.push(((x >> 8u64) & 0xffu64) as u8);
    buf.push((x & 0xffu64) as u8);
    assert(buf@ =~= old(buf)@ + u64_be(x));
}

/// Append the two big-endian bytes of `n mod 2^16`.
pub fn push_u16_be(buf: &mut Vec<u8>, n: usize)
    ensures
        final(buf)@ == old(buf)@ + u16_be(n as nat),
{
    buf.push(((n / 256) % 256) as u8);
    buf.push((n % 256) as u8);
    assert(buf@ =~= old(buf)@ + u16_be(n as nat));
}

/// Append the four big-endian bytes of `n mod 2^32`.
pub fn push_u32_be(buf: &mut Vec<u8>, n: usize)
    ensures
        final(buf)@ == old(buf)@ + u32_be(n as nat),
{
    buf.push(((n / 0x1000000) % 256) as u8);
    buf.push(((n / 0x10000) % 256) as u8);
    buf.push(((n / 256) % 256) as u8);
    buf.push((n % 256) as u8);
    assert(buf@ =~= old(buf)@ + u32_be(n as nat));
}

/// The value of four big-endian bytes.
pub open spec fn be_u32_of(s: Seq<u8>) -> nat {
    (s[0] as nat) * 0x1000000 + (s[1] as nat) * 0x10000 + (s[2] as nat) * 256 + (s[3] as nat)
}

/// Reading back the four bytes written for `n` gives `n` when it fits in 32 bits.
pub proof fn lemma_u32_be_roundtrip(n: nat)
    requires
        n <= u32::MAX,
    ensures
        be_u32_of(u32_be(n)) == n,
{
    assert(be_u32_of(u32_be(n)) == n) by (nonlinear_arith)
        requires
            n <= 0xffff_ffff,
            be_u32_of(u32_be(n)) == ((n / 0x1000000) % 256) * 0x1000000 + ((n / 0x10000) % 256)
                * 0x10000 + ((n / 256) % 256) * 256 + n % 256,
    ;
}

/// Read four big-endian bytes at `off`.
pub fn read_u32_be(b: &[u8], off: usize) -> (x: usize)
    requires
        off + 4 <= b@.len(),
    ensures
        x == be_u32_of(b@.subrange(off as int, off + 4)),
{
    let x: u64 = (b[off] as u64) * 0x1000000 + (b[off + 1] as u64) * 0x10000 + (b[off + 2] as u64)
        * 256 + (b[off + 3] as u64);
    assert(x <= u32::MAX);
    x as usize
}

/// The eight big-endian bytes of `x`, as an array.
pub fn u64_to_be_array(x: u64) -> (a: [u8; 8])
    ensures
        a@ == u64_be(x),
        be_u64_of(a@) == x,
{
    let a = [
        ((x >> 56u64) & 0xffu64) as u8,
        ((x >> 48u64) & 0xffu64) as u8,
        ((x >> 40u64) & 0xffu64) as u8,
        ((x >> 32u64) & 0xffu64) as u8,
        ((x >> 24u64) & 0xffu64) as u8,
        ((x >> 16u64) & 0xffu64) as u8,
        ((x >> 8u64) & 0xffu64) as u8,
        (x & 0xffu64) as u8,
    ];
    assert(a@ =~= u64_be(x));
    proof {
        lemma_u64_be_roundtrip(x);
    }
    a
}

/// Read eight big-endian bytes at `off`.
pub fn read_u64_be(b: &[u8], off: usize) -> (x: u64)
    requires
        off + 8 <= b@.len(),
    ensures
        x == be_u64_of(b@.subrange(off as int, off + 8)),
{
    let x = ((b[off] as u64) << 56u64) | ((b[off + 1] as u64) << 48u64) | ((b[off + 2] as u64)
        << 40u64) | ((b[off + 3] as u64) << 32u64) | ((b[off + 4] as u64) << 24u64) | ((b[off
        + 5] as u64) << 16u64) | ((b[off + 6] as u64) << 8u64) | (b[off + 7] as u64);
    x
}

/// Copy eight bytes starting at `off` into an array.
pub fn read_array8(b: &[u8], off: usize) -> (a: [u8; 8])
    requires
        off + 8 <= b@.len(),
    ensures
        a@ == b@.subrange(off as int, off + 8),
{
    let a = [b[off], b[off + 1], b[off + 2], b[off + 3], b[off + 4], b[off + 5], b[off + 6], b[off
        + 7]];
    assert(a@ =~= b@.subrange(off as int, off + 8));
    a
}

/// Copy thirty-two bytes starting at `off` into an array.
pub fn read_array32(b: &[u8], off: usize) -> (a: [u8; 32])
    requires
        off + 32 <= b@.len(),
    ensures
        a@ == b@.subrange(off as int, off + 32),
{
    let mut a = [0u8; 32];
    let mut i: usize = 0;
    let len = b.len();
    while i < 32
        invariant
            i <= 32,
            len == b@.len(),
            off + 32 <= b@.len(),
            a@.len() == 32,
            forall|j: int| 0 <= j < i ==> a@[j] == b@[off + j],
        decreases 32 - i,
    {
        a[i] = b[off + i];
        i = i + 1;
    }
    assert(a@ =~= b@.subrange(off as int, off + 32));
    a
}

/// Copy sixty-four bytes starting at `off` into an array.
pub fn read_array64(b: &[u8], off: usize) -> (a: [u8; 64])
    requires
        off + 64 <= b@.len(),
    ensures
        a@ == b@.subrange(off as int, off + 64),
{
    let mut a = [0u8; 64];
    let mut i: usize = 0;
    let len = b.len();
    while i < 64
        invariant
            i <= 64,
            len == b@.len(),
            off + 64 <= b@.len(),
            a@.len() == 64,
            forall|j: int| 0 <= j < i ==> a@[j] == b@[off + j],
        decreases 64 - i,
    {
        a[i] = b[off + i];
        i = i + 1;
    }
    assert(a@ =~= b@.subrange(off as int, off + 64));
    a
}

/// Byte-wise equality of two slices.
pub fn bytes_eq(a: &[u8], b: &[u8]) -> (r: bool)
    ensures
        r == (a@ == b@),
{
    if a.len() != b.len() {
        return false;
    }
    let mut i: usize = 0;
    while i < a.len()
        invariant
            a@.len() == b@.len(),
            i <= a@.len(),
            forall|j: int| 0 <= j < i ==> a@[j] == b@[j],
        decreases a@.len() - i,
    {
        if a[i] != b[i] {
            return false;
        }
        i = i + 1;
    }
    assert(a@ =~= b@);
    true
}

/// The first bytes of `v` in an 8-byte array, zero-padded when `v` is shorter.
pub fn to_arr8(v: Vec<u8>) -> (a: [u8; 8])
    ensures
        forall|i: int| 0 <= i < 8 ==> #[trigger] a@[i] == (if i < v@.len() { v@[i] } else { 0u8 }),
{
    let mut a = [0u8; 8];
    let n = if v.len() < 8 { v.len() } else { 8 };
    let mut i: usize = 0;
    while i < n
        invariant
            i <= n,
            n <= 8,
            n <= v@.len(),
            n == 8 || n == v@.len(),
            forall|j: int| 0 <= j < i ==> #[trigger] a@[j] == v@[j],
            forall|j: int| i <= j < 8 ==> #[trigger] a@[j] == 0u8,
        decreases n - i,
    {
        a.set(i, v[i]);
        i = i + 1;
    }
    a
}

/// The first bytes of `v` in a 32-byte array, zero-padded when `v` is shorter.
pub fn to_arr32(v: Vec<u8>) -> (a: [u8; 32])
    ensures
        forall|i: int| 0 <= i < 32 ==> #[trigger] a@[i] == (if i < v@.len() { v@[i] } else { 0u8 }),
{
    let mut a = [0u8; 32];
    let n = if v.len() < 32 { v.len() } else { 32 };
    let mut i: usize = 0;
    while i < n
        invariant
            i <= n,
            n <= 32,
            n <= v@.len(),
            n == 32 || n == v@.len(),
            forall|j: int| 0 <= j < i ==> #[trigger] a@[j] == v@[j],
            forall|j: int| i <= j < 32 ==> #[trigger] a@[j] == 0u8,
        decreases n - i,
    {
        a.set(i, v[i]);
        i = i + 1;
    }
    a
}

} // verus!
