//! Byte buffers: copies and zero padding.

use vstd::prelude::*;

verus! {

/// Byte `i` of `v`, and zero beyond its end.
pub open spec fn byte_at(v: Seq<u8>, i: int) -> u8 {
    if 0 <= i < v.len() {
        v[i]
    } else {
        0
    }
}

/// `v` brought to length `n`: cut off, or filled up with zeros.
pub open spec fn padded(v: Seq<u8>, n: nat) -> Seq<u8> {
    Seq::new(n, |i: int| byte_at(v, i))
}

/// The rows of a vector of byte vectors.
pub open spec fn rows(v: Seq<Vec<u8>>) -> Seq<Seq<u8>> {
    v.map_values(|r: Vec<u8>| r@)
}

/// A copy of `src`.
pub fn copy_bytes(src: &[u8]) -> (out: Vec<u8>)
    ensures
        out@ == src@,
{
    let mut out: Vec<u8> = Vec::new();
    out.extend_from_slice(src);
    proof {
        assert(out@ =~= src@);
    }
    out
}

/// Brings `v` to length `n`.
pub fn pad_to(v: &mut Vec<u8>, n: usize)
    ensures
        final(v)@ == padded(old(v)@, n as nat),
        final(v)@.len() == n,
        forall|i: int|
            0 <= i < n ==> #[trigger] final(v)@[i] == (if i < old(v)@.len() {
                old(v)@[i]
            } else {
                0
            }),
{
    let ghost before = v@;
    v.resize(n, 0);
    proof {
        assert(v@ =~= padded(before, n as nat));
    }
}

// ---------------------------------------------------------------------------
// Big-endian integers
// ---------------------------------------------------------------------------

/// The two bytes of `n`, the high one first.
pub open spec fn be16(n: u16) -> Seq<u8> {
    seq![(n / 0x100) as u8, (n % 0x100) as u8]
}

/// The four bytes of `n`, the highest first.
pub open spec fn be32(n: u32) -> Seq<u8> {
    seq![
        (n / 0x100_0000) as u8,
        ((n / 0x1_0000) % 0x100) as u8,
        ((n / 0x100) % 0x100) as u8,
        (n % 0x100) as u8,
    ]
}

/// The eight bytes of `n`, the highest first.
pub open spec fn be64(n: u64) -> Seq<u8> {
    be32((n / 0x1_0000_0000) as u32) + be32((n % 0x1_0000_0000) as u32)
}

/// The number whose bytes are `b[at]` and `b[at + 1]`.
pub open spec fn be16_at(b: Seq<u8>, at: int) -> u16 {
    (b[at] * 0x100 + b[at + 1]) as u16
}

/// The number whose four bytes start at `b[at]`.
pub open spec fn be32_at(b: Seq<u8>, at: int) -> u32 {
    (b[at] * 0x100_0000 + b[at + 1] * 0x1_0000 + b[at + 2] * 0x100 + b[at + 3]) as u32
}

/// The number whose eight bytes start at `b[at]`.
pub open spec fn be64_at(b: Seq<u8>, at: int) -> u64 {
    (be32_at(b, at) * 0x1_0000_0000 + be32_at(b, at + 4)) as u64
}

/// Reading two bytes back.
pub proof fn lemma_be16(n: u16, b: Seq<u8>, at: int)
    requires
        0 <= at,
        at + 2 <= b.len(),
        b.subrange(at, at + 2) == be16(n),
    ensures
        be16_at(b, at) == n,
{
    let s = b.subrange(at, at + 2);
    assert(s[0] == b[at] && s[1] == b[at + 1]);
}

/// Reading four bytes back.
pub proof fn lemma_be32(n: u32, b: Seq<u8>, at: int)
    requires
        0 <= at,
        at + 4 <= b.len(),
        b.subrange(at, at + 4) == be32(n),
    ensures
        be32_at(b, at) == n,
{
    let s = b.subrange(at, at + 4);
    assert(s[0] == b[at] && s[1] == b[at + 1] && s[2] == b[at + 2] && s[3] == b[at + 3]);
}

/// Reading eight bytes back.
pub proof fn lemma_be64(n: u64, b: Seq<u8>, at: int)
    requires
        0 <= at,
        at + 8 <= b.len(),
        b.subrange(at, at + 8) == be64(n),
    ensures
        be64_at(b, at) == n,
{
    let hi = (n / 0x1_0000_0000) as u32;
    let lo = (n % 0x1_0000_0000) as u32;
    let s = b.subrange(at, at + 8);
    assert(b.subrange(at, at + 4) =~= be32(hi)) by {
        assert(s.subrange(0, 4) =~= be32(hi));
        assert(s.subrange(0, 4) =~= b.subrange(at, at + 4));
    }
    assert(b.subrange(at + 4, at + 8) =~= be32(lo)) by {
        assert(s.subrange(4, 8) =~= be32(lo));
        assert(s.subrange(4, 8) =~= b.subrange(at + 4, at + 8));
    }
    lemma_be32(hi, b, at);
    lemma_be32(lo, b, at + 4);
}

/// The bytes of the number that was read are those that it was read from.
pub proof fn lemma_be16_back(b: Seq<u8>, at: int)
    requires
        0 <= at,
        at + 2 <= b.len(),
    ensures
        be16(be16_at(b, at)) == b.subrange(at, at + 2),
{
    assert(be16(be16_at(b, at)) =~= b.subrange(at, at + 2));
}

/// The bytes of the number that was read are those that it was read from.
pub proof fn lemma_be32_back(b: Seq<u8>, at: int)
    requires
        0 <= at,
        at + 4 <= b.len(),
    ensures
        be32(be32_at(b, at)) == b.subrange(at, at + 4),
{
    let n = be32_at(b, at);
    let s = b.subrange(at, at + 4);
    assert(n == b[at] * 0x100_0000 + b[at + 1] * 0x1_0000 + b[at + 2] * 0x100 + b[at + 3]);
    assert(n / 0x100_0000 == b[at]);
    assert(n / 0x1_0000 == b[at] * 0x100 + b[at + 1]);
    assert(n / 0x100 == b[at] * 0x1_0000 + b[at + 1] * 0x100 + b[at + 2]);
    assert(be32(n) =~= s);
}

/// Appends the two bytes of `n`.
pub fn push_be16(out: &mut Vec<u8>, n: u16)
    ensures
        final(out)@ == old(out)@ + be16(n),
{
    let ghost before = out@;
    out.push((n / 0x100) as u8);
    out.push((n % 0x100) as u8);
    proof {
        assert(out@ =~= before + be16(n));
    }
}

/// Appends the four bytes of `n`.
pub fn push_be32(out: &mut Vec<u8>, n: u32)
    ensures
        final(out)@ == old(out)@ + be32(n),
{
    let ghost before = out@;
    out.push((n / 0x100_0000) as u8);
    out.push(((n / 0x1_0000) % 0x100) as u8);
    out.push(((n / 0x100) % 0x100) as u8);
    out.push((n % 0x100) as u8);
    proof {
        assert(out@ =~= before + be32(n));
    }
}

/// Appends the eight bytes of `n`.
pub fn push_be64(out: &mut Vec<u8>, n: u64)
    ensures
        final(out)@ == old(out)@ + be64(n),
{
    let ghost before = out@;
    push_be32(out, (n / 0x1_0000_0000) as u32);
    push_be32(out, (n % 0x1_0000_0000) as u32);
    proof {
        assert(out@ =~= before + be64(n));
    }
}

/// Reads two bytes.
pub fn read_be16(b: &[u8], at: usize) -> (n: u16)
    requires
        at + 2 <= b@.len(),
    ensures
        n == be16_at(b@, at as int),
{
    b[at] as u16 * 0x100 + b[at + 1] as u16
}

/// Reads four bytes.
pub fn read_be32(b: &[u8], at: usize) -> (n: u32)
    requires
        at + 4 <= b@.len(),
    ensures
        n == be32_at(b@, at as int),
{
    b[at] as u32 * 0x100_0000 + b[at + 1] as u32 * 0x1_0000 + b[at + 2] as u32 * 0x100 + b[at
        + 3] as u32
}

/// Reads eight bytes.
pub fn read_be64(b: &[u8], at: usize) -> (n: u64)
    requires
        at + 8 <= b@.len(),
    ensures
        n == be64_at(b@, at as int),
{
    assert(at + 8 <= b.len());
    let hi: u32 = read_be32(b, at);
    let lo: u32 = read_be32(b, at + 4);
    hi as u64 * 0x1_0000_0000 + lo as u64
}

/// The bytes of a number of 64 bits stand with the highest first.
pub proof fn lemma_be64_places(n: u64)
    ensures
        be64(n).len() == 8,
        be64(n)[0] * 0x100_0000_0000_0000 + be64(n)[1] * 0x1_0000_0000_0000 + be64(n)[2]
            * 0x100_0000_0000 + be64(n)[3] * 0x1_0000_0000 + be64(n)[4] * 0x100_0000 + be64(n)[5]
            * 0x1_0000 + be64(n)[6] * 0x100 + be64(n)[7] == n,
{
    let hi = (n / 0x1_0000_0000) as u32;
    let lo = (n % 0x1_0000_0000) as u32;
    let b = be64(n);
    assert(b[0] * 0x100_0000 + b[1] * 0x1_0000 + b[2] * 0x100 + b[3] == hi);
    assert(b[4] * 0x100_0000 + b[5] * 0x1_0000 + b[6] * 0x100 + b[7] == lo);
}

} // verus!
