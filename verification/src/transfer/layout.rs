//! Where parity packets lie among the sequence numbers: after each block of data
//! packets, one number goes to the parity of the block.

use vstd::prelude::*;

verus! {

/// Position of blocks and parity packets.
#[derive(Clone, Copy, Debug, PartialEq, Eq, Structural)]
pub struct FecLayout {
    /// Parity packets are in use.
    pub fec_enabled: bool,
    /// Data packets per parity packet.
    pub fec_block_size: usize,
}

impl FecLayout {
    /// The block size in the arithmetic of sequence numbers, which has 32 bits.
    pub open spec fn block(self) -> u32 {
        (self.fec_block_size as int % 0x1_0000_0000) as u32
    }

    /// The numbers that a block and its parity take up.
    pub open spec fn stride(self) -> int {
        self.block() + 1
    }

    /// `seq` is the last number of its block and parity.
    pub open spec fn is_parity(self, seq: u32) -> bool {
        &&& self.fec_enabled
        &&& self.block() > 0
        &&& (if seq == 0 {
            0int
        } else {
            seq - 1
        }) % self.stride() == self.block()
    }

    /// The first number of the block that `seq` belongs to.
    pub open spec fn start(self, seq: u32) -> int {
        if self.block() == 0 {
            seq as int
        } else {
            (seq - 1) / self.stride() * self.stride() + 1
        }
    }

    /// The numbers of the block of `seq`, with its parity, stay within 32 bits.
    pub open spec fn in_range(self, seq: u32) -> bool {
        &&& seq >= 1
        &&& self.block() < u32::MAX
        &&& self.start(seq) + self.block() <= u32::MAX
    }

    fn block_u32(&self) -> (bs: u32)
        ensures
            bs == self.block(),
    {
        (self.fec_block_size as u64 % 0x1_0000_0000) as u32
    }

    /// Whether `seq` is the place of a parity packet.
    pub fn is_fec_seq(&self, seq: u32) -> (b: bool)
        requires
            self.block() < u32::MAX,
        ensures
            b == self.is_parity(seq),
    {
        let bs: u32 = self.block_u32();
        if !self.fec_enabled || bs == 0 {
            return false;
        }
        let before: u32 = if seq == 0 {
            0
        } else {
            seq - 1
        };
        before % (bs + 1) == bs
    }

    /// The starting sequence number of the block that contains `seq`.
    pub fn fec_block_start(&self, seq: u32) -> (start: u32)
        requires
            self.block() > 0 ==> seq >= 1 && self.block() < u32::MAX,
        ensures
            start == self.start(seq),
    {
        let bs: u32 = self.block_u32();
        if bs == 0 {
            return seq;
        }
        let stride: u32 = bs + 1;
        let k: u32 = (seq - 1) / stride;
        proof {
            lemma_blocks(*self, seq);
            assert(k as int == (seq - 1) / self.stride());
        }
        k * stride + 1
    }

    /// Whether the block of `seq` stays within 32 bits.
    pub fn block_in_range(&self, seq: u32) -> (b: bool)
        ensures
            b == self.in_range(seq),
    {
        let bs: u32 = self.block_u32();
        if seq == 0 || bs == u32::MAX {
            return false;
        }
        let start: u32 = self.fec_block_start(seq);
        start as u64 + bs as u64 <= u32::MAX as u64
    }
}

// ---------------------------------------------------------------------------
// Laws
// ---------------------------------------------------------------------------

/// A number lies in its block or is its parity; numbers of one block have one start.
pub proof fn lemma_blocks(layout: FecLayout, seq: u32)
    requires
        seq >= 1,
    ensures
        1 <= layout.start(seq) <= seq <= layout.start(seq) + layout.block(),
{
    if layout.block() > 0 {
        let n = (seq - 1) as int;
        let d = layout.stride();
        vstd::arithmetic::div_mod::lemma_fundamental_div_mod(n, d);
        vstd::arithmetic::div_mod::lemma_mod_bound(n, d);
        vstd::arithmetic::div_mod::lemma_div_pos_is_pos(n, d);
        vstd::arithmetic::mul::lemma_mul_is_commutative(n / d, d);
        vstd::arithmetic::mul::lemma_mul_nonnegative(n / d, d);
    }
}

/// All numbers of a block, with its parity, belong to the block.
pub proof fn lemma_same_block(layout: FecLayout, seq: u32, other: u32)
    requires
        layout.block() > 0,
        seq >= 1,
        layout.start(seq) <= other <= layout.start(seq) + layout.block(),
    ensures
        layout.start(other) == layout.start(seq),
{
    let d = layout.stride();
    let k = (seq - 1) / d;
    lemma_blocks(layout, seq);
    let r = other - layout.start(seq);
    assert(other - 1 == d * k + r) by {
        vstd::arithmetic::mul::lemma_mul_is_commutative(k, d);
    }
    vstd::arithmetic::div_mod::lemma_fundamental_div_mod_converse(other - 1, d, k, r);
}

/// The parity comes right after the data of its block, and nothing else is taken for
/// parity.
pub proof fn lemma_parity_ends_block(layout: FecLayout, seq: u32)
    requires
        layout.fec_enabled,
        layout.block() > 0,
        seq >= 1,
    ensures
        layout.is_parity(seq) <==> seq == layout.start(seq) + layout.block(),
{
    let n = (seq - 1) as int;
    let d = layout.stride();
    vstd::arithmetic::div_mod::lemma_fundamental_div_mod(n, d);
    vstd::arithmetic::mul::lemma_mul_is_commutative(n / d, d);
}

/// Where blocks begin and where parity lies, for blocks of any size: block `j` of `b` data
/// packets begins at number `j * (b + 1) + 1`, and of its numbers just the one behind the
/// `b` data packets is that of its parity. Without redundancy no number is.
pub proof fn lemma_positions(layout: FecLayout, b: nat, j: nat, x: nat)
    requires
        layout.fec_block_size == b,
        1 <= b < 0xffff_ffff,
        x <= b,
        j * (b + 1) + 1 + x <= u32::MAX,
    ensures
        layout.start((j * (b + 1) + 1 + x) as u32) == j * (b + 1) + 1,
        layout.is_parity((j * (b + 1) + 1 + x) as u32) <==> layout.fec_enabled && x == b,
        !layout.is_parity(0),
        layout.in_range((j * (b + 1) + 1 + x) as u32) <==> j * (b + 1) + 1 + b <= 0xffff_ffff,
{
    let n = (j * (b + 1) + x) as int;
    let d = layout.stride();
    assert(d == b + 1);
    vstd::arithmetic::div_mod::lemma_fundamental_div_mod_converse(n, d, j as int, x as int);
    assert(((j * (b + 1) + 1 + x) as u32) - 1 == n);
}

/// With blocks of no packets every number is a block of its own, and there is no parity.
pub proof fn lemma_no_blocks(layout: FecLayout, seq: u32)
    requires
        layout.fec_block_size == 0,
        seq >= 1,
    ensures
        layout.start(seq) == seq,
        !layout.is_parity(seq),
        layout.in_range(seq),
{
}

} // verus!
