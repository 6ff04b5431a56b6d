//! XOR-based forward error correction.
//!
//! For every N data packets (a "block"), one parity packet carries the XOR of all N
//! payloads. If exactly one packet of the block is lost, the receiver reconstructs it
//! from the parity and the N-1 survivors.

use crate::buffer;
use crate::protocol::gf;
use vstd::prelude::*;

verus! {

/// Default: 1 parity packet per 8 data packets.
pub const FEC_BLOCK_SIZE: usize = 8;

/// FEC operating mode.
#[derive(Debug, Clone, Copy, PartialEq, Eq, Structural)]
pub enum FecMode {
    /// XOR-based single-loss recovery.
    Xor,
    /// Random linear network coding over GF(2^8): handles arbitrary loss patterns.
    Rlnc,
}

impl Default for FecMode {
    fn default() -> (m: Self)
        ensures
            m == FecMode::Xor,
    {
        FecMode::Xor
    }
}

/// The XOR of byte `i` of all payloads; a payload that ends before counts as zero.
pub open spec fn xor_at(payloads: Seq<Seq<u8>>, i: int) -> u8
    decreases payloads.len(),
{
    if payloads.len() == 0 {
        0
    } else {
        xor_at(payloads.drop_last(), i) ^ buffer::byte_at(payloads.last(), i)
    }
}

/// The length of the longest payload.
pub open spec fn longest(payloads: Seq<Seq<u8>>) -> nat
    decreases payloads.len(),
{
    if payloads.len() == 0 {
        0
    } else if payloads.last().len() > longest(payloads.drop_last()) {
        payloads.last().len()
    } else {
        longest(payloads.drop_last())
    }
}

/// The parity of a block: the XOR of its payloads, as long as the longest.
pub open spec fn parity_of(payloads: Seq<Seq<u8>>) -> Seq<u8> {
    Seq::new(longest(payloads), |i: int| xor_at(payloads, i))
}

/// What the parity and the survivors of a block leave over.
pub open spec fn remainder(received: Seq<Seq<u8>>, parity: Seq<u8>) -> Seq<u8> {
    Seq::new(parity.len(), |i: int| parity[i] ^ xor_at(received, i))
}

/// The contents of a list of slices.
pub open spec fn contents(list: Seq<&[u8]>) -> Seq<Seq<u8>> {
    list.map_values(|s: &[u8]| s@)
}

/// Encodes data packets into XOR parity blocks.
pub struct FecEncoder {
    block_size: usize,
    parity: Vec<u8>,
    max_len: usize,
    count: usize,
    /// The payloads of the block under way.
    pending: Ghost<Seq<Seq<u8>>>,
}

impl View for FecEncoder {
    type V = Seq<Seq<u8>>;

    closed spec fn view(&self) -> Seq<Seq<u8>> {
        self.pending@
    }
}

impl FecEncoder {
    /// The number of payloads in a block.
    pub closed spec fn block(&self) -> nat {
        self.block_size as nat
    }

    /// The running parity is that of the payloads of the block, of which fewer than a
    /// full block are pending.
    pub closed spec fn wf(&self) -> bool {
        &&& self.parity@ == parity_of(self@)
        &&& self.max_len == longest(self@)
        &&& self.count == self@.len()
        &&& self.count == 0 || self.count < self.block_size
    }

    pub fn new(block_size: usize) -> (e: Self)
        ensures
            e.wf(),
            e.block() == block_size,
            e@.len() == 0,
    {
        let e = FecEncoder {
            block_size,
            parity: Vec::new(),
            max_len: 0,
            count: 0,
            pending: Ghost(Seq::empty()),
        };
        proof {
            assert(e.parity@ =~= parity_of(e@));
        }
        e
    }

    /// Feeds a data payload. Returns the parity when a full block completes.
    pub fn add_payload(&mut self, payload: &[u8]) -> (r: Option<Vec<u8>>)
        requires
            old(self).wf(),
        ensures
            final(self).wf(),
            final(self).block() == old(self).block(),
            old(self)@.len() + 1 >= old(self).block() ==> {
                &&& r is Some
                &&& r->0@ == parity_of(old(self)@.push(payload@))
                &&& final(self)@.len() == 0
            },
            old(self)@.len() + 1 < old(self).block() ==> {
                &&& r is None
                &&& final(self)@ == old(self)@.push(payload@)
            },
    {
        let ghost before = self@;
        let ghost all = before.push(payload@);
        proof {
            assert(all.drop_last() =~= before);
            lemma_beyond_longest(before);
        }
        if payload.len() > self.max_len {
            self.max_len = payload.len();
            buffer::pad_to(&mut self.parity, self.max_len);
        }
        proof {
            assert forall|j: int| 0 <= j < self.parity@.len() implies self.parity@[j] == xor_at(
                before,
                j,
            ) by {
                if j < longest(before) {
                    assert(parity_of(before)[j] == xor_at(before, j));
                }
            }
        }
        let mut i: usize = 0;
        while i < payload.len()
            invariant
                i <= payload@.len() <= self.parity@.len(),
                self.parity@.len() == longest(all),
                self.max_len == longest(all),
                all == before.push(payload@),
                all.drop_last() == before,
                self.count == before.len(),
                self.count == 0 || self.count < self.block_size,
                self.block_size == old(self).block_size,
                forall|j: int| 0 <= j < i ==> self.parity@[j] == xor_at(all, j),
                forall|j: int| i <= j < self.parity@.len() ==> self.parity@[j] == xor_at(before, j),
            decreases payload@.len() - i,
        {
            assert(xor_at(all, i as int) == xor_at(before, i as int) ^ payload@[i as int]);
            let b: u8 = self.parity[i] ^ payload[i];
            self.parity.set(i, b);
            i = i + 1;
        }
        proof {
            assert forall|j: int| 0 <= j < self.parity@.len() implies self.parity@[j] == xor_at(
                all,
                j,
            ) by {
                gf::lemma_xor_group(xor_at(before, j), 0, 0);
            }
            assert(self.parity@ =~= parity_of(all));
        }
        self.count = self.count + 1;
        self.pending = Ghost(all);
        if self.count >= self.block_size {
            let p: Vec<u8> = buffer::copy_bytes(self.parity.as_slice());
            self.reset();
            Some(p)
        } else {
            None
        }
    }

    /// Flushes a partial block (end of file).
    pub fn flush(&mut self) -> (r: Option<Vec<u8>>)
        requires
            old(self).wf(),
        ensures
            final(self).wf(),
            final(self).block() == old(self).block(),
            final(self)@.len() == 0,
            r is Some <==> old(self)@.len() > 0,
            r matches Some(p) ==> p@ == parity_of(old(self)@),
    {
        if self.count > 0 {
            let p: Vec<u8> = buffer::copy_bytes(self.parity.as_slice());
            self.reset();
            Some(p)
        } else {
            None
        }
    }

    /// Whether the next payload completes a block.
    pub fn completes_next(&self) -> (b: bool)
        requires
            self.wf(),
        ensures
            b == (self@.len() + 1 >= self.block()),
    {
        self.block_size == 0 || self.count >= self.block_size - 1
    }

    /// Whether a block is under way.
    pub fn is_pending(&self) -> (b: bool)
        requires
            self.wf(),
        ensures
            b == (self@.len() > 0),
    {
        self.count > 0
    }

    /// Starts a new block.
    fn reset(&mut self)
        ensures
            final(self).wf(),
            final(self).block() == old(self).block(),
            final(self)@.len() == 0,
    {
        self.parity.clear();
        self.max_len = 0;
        self.count = 0;
        self.pending = Ghost(Seq::empty());
        proof {
            assert(self.parity@ =~= parity_of(self@));
        }
    }
}

/// Recovers a single missing packet from XOR parity.
pub struct FecDecoder {
    block_size: usize,
}

impl FecDecoder {
    /// The number of payloads in a block.
    pub closed spec fn block(&self) -> nat {
        self.block_size as nat
    }

    pub fn new(block_size: usize) -> (d: Self)
        ensures
            d.block() == block_size,
    {
        FecDecoder { block_size }
    }

    /// Recovers the missing packet from the other payloads of the block and the parity.
    /// Returns `None` if the wrong number of payloads is provided.
    pub fn recover(&self, received: &[&[u8]], parity: &[u8]) -> (r: Option<Vec<u8>>)
        requires
            self.block() > 0,
        ensures
            r is Some <==> received@.len() + 1 == self.block(),
            r matches Some(out) ==> out@ == remainder(contents(received@), parity@),
    {
        if received.len() != self.block_size - 1 {
            return None;
        }
        let ghost list = contents(received@);
        let mut out: Vec<u8> = buffer::copy_bytes(parity);
        proof {
            assert forall|j: int| 0 <= j < parity@.len() implies out@[j] == parity@[j] ^ xor_at(
                list.take(0),
                j,
            ) by {
                gf::lemma_xor_group(parity@[j], 0, 0);
            }
        }
        let mut n: usize = 0;
        while n < received.len()
            invariant
                n <= received@.len(),
                list == contents(received@),
                out@.len() == parity@.len(),
                forall|j: int|
                    0 <= j < parity@.len() ==> out@[j] == parity@[j] ^ xor_at(
                        list.take(n as int),
                        j,
                    ),
            decreases received@.len() - n,
        {
            let payload: &[u8] = received[n];
            let ghost before = out@;
            assert(list.take(n + 1).drop_last() =~= list.take(n as int));
            assert(list.take(n + 1).last() == payload@);
            let mut i: usize = 0;
            while i < payload.len() && i < out.len()
                invariant
                    i <= payload@.len(),
                    i <= out@.len() == before.len(),
                    forall|j: int| 0 <= j < i ==> out@[j] == before[j] ^ payload@[j],
                    forall|j: int| i <= j < before.len() ==> out@[j] == before[j],
                decreases payload@.len() - i,
            {
                let b: u8 = out[i] ^ payload[i];
                out.set(i, b);
                i = i + 1;
            }
            proof {
                assert forall|j: int| 0 <= j < parity@.len() implies out@[j] == parity@[j]
                    ^ xor_at(list.take(n + 1), j) by {
                    let x = xor_at(list.take(n as int), j);
                    gf::lemma_xor_group(parity@[j], x, buffer::byte_at(payload@, j));
                    gf::lemma_xor_group(before[j], 0, 0);
                }
            }
            n = n + 1;
        }
        proof {
            assert(list.take(n as int) =~= list);
            assert(out@ =~= remainder(list, parity@));
        }
        Some(out)
    }
}

// ---------------------------------------------------------------------------
// Laws
// ---------------------------------------------------------------------------

/// Beyond the longest payload the XOR is zero.
pub proof fn lemma_beyond_longest(payloads: Seq<Seq<u8>>)
    ensures
        forall|i: int| i >= longest(payloads) ==> #[trigger] xor_at(payloads, i) == 0,
        forall|n: int| 0 <= n < payloads.len() ==> (#[trigger] payloads[n]).len() <= longest(payloads),
    decreases payloads.len(),
{
    if payloads.len() > 0 {
        let rest = payloads.drop_last();
        lemma_beyond_longest(rest);
        assert forall|i: int| i >= longest(payloads) implies #[trigger] xor_at(payloads, i) == 0 by {
            assert(xor_at(rest, i) == 0);
            gf::lemma_xor_group(0, 0, 0);
        }
        assert forall|n: int| 0 <= n < payloads.len() implies (#[trigger] payloads[n]).len()
            <= longest(payloads) by {
            if n < payloads.len() - 1 {
                assert(payloads[n] == payloads.drop_last()[n]);
            }
        }
    }
}

/// The XOR of a block is that of the survivors and the lost payload.
proof fn lemma_xor_without(payloads: Seq<Seq<u8>>, lost: int, i: int)
    requires
        0 <= lost < payloads.len(),
    ensures
        xor_at(payloads, i) == xor_at(payloads.remove(lost), i) ^ buffer::byte_at(
            payloads[lost],
            i,
        ),
    decreases payloads.len(),
{
    let rest = payloads.drop_last();
    if lost == payloads.len() - 1 {
        assert(payloads.remove(lost) =~= rest);
    } else {
        lemma_xor_without(rest, lost, i);
        let others = payloads.remove(lost);
        assert(others.drop_last() =~= rest.remove(lost));
        assert(others.last() == payloads.last());
        let x = xor_at(rest.remove(lost), i);
        let l = buffer::byte_at(payloads[lost], i);
        let z = buffer::byte_at(payloads.last(), i);
        assert((x ^ l) ^ z == (x ^ z) ^ l) by (bit_vector);
    }
}

/// Single-loss recovery: whichever payload of a block is lost, the parity and the
/// survivors give it back, filled up with zeros to the length of the longest.
pub proof fn lemma_single_loss_recovered(payloads: Seq<Seq<u8>>, lost: int)
    requires
        0 <= lost < payloads.len(),
    ensures
        remainder(payloads.remove(lost), parity_of(payloads)) == buffer::padded(
            payloads[lost],
            longest(payloads),
        ),
{
    let survivors = payloads.remove(lost);
    let out = remainder(survivors, parity_of(payloads));
    let want = buffer::padded(payloads[lost], longest(payloads));
    assert forall|i: int| 0 <= i < out.len() implies out[i] == want[i] by {
        lemma_xor_without(payloads, lost, i);
        let x = xor_at(survivors, i);
        let l = buffer::byte_at(payloads[lost], i);
        assert((x ^ l) ^ x == l) by (bit_vector);
    }
    assert(out =~= want);
}

/// Parity is plain XOR: of no payload it is nothing, of one payload that payload itself, and
/// of two lists of payloads it is, byte for byte, the XOR of what each of them gives.
pub proof fn lemma_parity_adds_up(a: Seq<Seq<u8>>, b: Seq<Seq<u8>>, p: Seq<u8>, i: int)
    ensures
        parity_of(Seq::empty()).len() == 0,
        parity_of(seq![p]) == p,
        xor_at(a + b, i) == xor_at(a, i) ^ xor_at(b, i),
        longest(a + b) == (if longest(a) < longest(b) {
            longest(b)
        } else {
            longest(a)
        }),
        0 <= i < longest(a + b) ==> parity_of(a + b)[i] == xor_at(a, i) ^ xor_at(b, i),
    decreases b.len(),
{
    let one = seq![p];
    assert(one.drop_last() =~= Seq::<Seq<u8>>::empty());
    assert forall|j: int| xor_at(one, j) == #[trigger] buffer::byte_at(p, j) by {
        gf::lemma_xor_group(buffer::byte_at(p, j), 0, 0);
        assert(xor_at(one.drop_last(), j) == 0);
        assert(one.last() == p);
    }
    assert(longest(one.drop_last()) == 0);
    assert(longest(one) == p.len());
    assert forall|j: int| 0 <= j < p.len() implies parity_of(one)[j] == p[j] by {
        assert(buffer::byte_at(p, j) == p[j]);
    }
    assert(parity_of(one) =~= p);
    if b.len() == 0 {
        assert(a + b =~= a);
        gf::lemma_xor_group(xor_at(a, i), 0, 0);
    } else {
        lemma_parity_adds_up(a, b.drop_last(), p, i);
        assert((a + b).drop_last() =~= a + b.drop_last());
        assert((a + b).last() == b.last());
        gf::lemma_xor_group(
            xor_at(a, i),
            xor_at(b.drop_last(), i),
            buffer::byte_at(b.last(), i),
        );
    }
}

/// The parity of a block is as long as one of its payloads, and none is longer.
pub proof fn lemma_parity_length(payloads: Seq<Seq<u8>>) -> (n: int)
    requires
        payloads.len() > 0,
    ensures
        0 <= n < payloads.len(),
        parity_of(payloads).len() == payloads[n].len(),
        forall|i: int|
            0 <= i < payloads.len() ==> (#[trigger] payloads[i]).len() <= parity_of(payloads).len(),
    decreases payloads.len(),
{
    lemma_beyond_longest(payloads);
    let rest = payloads.drop_last();
    assert(rest.len() == 0 ==> longest(rest) == 0);
    if rest.len() == 0 || payloads.last().len() > longest(rest) {
        payloads.len() - 1
    } else {
        let n = lemma_parity_length(rest);
        assert(rest[n] == payloads[n]);
        n
    }
}

} // verus!
