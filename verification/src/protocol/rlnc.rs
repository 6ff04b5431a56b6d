//! Random linear network coding over GF(2^8).
//!
//! Erasure coding that handles arbitrary loss patterns: a coded packet is a linear
//! combination of the source packets, with the coefficients sent along. The decoder
//! solves for the source packets by Gauss-Jordan elimination.

use crate::buffer;
use crate::protocol::gf;
use crate::protocol::linear;
use rand::RngCore;
use vstd::prelude::*;

verus! {

/// Default generation size (source packets per coding block).
pub const RLNC_GENERATION_SIZE: usize = 16;

/// Default redundancy: `k * RLNC_REDUNDANCY_NUM / RLNC_REDUNDANCY_DEN` coded packets
/// for `k` source packets.
pub const RLNC_REDUNDANCY_NUM: usize = 1;

pub const RLNC_REDUNDANCY_DEN: usize = 2;

/// The packet that `coeffs` make of the source packets: byte `j` is the sum of
/// `coeffs[i] * source[i][j]`. Coefficients beyond the last source packet count for
/// nothing.
pub open spec fn coded(source: Seq<Seq<u8>>, size: nat, coeffs: Seq<u8>) -> Seq<u8> {
    let n: nat = if coeffs.len() < source.len() {
        coeffs.len()
    } else {
        source.len()
    };
    Seq::new(size, |j: int| linear::dot(coeffs, linear::column(source, j), n))
}

/// Some coefficient is not zero.
pub open spec fn some_nonzero(coeffs: Seq<u8>) -> bool {
    exists|i: int| 0 <= i < coeffs.len() && coeffs[i] != 0
}

/// Coefficients fit for use: where all are zero, the first becomes one.
pub open spec fn usable(coeffs: Seq<u8>) -> Seq<u8> {
    if coeffs.len() > 0 && !some_nonzero(coeffs) {
        coeffs.update(0, 1)
    } else {
        coeffs
    }
}

/// RLNC encoder: buffers source packets and generates coded packets.
pub struct RlncEncoder {
    /// Source packets, all padded to `packet_size`.
    source: Vec<Vec<u8>>,
    /// Length of the longest source packet.
    packet_size: usize,
}

impl View for RlncEncoder {
    type V = Seq<Seq<u8>>;

    closed spec fn view(&self) -> Seq<Seq<u8>> {
        buffer::rows(self.source@)
    }
}

/// Fills `buf` with random bytes from `rand::thread_rng()`, through
/// `RngCore::fill_bytes`. Nothing is claimed of the bytes; the length of the buffer
/// does not change. It panics where the generator cannot be seeded by the system.
#[verifier::external_body]
fn fill_random(buf: &mut Vec<u8>)
    ensures
        final(buf)@.len() == old(buf)@.len(),
{
    rand::thread_rng().fill_bytes(buf);
}

/// `len` random bytes, as the generator gives them. The bytes do not depend on `_turn`, which
/// tells one draw from another.
fn draw(len: usize, _turn: u32) -> (bytes: Vec<u8>)
    ensures
        bytes@.len() == len,
        exists|buf: &mut Vec<u8>| #[trigger]
            call_ensures(fill_random, (buf,), ()) && buf@.len() == len && final(buf)@ == bytes@,
{
    let mut bytes: Vec<u8> = vec![0u8; len];
    fill_random(&mut bytes);
    bytes
}

/// The generator gave these bytes for the request of `len` at this turn.
pub closed spec fn drawn(turn: u32, len: nat, bytes: Seq<u8>) -> bool {
    exists|n: usize, v: Vec<u8>| #[trigger]
        call_ensures(draw, (n, turn), v) && n == len && v@ == bytes
}

/// Coefficients as the draw of a turn gives them for `k` source packets: each is the byte that
/// was drawn for its packet, but that the first is one where nothing but zeros was drawn.
pub open spec fn from_draw(turn: u32, k: nat, coeffs: Seq<u8>) -> bool {
    exists|bytes: Seq<u8>|
        {
            &&& #[trigger] drawn(turn, k, bytes)
            &&& bytes.len() == k
            &&& coeffs.len() == k
            &&& forall|i: int|
                0 <= i < k && (i > 0 || bytes[i] != 0) ==> #[trigger] coeffs[i] == bytes[i]
            &&& k > 0 && bytes[0] == 0 ==> coeffs[0] == (if forall|i: int|
                0 <= i < k ==> bytes[i] == 0 {
                1u8
            } else {
                0u8
            })
        }
}

impl RlncEncoder {
    /// The packet size.
    pub closed spec fn size(&self) -> nat {
        self.packet_size as nat
    }

    /// All buffered packets have the packet size.
    pub open spec fn wf(&self) -> bool {
        linear::rectangular(self@, self.size())
    }

    pub fn new() -> (e: Self)
        ensures
            e.wf(),
            e@.len() == 0,
            e.size() == 0,
    {
        RlncEncoder { source: Vec::new(), packet_size: 0 }
    }

    /// Adds a source packet and returns its index. The packet size grows to the longest
    /// packet; shorter ones are padded with zeros.
    pub fn push(&mut self, data: &[u8]) -> (idx: usize)
        requires
            old(self).wf(),
        ensures
            final(self).wf(),
            idx == old(self)@.len(),
            final(self).size() == (if data@.len() > old(self).size() {
                data@.len()
            } else {
                old(self).size()
            }),
            final(self)@ == old(self)@.map_values(
                |r: Seq<u8>| buffer::padded(r, final(self).size()),
            ).push(buffer::padded(data@, final(self).size())),
    {
        let ghost before = self@;
        let ghost old_size = self.size();
        let idx: usize = self.source.len();
        if data.len() > self.packet_size {
            self.packet_size = data.len();
            let size: usize = self.packet_size;
            let mut i: usize = 0;
            while i < self.source.len()
                invariant
                    i <= self.source@.len() == before.len(),
                    size == self.packet_size,
                    forall|r: int|
                        0 <= r < i ==> (#[trigger] self.source@[r])@ == buffer::padded(
                            before[r],
                            size as nat,
                        ),
                    forall|r: int|
                        i <= r < before.len() ==> (#[trigger] self.source@[r])@ == before[r],
                decreases self.source@.len() - i,
            {
                let pkt: &mut Vec<u8> = &mut self.source[i];
                buffer::pad_to(pkt, size);
                i = i + 1;
            }
        } else {
            proof {
                assert forall|r: int| 0 <= r < before.len() implies (#[trigger] self.source@[r])@
                    == buffer::padded(before[r], self.packet_size as nat) by {
                    assert(before[r].len() == old_size);
                    assert(before[r] =~= buffer::padded(before[r], old_size));
                }
            }
        }
        let mut padded: Vec<u8> = buffer::copy_bytes(data);
        buffer::pad_to(&mut padded, self.packet_size);
        self.source.push(padded);
        proof {
            assert(self@ =~= before.map_values(
                |r: Seq<u8>| buffer::padded(r, self.size()),
            ).push(buffer::padded(data@, self.size())));
            assert forall|r: int| 0 <= r < self@.len() implies (#[trigger] self@[r]).len()
                == self.size() by {}
        }
        idx
    }

    /// One coded packet with the coefficients as drawn, except that they are never all
    /// zero. Returns the coefficients and the coded data.
    pub fn encode_drawn(&self, drawn: Vec<u8>) -> (r: (Vec<u8>, Vec<u8>))
        requires
            self.wf(),
        ensures
            r.0@ == usable(drawn@),
            r.0@.len() == drawn@.len(),
            forall|i: int|
                0 <= i < drawn@.len() && (i > 0 || drawn@[i] != 0) ==> #[trigger] r.0@[i]
                    == drawn@[i],
            drawn@.len() > 0 && drawn@[0] == 0 ==> r.0@[0] == (if forall|i: int|
                0 <= i < drawn@.len() ==> drawn@[i] == 0 {
                1u8
            } else {
                0u8
            }),
            r.1@ == coded(self@, self.size(), r.0@),
    {
        let mut coeffs: Vec<u8> = drawn;
        let mut i: usize = 0;
        while i < coeffs.len() && coeffs[i] == 0
            invariant
                i <= coeffs@.len(),
                coeffs@ == drawn@,
                forall|j: int| 0 <= j < i ==> coeffs@[j] == 0,
            decreases coeffs@.len() - i,
        {
            i = i + 1;
        }
        if i < coeffs.len() {
            assert(some_nonzero(drawn@));
        } else if coeffs.len() > 0 {
            coeffs[0] = 1;
        }
        let data: Vec<u8> = self.encode_with_coefficients(coeffs.as_slice());
        (coeffs, data)
    }

    /// One coded packet with random coefficients: the coefficients and the coded data.
    /// There is one coefficient for each source packet, and not all of them are zero.
    pub fn encode_random(&self) -> (r: (Vec<u8>, Vec<u8>))
        requires
            self.wf(),
        ensures
            r.0@.len() == self@.len(),
            self@.len() > 0 ==> some_nonzero(r.0@),
            from_draw(0, self@.len(), r.0@),
            r.1@ == coded(self@, self.size(), r.0@),
    {
        self.encode_turn(0)
    }

    /// The same, one of many: each turn has a draw of its own.
    pub(crate) fn encode_turn(&self, turn: u32) -> (r: (Vec<u8>, Vec<u8>))
        requires
            self.wf(),
        ensures
            r.0@.len() == self@.len(),
            self@.len() > 0 ==> some_nonzero(r.0@),
            from_draw(turn, self@.len(), r.0@),
            r.1@ == coded(self@, self.size(), r.0@),
    {
        let bytes: Vec<u8> = draw(self.source.len(), turn);
        proof {
            let c = bytes@;
            assert(drawn(turn, self@.len(), c));
            if c.len() > 0 && !some_nonzero(c) {
                assert(c.update(0, 1)[0] == 1);
            }
            if some_nonzero(c) && c[0] == 0 {
                let i = choose|i: int| 0 <= i < c.len() && c[i] != 0;
                assert(c[i] != 0);
            }
        }
        self.encode_drawn(bytes)
    }

    /// The coded packet for the given coefficients.
    pub fn encode_with_coefficients(&self, coefficients: &[u8]) -> (out: Vec<u8>)
        requires
            self.wf(),
        ensures
            out@ == coded(self@, self.size(), coefficients@),
    {
        let mut out: Vec<u8> = vec![0u8; self.packet_size];
        let ghost source = self@;
        let ghost size = self.size();
        let mut i: usize = 0;
        while i < coefficients.len() && i < self.source.len()
            invariant
                source == self@,
                size == self.size(),
                self.wf(),
                source.len() == self.source@.len(),
                i <= coefficients@.len(),
                i <= source.len(),
                out@.len() == size,
                forall|j: int|
                    0 <= j < size ==> out@[j] == linear::dot(
                        coefficients@,
                        linear::column(source, j),
                        i as nat,
                    ),
            decreases source.len() - i,
        {
            let coeff: u8 = coefficients[i];
            let ghost partial = out@;
            assert(source[i as int] == self.source@[i as int]@);
            assert(source[i as int].len() == size);
            if coeff != 0 {
                gf::gf_vec_add_mul(out.as_mut_slice(), self.source[i].as_slice(), coeff);
            }
            proof {
                assert forall|j: int| 0 <= j < size implies out@[j] == linear::dot(
                    coefficients@,
                    linear::column(source, j),
                    (i + 1) as nat,
                ) by {
                    let b = source[i as int][j];
                    assert(linear::column(source, j)[i as int] == b);
                    gf::lemma_product_commutes(coeff, b);
                    gf::lemma_product_zero(b);
                    gf::lemma_xor_group(partial[j], 0, 0);
                }
            }
            i = i + 1;
        }
        proof {
            assert(out@ =~= coded(source, size, coefficients@));
        }
        out
    }

    /// How many source packets are buffered.
    pub fn len(&self) -> (n: usize)
        ensures
            n == self@.len(),
    {
        self.source.len()
    }

    /// Whether the encoder has no source packets.
    pub fn is_empty(&self) -> (b: bool)
        ensures
            b == (self@.len() == 0),
    {
        self.source.is_empty()
    }

    /// Current packet size.
    pub fn packet_size(&self) -> (n: usize)
        ensures
            n == self.size(),
    {
        self.packet_size
    }

    /// Clears the buffer for the next generation.
    pub fn clear(&mut self)
        ensures
            final(self).wf(),
            final(self)@.len() == 0,
            final(self).size() == 0,
    {
        self.source.clear();
        self.packet_size = 0;
    }
}

impl Default for RlncEncoder {
    fn default() -> (e: Self)
        ensures
            e.wf(),
            e@.len() == 0,
            e.size() == 0,
    {
        Self::new()
    }
}

/// The equations of the received packets: each gives a row of `k` coefficients and
/// `size` right-hand sides, both brought to their length.
pub open spec fn system(packets: Seq<(Seq<u8>, Seq<u8>)>, k: nat, size: nat) -> Seq<Seq<u8>> {
    packets.map_values(
        |p: (Seq<u8>, Seq<u8>)| buffer::padded(p.0, k) + buffer::padded(p.1, size),
    )
}

/// The packets that the equations give: after elimination of the `k` coefficient
/// columns, the right-hand sides of the first `k` rows.
pub open spec fn solution(m: Seq<Seq<u8>>, k: nat, size: nat) -> Seq<Seq<u8>> {
    Seq::new(k, |r: int| (linear::reduced(m, k)->0)[r].subrange(k as int, (k + size) as int))
}

/// Coefficient rows and data rows side by side.
spec fn joined(coeff: Seq<Vec<u8>>, data: Seq<Vec<u8>>) -> Seq<Seq<u8>> {
    Seq::new(coeff.len(), |r: int| coeff[r]@ + data[r]@)
}

/// One row per packet, of the given widths.
spec fn shaped(coeff: Seq<Vec<u8>>, data: Seq<Vec<u8>>, n: nat, k: nat, size: nat) -> bool {
    &&& coeff.len() == n
    &&& data.len() == n
    &&& forall|r: int| 0 <= r < n ==> (#[trigger] coeff[r])@.len() == k
    &&& forall|r: int| 0 <= r < n ==> (#[trigger] data[r])@.len() == size
}

/// Exchanges two rows.
fn swap_rows(v: &mut Vec<Vec<u8>>, a: usize, b: usize)
    requires
        a < old(v)@.len(),
        b < old(v)@.len(),
        a != b,
    ensures
        final(v)@ == linear::swapped(old(v)@, a as int, b as int),
{
    let ghost before = v@;
    let mut spare: Vec<u8> = Vec::new();
    core::mem::swap(&mut v[a], &mut spare);
    core::mem::swap(&mut v[b], &mut spare);
    core::mem::swap(&mut v[a], &mut spare);
    proof {
        assert(v@ =~= linear::swapped(before, a as int, b as int));
    }
}

/// Adds `factor * lead` to a row.
fn add_to_row(v: &mut Vec<Vec<u8>>, row: usize, lead: &[u8], factor: u8)
    requires
        row < old(v)@.len(),
    ensures
        final(v)@.len() == old(v)@.len(),
        final(v)@[row as int]@ == gf::add_scaled(old(v)@[row as int]@, lead@, factor),
        forall|r: int| 0 <= r < old(v)@.len() && r != row ==> final(v)@[r] == old(v)@[r],
{
    let target: &mut Vec<u8> = &mut v[row];
    gf::gf_vec_add_mul(target.as_mut_slice(), lead, factor);
}

/// Scales row `col` so that its entry there is one, and clears the column in all other
/// rows.
fn clear_column(
    coeff: Vec<Vec<u8>>,
    data: Vec<Vec<u8>>,
    col: usize,
    Ghost(k): Ghost<nat>,
    Ghost(size): Ghost<nat>,
) -> (r: (Vec<Vec<u8>>, Vec<Vec<u8>>))
    requires
        shaped(coeff@, data@, coeff@.len(), k, size),
        col < coeff@.len(),
        col < k,
        coeff@[col as int]@[col as int] != 0,
    ensures
        shaped(r.0@, r.1@, coeff@.len(), k, size),
        joined(r.0@, r.1@) == linear::cleared(joined(coeff@, data@), col as int),
{
    let mut coeff: Vec<Vec<u8>> = coeff;
    let mut data: Vec<Vec<u8>> = data;
    let ghost before = joined(coeff@, data@);
    let ghost coeff0 = coeff@;
    let ghost data0 = data@;
    let n: usize = coeff.len();
    let mut lead_coeff: Vec<u8> = Vec::new();
    let mut lead_data: Vec<u8> = Vec::new();
    core::mem::swap(&mut coeff[col], &mut lead_coeff);
    core::mem::swap(&mut data[col], &mut lead_data);
    let ghost lead0 = before[col as int];
    let pivot: u8 = lead_coeff[col];
    let inv: u8 = gf::gf_inv(pivot);
    gf::gf_vec_mul_scalar(lead_coeff.as_mut_slice(), inv);
    gf::gf_vec_mul_scalar(lead_data.as_mut_slice(), inv);
    let ghost lead = gf::scaled(lead0, linear::inverse(pivot));
    proof {
        linear::lemma_inverse(pivot, inv);
        assert(lead_coeff@ + lead_data@ =~= lead);
    }
    let mut row: usize = 0;
    while row < n
        invariant
            row <= n == coeff0.len() == coeff@.len() == data@.len() == data0.len(),
            col < n,
            col < k,
            shaped(coeff0, data0, n as nat, k, size),
            before == joined(coeff0, data0),
            lead_coeff@.len() == k,
            lead_data@.len() == size,
            lead_coeff@ + lead_data@ == lead,
            lead.len() == k + size,
            forall|r: int| 0 <= r < n && r != col ==> (#[trigger] coeff@[r])@.len() == k,
            forall|r: int| 0 <= r < n && r != col ==> (#[trigger] data@[r])@.len() == size,
            forall|r: int|
                0 <= r < row && r != col ==> (#[trigger] coeff@[r])@ + data@[r]@ == gf::add_scaled(
                    before[r],
                    lead,
                    before[r][col as int],
                ),
            forall|r: int| row <= r < n && r != col ==> #[trigger] coeff@[r] == coeff0[r],
            forall|r: int| row <= r < n && r != col ==> #[trigger] data@[r] == data0[r],
        decreases n - row,
    {
        if row != col {
            let ghost b = before[row as int];
            let factor: u8 = coeff[row][col];
            add_to_row(&mut coeff, row, lead_coeff.as_slice(), factor);
            add_to_row(&mut data, row, lead_data.as_slice(), factor);
            proof {
                assert(coeff@[row as int]@ + data@[row as int]@ =~= gf::add_scaled(
                    b,
                    lead,
                    factor,
                ));
            }
        }
        row = row + 1;
    }
    core::mem::swap(&mut coeff[col], &mut lead_coeff);
    core::mem::swap(&mut data[col], &mut lead_data);
    proof {
        assert(joined(coeff@, data@) =~= linear::cleared(before, col as int));
    }
    (coeff, data)
}

/// RLNC decoder: collects coded packets and recovers the source packets.
pub struct RlncDecoder {
    /// Number of source packets expected.
    k: usize,
    /// Packet size.
    packet_size: usize,
    /// Received coded packets: coefficients and data.
    received: Vec<(Vec<u8>, Vec<u8>)>,
}

impl View for RlncDecoder {
    type V = Seq<(Seq<u8>, Seq<u8>)>;

    closed spec fn view(&self) -> Seq<(Seq<u8>, Seq<u8>)> {
        self.received@.map_values(|p: (Vec<u8>, Vec<u8>)| (p.0@, p.1@))
    }
}

impl RlncDecoder {
    /// The number of source packets.
    pub closed spec fn generation(&self) -> nat {
        self.k as nat
    }

    /// The packet size.
    pub closed spec fn size(&self) -> nat {
        self.packet_size as nat
    }

    /// The equations collected so far.
    pub open spec fn equations(&self) -> Seq<Seq<u8>> {
        system(self@, self.generation(), self.size())
    }

    pub fn new(k: usize, packet_size: usize) -> (d: Self)
        ensures
            d.generation() == k,
            d.size() == packet_size,
            d@.len() == 0,
    {
        RlncDecoder { k, packet_size, received: Vec::new() }
    }

    /// How many source packets the generation has.
    pub fn source_count(&self) -> (n: usize)
        ensures
            n == self.generation(),
    {
        self.k
    }

    /// Adds a received coded packet. Returns whether there are now enough to attempt
    /// decoding.
    pub fn add_packet(&mut self, coefficients: Vec<u8>, data: Vec<u8>) -> (enough: bool)
        ensures
            final(self).generation() == old(self).generation(),
            final(self).size() == old(self).size(),
            final(self)@ == old(self)@.push((coefficients@, data@)),
            enough == (final(self)@.len() >= final(self).generation()),
    {
        let ghost before = self@;
        self.received.push((coefficients, data));
        proof {
            assert(self@ =~= before.push((coefficients@, data@)));
        }
        self.received.len() >= self.k
    }

    /// Recovers the source packets. It takes at least as many packets as there are source
    /// packets, and among them as many with linearly independent coefficients.
    pub fn decode(&self) -> (r: Result<Vec<Vec<u8>>, &'static str>)
        ensures
            match r {
                Ok(out) => {
                    &&& self@.len() >= self.generation()
                    &&& linear::independent(self.equations(), self.generation())
                    &&& buffer::rows(out@) == solution(
                        self.equations(),
                        self.generation(),
                        self.size(),
                    )
                },
                Err(e) => {
                    ||| self@.len() < self.generation() && e@ == "not enough packets to decode"@
                    ||| self@.len() >= self.generation() && !linear::independent(
                        self.equations(),
                        self.generation(),
                    ) && e@ == "matrix is singular, cannot decode"@
                },
            },
            r is Err && self@.len() >= self.generation() ==> exists|v: Seq<u8>|
                {
                    &&& #[trigger] v.len() == self.generation()
                    &&& some_nonzero(v)
                    &&& forall|i: int|
                        0 <= i < self@.len() ==> linear::dot(
                            buffer::padded((#[trigger] self@[i]).0, self.generation()),
                            v,
                            self.generation(),
                        ) == 0
                },
    {
        let k: usize = self.k;
        let size: usize = self.packet_size;
        let n: usize = self.received.len();
        if n < k {
            return Err("not enough packets to decode");
        }
        let ghost m = self.equations();
        let ghost width = (k + size) as nat;
        let mut coeff: Vec<Vec<u8>> = Vec::with_capacity(n);
        let mut data: Vec<Vec<u8>> = Vec::with_capacity(n);
        let mut i: usize = 0;
        while i < n
            invariant
                i <= n == self.received@.len(),
                k == self.k,
                size == self.packet_size,
                m == self.equations(),
                shaped(coeff@, data@, i as nat, k as nat, size as nat),
                forall|r: int| 0 <= r < i ==> (#[trigger] coeff@[r])@ + data@[r]@ == m[r],
            decreases n - i,
        {
            let mut c: Vec<u8> = buffer::copy_bytes(self.received[i].0.as_slice());
            buffer::pad_to(&mut c, k);
            let mut d: Vec<u8> = buffer::copy_bytes(self.received[i].1.as_slice());
            buffer::pad_to(&mut d, size);
            coeff.push(c);
            data.push(d);
            i = i + 1;
        }
        proof {
            assert(joined(coeff@, data@) =~= m);
            assert(linear::rectangular(m, width)) by {
                assert forall|r: int| 0 <= r < m.len() implies (#[trigger] m[r]).len() == width by {
                    assert(coeff@[r]@.len() == k);
                    assert(data@[r]@.len() == size);
                }
            }
        }

        let mut col: usize = 0;
        while col < k
            invariant
                col <= k <= n == m.len(),
                n == self.received@.len(),
                k == self.generation(),
                size == self.size(),
                m == self.equations(),
                self@.len() == n,
                width == k + size,
                linear::rectangular(m, width),
                shaped(coeff@, data@, n as nat, k as nat, size as nat),
                linear::reduced(m, col as nat) == Some(joined(coeff@, data@)),
            decreases k - col,
        {
            let ghost t = joined(coeff@, data@);
            let mut pivot: usize = col;
            while pivot < n && coeff[pivot][col] == 0
                invariant
                    col <= pivot <= n,
                    col < k,
                    shaped(coeff@, data@, n as nat, k as nat, size as nat),
                    t == joined(coeff@, data@),
                    linear::first_nonzero(t, col as int, col as int) == linear::first_nonzero(
                        t,
                        col as int,
                        pivot as int,
                    ),
                decreases n - pivot,
            {
                assert(t[pivot as int][col as int] == coeff@[pivot as int]@[col as int]);
                pivot = pivot + 1;
            }
            if pivot == n {
                proof {
                    assert(linear::reduced(m, (col + 1) as nat) is None);
                    linear::lemma_stuck(m, (col + 1) as nat, k as nat, width);
                    lemma_dependent(self@, k as nat, size as nat);
                }
                return Err("matrix is singular, cannot decode");
            }
            assert(t[pivot as int][col as int] == coeff@[pivot as int]@[col as int]);
            if pivot != col {
                swap_rows(&mut coeff, col, pivot);
                swap_rows(&mut data, col, pivot);
            }
            proof {
                assert(joined(coeff@, data@) =~= linear::swapped(t, col as int, pivot as int));
            }
            let (next_coeff, next_data) = clear_column(
                coeff,
                data,
                col,
                Ghost(k as nat),
                Ghost(size as nat),
            );
            coeff = next_coeff;
            data = next_data;
            col = col + 1;
        }
        let ghost t = joined(coeff@, data@);
        data.truncate(k);
        proof {
            linear::lemma_reduced_iff_independent(m, k as nat, width);
            let out = solution(m, k as nat, size as nat);
            assert forall|r: int| 0 <= r < k implies #[trigger] buffer::rows(data@)[r]
                == out[r] by {
                assert(coeff@[r]@.len() == k);
                assert(t[r] == coeff@[r]@ + data@[r]@);
                assert(t[r].subrange(k as int, (k + size) as int) =~= data@[r]@);
            }
            assert(buffer::rows(data@) =~= out);
        }
        Ok(data)
    }

    /// How many packets were received so far.
    pub fn received_count(&self) -> (n: usize)
        ensures
            n == self@.len(),
    {
        self.received.len()
    }
}

// ---------------------------------------------------------------------------
// Laws
// ---------------------------------------------------------------------------

/// Coefficients cut off or filled up to the number of source packets make the same
/// coded packet.
pub proof fn lemma_coded_padded(source: Seq<Seq<u8>>, size: nat, coeffs: Seq<u8>, j: int)
    requires
        0 <= j < size,
    ensures
        coded(source, size, coeffs)[j] == linear::dot(
            buffer::padded(coeffs, source.len()),
            linear::column(source, j),
            source.len(),
        ),
{
    let n: nat = if coeffs.len() < source.len() {
        coeffs.len()
    } else {
        source.len()
    };
    let c = buffer::padded(coeffs, source.len());
    let v = linear::column(source, j);
    linear::lemma_dot_ext(coeffs, c, v, v, n);
    linear::lemma_dot_zero_tail(c, v, n, source.len());
}

proof fn lemma_solution_byte(
    source: Seq<Seq<u8>>,
    size: nat,
    packets: Seq<(Seq<u8>, Seq<u8>)>,
    j: int,
)
    requires
        linear::rectangular(source, size),
        packets.len() >= source.len(),
        0 <= j < size,
        forall|i: int|
            0 <= i < packets.len() ==> (#[trigger] packets[i]).1 == coded(
                source,
                size,
                packets[i].0,
            ),
        linear::reduced(system(packets, source.len(), size), source.len()) is Some,
    ensures
        forall|r: int|
            0 <= r < source.len() ==> (#[trigger] (linear::reduced(
                system(packets, source.len(), size),
                source.len(),
            )->0)[r])[source.len() + j] == source[r][j],
{
    let k = source.len();
    let m = system(packets, k, size);
    let v = linear::column(source, j);
    assert forall|r: int| 0 <= r < m.len() implies #[trigger] linear::holds(m[r], v, k, j) by {
        let c = packets[r].0;
        assert(packets[r].1 == coded(source, size, c));
        lemma_coded_padded(source, size, c, j);
        linear::lemma_dot_ext(m[r], buffer::padded(c, k), v, v, k);
    }
    linear::lemma_reduced_solution(m, source, k, k + size, j);
}

/// Where the packets are dependent, some source packets other than zero make nothing but
/// zeros with all of their coefficients.
proof fn lemma_dependent(packets: Seq<(Seq<u8>, Seq<u8>)>, k: nat, size: nat)
    requires
        !linear::independent(system(packets, k, size), k),
    ensures
        exists|v: Seq<u8>|
            {
                &&& #[trigger] v.len() == k
                &&& some_nonzero(v)
                &&& forall|i: int|
                    0 <= i < packets.len() ==> linear::dot(
                        buffer::padded((#[trigger] packets[i]).0, k),
                        v,
                        k,
                    ) == 0
            },
{
    let m = system(packets, k, size);
    let zero = Seq::new(k, |i: int| 0u8);
    let v = choose|v: Seq<u8>|
        v.len() == k && (forall|r: int|
            0 <= r < m.len() ==> #[trigger] linear::annihilates(m[r], v, k)) && v != zero;
    assert(some_nonzero(v)) by {
        if !some_nonzero(v) {
            assert(v =~= zero);
        }
    }
    assert forall|i: int| 0 <= i < packets.len() implies linear::dot(
        buffer::padded((#[trigger] packets[i]).0, k),
        v,
        k,
    ) == 0 by {
        assert(linear::annihilates(m[i], v, k));
        linear::lemma_dot_ext(m[i], buffer::padded(packets[i].0, k), v, v, k);
    }
    assert(v.len() == k);
}

/// Decoding undoes encoding: from coded packets whose coefficients are independent come
/// the source packets, whatever the coefficients are and however many packets there are.
pub proof fn lemma_decode_undoes_encode(
    source: Seq<Seq<u8>>,
    size: nat,
    packets: Seq<(Seq<u8>, Seq<u8>)>,
)
    requires
        linear::rectangular(source, size),
        packets.len() >= source.len(),
        forall|i: int|
            0 <= i < packets.len() ==> (#[trigger] packets[i]).1 == coded(
                source,
                size,
                packets[i].0,
            ),
        linear::independent(system(packets, source.len(), size), source.len()),
    ensures
        solution(system(packets, source.len(), size), source.len(), size) == source,
{
    let k = source.len();
    let m = system(packets, k, size);
    let width = k + size;
    assert forall|r: int| 0 <= r < m.len() implies (#[trigger] m[r]).len() == width by {}
    linear::lemma_reduced_iff_independent(m, k, width);
    linear::lemma_reduced_shape(m, k, width);
    let t = linear::reduced(m, k)->0;
    let out = solution(m, k, size);
    assert forall|r: int| 0 <= r < k implies #[trigger] out[r] == source[r] by {
        assert(source[r].len() == size);
        assert forall|j: int| 0 <= j < size implies #[trigger] out[r][j] == source[r][j] by {
            lemma_solution_byte(source, size, packets, j);
            assert(t[r][k + j] == source[r][j]);
        }
        assert(out[r] =~= source[r]);
    }
    assert(out =~= source);
}

/// Too few coded packets do not decode, however often they come: where there are fewer
/// different coefficients than source packets, the packets are dependent.
pub proof fn lemma_too_few(
    packets: Seq<(Seq<u8>, Seq<u8>)>,
    coeffs: Seq<Seq<u8>>,
    k: nat,
    size: nat,
)
    requires
        coeffs.len() < k,
        forall|i: int|
            0 <= i < packets.len() ==> coeffs.contains((#[trigger] packets[i]).0),
    ensures
        !linear::independent(system(packets, k, size), k),
{
    let m = system(packets, k, size);
    let few = coeffs.map_values(|c: Seq<u8>| buffer::padded(c, k));
    assert forall|r: int| 0 <= r < few.len() implies (#[trigger] few[r]).len() == k by {}
    linear::lemma_few_rows(few, k, k);
    let zero = Seq::new(k, |i: int| 0u8);
    let v = choose|v: Seq<u8>|
        v.len() == k && (forall|r: int|
            0 <= r < few.len() ==> #[trigger] linear::annihilates(few[r], v, k)) && v != zero;
    assert forall|r: int| 0 <= r < m.len() implies #[trigger] linear::annihilates(m[r], v, k) by {
        let c = packets[r].0;
        assert(coeffs.contains(packets[r].0));
        let i = choose|i: int| 0 <= i < coeffs.len() && coeffs[i] == c;
        assert(linear::annihilates(few[i], v, k));
        linear::lemma_dot_ext(m[r], few[i], v, v, k);
    }
}

/// The coefficients of a random coded packet are the bytes that the generator gave, one for
/// each source packet: none is left out, and none is made up unless all are zero.
pub proof fn lemma_draw_used(turn: u32, k: nat, coeffs: Seq<u8>)
    requires
        from_draw(turn, k, coeffs),
    ensures
        coeffs.len() == k,
        exists|bytes: Seq<u8>| #[trigger]
            drawn(turn, k, bytes) && bytes.len() == k && (coeffs == bytes || (forall|i: int|
                0 <= i < k ==> bytes[i] == 0) && coeffs == bytes.update(0, 1)),
{
    let bytes = choose|bytes: Seq<u8>|
        {
            &&& #[trigger] drawn(turn, k, bytes)
            &&& bytes.len() == k
            &&& coeffs.len() == k
            &&& forall|i: int|
                0 <= i < k && (i > 0 || bytes[i] != 0) ==> #[trigger] coeffs[i] == bytes[i]
            &&& k > 0 && bytes[0] == 0 ==> coeffs[0] == (if forall|i: int|
                0 <= i < k ==> bytes[i] == 0 {
                1u8
            } else {
                0u8
            })
        };
    if k > 0 && (forall|i: int| 0 <= i < k ==> bytes[i] == 0) {
        assert(coeffs =~= bytes.update(0, 1));
    } else {
        assert(coeffs =~= bytes);
    }
}

/// Every source packet counts that has a coefficient other than zero: with another byte in
/// it, the coded packet is another.
pub proof fn lemma_every_packet_counts(
    source: Seq<Seq<u8>>,
    size: nat,
    coeffs: Seq<u8>,
    i: int,
    j: int,
    x: u8,
)
    requires
        linear::rectangular(source, size),
        0 <= i < source.len(),
        coeffs.len() == source.len(),
        coeffs[i] != 0,
        0 <= j < size,
        x != source[i][j],
    ensures
        coded(source, size, coeffs).len() == size,
        coded(source.update(i, source[i].update(j, x)), size, coeffs)[j] != coded(
            source,
            size,
            coeffs,
        )[j],
{
    let n = source.len();
    let other = source.update(i, source[i].update(j, x));
    let v = linear::column(source, j);
    assert(source[i].len() == size);
    assert(linear::column(other, j) =~= v.update(i, x));
    linear::lemma_dot_changed(coeffs, v, i, x, n);
    let y = source[i][j];
    assert(y ^ x != 0) by (bit_vector)
        requires
            x != y,
    ;
    gf::lemma_product_nonzero(coeffs[i], y ^ x);
    let a = linear::dot(coeffs, v, n);
    let d = gf::gf_product(coeffs[i], y ^ x);
    assert(a ^ d != a) by (bit_vector)
        requires
            d != 0,
    ;
}

/// A coded packet with a one for a single source packet, and zeros else, is that packet.
pub proof fn lemma_unit_coefficient(source: Seq<Seq<u8>>, size: nat, coeffs: Seq<u8>, i: int)
    requires
        linear::rectangular(source, size),
        0 <= i < source.len() == coeffs.len(),
        forall|c: int|
            0 <= c < coeffs.len() ==> #[trigger] coeffs[c] == (if i == c {
                1u8
            } else {
                0u8
            }),
    ensures
        coded(source, size, coeffs) == source[i],
{
    assert(source[i].len() == size);
    assert forall|j: int| 0 <= j < size implies coded(source, size, coeffs)[j] == source[i][j] by {
        linear::lemma_dot_unit(coeffs, linear::column(source, j), i, source.len());
    }
    assert(coded(source, size, coeffs) =~= source[i]);
}

/// Whatever the size of a generation, packets with a one for each of its source packets are
/// independent, however many others there are, and in whatever order.
pub proof fn lemma_any_size_decodes(
    packets: Seq<(Seq<u8>, Seq<u8>)>,
    k: nat,
    size: nat,
    at: Seq<int>,
)
    requires
        at.len() == k,
        forall|i: int| 0 <= i < k ==> 0 <= #[trigger] at[i] < packets.len(),
        forall|i: int| 0 <= i < k ==> packets[#[trigger] at[i]].0.len() == k,
        forall|i: int, c: int|
            0 <= i < k && 0 <= c < k ==> #[trigger] packets[at[i]].0[c] == (if i == c {
                1u8
            } else {
                0u8
            }),
    ensures
        linear::independent(system(packets, k, size), k),
{
    let m = system(packets, k, size);
    assert forall|i: int, c: int| 0 <= i < k && 0 <= c < k implies #[trigger] m[at[i]][c] == (
    if i == c {
        1u8
    } else {
        0u8
    }) by {
        assert(packets[at[i]].0[c] == (if i == c {
            1u8
        } else {
            0u8
        }));
    }
    linear::lemma_unit_rows_independent(m, k, at);
}

} // verus!
