//! What the receiving end promises: from whatever packets of the sender arrive, in
//! whatever order and however often, a receiver that counts itself complete writes the
//! file that was sent, and one that has all of it counts itself complete.

use crate::buffer;
use crate::protocol::fec;
use crate::protocol::fec::FecMode;
use crate::protocol::linear;
use crate::protocol::packet;
use crate::protocol::packet::{Header, PacketFlags};
use crate::protocol::rlnc;
use crate::transfer::crypto;
use crate::transfer::layout;
use crate::transfer::layout::FecLayout;
use crate::transfer::output;
use crate::transfer::receiver;
use crate::transfer::receiver::{GenerationView, ParityView, ReceiverView};
use vstd::prelude::*;

verus! {

/// A file as it is sent.
pub struct Transfer {
    /// The chunks by the sequence number of their data packet.
    pub sent: Map<u32, Seq<u8>>,
    /// What the data packets carry: the chunks, or what they were encrypted to.
    pub payloads: Map<u32, Seq<u8>>,
    /// The sequence number of the last chunk.
    pub last: u32,
    /// How many chunks go into packets of redundancy together, by the sequence number of the
    /// first of them.
    pub groups: Map<u32, nat>,
    /// How many zeros there can be behind the last chunk when it is computed.
    pub slack: nat,
}

/// `data` is `chunk`, with nothing but zeros behind it.
pub open spec fn extends(data: Seq<u8>, chunk: Seq<u8>) -> bool {
    data.len() >= chunk.len() && data == buffer::padded(chunk, data.len())
}

impl Transfer {
    /// The chunks are numbered from 1 on, none is empty, and the payloads decrypt to them.
    pub open spec fn listed(self, key: Option<Seq<u8>>) -> bool {
        &&& self.sent.contains_key(self.last)
        &&& forall|q: u32| #[trigger] self.sent.contains_key(q) ==> 1 <= q <= self.last
        &&& forall|q: u32| #[trigger] self.sent.contains_key(q) ==> self.sent[q].len() > 0
        &&& forall|q: u32| #[trigger]
            self.sent.contains_key(q) ==> crypto::contents(key, self.payloads[q]) == Some(
                self.sent[q],
            )
    }

    /// The numbers of a group are those of chunks.
    pub open spec fn groups_full(self) -> bool {
        forall|f: u32| #[trigger]
            self.groups.contains_key(f) ==> 0 < self.groups[f] && f + self.groups[f] <= u32::MAX
                && self.full(f as int, self.groups[f])
    }

    /// A file in chunks, under a key or none.
    pub open spec fn wf(self, key: Option<Seq<u8>>) -> bool {
        &&& self.listed(key)
        &&& self.groups_full()
    }

    /// The number `q` is in the group from `f` on.
    pub open spec fn in_group(self, f: u32, q: u32) -> bool {
        self.groups.contains_key(f) && f <= q < f + self.groups[f]
    }

    /// The payload under the number `q` is the longest of its group: computed from the
    /// others, it has nothing behind it.
    pub open spec fn tight(self, q: u32) -> bool {
        forall|f: u32| #[trigger]
            self.in_group(f, q) ==> self.payloads[q].len() == self.source_size(f)
    }

    /// Only the last chunk can be shorter than others of its group.
    pub open spec fn level(self) -> bool {
        &&& forall|q: u32| #[trigger]
            self.sent.contains_key(q) && q != self.last ==> self.tight(q)
        &&& forall|f: u32| #[trigger]
            self.in_group(f, self.last) ==> self.source_size(f) <= self.payloads[self.last].len()
                + self.slack
    }

    /// The zeros behind the last chunk cannot make up for another chunk.
    pub open spec fn ample(self) -> bool {
        forall|q: u32| #[trigger]
            self.sent.contains_key(q) && q != self.last ==> self.sent[q].len() > self.slack
    }

    /// The file: its chunks one after the other.
    pub open spec fn file(self) -> Seq<u8> {
        output::joined(self.sent, self.last as nat)
    }

    /// The payloads under the `n` numbers from `start` on.
    pub open spec fn block(self, start: int, n: nat) -> Seq<Seq<u8>> {
        Seq::new(n, |i: int| self.payloads[(start + i) as u32])
    }

    /// All `n` numbers from `start` on are those of chunks.
    pub open spec fn full(self, start: int, n: nat) -> bool {
        forall|i: int| 0 <= i < n ==> self.sent.contains_key(#[trigger] ((start + i) as u32))
    }

    /// The packet size of a group: that of its longest payload.
    pub open spec fn source_size(self, first: u32) -> nat {
        fec::longest(self.block(first as int, self.groups[first]))
    }

    /// The payloads of a group, all of one size.
    pub open spec fn source(self, first: u32) -> Seq<Seq<u8>> {
        Seq::new(
            self.groups[first],
            |i: int| buffer::padded(self.payloads[(first + i) as u32], self.source_size(first)),
        )
    }

    /// No chunk has the number of a place of parity.
    pub open spec fn beside_parity(self, l: FecLayout) -> bool {
        forall|q: u32| #[trigger] self.sent.contains_key(q) ==> !l.is_parity(q)
    }
}

/// The receiver computes missing packets from parity.
pub open spec fn heals(s: ReceiverView) -> bool {
    s.uses_xor() && s.layout.block() == s.layout.fec_block_size
}

/// What the receiver has under the number `q` belongs to the file: the payload with zeros
/// behind it at most, and the chunk. Only one that was computed and is shorter than others of
/// its group can be another.
pub open spec fn belongs(t: Transfer, s: ReceiverView, q: u32) -> bool {
    &&& t.sent.contains_key(q)
    &&& extends(s.payloads[q], t.payloads[q])
    &&& t.sent[q].len() <= s.received[q].len()
    &&& t.tight(q) || !s.guessed.contains(q) ==> s.received[q] == t.sent[q]
    &&& s.key is None ==> s.received[q] == s.payloads[q]
}

/// Those chunks of the file of which the receiver has something.
pub open spec fn there(t: Transfer, s: ReceiverView) -> Map<u32, Seq<u8>> {
    Map::new(
        |q: u32| t.sent.contains_key(q) && s.received.contains_key(q),
        |q: u32| t.sent[q],
    )
}

/// The receiver has nothing but what belongs to the file. It counts the bytes of the chunks
/// that it has: those alone, if nothing was computed, and else with the zeros behind them.
pub open spec fn faithful(t: Transfer, s: ReceiverView) -> bool {
    let bytes = output::joined(there(t, s), t.last as nat).len();
    &&& forall|q: u32| #[trigger] s.received.contains_key(q) ==> belongs(t, s, q)
    &&& forall|q: u32| #[trigger] s.guessed.contains(q) ==> s.received.contains_key(q)
    &&& s.received_bytes >= bytes
    &&& t.level() ==> s.received_bytes <= bytes + (if s.received.contains_key(t.last) {
        t.slack
    } else {
        0
    })
    &&& s.fec_recoveries >= 0
    &&& s.fec_recoveries == 0 ==> s.received_bytes == bytes && s.guessed == Set::<u32>::empty()
}

/// Zeros behind computed chunks do no harm: nothing was computed, or only the last chunk can
/// be shorter than others of its group, and its zeros cannot be taken for another chunk where
/// bytes are counted.
pub open spec fn harmless(t: Transfer, s: ReceiverView, size: u64) -> bool {
    ||| s.fec_recoveries == 0
    ||| t.level() && (size == u64::MAX || t.ample())
}

/// No chunk has the number of a packet of redundancy that came, and the FIN comes after all
/// chunks.
pub open spec fn apart(t: Transfer, s: ReceiverView) -> bool {
    &&& forall|q: u32| #[trigger] t.sent.contains_key(q) ==> !s.redundant.contains(q)
    &&& s.fin_seq matches Some(fin) ==> fin > t.last
}

/// What is written, as far as the size of the file is known (`u64::MAX`: it is not).
pub open spec fn told(size: u64) -> Option<u64> {
    if size == u64::MAX {
        None
    } else {
        Some(size)
    }
}

// ---------------------------------------------------------------------------
// A complete receiver writes the file
// ---------------------------------------------------------------------------

/// A part has no more bytes than the whole, and lacks those of a chunk that is missing.
proof fn lemma_joined_part(part: Map<u32, Seq<u8>>, whole: Map<u32, Seq<u8>>, x: u32, n: nat)
    requires
        forall|q: u32| #[trigger]
            part.contains_key(q) ==> whole.contains_key(q) && part[q] == whole[q],
    ensures
        output::joined(part, n).len() <= output::joined(whole, n).len(),
        1 <= x <= n && whole.contains_key(x) && !part.contains_key(x) ==> output::joined(
            part,
            n,
        ).len() + whole[x].len() <= output::joined(whole, n).len(),
    decreases n,
{
    if n > 0 {
        lemma_joined_part(part, whole, x, (n - 1) as nat);
        if n <= u32::MAX {
            assert(part.contains_key(n as u32) ==> whole.contains_key(n as u32));
        }
    }
}

/// As many bytes as the file has are there only when all of its chunks are.
proof fn lemma_enough_bytes(t: Transfer, s: ReceiverView)
    requires
        t.wf(s.key),
        faithful(t, s),
        s.fec_recoveries == 0 || t.level() && t.ample(),
        s.received_bytes >= t.file().len(),
    ensures
        forall|q: u32| #[trigger] t.sent.contains_key(q) ==> s.received.contains_key(q),
{
    assert forall|q: u32| #[trigger] t.sent.contains_key(q) implies s.received.contains_key(q) by {
        if !s.received.contains_key(q) {
            lemma_joined_part(there(t, s), t.sent, q, t.last as nat);
        }
    }
}

proof fn lemma_same_before_last(t: Transfer, s: ReceiverView, n: nat)
    requires
        faithful(t, s),
        forall|q: u32| #[trigger] s.guessed.contains(q) ==> q == t.last || t.tight(q),
        forall|q: u32| #[trigger] t.sent.contains_key(q) ==> s.received.contains_key(q),
        n < t.last,
    ensures
        output::joined(s.received, n) == output::joined(t.sent, n),
    decreases n,
{
    if n > 0 {
        lemma_same_before_last(t, s, (n - 1) as nat);
        let q = n as u32;
        if s.received.contains_key(q) {
            assert(belongs(t, s, q));
        }
    }
}

/// A receiver that has all chunks writes the file, if the last chunk is certain or its
/// padding is cut off at the end, and no other was computed that is shorter than others of
/// its group.
pub proof fn lemma_all_chunks_give_file(t: Transfer, s: ReceiverView, size: u64)
    requires
        t.listed(s.key),
        faithful(t, s),
        forall|q: u32| #[trigger] s.guessed.contains(q) ==> q == t.last || t.tight(q),
        forall|q: u32| #[trigger] t.sent.contains_key(q) ==> s.received.contains_key(q),
        size == t.file().len() || size == u64::MAX,
        !s.guessed.contains(t.last) || s.end_told(size),
    ensures
        output::file_bytes(s.received, told(size)) == t.file(),
{
    let before = (t.last - 1) as nat;
    lemma_same_before_last(t, s, before);
    assert(s.received.contains_key(t.last));
    assert(belongs(t, s, t.last));
    assert forall|q: u32| #[trigger] s.received.contains_key(q) implies q <= t.last by {
        assert(belongs(t, s, q));
    }
    let head = output::joined(t.sent, before);
    let got = output::joined(s.received, t.last as nat);
    output::lemma_joined_beyond(s.received, t.last, u32::MAX as nat);
    assert(got == head + s.received[t.last]);
    assert(t.file() == head + t.sent[t.last]);
    assert(s.received[t.last].take(t.sent[t.last].len() as int) =~= t.sent[t.last]) by {
        if s.guessed.contains(t.last) {
            assert(s.received[t.last] == s.payloads[t.last]);
            assert(t.payloads[t.last] == t.sent[t.last]);
        }
    }
    assert(got.take(t.file().len() as int) =~= t.file());
    if size == u64::MAX {
        assert(got =~= t.file());
    }
    assert(output::file_bytes(s.received, told(size)) =~= t.file());
}

/// Integrity: a receiver that has nothing but what belongs to the file and counts itself
/// complete writes the file, whether its size is known or not (`u64::MAX`).
pub proof fn lemma_complete_gives_file(t: Transfer, s: ReceiverView, size: u64)
    requires
        t.wf(s.key),
        faithful(t, s),
        apart(t, s),
        s.uses_xor() ==> t.beside_parity(s.layout),
        harmless(t, s, size),
        size == t.file().len() || size == u64::MAX,
        s.complete(size),
    ensures
        output::file_bytes(s.received, told(size)) == t.file(),
{
    assert forall|q: u32| #[trigger] s.received.contains_key(q) implies q <= t.last by {
        assert(belongs(t, s, q));
    }
    if s.guessed.contains(t.last) && !s.end_told(size) {
        assert(s.doubtful(t.last, size));
    }
    if size == u64::MAX {
        lemma_nothing_needed(t, s);
    } else {
        lemma_enough_bytes(t, s);
    }
    assert forall|q: u32| #[trigger] s.guessed.contains(q) implies q == t.last || t.tight(q) by {
        assert(s.received.contains_key(q));
        assert(belongs(t, s, q));
    }
    lemma_all_chunks_give_file(t, s, size);
}

/// Where nothing before the FIN is needed, all chunks are there and the last is certain.
proof fn lemma_nothing_needed(t: Transfer, s: ReceiverView)
    requires
        t.listed(s.key),
        apart(t, s),
        s.uses_xor() ==> t.beside_parity(s.layout),
        forall|q: u32| #[trigger] s.received.contains_key(q) ==> q <= t.last,
        s.complete(u64::MAX),
    ensures
        forall|q: u32| #[trigger] t.sent.contains_key(q) ==> s.received.contains_key(q),
        !s.guessed.contains(t.last),
{
    let fin = s.fin_seq->0;
    receiver::lemma_needed_below(s, fin as nat, u64::MAX);
    let list = s.needed_below(fin as nat, u64::MAX);
    assert forall|q: u32| #[trigger] t.sent.contains_key(q) implies s.received.contains_key(q) by {
        if !s.received.contains_key(q) {
            assert(s.needed(q, u64::MAX));
            assert(list.contains(q));
        }
    }
    if s.guessed.contains(t.last) {
        assert(s.doubtful(t.last, u64::MAX));
        assert(s.needed(t.last, u64::MAX));
        assert(list.contains(t.last));
    }
}

/// Every number before the FIN is that of a chunk, a place of parity, or that of a packet of
/// redundancy that came.
pub open spec fn accounted(t: Transfer, s: ReceiverView) -> bool {
    forall|q: u32|
        1 <= q < s.fin_seq->0 ==> #[trigger] t.sent.contains_key(q) || s.redundant.contains(q)
            || s.fec_mode == FecMode::Xor && s.layout.is_parity(q)
}

/// Completion: a receiver that has all chunks and the FIN counts itself complete, if the
/// last chunk is certain or its padding is cut off at the end. Where the size of the file is
/// not known, the packets of redundancy that stand in no place of parity have to be there.
pub proof fn lemma_all_chunks_complete(t: Transfer, s: ReceiverView, size: u64)
    requires
        faithful(t, s),
        s.fin_seq is Some,
        forall|q: u32| #[trigger] t.sent.contains_key(q) ==> s.received.contains_key(q),
        t.sent.contains_key(t.last),
        forall|q: u32| #[trigger] t.sent.contains_key(q) ==> q <= t.last,
        !s.guessed.contains(t.last) || s.end_told(size),
        size == t.file().len() || size == u64::MAX,
        size == u64::MAX ==> accounted(t, s),
    ensures
        s.complete(size),
{
    assert(there(t, s) =~= t.sent);
    assert forall|q: u32| !(#[trigger] s.doubtful(q, size)) by {
        if s.doubtful(q, size) {
            assert(s.received.contains_key(q));
            assert(belongs(t, s, q));
            assert(s.received.contains_key(t.last));
            assert(q == t.last);
        }
    }
    if size == u64::MAX {
        let fin = s.fin_seq->0;
        receiver::lemma_needed_below(s, fin as nat, size);
        let list = s.needed_below(fin as nat, size);
        if list.len() > 0 {
            let q = list[0];
            assert(list.contains(q));
            assert(s.needed(q, size));
            assert(!s.doubtful(q, size));
            assert(t.sent.contains_key(q) || s.redundant.contains(q) || s.fec_mode == FecMode::Xor
                && s.layout.is_parity(q));
        }
    }
}

// ---------------------------------------------------------------------------
// Packets of the sender keep the receiver faithful
// ---------------------------------------------------------------------------

/// `payload` is a coded packet of the generation from `first` on, under the number `seq`.
pub open spec fn coded_packet_of(
    t: Transfer,
    seq: u32,
    first: u32,
    coeffs: Seq<u8>,
    payload: Seq<u8>,
) -> bool {
    &&& t.groups.contains_key(first)
    &&& first <= seq < first + 0x1_0000
    &&& coeffs.len() == t.groups[first] <= 0xffff
    &&& payload == buffer::be16(coeffs.len() as u16) + buffer::be16(packet::len16(first as nat))
        + coeffs + rlnc::coded(t.source(first), t.source_size(first), coeffs)
}

/// `parity` is that of the group from `start` on, which ends before `end`.
pub open spec fn parity_for(t: Transfer, start: int, end: u32, parity: Seq<u8>) -> bool {
    &&& 0 <= start < end
    &&& t.groups.contains_key(start as u32)
    &&& end == start + t.groups[start as u32]
    &&& parity == fec::parity_of(t.block(start, t.groups[start as u32]))
}

/// The packet is one that the sender makes: a chunk of the file, the parity of a block, a
/// coded packet of a generation, a FIN after all chunks, or one that carries nothing.
pub open spec fn genuine(t: Transfer, s: ReceiverView, header: Header, payload: Seq<u8>) -> bool {
    let seq = header.seq;
    if header.flags.includes(PacketFlags::DATA) {
        t.sent.contains_key(seq) && payload == t.payloads[seq]
    } else if header.flags.includes(PacketFlags::FEC) {
        &&& !t.sent.contains_key(seq)
        &&& heals(s) ==> s.layout.start(seq) >= seq || parity_for(
            t,
            s.layout.start(seq),
            seq,
            payload,
        )
        &&& s.layout.fec_enabled && s.fec_mode == FecMode::Rlnc ==> exists|
            first: u32,
            coeffs: Seq<u8>,
        | #[trigger] coded_packet_of(t, seq, first, coeffs, payload)
    } else if header.flags.includes(PacketFlags::FIN) {
        seq > t.last
    } else {
        true
    }
}

/// The parity that is kept is that of payloads of the file.
pub open spec fn parity_sound(t: Transfer, s: ReceiverView) -> bool {
    forall|b: u32| #[trigger]
        s.parity.contains_key(b) ==> s.parity[b].end <= b || parity_for(
            t,
            b as int,
            s.parity[b].end,
            s.parity[b].data,
        )
}

/// A generation has coded packets of the payloads that it stands for.
pub open spec fn generation_sound(t: Transfer, first: u32, g: GenerationView) -> bool {
    &&& t.groups.contains_key(first)
    &&& g.k == t.groups[first]
    &&& g.size == t.source_size(first)
    &&& forall|i: int|
        0 <= i < g.packets.len() ==> (#[trigger] g.packets[i]).1 == rlnc::coded(
            t.source(first),
            t.source_size(first),
            g.packets[i].0,
        )
}

/// All generations are sound.
pub open spec fn generations_sound(t: Transfer, s: ReceiverView) -> bool {
    forall|f: u32| #[trigger]
        s.generations.contains_key(f) ==> generation_sound(t, f, s.generations[f])
}

/// The receiver has nothing but what belongs to the file.
pub open spec fn sound(t: Transfer, s: ReceiverView) -> bool {
    &&& faithful(t, s)
    &&& apart(t, s)
    &&& heals(s) ==> parity_sound(t, s)
    &&& generations_sound(t, s)
}

/// Settings do not change.
pub open spec fn same_settings(s: ReceiverView, r: ReceiverView) -> bool {
    &&& r.layout == s.layout
    &&& r.fec_mode == s.fec_mode
    &&& r.key == s.key
}

proof fn lemma_joined_insert(m: Map<u32, Seq<u8>>, q: u32, data: Seq<u8>, n: nat)
    requires
        !m.contains_key(q),
    ensures
        output::joined(m.insert(q, data), n).len() == output::joined(m, n).len() + (if 1 <= q
            <= n {
            data.len()
        } else {
            0
        }),
    decreases n,
{
    if n > 0 {
        lemma_joined_insert(m, q, data, (n - 1) as nat);
    }
}

/// What belongs to the file can be put in.
proof fn lemma_stored_faithful(
    t: Transfer,
    s: ReceiverView,
    q: u32,
    payload: Seq<u8>,
    data: Seq<u8>,
    r: ReceiverView,
)
    requires
        t.wf(s.key),
        faithful(t, s),
        t.sent.contains_key(q),
        extends(payload, t.payloads[q]),
        t.sent[q].len() <= data.len(),
        t.tight(q) || !r.guessed.contains(q) ==> data == t.sent[q],
        t.level() && q == t.last ==> data.len() <= t.sent[q].len() + t.slack,
        s.key is None ==> data == payload,
        r.key == s.key,
        r.received == s.stored(q, payload, data).received,
        r.payloads == s.stored(q, payload, data).payloads,
        r.received_bytes == s.stored(q, payload, data).received_bytes,
        ({
            ||| r.guessed == s.guessed.insert(q) && r.fec_recoveries == s.fec_recoveries + 1
            ||| r.guessed == s.guessed.remove(q) && r.fec_recoveries == s.fec_recoveries
        }),
    ensures
        faithful(t, r),
{
    if s.received.contains_key(q) {
        assert(there(t, r) =~= there(t, s));
    } else {
        lemma_joined_insert(there(t, s), q, t.sent[q], t.last as nat);
        assert(there(t, r) =~= there(t, s).insert(q, t.sent[q]));
    }
    assert forall|x: u32| #[trigger] r.received.contains_key(x) implies belongs(t, r, x) by {
        if x != q {
            assert(s.received.contains_key(x));
            assert(belongs(t, s, x));
        }
    }
    assert forall|x: u32| #[trigger] r.guessed.contains(x) implies r.received.contains_key(x) by {
        if x != q {
            assert(s.guessed.contains(x));
        }
    }
    if r.fec_recoveries == 0 {
        assert(r.guessed =~= Set::<u32>::empty());
    }
}

/// A payload that was computed from others of its group is put in as far as it can be
/// decrypted.
proof fn lemma_computed_sound(t: Transfer, s: ReceiverView, f: u32, q: u32, payload: Seq<u8>)
    requires
        t.wf(s.key),
        sound(t, s),
        t.sent.contains_key(q),
        t.in_group(f, q),
        extends(payload, t.payloads[q]),
        payload.len() == t.source_size(f),
    ensures
        sound(t, s.computed(q, payload)),
        same_settings(s, s.computed(q, payload)),
{
    match crypto::contents(s.key, payload) {
        None => {},
        Some(data) => {
            let r = s.computed(q, payload);
            lemma_payload_len(t, s.key, q);
            if t.tight(q) {
                assert(payload =~= t.payloads[q]);
            }
            lemma_stored_faithful(t, s, q, payload, data, r);
            assert(r.parity == s.parity && r.generations == s.generations);
        },
    }
}

/// What is listed as absent is what was not received.
proof fn lemma_absent(s: ReceiverView, from: int, n: nat)
    requires
        0 <= from,
        from + n <= 0x1_0000_0000,
    ensures
        forall|q: u32| #[trigger]
            s.absent(from, n).contains(q) <==> from <= q < from + n && !s.received.contains_key(q),
        s.absent(from, n).no_duplicates(),
    decreases n,
{
    if n > 0 {
        let m = (n - 1) as nat;
        lemma_absent(s, from, m);
        let rest = s.absent(from, m);
        let all = s.absent(from, n);
        let x = (from + n - 1) as u32;
        assert(!rest.contains(x));
        assert forall|q: u32| #[trigger] all.contains(q) <==> from <= q < from + n
            && !s.received.contains_key(q) by {
            assert(rest.contains(q) <==> from <= q < from + m && !s.received.contains_key(q));
            if !s.received.contains_key(x) {
                assert(all == rest.push(x));
                assert(all.last() == x);
                if rest.contains(q) {
                    let i = choose|i: int| 0 <= i < rest.len() && rest[i] == q;
                    assert(all[i] == q);
                }
            }
        }
        assert forall|i: int, j: int|
            0 <= i < all.len() && 0 <= j < all.len() && i != j implies all[i] != all[j] by {
            if i == rest.len() {
                assert(rest.contains(rest[j]));
            } else if j == rest.len() {
                assert(rest.contains(rest[i]));
            }
        }
    }
}

/// Zeros behind a payload do not count in a sum.
proof fn lemma_extends_byte(data: Seq<u8>, chunk: Seq<u8>, j: int)
    requires
        extends(data, chunk),
        0 <= j,
    ensures
        buffer::byte_at(data, j) == buffer::byte_at(chunk, j),
{
    if j < data.len() {
        assert(data[j] == buffer::padded(chunk, data.len())[j]);
    }
}

/// What was received of a block with one packet missing makes up, with that packet, the
/// sum of the block.
proof fn lemma_present_sum(t: Transfer, s: ReceiverView, start: int, x: int, n: nat, j: int)
    requires
        faithful(t, s),
        0 <= start,
        start + n <= u32::MAX,
        0 <= j,
        0 <= x,
        !s.received.contains_key((start + x) as u32),
        forall|i: int| 0 <= i < n && i != x ==> s.received.contains_key(
            #[trigger] ((start + i) as u32),
        ),
    ensures
        x >= n ==> fec::xor_at(s.present(start, n), j) == fec::xor_at(t.block(start, n), j),
        x < n ==> fec::xor_at(s.present(start, n), j) ^ buffer::byte_at(
            t.payloads[(start + x) as u32],
            j,
        ) == fec::xor_at(t.block(start, n), j),
    decreases n,
{
    if n > 0 {
        let m = (n - 1) as nat;
        let q = (start + m) as u32;
        lemma_present_sum(t, s, start, x, m, j);
        let rest = s.present(start, m);
        let all = s.present(start, n);
        let blk = t.block(start, n);
        assert(blk.drop_last() =~= t.block(start, m));
        assert(blk.last() == t.payloads[q]);
        let a = fec::xor_at(rest, j);
        let z = buffer::byte_at(t.payloads[q], j);
        if m == x {
            assert(all == rest);
        } else {
            assert(s.received.contains_key((start + m) as u32));
            assert(all == rest.push(s.payloads[q]));
            assert(all.drop_last() =~= rest);
            assert(all.last() == s.payloads[q]);
            assert(belongs(t, s, q));
            lemma_extends_byte(s.payloads[q], t.payloads[q], j);
            let l = buffer::byte_at(t.payloads[(start + x) as u32], j);
            assert((a ^ z) ^ l == (a ^ l) ^ z) by (bit_vector);
        }
    }
}

/// A payload is as much longer than its chunk as encryption makes it.
proof fn lemma_payload_len(t: Transfer, key: Option<Seq<u8>>, q: u32)
    requires
        t.wf(key),
        t.sent.contains_key(q),
    ensures
        t.payloads[q].len() == t.sent[q].len() + crypto::overhead(key),
{
    assert(crypto::contents(key, t.payloads[q]) == Some(t.sent[q]));
}

/// What the parity of a group leaves over once all but one of its payloads are taken out: the
/// missing payload, with zeros behind it up to the longest of the group.
proof fn lemma_left_over(t: Transfer, s: ReceiverView, f: u32, q: u32, parity: Seq<u8>)
    requires
        t.wf(s.key),
        faithful(t, s),
        t.in_group(f, q),
        parity == fec::parity_of(t.block(f as int, t.groups[f])),
        !s.received.contains_key(q),
        forall|y: u32|
            f <= y < f + t.groups[f] && y != q ==> #[trigger] s.received.contains_key(y),
    ensures
        t.sent.contains_key(q),
        extends(fec::remainder(s.present(f as int, t.groups[f]), parity), t.payloads[q]),
        fec::remainder(s.present(f as int, t.groups[f]), parity).len() == t.source_size(f),
{
    let start = f as int;
    let n = t.groups[f];
    let x = q - start;
    let blk = t.block(start, n);
    let payload = fec::remainder(s.present(start, n), parity);
    assert(t.full(start, n));
    assert(t.sent.contains_key((start + x) as u32));
    assert(blk[x] == t.payloads[q]);
    fec::lemma_beyond_longest(blk);
    assert(blk[x].len() <= fec::longest(blk));
    let want = buffer::padded(t.payloads[q], payload.len());
    assert forall|i: int| 0 <= i < n && i != x implies s.received.contains_key(
        #[trigger] ((start + i) as u32),
    ) by {
        let y = (start + i) as u32;
        assert(f <= y < f + n && y != q);
    }
    assert forall|j: int| 0 <= j < payload.len() implies payload[j] == want[j] by {
        lemma_present_sum(t, s, start, x, n, j);
        let a = fec::xor_at(s.present(start, n), j);
        let l = buffer::byte_at(t.payloads[q], j);
        assert((a ^ l) ^ a == l) by (bit_vector);
    }
    assert(payload =~= want);
}

/// A packet computed from parity is the missing payload, with zeros behind it at most.
proof fn lemma_healed_sound(t: Transfer, s: ReceiverView, seq: u32)
    requires
        t.wf(s.key),
        sound(t, s),
        s.uses_xor(),
        s.layout.in_range(seq),
    ensures
        sound(t, s.healed(seq)),
        same_settings(s, s.healed(seq)),
{
    if s.can_heal(seq) {
        let start = s.layout.start(seq);
        let n = s.block_len(seq);
        let p = s.parity[start as u32];
        layout::lemma_blocks(s.layout, seq);
        assert(n > 0) by {
            if n == 0 {
                assert(s.absent(start, n).len() == 0);
            }
        }
        assert(s.parity.contains_key(start as u32));
        assert(parity_for(t, start, p.end, p.data));
        assert(t.full(start, t.groups[start as u32]));
        let absent = s.absent(start, n);
        lemma_absent(s, start, n);
        let q = absent[0];
        assert(absent.contains(q));
        assert forall|y: u32| start <= y < start + n && y != q implies #[trigger]
            s.received.contains_key(y) by {
            if !s.received.contains_key(y) {
                assert(absent.contains(y));
                let k = choose|k: int| 0 <= k < absent.len() && absent[k] == y;
                assert(k == 0);
            }
        }
        assert(t.in_group(start as u32, q));
        lemma_left_over(t, s, start as u32, q, p.data);
        lemma_computed_sound(
            t,
            s,
            start as u32,
            q,
            fec::remainder(s.present(start, n), p.data),
        );
    }
}

/// Source packets of a generation are its payloads, with zeros behind them at most.
proof fn lemma_source(t: Transfer, first: u32)
    requires
        t.groups_full(),
        t.groups.contains_key(first),
    ensures
        linear::rectangular(t.source(first), t.source_size(first)),
        forall|i: int|
            0 <= i < t.groups[first] ==> {
                let q = #[trigger] ((first + i) as u32);
                &&& t.sent.contains_key(q)
                &&& extends(t.source(first)[i], t.payloads[q])
                &&& t.source(first)[i].len() == t.source_size(first)
            },
{
    let k = t.groups[first];
    let blk = t.block(first as int, k);
    fec::lemma_beyond_longest(blk);
    assert forall|i: int| 0 <= i < k implies {
        let q = #[trigger] ((first + i) as u32);
        &&& t.sent.contains_key(q)
        &&& extends(t.source(first)[i], t.payloads[q])
        &&& t.source(first)[i].len() == t.source_size(first)
    } by {
        let q = (first + i) as u32;
        assert(t.full(first as int, k));
        assert(t.sent.contains_key((first as int + i) as u32));
        assert(blk[i] == t.payloads[q]);
        assert(blk[i].len() <= fec::longest(blk));
    }
}

proof fn lemma_filled_sound(t: Transfer, s: ReceiverView, first: u32, n: nat)
    requires
        t.wf(s.key),
        sound(t, s),
        t.groups.contains_key(first),
        n <= t.groups[first],
    ensures
        sound(t, s.filled(first as int, t.source(first), n)),
        same_settings(s, s.filled(first as int, t.source(first), n)),
    decreases n,
{
    if n > 0 {
        let m = (n - 1) as nat;
        lemma_filled_sound(t, s, first, m);
        let r = s.filled(first as int, t.source(first), m);
        let q = (first + (n - 1)) as u32;
        lemma_source(t, first);
        assert(t.sent.contains_key((first + (n - 1)) as u32));
        assert(t.in_group(first, q));
        if !r.received.contains_key(q) {
            lemma_computed_sound(t, r, first, q, t.source(first)[n - 1]);
        }
    }
}

/// The parts of a coded packet are read back.
proof fn lemma_coded_packet_parts(
    t: Transfer,
    seq: u32,
    first: u32,
    coeffs: Seq<u8>,
    payload: Seq<u8>,
)
    requires
        t.groups_full(),
        coded_packet_of(t, seq, first, coeffs, payload),
    ensures
        payload.len() >= 4 + coeffs.len(),
        buffer::be16_at(payload, 0) == coeffs.len(),
        receiver::first_number(seq, buffer::be16_at(payload, 2), coeffs.len()) == first,
        first + coeffs.len() <= u32::MAX,
        payload.subrange(4, 4 + coeffs.len() as int) == coeffs,
        payload.skip(4 + coeffs.len() as int) == rlnc::coded(
            t.source(first),
            t.source_size(first),
            coeffs,
        ),
{
    let k = coeffs.len() as u16;
    let id = packet::len16(first as nat);
    assert(payload.subrange(0, 2) =~= buffer::be16(k));
    buffer::lemma_be16(k, payload, 0);
    assert(payload.subrange(2, 4) =~= buffer::be16(id));
    buffer::lemma_be16(id, payload, 2);
    receiver::lemma_generation_named(first, seq, coeffs.len());
    assert(payload.subrange(4, 4 + coeffs.len() as int) =~= coeffs);
    assert(payload.skip(4 + coeffs.len() as int) =~= rlnc::coded(
        t.source(first),
        t.source_size(first),
        coeffs,
    ));
}

/// Packets computed from coded packets are missing payloads, with zeros behind them at most.
proof fn lemma_coded_sound(
    t: Transfer,
    s: ReceiverView,
    seq: u32,
    first: u32,
    coeffs: Seq<u8>,
    payload: Seq<u8>,
)
    requires
        t.wf(s.key),
        sound(t, s),
        coded_packet_of(t, seq, first, coeffs, payload),
    ensures
        sound(t, s.coded(seq, payload)),
        same_settings(s, s.coded(seq, payload)),
{
    lemma_coded_packet_parts(t, seq, first, coeffs, payload);
    lemma_source(t, first);
    let size = t.source_size(first);
    let data = rlnc::coded(t.source(first), size, coeffs);
    assert(data.len() == size);
    let g0 = s.generation(first, coeffs.len(), data.len());
    let g = g0.extended(coeffs, data);
    if s.generations.contains_key(first) {
        assert(generation_sound(t, first, s.generations[first]));
    }
    assert(generation_sound(t, first, g)) by {
        assert forall|i: int| 0 <= i < g.packets.len() implies (#[trigger] g.packets[i]).1
            == rlnc::coded(t.source(first), size, g.packets[i].0) by {
            if i < g0.packets.len() {
                assert(g.packets[i] == g0.packets[i]);
            }
        }
    }
    let s1 = ReceiverView { generations: s.generations.insert(first, g), ..s };
    assert(sound(t, s1)) by {
        assert forall|x: u32| #[trigger] s1.generations.contains_key(x) implies generation_sound(
            t,
            x,
            s1.generations[x],
        ) by {
            if x != first {
                assert(s.generations.contains_key(x));
            }
        }
        lemma_faithful_same(t, s, s1);
    }
    if g.solvable() {
        rlnc::lemma_decode_undoes_encode(t.source(first), size, g.packets);
        assert(g.solution() == t.source(first));
        lemma_filled_sound(t, s1, first, g.k);
    }
}

/// What belongs to the file does not depend on what else the receiver knows.
proof fn lemma_faithful_same(t: Transfer, s: ReceiverView, r: ReceiverView)
    requires
        faithful(t, s),
        r.received == s.received,
        r.payloads == s.payloads,
        r.guessed == s.guessed,
        r.received_bytes == s.received_bytes,
        r.fec_recoveries == s.fec_recoveries,
        r.key == s.key,
    ensures
        faithful(t, r),
{
    assert(there(t, r) =~= there(t, s));
    assert forall|x: u32| #[trigger] r.received.contains_key(x) implies belongs(t, r, x) by {
        assert(belongs(t, s, x));
    }
}

/// Whatever packet of the sender comes, and in whatever order: the receiver has nothing
/// but what belongs to the file.
pub proof fn lemma_packets_keep_sound(
    t: Transfer,
    s: ReceiverView,
    header: Header,
    payload: Seq<u8>,
)
    requires
        t.wf(s.key),
        sound(t, s),
        s.numbered(header),
        genuine(t, s, header, payload),
    ensures
        s.processed(header, payload) matches Ok(r) && sound(t, r) && same_settings(s, r),
{
    let seq = header.seq;
    if header.flags.includes(PacketFlags::DATA) {
        let chunk = t.sent[seq];
        lemma_payload_len(t, s.key, seq);
        assert(extends(payload, t.payloads[seq])) by {
            assert(payload =~= buffer::padded(payload, payload.len()));
        }
        let a = s.arrived(seq, payload, chunk);
        lemma_stored_faithful(t, s, seq, payload, chunk, a);
        assert(a.parity == s.parity && a.generations == s.generations);
        assert(sound(t, a));
        if s.uses_xor() {
            lemma_healed_sound(t, a, seq);
        }
    } else if header.flags.includes(PacketFlags::FEC) {
        let a = ReceiverView { nack: s.nack.recorded(seq), ..s };
        lemma_faithful_same(t, s, a);
        if s.layout.fec_enabled {
            let b = ReceiverView { redundant: a.redundant.insert(seq), ..a };
            lemma_faithful_same(t, s, b);
            assert(sound(t, b));
            if s.fec_mode == FecMode::Xor {
                let l = s.layout;
                let start = l.start(seq) as u32;
                layout::lemma_blocks(l, seq);
                if l.block() > 0 {
                    layout::lemma_same_block(l, seq, start);
                }
                let p = b.with_parity(seq, payload);
                lemma_faithful_same(t, s, p);
                if heals(s) {
                    assert(parity_sound(t, p)) by {
                        assert forall|x: u32| #[trigger] p.parity.contains_key(x) implies p.parity[x].end
                            <= x || parity_for(t, x as int, p.parity[x].end, p.parity[x].data) by {
                            if x != start {
                                assert(s.parity.contains_key(x));
                            }
                        }
                    }
                }
                assert(sound(t, p));
                lemma_healed_sound(t, p, start);
            } else {
                let (first, coeffs): (u32, Seq<u8>) = choose|first: u32, coeffs: Seq<u8>|
                    #[trigger] coded_packet_of(t, seq, first, coeffs, payload);
                lemma_coded_sound(t, b, seq, first, coeffs, payload);
            }
        }
    } else if header.flags.includes(PacketFlags::FIN) {
        let a = ReceiverView { fin_seq: Some(seq), ..s };
        lemma_faithful_same(t, s, a);
    }
}

// ---------------------------------------------------------------------------
// From the first packet to the last
// ---------------------------------------------------------------------------

/// Nothing was received yet.
pub open spec fn fresh(s: ReceiverView) -> bool {
    &&& s.received == Map::<u32, Seq<u8>>::empty()
    &&& s.payloads == Map::<u32, Seq<u8>>::empty()
    &&& s.parity == Map::<u32, ParityView>::empty()
    &&& s.generations == Map::<u32, GenerationView>::empty()
    &&& s.redundant == Set::<u32>::empty()
    &&& s.guessed == Set::<u32>::empty()
    &&& s.fin_seq is None
    &&& s.received_bytes == 0
    &&& s.fec_recoveries == 0
}

/// The state after a number of packets.
pub open spec fn after_packets(s: ReceiverView, packets: Seq<(Header, Seq<u8>)>) -> ReceiverView
    decreases packets.len(),
{
    if packets.len() == 0 {
        s
    } else {
        after_packets(s, packets.drop_last()).processed(
            packets.last().0,
            packets.last().1,
        )->Ok_0
    }
}

/// All packets are ones that the sender makes, with numbers that can be dealt with.
pub open spec fn all_genuine(
    t: Transfer,
    s: ReceiverView,
    packets: Seq<(Header, Seq<u8>)>,
) -> bool {
    forall|i: int|
        0 <= i < packets.len() ==> s.numbered((#[trigger] packets[i]).0) && genuine(
            t,
            s,
            packets[i].0,
            packets[i].1,
        )
}

proof fn lemma_joined_none(n: nat)
    ensures
        output::joined(Map::<u32, Seq<u8>>::empty(), n).len() == 0,
    decreases n,
{
    if n > 0 {
        lemma_joined_none((n - 1) as nat);
    }
}

proof fn lemma_run_sound(t: Transfer, s: ReceiverView, packets: Seq<(Header, Seq<u8>)>)
    requires
        t.wf(s.key),
        fresh(s),
        all_genuine(t, s, packets),
    ensures
        sound(t, after_packets(s, packets)),
        same_settings(s, after_packets(s, packets)),
    decreases packets.len(),
{
    if packets.len() == 0 {
        assert(there(t, s) =~= Map::<u32, Seq<u8>>::empty());
        lemma_joined_none(t.last as nat);
    } else {
        let rest = packets.drop_last();
        assert forall|i: int| 0 <= i < rest.len() implies s.numbered((#[trigger] rest[i]).0)
            && genuine(t, s, rest[i].0, rest[i].1) by {
            assert(rest[i] == packets[i]);
        }
        lemma_run_sound(t, s, rest);
        let r = after_packets(s, rest);
        let p = packets.last();
        assert(p == packets[packets.len() - 1]);
        assert(genuine(t, s, p.0, p.1));
        assert(r.uses_xor() == s.uses_xor());
        assert(genuine(t, r, p.0, p.1));
        lemma_packets_keep_sound(t, r, p.0, p.1);
    }
}

/// No packet of the sender is refused.
pub proof fn lemma_packets_accepted(
    t: Transfer,
    s: ReceiverView,
    packets: Seq<(Header, Seq<u8>)>,
    i: int,
)
    requires
        t.wf(s.key),
        fresh(s),
        all_genuine(t, s, packets),
        0 <= i < packets.len(),
    ensures
        after_packets(s, packets.take(i)).processed(packets[i].0, packets[i].1) is Ok,
{
    let before = packets.take(i);
    assert forall|k: int| 0 <= k < before.len() implies s.numbered((#[trigger] before[k]).0)
        && genuine(t, s, before[k].0, before[k].1) by {
        assert(before[k] == packets[k]);
    }
    lemma_run_sound(t, s, before);
    let r = after_packets(s, before);
    assert(genuine(t, s, packets[i].0, packets[i].1));
    assert(r.uses_xor() == s.uses_xor());
    assert(genuine(t, r, packets[i].0, packets[i].1));
    lemma_packets_keep_sound(t, r, packets[i].0, packets[i].1);
}

/// Delivery: from packets of the sender alone, with any of them lost, repeated or out of
/// order, encrypted or not, with parity, coded packets or neither, and whether the size of
/// the file is known or not (`u64::MAX`): a receiver that counts itself complete writes the
/// file that was sent, where zeros behind computed chunks do no harm.
pub proof fn lemma_delivery(
    t: Transfer,
    s: ReceiverView,
    packets: Seq<(Header, Seq<u8>)>,
    size: u64,
)
    requires
        t.wf(s.key),
        fresh(s),
        s.uses_xor() ==> t.beside_parity(s.layout),
        all_genuine(t, s, packets),
        harmless(t, after_packets(s, packets), size),
        size == t.file().len() || size == u64::MAX,
        after_packets(s, packets).complete(size),
    ensures
        output::file_bytes(after_packets(s, packets).received, told(size)) == t.file(),
{
    lemma_run_sound(t, s, packets);
    lemma_complete_gives_file(t, after_packets(s, packets), size);
}

/// Completion: from such packets, a receiver that has all chunks and the FIN counts itself
/// complete, unless the last chunk was computed and nothing tells where it ends. Where the
/// size of the file is not known, every other number before the FIN has to be a place of
/// parity or that of a packet of redundancy that came.
pub proof fn lemma_completion(
    t: Transfer,
    s: ReceiverView,
    packets: Seq<(Header, Seq<u8>)>,
    size: u64,
)
    requires
        t.wf(s.key),
        fresh(s),
        all_genuine(t, s, packets),
        size == t.file().len() || size == u64::MAX,
        after_packets(s, packets).fin_seq is Some,
        forall|q: u32| #[trigger]
            t.sent.contains_key(q) ==> after_packets(s, packets).received.contains_key(q),
        !after_packets(s, packets).guessed.contains(t.last) || s.end_told(size),
        size == u64::MAX ==> accounted(t, after_packets(s, packets)),
    ensures
        after_packets(s, packets).complete(size),
{
    lemma_run_sound(t, s, packets);
    lemma_all_chunks_complete(t, after_packets(s, packets), size);
}

// ---------------------------------------------------------------------------
// What came stays
// ---------------------------------------------------------------------------

/// The chunk under the number `q` came itself.
pub open spec fn certain(s: ReceiverView, q: u32) -> bool {
    s.received.contains_key(q) && !s.guessed.contains(q)
}

proof fn lemma_filled_keeps(s: ReceiverView, first: int, packets: Seq<Seq<u8>>, n: nat, q: u32)
    ensures
        s.received.contains_key(q) ==> s.filled(first, packets, n).received.contains_key(q),
        certain(s, q) ==> certain(s.filled(first, packets, n), q),
        s.filled(first, packets, n).redundant == s.redundant,
        s.filled(first, packets, n).fin_seq == s.fin_seq,
    decreases n,
{
    if n > 0 {
        lemma_filled_keeps(s, first, packets, (n - 1) as nat, q);
    }
}

proof fn lemma_healed_keeps(s: ReceiverView, seq: u32, q: u32)
    requires
        s.layout.in_range(seq),
    ensures
        s.received.contains_key(q) ==> s.healed(seq).received.contains_key(q),
        certain(s, q) ==> certain(s.healed(seq), q),
        s.healed(seq).redundant == s.redundant,
        s.healed(seq).fin_seq == s.fin_seq,
{
    if s.can_heal(seq) {
        let start = s.layout.start(seq);
        let n = s.block_len(seq);
        layout::lemma_blocks(s.layout, seq);
        lemma_absent(s, start, n);
        assert(s.absent(start, n).contains(s.absent(start, n)[0]));
    }
}

/// A packet takes nothing away that came before, and leaves its own mark.
proof fn lemma_processed_keeps(s: ReceiverView, header: Header, payload: Seq<u8>, q: u32)
    requires
        s.processed(header, payload) is Ok,
        s.numbered(header),
    ensures
        ({
            let r = s.processed(header, payload)->Ok_0;
            let data = header.flags.includes(PacketFlags::DATA);
            let fec = !data && header.flags.includes(PacketFlags::FEC);
            let fin = !data && !fec && header.flags.includes(PacketFlags::FIN);
            &&& s.received.contains_key(q) ==> r.received.contains_key(q)
            &&& certain(s, q) ==> certain(r, q)
            &&& s.redundant.subset_of(r.redundant)
            &&& data ==> certain(r, header.seq)
            &&& fec && s.layout.fec_enabled ==> r.redundant.contains(header.seq)
            &&& r.fin_seq == (if fin {
                Some(header.seq)
            } else {
                s.fin_seq
            })
        }),
{
    let seq = header.seq;
    if header.flags.includes(PacketFlags::DATA) {
        let a = s.arrived(seq, payload, crypto::decrypted(s.key, payload)->Ok_0);
        if s.uses_xor() {
            lemma_healed_keeps(a, seq, q);
            lemma_healed_keeps(a, seq, seq);
        }
    } else if header.flags.includes(PacketFlags::FEC) && s.layout.fec_enabled {
        let b = ReceiverView {
            nack: s.nack.recorded(seq),
            redundant: s.redundant.insert(seq),
            ..s
        };
        if s.fec_mode == FecMode::Xor {
            let l = s.layout;
            let start = l.start(seq) as u32;
            layout::lemma_blocks(l, seq);
            if l.block() > 0 {
                layout::lemma_same_block(l, seq, start);
            }
            lemma_healed_keeps(b.with_parity(seq, payload), start, q);
        } else {
            let k = buffer::be16_at(payload, 0);
            let first = receiver::first_number(seq, buffer::be16_at(payload, 2), k as nat);
            if !(payload.len() < 4 || payload.len() < 4 + k) {
                let coeffs = payload.subrange(4, 4 + k);
                let data = payload.skip(4 + k);
                let g = b.generation(first, coeffs.len(), data.len()).extended(
                    coeffs,
                    data,
                );
                let u = ReceiverView { generations: b.generations.insert(first, g), ..b };
                lemma_filled_keeps(u, first as int, g.solution(), g.k, q);
            }
        }
    }
}

/// Every FIN among the packets has this number.
pub open spec fn ends_at(packets: Seq<(Header, Seq<u8>)>, fin: u32) -> bool {
    forall|i: int|
        0 <= i < packets.len() && !(#[trigger] packets[i]).0.flags.includes(PacketFlags::DATA)
            && !packets[i].0.flags.includes(PacketFlags::FEC) && packets[i].0.flags.includes(
            PacketFlags::FIN,
        ) ==> packets[i].0.seq == fin
}

/// A packet that came leaves its mark to the end: the chunk is there and certain, the number
/// of redundancy is known, and so is that of the FIN.
pub proof fn lemma_marks_stay(
    t: Transfer,
    s: ReceiverView,
    packets: Seq<(Header, Seq<u8>)>,
    i: int,
    fin: u32,
)
    requires
        t.wf(s.key),
        fresh(s),
        all_genuine(t, s, packets),
        ends_at(packets, fin),
        0 <= i < packets.len(),
    ensures
        ({
            let r = after_packets(s, packets);
            let h = packets[i].0;
            let data = h.flags.includes(PacketFlags::DATA);
            let fec = !data && h.flags.includes(PacketFlags::FEC);
            &&& data ==> certain(r, h.seq)
            &&& fec && s.layout.fec_enabled ==> r.redundant.contains(h.seq)
            &&& !data && !fec && h.flags.includes(PacketFlags::FIN) ==> r.fin_seq == Some(fin)
        }),
    decreases packets.len(),
{
    let rest = packets.drop_last();
    assert forall|k: int| 0 <= k < rest.len() implies s.numbered((#[trigger] rest[k]).0)
        && genuine(t, s, rest[k].0, rest[k].1) by {
        assert(rest[k] == packets[k]);
    }
    assert(ends_at(rest, fin)) by {
        assert forall|k: int|
            0 <= k < rest.len() && !(#[trigger] rest[k]).0.flags.includes(PacketFlags::DATA)
                && !rest[k].0.flags.includes(PacketFlags::FEC) && rest[k].0.flags.includes(
                PacketFlags::FIN,
            ) implies rest[k].0.seq == fin by {
            assert(rest[k] == packets[k]);
        }
    }
    lemma_run_sound(t, s, rest);
    let r = after_packets(s, rest);
    let p = packets.last();
    assert(p == packets[packets.len() - 1]);
    assert(genuine(t, s, p.0, p.1));
    assert(genuine(t, r, p.0, p.1));
    lemma_packets_keep_sound(t, r, p.0, p.1);
    if i < rest.len() {
        lemma_marks_stay(t, s, rest, i, fin);
        assert(rest[i] == packets[i]);
    }
    lemma_processed_keeps(r, p.0, p.1, packets[i].0.seq);
}

// ---------------------------------------------------------------------------
// What was asked for came
// ---------------------------------------------------------------------------

proof fn lemma_after_all_genuine(
    t: Transfer,
    s: ReceiverView,
    packets: Seq<(Header, Seq<u8>)>,
    n: int,
)
    requires
        all_genuine(t, s, packets),
        0 <= n <= packets.len(),
    ensures
        all_genuine(t, s, packets.take(n)),
{
    let part = packets.take(n);
    assert forall|k: int| 0 <= k < part.len() implies s.numbered((#[trigger] part[k]).0)
        && genuine(t, s, part[k].0, part[k].1) by {
        assert(part[k] == packets[k]);
    }
}

/// What the receiver has after the first packets it has after all of them.
proof fn lemma_kept_to_the_end(
    t: Transfer,
    s: ReceiverView,
    packets: Seq<(Header, Seq<u8>)>,
    n: int,
    q: u32,
)
    requires
        t.wf(s.key),
        fresh(s),
        all_genuine(t, s, packets),
        0 <= n <= packets.len(),
    ensures
        ({
            let a = after_packets(s, packets.take(n));
            let z = after_packets(s, packets);
            &&& a.received.contains_key(q) ==> z.received.contains_key(q)
            &&& certain(a, q) ==> certain(z, q)
            &&& a.redundant.contains(q) ==> z.redundant.contains(q)
        }),
    decreases packets.len(),
{
    if n == packets.len() {
        assert(packets.take(n) =~= packets);
    } else {
        let m = packets.len() - 1;
        let rest = packets.drop_last();
        let p = packets.last();
        assert(rest =~= packets.take(m));
        assert(rest.take(n) =~= packets.take(n));
        lemma_after_all_genuine(t, s, packets, m);
        lemma_kept_to_the_end(t, s, rest, n, q);
        lemma_packets_accepted(t, s, packets, m);
        assert(p == packets[m]);
        lemma_run_sound(t, s, rest);
        let r = after_packets(s, rest);
        lemma_processed_keeps(r, p.0, p.1, q);
    }
}

/// A packet under the number `q` is among the packets: the chunk, or redundancy where there
/// is no chunk.
pub open spec fn answered(
    t: Transfer,
    s: ReceiverView,
    packets: Seq<(Header, Seq<u8>)>,
    q: u32,
) -> bool {
    exists|i: int|
        {
            &&& 0 <= i < packets.len()
            &&& (#[trigger] packets[i]).0.seq == q
            &&& t.sent.contains_key(q) ==> packets[i].0.flags.includes(PacketFlags::DATA)
            &&& !t.sent.contains_key(q) ==> s.layout.fec_enabled && !packets[i].0.flags.includes(
                PacketFlags::DATA,
            ) && packets[i].0.flags.includes(PacketFlags::FEC)
        }
}

/// Completion on request: once the FIN came, and after it a packet under each number that
/// was then needed, the receiver counts itself complete, whatever else was lost.
pub proof fn lemma_answered_completes(
    t: Transfer,
    s: ReceiverView,
    packets: Seq<(Header, Seq<u8>)>,
    more: Seq<(Header, Seq<u8>)>,
    fin: u32,
    size: u64,
)
    requires
        t.wf(s.key),
        fresh(s),
        s.uses_xor() ==> t.beside_parity(s.layout),
        all_genuine(t, s, packets + more),
        ends_at(packets + more, fin),
        after_packets(s, packets).fin_seq == Some(fin),
        forall|q: u32| #[trigger]
            after_packets(s, packets).needed_below(fin as nat, size).contains(q) ==> answered(
                t,
                s,
                more,
                q,
            ),
        size == t.file().len() || size == u64::MAX,
    ensures
        after_packets(s, packets + more).complete(size),
{
    let all = packets + more;
    let n = packets.len() as int;
    let r = after_packets(s, packets);
    let z = after_packets(s, all);
    let list = r.needed_below(fin as nat, size);
    assert(all.take(n) =~= packets);
    lemma_after_all_genuine(t, s, all, n);
    lemma_run_sound(t, s, packets);
    lemma_run_sound(t, s, all);
    receiver::lemma_needed_below(r, fin as nat, size);
    lemma_fin_kept(t, s, all, n, fin);
    assert forall|q: u32| #[trigger] list.contains(q) implies (t.sent.contains_key(q) ==> certain(
        z,
        q,
    )) && (!t.sent.contains_key(q) ==> z.redundant.contains(q)) by {
        assert(answered(t, s, more, q));
        let i = choose|i: int|
            {
                &&& 0 <= i < more.len()
                &&& (#[trigger] more[i]).0.seq == q
                &&& t.sent.contains_key(q) ==> more[i].0.flags.includes(PacketFlags::DATA)
                &&& !t.sent.contains_key(q) ==> s.layout.fec_enabled && !more[i].0.flags.includes(
                    PacketFlags::DATA,
                ) && more[i].0.flags.includes(PacketFlags::FEC)
            };
        assert(all[n + i] == more[i]);
        lemma_marks_stay(t, s, all, n + i, fin);
    }
    assert forall|q: u32| #[trigger] r.received.contains_key(q) implies q <= t.last by {
        assert(belongs(t, r, q));
    }
    assert forall|q: u32| #[trigger] t.sent.contains_key(q) implies z.received.contains_key(q) by {
        lemma_kept_to_the_end(t, s, all, n, q);
        if !r.received.contains_key(q) {
            assert(r.needed(q, size));
            assert(list.contains(q));
        }
    }
    assert(!z.guessed.contains(t.last) || s.end_told(size)) by {
        if !s.end_told(size) {
            lemma_kept_to_the_end(t, s, all, n, t.last);
            if !r.received.contains_key(t.last) || r.guessed.contains(t.last) {
                if r.received.contains_key(t.last) {
                    assert(r.doubtful(t.last, size));
                }
                assert(r.needed(t.last, size));
                assert(list.contains(t.last));
            }
        }
    }
    assert(accounted(t, z)) by {
        assert forall|q: u32| 1 <= q < z.fin_seq->0 implies #[trigger] t.sent.contains_key(q)
            || z.redundant.contains(q) || z.fec_mode == FecMode::Xor && z.layout.is_parity(q) by {
            if !t.sent.contains_key(q) && !(s.fec_mode == FecMode::Xor && s.layout.is_parity(q)) {
                lemma_kept_to_the_end(t, s, all, n, q);
                if r.received.contains_key(q) {
                    assert(belongs(t, r, q));
                }
                if !r.redundant.contains(q) {
                    assert(r.lost(q));
                    assert(r.needed(q, size));
                    assert(list.contains(q));
                }
            }
        }
    }
    lemma_completion(t, s, all, size);
}

/// The FIN that came is known to the end.
proof fn lemma_fin_kept(
    t: Transfer,
    s: ReceiverView,
    packets: Seq<(Header, Seq<u8>)>,
    n: int,
    fin: u32,
)
    requires
        t.wf(s.key),
        fresh(s),
        all_genuine(t, s, packets),
        ends_at(packets, fin),
        0 <= n <= packets.len(),
        after_packets(s, packets.take(n)).fin_seq == Some(fin),
    ensures
        after_packets(s, packets).fin_seq == Some(fin),
    decreases packets.len(),
{
    if n == packets.len() {
        assert(packets.take(n) =~= packets);
    } else {
        let m = packets.len() - 1;
        let rest = packets.drop_last();
        let p = packets.last();
        assert(rest =~= packets.take(m));
        assert(rest.take(n) =~= packets.take(n));
        lemma_after_all_genuine(t, s, packets, m);
        assert forall|k: int|
            0 <= k < rest.len() && !(#[trigger] rest[k]).0.flags.includes(PacketFlags::DATA)
                && !rest[k].0.flags.includes(PacketFlags::FEC) && rest[k].0.flags.includes(
                PacketFlags::FIN,
            ) implies rest[k].0.seq == fin by {
            assert(rest[k] == packets[k]);
        }
        lemma_fin_kept(t, s, rest, n, fin);
        lemma_packets_accepted(t, s, packets, m);
        lemma_run_sound(t, s, rest);
        assert(p == packets[m]);
        lemma_processed_keeps(after_packets(s, rest), p.0, p.1, fin);
    }
}

// ---------------------------------------------------------------------------
// Recovery takes place
// ---------------------------------------------------------------------------

/// All of the `n` numbers from `start` on were received but `q`.
pub open spec fn all_but(s: ReceiverView, start: int, n: nat, q: u32) -> bool {
    forall|y: u32| start <= y < start + n && y != q ==> #[trigger] s.received.contains_key(y)
}

/// Where all of a block were received but one, that one is what is absent.
proof fn lemma_one_absent(s: ReceiverView, start: int, n: nat, q: u32)
    requires
        0 <= start <= q < start + n,
        start + n <= 0x1_0000_0000,
        all_but(s, start, n, q),
        !s.received.contains_key(q),
    ensures
        s.absent(start, n) == seq![q],
{
    lemma_absent(s, start, n);
    let list = s.absent(start, n);
    assert(list.contains(q));
    let k = choose|k: int| 0 <= k < list.len() && list[k] == q;
    assert forall|i: int| 0 <= i < list.len() implies list[i] == q by {
        assert(list.contains(list[i]));
    }
    assert(list.len() == 1) by {
        if list.len() > 1 {
            assert(list[0] == list[1]);
        }
    }
    assert(list =~= seq![q]);
}

/// With the payload that was computed, the payloads of a block add up to its parity.
proof fn lemma_block_adds_up(
    s: ReceiverView,
    payloads: Map<u32, Seq<u8>>,
    start: int,
    x: int,
    n: nat,
    j: int,
)
    requires
        0 <= start,
        start + n <= 0x1_0000_0000,
        0 <= x,
        !s.received.contains_key((start + x) as u32),
        forall|i: int|
            0 <= i < n && i != x ==> s.received.contains_key(#[trigger] ((start + i) as u32))
                && payloads[(start + i) as u32] == s.payloads[(start + i) as u32],
    ensures
        x >= n ==> fec::xor_at(s.present(start, n), j) == fec::xor_at(
            Seq::new(n, |i: int| payloads[(start + i) as u32]),
            j,
        ),
        x < n ==> fec::xor_at(s.present(start, n), j) ^ buffer::byte_at(
            payloads[(start + x) as u32],
            j,
        ) == fec::xor_at(Seq::new(n, |i: int| payloads[(start + i) as u32]), j),
    decreases n,
{
    if n > 0 {
        let m = (n - 1) as nat;
        let q = (start + m) as u32;
        lemma_block_adds_up(s, payloads, start, x, m, j);
        let rest = s.present(start, m);
        let all = s.present(start, n);
        let blk = Seq::new(n, |i: int| payloads[(start + i) as u32]);
        assert(blk.drop_last() =~= Seq::new(m, |i: int| payloads[(start + i) as u32]));
        let a = fec::xor_at(rest, j);
        let z = buffer::byte_at(payloads[q], j);
        if m == x {
            assert(all == rest);
        } else {
            assert(s.received.contains_key((start + m) as u32));
            assert(all.drop_last() =~= rest);
            let l = buffer::byte_at(payloads[(start + x) as u32], j);
            assert((a ^ z) ^ l == (a ^ l) ^ z) by (bit_vector);
        }
    }
}

/// The block of a number: for blocks of any size, the numbers from one to its parity.
proof fn lemma_block_start(l: FecLayout, j: int, x: int)
    requires
        0 < l.fec_block_size < u32::MAX,
        0 <= j,
        0 <= x <= l.fec_block_size,
        j * (l.fec_block_size + 1) + 1 + x <= u32::MAX,
    ensures
        l.block() == l.fec_block_size,
        l.start((j * (l.fec_block_size + 1) + 1 + x) as u32) == j * (l.fec_block_size + 1) + 1,
{
    let b = l.fec_block_size as int;
    vstd::arithmetic::div_mod::lemma_small_mod(b as nat, 0x1_0000_0000);
    assert(0 <= j * (b + 1)) by (nonlinear_arith)
        requires
            0 <= j,
            0 < b,
    ;
    assert(j * (b + 1) == (b + 1) * j) by (nonlinear_arith);
    vstd::arithmetic::div_mod::lemma_fundamental_div_mod_converse(
        j * (b + 1) + x,
        b + 1,
        j,
        x,
    );
}

/// A state with the parity of a block in which one packet lacks: that packet is computed, and
/// makes the block add up to its parity.
proof fn lemma_heals(p: ReceiverView, j: int, n: nat, x: int, seq: u32)
    requires
        p.layout.fec_enabled,
        p.fec_mode == FecMode::Xor,
        0 < p.layout.fec_block_size < u32::MAX,
        0 <= j,
        0 <= x < n <= p.layout.fec_block_size,
        j * (p.layout.fec_block_size + 1) + 1 + p.layout.fec_block_size <= u32::MAX,
        ({
            let start = j * (p.layout.fec_block_size + 1) + 1;
            let q = (start + x) as u32;
            &&& start <= seq <= start + p.layout.fec_block_size
            &&& p.parity.contains_key(start as u32)
            &&& p.parity[start as u32].end == start + n
            &&& all_but(p, start, n, q)
            &&& !p.received.contains_key(q)
            &&& crypto::contents(
                p.key,
                fec::remainder(p.present(start, n), p.parity[start as u32].data),
            ) is Some
        }),
    ensures
        ({
            let start = j * (p.layout.fec_block_size + 1) + 1;
            let q = (start + x) as u32;
            let r = p.healed(seq);
            let parity = p.parity[start as u32].data;
            &&& r.received.contains_key(q)
            &&& r.payloads[q].len() == parity.len()
            &&& Some(r.received[q]) == crypto::contents(p.key, r.payloads[q])
            &&& r.fec_recoveries == p.fec_recoveries + 1
            &&& forall|y: u32| y != q ==> r.received.contains_key(y) == p.received.contains_key(y)
                && #[trigger] r.received[y] == p.received[y]
            &&& forall|i: int|
                0 <= i < parity.len() ==> fec::xor_at(
                    Seq::new(n, |k: int| r.payloads[(start + k) as u32]),
                    i,
                ) == #[trigger] parity[i]
        }),
{
    let b = p.layout.fec_block_size as int;
    let start = j * (b + 1) + 1;
    let q = (start + x) as u32;
    assert(0 <= j * (b + 1)) by (nonlinear_arith)
        requires
            0 <= j,
            0 < b,
    ;
    lemma_block_start(p.layout, j, seq - start);
    lemma_one_absent(p, start, n, q);
    let parity = p.parity[start as u32].data;
    let r = p.healed(seq);
    assert(p.block_len(seq) == n);
    assert(p.can_heal(seq));
    let lost = fec::remainder(p.present(start, n), parity);
    assert(r.payloads[q] == lost);
    assert forall|i: int| 0 <= i < parity.len() implies fec::xor_at(
        Seq::new(n, |k: int| r.payloads[(start + k) as u32]),
        i,
    ) == #[trigger] parity[i] by {
        assert forall|k: int| 0 <= k < n && k != x implies p.received.contains_key(
            #[trigger] ((start + k) as u32),
        ) && r.payloads[(start + k) as u32] == p.payloads[(start + k) as u32] by {
            assert((start + k) as u32 != q);
        }
        lemma_block_adds_up(p, r.payloads, start, x, n, i);
        let a = fec::xor_at(p.present(start, n), i);
        let c = parity[i];
        assert(a ^ (c ^ a) == c) by (bit_vector);
    }
}

/// Recovery when the parity comes: for blocks of any size, any number of packets that the
/// parity covers, and any one of them that lacks. Once all others are there, the parity gives
/// it: the payload with which the block adds up to the parity, byte by byte.
pub proof fn lemma_parity_recovers(
    s: ReceiverView,
    header: Header,
    payload: Seq<u8>,
    j: int,
    n: nat,
    x: int,
)
    requires
        s.layout.fec_enabled,
        s.fec_mode == FecMode::Xor,
        s.key is None,
        0 < s.layout.fec_block_size < u32::MAX,
        0 <= j,
        0 <= x < n <= s.layout.fec_block_size,
        j * (s.layout.fec_block_size + 1) + 1 + s.layout.fec_block_size <= u32::MAX,
        !header.flags.includes(PacketFlags::DATA),
        header.flags.includes(PacketFlags::FEC),
        header.seq == j * (s.layout.fec_block_size + 1) + 1 + n,
        all_but(
            s,
            j * (s.layout.fec_block_size + 1) + 1,
            n,
            (j * (s.layout.fec_block_size + 1) + 1 + x) as u32,
        ),
        !s.received.contains_key((j * (s.layout.fec_block_size + 1) + 1 + x) as u32),
    ensures
        ({
            let start = j * (s.layout.fec_block_size + 1) + 1;
            let q = (start + x) as u32;
            &&& s.processed(header, payload) is Ok
            &&& s.processed(header, payload)->Ok_0.received.contains_key(q)
            &&& s.processed(header, payload)->Ok_0.received[q].len() == payload.len()
            &&& s.processed(header, payload)->Ok_0.payloads[q]
                == s.processed(header, payload)->Ok_0.received[q]
            &&& s.processed(header, payload)->Ok_0.fec_recoveries == s.fec_recoveries + 1
            &&& forall|i: int|
                0 <= i < payload.len() ==> fec::xor_at(
                    Seq::new(
                        n,
                        |k: int|
                            s.processed(header, payload)->Ok_0.payloads[(start + k) as u32],
                    ),
                    i,
                ) == #[trigger] payload[i]
        }),
{
    let b = s.layout.fec_block_size as int;
    let start = j * (b + 1) + 1;
    let q = (start + x) as u32;
    assert(0 <= j * (b + 1)) by (nonlinear_arith)
        requires
            0 <= j,
            0 < b,
    ;
    let a = ReceiverView {
        nack: s.nack.recorded(header.seq),
        redundant: s.redundant.insert(header.seq),
        ..s
    };
    let p = a.with_parity(header.seq, payload);
    lemma_block_start(s.layout, j, n as int);
    lemma_heals(p, j, n, x, start as u32);
    assert(s.processed(header, payload) == Ok::<ReceiverView, crypto::CryptoError>(
        p.healed(start as u32),
    ));
}

/// Recovery when a data packet comes: with the parity there and one more packet lacking than
/// this one, that other packet is recovered.
pub proof fn lemma_data_recovers(
    s: ReceiverView,
    header: Header,
    payload: Seq<u8>,
    j: int,
    n: nat,
    x: int,
)
    requires
        s.layout.fec_enabled,
        s.fec_mode == FecMode::Xor,
        s.key is None,
        0 < s.layout.fec_block_size < u32::MAX,
        0 <= j,
        0 <= x < n <= s.layout.fec_block_size,
        j * (s.layout.fec_block_size + 1) + 1 + s.layout.fec_block_size <= u32::MAX,
        header.flags.includes(PacketFlags::DATA),
        j * (s.layout.fec_block_size + 1) + 1 <= header.seq < j * (s.layout.fec_block_size + 1) + 1
            + n,
        header.seq != j * (s.layout.fec_block_size + 1) + 1 + x,
        s.parity.contains_key((j * (s.layout.fec_block_size + 1) + 1) as u32),
        s.parity[(j * (s.layout.fec_block_size + 1) + 1) as u32].end == j * (
        s.layout.fec_block_size + 1) + 1 + n,
        all_but(
            ReceiverView { received: s.received.insert(header.seq, payload), ..s },
            j * (s.layout.fec_block_size + 1) + 1,
            n,
            (j * (s.layout.fec_block_size + 1) + 1 + x) as u32,
        ),
        !s.received.contains_key((j * (s.layout.fec_block_size + 1) + 1 + x) as u32),
    ensures
        ({
            let start = j * (s.layout.fec_block_size + 1) + 1;
            let q = (start + x) as u32;
            let parity = s.parity[start as u32].data;
            &&& s.processed(header, payload) is Ok
            &&& s.processed(header, payload)->Ok_0.received.contains_key(q)
            &&& s.processed(header, payload)->Ok_0.received[q].len() == parity.len()
            &&& s.processed(header, payload)->Ok_0.received[header.seq] == payload
            &&& s.processed(header, payload)->Ok_0.payloads[q]
                == s.processed(header, payload)->Ok_0.received[q]
            &&& forall|i: int|
                0 <= i < parity.len() ==> fec::xor_at(
                    Seq::new(
                        n,
                        |k: int|
                            s.processed(header, payload)->Ok_0.payloads[(start + k) as u32],
                    ),
                    i,
                ) == #[trigger] parity[i]
        }),
{
    let b = s.layout.fec_block_size as int;
    let start = j * (b + 1) + 1;
    let q = (start + x) as u32;
    assert(0 <= j * (b + 1)) by (nonlinear_arith)
        requires
            0 <= j,
            0 < b,
    ;
    let p = s.arrived(header.seq, payload, payload);
    let w = ReceiverView { received: s.received.insert(header.seq, payload), ..s };
    assert(all_but(w, start, n, q));
    assert forall|y: u32| start <= y < start + n && y != q implies #[trigger]
        p.received.contains_key(y) by {
        assert(w.received.contains_key(y));
    }
    lemma_heals(p, j, n, x, header.seq);
    assert(s.processed(header, payload) == Ok::<ReceiverView, crypto::CryptoError>(
        p.healed(header.seq),
    ));
}

/// Groups lie in blocks: each starts where its block does, and is no longer than a block.
pub open spec fn aligned(t: Transfer, l: FecLayout) -> bool {
    forall|f: u32| #[trigger]
        t.groups.contains_key(f) ==> f >= 1 && l.start(f) == f && t.groups[f] <= l.block() && f
            + l.block() <= u32::MAX
}

/// The packet lacks in a group only as long as the parity or another packet does.
pub open spec fn settled(t: Transfer, r: ReceiverView, f: u32, q: u32) -> bool {
    r.parity.contains_key(f) && all_but(r, f as int, t.groups[f], q) ==> r.received.contains_key(q)
}

/// What a packet of a group that is not `f` makes the receiver compute is not of group `f`.
proof fn lemma_other_group(t: Transfer, p: ReceiverView, seq: u32, f: u32, q: u32)
    requires
        t.wf(p.key),
        sound(t, p),
        heals(p),
        aligned(t, p.layout),
        p.layout.in_range(seq),
        t.in_group(f, q),
        p.layout.start(seq) != f,
        settled(t, p, f, q),
    ensures
        settled(t, p.healed(seq), f, q),
{
    let z = p.healed(seq);
    if p.can_heal(seq) {
        let start = p.layout.start(seq);
        let n = p.block_len(seq);
        layout::lemma_blocks(p.layout, seq);
        let w = p.absent(start, n)[0];
        assert(n > 0) by {
            if n == 0 {
                assert(p.absent(start, n).len() == 0);
            }
        }
        assert(p.parity.contains_key(start as u32));
        assert(parity_for(t, start, p.parity[start as u32].end, p.parity[start as u32].data));
        assert(t.groups.contains_key(start as u32));
        lemma_absent(p, start, n);
        assert(p.absent(start, n).contains(w));
        layout::lemma_same_block(p.layout, start as u32, w);
        assert(!(f <= w < f + t.groups[f])) by {
            if f <= w < f + t.groups[f] {
                layout::lemma_same_block(p.layout, f, w);
            }
        }
        if z.parity.contains_key(f) && all_but(z, f as int, t.groups[f], q) {
            assert forall|y: u32| f <= y < f + t.groups[f] && y != q implies #[trigger]
                p.received.contains_key(y) by {
                assert(z.received.contains_key(y));
            }
        }
    }
}

/// A group with its parity settles: what lacks alone is computed.
proof fn lemma_group_settles(t: Transfer, p: ReceiverView, seq: u32, f: u32, q: u32)
    requires
        t.wf(p.key),
        sound(t, p),
        heals(p),
        aligned(t, p.layout),
        p.layout.in_range(seq),
        t.in_group(f, q),
        p.layout.start(seq) == f,
        p.key is None || t.tight(q),
        parity_whole(t, p, f),
    ensures
        settled(t, p.healed(seq), f, q),
{
    let z = p.healed(seq);
    let n = t.groups[f];
    if p.parity.contains_key(f) && !z.received.contains_key(q) && all_but(z, f as int, n, q) {
        let end = p.parity[f].end;
        let parity = p.parity[f].data;
        assert(end <= f || parity_for(t, f as int, end, parity));
        assert(t.groups[f] > 0);
        if end > f {
            assert(p.block_len(seq) == n);
            if p.can_heal(seq) {
                lemma_absent(p, f as int, n);
                let w = p.absent(f as int, n)[0];
                assert(p.absent(f as int, n).contains(w));
                if w != q {
                    if !p.received.contains_key(q) {
                        assert(p.absent(f as int, n).contains(q));
                    }
                } else {
                    assert forall|y: u32| f <= y < f + n && y != q implies #[trigger]
                        p.received.contains_key(y) by {
                        assert(z.received.contains_key(y));
                    }
                    lemma_left_over(t, p, f, q, parity);
                    let payload = fec::remainder(p.present(f as int, n), parity);
                    if p.key is Some {
                        assert(payload =~= t.payloads[q]);
                    }
                    assert(crypto::contents(p.key, payload) is Some);
                }
            } else {
                assert(z == p);
                lemma_one_absent(p, f as int, n, q);
            }
        }
    }
}

/// A packet leaves no group unsettled.
proof fn lemma_step_settles(
    t: Transfer,
    s: ReceiverView,
    header: Header,
    payload: Seq<u8>,
    f: u32,
    q: u32,
)
    requires
        t.wf(s.key),
        sound(t, s),
        heals(s),
        aligned(t, s.layout),
        s.numbered(header),
        genuine(t, s, header, payload),
        t.in_group(f, q),
        s.key is None || t.tight(q),
        settled(t, s, f, q),
        parity_whole(t, s, f),
    ensures
        settled(t, s.processed(header, payload)->Ok_0, f, q),
        parity_whole(t, s.processed(header, payload)->Ok_0, f),
{
    let seq = header.seq;
    if header.flags.includes(PacketFlags::DATA) {
        let chunk = t.sent[seq];
        lemma_payload_len(t, s.key, seq);
        let a = s.arrived(seq, payload, chunk);
        assert(extends(payload, t.payloads[seq])) by {
            assert(payload =~= buffer::padded(payload, payload.len()));
        }
        lemma_stored_faithful(t, s, seq, payload, chunk, a);
        assert(sound(t, a));
        if s.layout.start(seq) == f {
            lemma_group_settles(t, a, seq, f, q);
        } else {
            layout::lemma_blocks(s.layout, seq);
            assert(!(f <= seq < f + t.groups[f])) by {
                if f <= seq < f + t.groups[f] {
                    layout::lemma_same_block(s.layout, f, seq);
                }
            }
            assert(settled(t, a, f, q)) by {
                if a.parity.contains_key(f) && all_but(a, f as int, t.groups[f], q) {
                    assert forall|y: u32| f <= y < f + t.groups[f] && y != q implies #[trigger]
                        s.received.contains_key(y) by {
                        assert(a.received.contains_key(y));
                    }
                }
            }
            lemma_other_group(t, a, seq, f, q);
        }
    } else if header.flags.includes(PacketFlags::FEC) {
        let l = s.layout;
        let start = l.start(seq) as u32;
        layout::lemma_blocks(l, seq);
        layout::lemma_same_block(l, seq, start);
        let b = ReceiverView {
            nack: s.nack.recorded(seq),
            redundant: s.redundant.insert(seq),
            ..s
        };
        let p = b.with_parity(seq, payload);
        lemma_faithful_same(t, s, p);
        assert(parity_sound(t, p)) by {
            assert forall|x: u32| #[trigger] p.parity.contains_key(x) implies p.parity[x].end <= x
                || parity_for(t, x as int, p.parity[x].end, p.parity[x].data) by {
                if x != start {
                    assert(s.parity.contains_key(x));
                }
            }
        }
        assert(sound(t, p));
        if start == f {
            assert(t.full(f as int, t.groups[f]));
            assert(t.sent.contains_key((f as int + 0) as u32));
            assert(seq != f);
            assert(parity_for(t, f as int, seq, payload));
            lemma_group_settles(t, p, start, f, q);
        } else {
            assert(settled(t, p, f, q));
            lemma_other_group(t, p, start, f, q);
        }
    }
}

/// The parity that is kept for a group covers it.
pub open spec fn parity_whole(t: Transfer, r: ReceiverView, f: u32) -> bool {
    r.parity.contains_key(f) ==> r.parity[f].end == f + t.groups[f]
}

proof fn lemma_run_settles(
    t: Transfer,
    s: ReceiverView,
    packets: Seq<(Header, Seq<u8>)>,
    f: u32,
    q: u32,
)
    requires
        t.wf(s.key),
        fresh(s),
        all_genuine(t, s, packets),
        heals(s),
        aligned(t, s.layout),
        t.in_group(f, q),
        s.key is None || t.tight(q),
    ensures
        settled(t, after_packets(s, packets), f, q),
        parity_whole(t, after_packets(s, packets), f),
    decreases packets.len(),
{
    if packets.len() > 0 {
        let m = packets.len() - 1;
        let rest = packets.drop_last();
        assert(rest =~= packets.take(m));
        lemma_after_all_genuine(t, s, packets, m);
        lemma_run_settles(t, s, rest, f, q);
        lemma_run_sound(t, s, rest);
        let r = after_packets(s, rest);
        let p = packets.last();
        assert(p == packets[m]);
        assert(genuine(t, s, p.0, p.1));
        assert(genuine(t, r, p.0, p.1));
        lemma_step_settles(t, r, p.0, p.1, f, q);
    }
}

/// Parity that came is kept.
proof fn lemma_parity_stays(
    t: Transfer,
    s: ReceiverView,
    packets: Seq<(Header, Seq<u8>)>,
    i: int,
)
    requires
        t.wf(s.key),
        fresh(s),
        all_genuine(t, s, packets),
        s.uses_xor(),
        0 <= i < packets.len(),
        !packets[i].0.flags.includes(PacketFlags::DATA),
        packets[i].0.flags.includes(PacketFlags::FEC),
    ensures
        after_packets(s, packets).parity.contains_key(s.layout.start(packets[i].0.seq) as u32),
    decreases packets.len(),
{
    let m = packets.len() - 1;
    let rest = packets.drop_last();
    assert(rest =~= packets.take(m));
    lemma_after_all_genuine(t, s, packets, m);
    lemma_run_sound(t, s, rest);
    let r = after_packets(s, rest);
    let p = packets.last();
    assert(p == packets[m]);
    lemma_packets_accepted(t, s, packets, m);
    if i < m {
        assert(rest[i] == packets[i]);
        lemma_parity_stays(t, s, rest, i);
    }
}

/// A data packet with this number is among the packets.
pub open spec fn data_came(packets: Seq<(Header, Seq<u8>)>, y: u32) -> bool {
    exists|i: int|
        0 <= i < packets.len() && (#[trigger] packets[i]).0.seq == y
            && packets[i].0.flags.includes(PacketFlags::DATA)
}

/// Recovery of any one packet of a group, whatever the size of the blocks: once the parity of
/// the group and all of its other packets came, in whatever order, how often and among
/// whatever other packets of the sender, the packet is there. Encrypted, it has to be as long
/// as the longest of its group.
pub proof fn lemma_group_recovered(
    t: Transfer,
    s: ReceiverView,
    packets: Seq<(Header, Seq<u8>)>,
    f: u32,
    q: u32,
    parity_at: int,
)
    requires
        t.wf(s.key),
        fresh(s),
        all_genuine(t, s, packets),
        s.layout.fec_enabled,
        s.fec_mode == FecMode::Xor,
        0 < s.layout.fec_block_size < u32::MAX,
        aligned(t, s.layout),
        t.groups.contains_key(f),
        f <= q < f + t.groups[f],
        s.key is None || t.payloads[q].len() == t.source_size(f) && t.tight(q),
        0 <= parity_at < packets.len(),
        packets[parity_at].0.seq == f + t.groups[f],
        !packets[parity_at].0.flags.includes(PacketFlags::DATA),
        packets[parity_at].0.flags.includes(PacketFlags::FEC),
        forall|y: u32|
            f <= y < f + t.groups[f] && y != q ==> #[trigger] data_came(packets, y),
    ensures
        after_packets(s, packets).received.contains_key(q),
{
    let l = s.layout;
    let r = after_packets(s, packets);
    vstd::arithmetic::div_mod::lemma_small_mod(l.fec_block_size as nat, 0x1_0000_0000);
    lemma_run_settles(t, s, packets, f, q);
    lemma_parity_stays(t, s, packets, parity_at);
    layout::lemma_same_block(l, f, packets[parity_at].0.seq);
    assert forall|y: u32| f <= y < f + t.groups[f] && y != q implies #[trigger]
        r.received.contains_key(y) by {
        assert(data_came(packets, y));
        let i = choose|i: int|
            0 <= i < packets.len() && (#[trigger] packets[i]).0.seq == y
                && packets[i].0.flags.includes(PacketFlags::DATA);
        lemma_data_stays(t, s, packets, i);
    }
}

/// A data packet that came is there to the end.
proof fn lemma_data_stays(
    t: Transfer,
    s: ReceiverView,
    packets: Seq<(Header, Seq<u8>)>,
    i: int,
)
    requires
        t.wf(s.key),
        fresh(s),
        all_genuine(t, s, packets),
        0 <= i < packets.len(),
        packets[i].0.flags.includes(PacketFlags::DATA),
    ensures
        after_packets(s, packets).received.contains_key(packets[i].0.seq),
{
    let head = packets.take(i + 1);
    let before = packets.take(i);
    lemma_after_all_genuine(t, s, packets, i);
    lemma_run_sound(t, s, before);
    lemma_packets_accepted(t, s, packets, i);
    assert(head.drop_last() =~= before);
    assert(head.last() == packets[i]);
    lemma_processed_keeps(
        after_packets(s, before),
        packets[i].0,
        packets[i].1,
        packets[i].0.seq,
    );
    lemma_kept_to_the_end(t, s, packets, i + 1, packets[i].0.seq);
}

// ---------------------------------------------------------------------------
// NACKs between the packets
// ---------------------------------------------------------------------------

/// Two states that differ at most in the record that NACKs go by.
pub open spec fn alike(a: ReceiverView, b: ReceiverView) -> bool {
    a == (ReceiverView { nack: a.nack, ..b })
}

proof fn lemma_alike_block(a: ReceiverView, b: ReceiverView, from: int, n: nat)
    requires
        alike(a, b),
    ensures
        a.absent(from, n) == b.absent(from, n),
        a.present(from, n) == b.present(from, n),
    decreases n,
{
    if n > 0 {
        lemma_alike_block(a, b, from, (n - 1) as nat);
    }
}

proof fn lemma_alike_filled(
    a: ReceiverView,
    b: ReceiverView,
    first: int,
    packets: Seq<Seq<u8>>,
    n: nat,
)
    requires
        alike(a, b),
    ensures
        alike(a.filled(first, packets, n), b.filled(first, packets, n)),
    decreases n,
{
    if n > 0 {
        lemma_alike_filled(a, b, first, packets, (n - 1) as nat);
    }
}

proof fn lemma_alike_healed(a: ReceiverView, b: ReceiverView, seq: u32)
    requires
        alike(a, b),
    ensures
        alike(a.healed(seq), b.healed(seq)),
{
    lemma_alike_block(a, b, a.layout.start(seq), a.block_len(seq));
}

proof fn lemma_alike_doubts(a: ReceiverView, b: ReceiverView, q: u32, size: u64)
    requires
        alike(a, b),
        a.doubtful(q, size),
    ensures
        b.doubtful(q, size),
{
    assert(a.received == b.received);
    assert forall|x: u32| #[trigger] b.received.contains_key(x) implies x <= q by {
        assert(a.received.contains_key(x));
    }
}

proof fn lemma_alike_needs(a: ReceiverView, b: ReceiverView, n: nat, size: u64)
    requires
        alike(a, b),
    ensures
        a.needed_below(n, size) == b.needed_below(n, size),
    decreases n,
{
    if n > 0 {
        lemma_alike_needs(a, b, (n - 1) as nat, size);
        let q = (n - 1) as u32;
        assert(a.lost(q) == b.lost(q));
        assert(alike(b, a));
        if a.doubtful(q, size) {
            lemma_alike_doubts(a, b, q, size);
        }
        if b.doubtful(q, size) {
            lemma_alike_doubts(b, a, q, size);
        }
    }
}

/// Asking for what lacks, between the packets, changes nothing of what packets bring about:
/// the states stay alike, and so does the answer whether all is there.
pub proof fn lemma_asking_between(
    a: ReceiverView,
    b: ReceiverView,
    header: Header,
    payload: Seq<u8>,
    now: u64,
    size: u64,
)
    requires
        alike(a, b),
    ensures
        alike(a.asked(now, size), b),
        a.processed(header, payload) is Ok <==> b.processed(header, payload) is Ok,
        a.processed(header, payload) is Ok ==> alike(
            a.processed(header, payload)->Ok_0,
            b.processed(header, payload)->Ok_0,
        ),
        a.complete(size) == b.complete(size),
{
    let seq = header.seq;
    if let Some(fin) = a.fin_seq {
        lemma_alike_needs(a, b, fin as nat, size);
        assert(alike(b, a));
        if a.in_doubt(size) {
            lemma_alike_doubts(a, b, choose|q: u32| #[trigger] a.doubtful(q, size), size);
        }
        if b.in_doubt(size) {
            lemma_alike_doubts(b, a, choose|q: u32| #[trigger] b.doubtful(q, size), size);
        }
    }
    if header.flags.includes(PacketFlags::DATA) {
        if crypto::decrypted(a.key, payload) is Ok && a.uses_xor() {
            let data = crypto::decrypted(a.key, payload)->Ok_0;
            lemma_alike_healed(a.arrived(seq, payload, data), b.arrived(seq, payload, data), seq);
        }
    } else if header.flags.includes(PacketFlags::FEC) && a.layout.fec_enabled {
        let x = ReceiverView {
            nack: a.nack.recorded(seq),
            redundant: a.redundant.insert(seq),
            ..a
        };
        let y = ReceiverView {
            nack: b.nack.recorded(seq),
            redundant: b.redundant.insert(seq),
            ..b
        };
        if a.fec_mode == FecMode::Xor {
            lemma_alike_healed(
                x.with_parity(seq, payload),
                y.with_parity(seq, payload),
                a.layout.start(seq) as u32,
            );
        } else {
            let k = buffer::be16_at(payload, 0);
            let first = receiver::first_number(seq, buffer::be16_at(payload, 2), k as nat);
            if !(payload.len() < 4 || payload.len() < 4 + k) {
                let coeffs = payload.subrange(4, 4 + k);
                let data = payload.skip(4 + k);
                let g = x.generation(first, coeffs.len(), data.len()).extended(
                    coeffs,
                    data,
                );
                lemma_alike_filled(
                    ReceiverView { generations: x.generations.insert(first, g), ..x },
                    ReceiverView { generations: y.generations.insert(first, g), ..y },
                    first as int,
                    g.solution(),
                    g.k,
                );
            }
        }
    }
}

// ---------------------------------------------------------------------------
// A file without bytes
// ---------------------------------------------------------------------------

/// FINs alone leave nothing behind but their number.
pub proof fn lemma_only_fins(s: ReceiverView, packets: Seq<(Header, Seq<u8>)>, fin: u32)
    requires
        fresh(s),
        ends_at(packets, fin),
        forall|i: int|
            0 <= i < packets.len() ==> (#[trigger] packets[i]).0.flags.includes(PacketFlags::FIN)
                && !packets[i].0.flags.includes(PacketFlags::DATA)
                && !packets[i].0.flags.includes(PacketFlags::FEC),
    ensures
        after_packets(s, packets) == (ReceiverView {
            fin_seq: if packets.len() > 0 {
                Some(fin)
            } else {
                None
            },
            ..s
        }),
    decreases packets.len(),
{
    if packets.len() > 0 {
        let rest = packets.drop_last();
        assert forall|i: int| 0 <= i < rest.len() implies (
        #[trigger] rest[i]).0.flags.includes(PacketFlags::FIN)
            && !rest[i].0.flags.includes(PacketFlags::DATA)
            && !rest[i].0.flags.includes(PacketFlags::FEC) && rest[i].0.seq == fin by {
            assert(rest[i] == packets[i]);
        }
        lemma_only_fins(s, rest, fin);
        assert(packets.last() == packets[packets.len() - 1]);
    }
}

} // verus!
