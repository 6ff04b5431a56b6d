//! The receiving end of a transfer: what each packet does to its state, which sequence
//! numbers it asks for again, when it is done, and what it writes.

use crate::buffer;
use crate::protocol::fec;
use crate::protocol::fec::{FecDecoder, FecMode};
use crate::protocol::linear;
use crate::protocol::nack;
use crate::protocol::nack::{InstantMs, NackState, NackTracker};
use crate::protocol::packet;
use crate::protocol::packet::{Header, Packet, PacketFlags};
use crate::protocol::rlnc;
use crate::protocol::rlnc::RlncDecoder;
use crate::protocol::seq_set::SeqSet;
use crate::transfer::crypto;
use crate::transfer::crypto::{Cipher, CryptoError};
use crate::transfer::layout;
use crate::transfer::layout::FecLayout;
use crate::transfer::output;
use crate::transfer::store;
use crate::transfer::store::PayloadStore;
use std::collections::{HashMap, HashSet};
use std::time::Duration;
use vstd::prelude::*;

verus! {

broadcast use vstd::std_specs::hash::group_hash_axioms;

/// The longest payload that a packet can carry.
pub const MAX_WIRE_PAYLOAD: usize = 65_535;

/// No packet adds more bytes than this to what was received.
pub const MAX_GROWTH: usize = 0x4000_0000;

// ---------------------------------------------------------------------------
// The model
// ---------------------------------------------------------------------------

/// The coded packets of a generation.
pub struct GenerationView {
    /// Number of source packets.
    pub k: nat,
    /// Packet size.
    pub size: nat,
    /// Coefficients and data of the coded packets received.
    pub packets: Seq<(Seq<u8>, Seq<u8>)>,
}

impl GenerationView {
    /// The equations of the coded packets.
    pub open spec fn equations(self) -> Seq<Seq<u8>> {
        rlnc::system(self.packets, self.k, self.size)
    }

    /// There are enough independent coded packets.
    pub open spec fn solvable(self) -> bool {
        self.packets.len() >= self.k && linear::independent(self.equations(), self.k)
    }

    /// The source packets, once they can be solved for.
    pub open spec fn solution(self) -> Seq<Seq<u8>> {
        rlnc::solution(self.equations(), self.k, self.size)
    }

    /// The generation with a coded packet more.
    pub open spec fn extended(self, coeffs: Seq<u8>, data: Seq<u8>) -> GenerationView {
        GenerationView { packets: self.packets.push((coeffs, data)), ..self }
    }

    /// Sizes as a packet's payload allows them.
    pub open spec fn bounded(self) -> bool {
        4 + self.k + self.size <= MAX_WIRE_PAYLOAD
    }
}

/// The parity of a block.
pub struct ParityView {
    /// The sequence number of the parity packet: the block ends before it.
    pub end: u32,
    /// The XOR of the payloads of the block.
    pub data: Seq<u8>,
}

/// The first sequence number of the generation of `k` packets that a coded packet belongs
/// to: the greatest one up to its own that has the 16 bits of the id, or the id itself
/// where there is none with room for the generation behind it.
pub open spec fn first_number(seq: u32, id: u16, k: nat) -> u32 {
    let f = seq - (seq - id) % 0x1_0000;
    if f < 0 || f + k > u32::MAX {
        id as u32
    } else {
        f as u32
    }
}

/// The state of the receiving end.
pub struct ReceiverView {
    pub layout: FecLayout,
    pub fec_mode: FecMode,
    /// The key, if payloads are encrypted.
    pub key: Option<Seq<u8>>,
    pub nack: NackState,
    /// Data by sequence number.
    pub received: Map<u32, Seq<u8>>,
    /// Payloads by sequence number: what the data was decrypted from.
    pub payloads: Map<u32, Seq<u8>>,
    /// Parity by the first sequence number of its block.
    pub parity: Map<u32, ParityView>,
    /// Generations by their first sequence number.
    pub generations: Map<u32, GenerationView>,
    /// Sequence numbers of parity packets and coded packets that came.
    pub redundant: Set<u32>,
    /// Sequence numbers whose data was computed and did not come itself.
    pub guessed: Set<u32>,
    /// The sequence number of the FIN, once it came.
    pub fin_seq: Option<u32>,
    pub total_packets: int,
    pub received_bytes: int,
    pub fec_recoveries: int,
}

impl ReceiverView {
    /// Data under a sequence number. Bytes count when they come for the first time.
    pub open spec fn stored(self, seq: u32, payload: Seq<u8>, data: Seq<u8>) -> ReceiverView {
        ReceiverView {
            received: self.received.insert(seq, data),
            payloads: self.payloads.insert(seq, payload),
            received_bytes: if self.received.contains_key(seq) {
                self.received_bytes
            } else {
                self.received_bytes + data.len()
            },
            ..self
        }
    }

    /// Data that came in a packet.
    pub open spec fn arrived(self, seq: u32, payload: Seq<u8>, data: Seq<u8>) -> ReceiverView {
        ReceiverView {
            nack: self.nack.recorded(seq),
            guessed: self.guessed.remove(seq),
            total_packets: self.total_packets + 1,
            ..self.stored(seq, payload, data)
        }
    }

    /// Data that was missing and was computed from other packets.
    pub open spec fn recovered(self, seq: u32, payload: Seq<u8>, data: Seq<u8>) -> ReceiverView {
        ReceiverView {
            nack: self.nack.recorded(seq),
            guessed: self.guessed.insert(seq),
            fec_recoveries: self.fec_recoveries + 1,
            ..self.stored(seq, payload, data)
        }
    }

    /// A payload that was missing and was computed from other packets. It counts if it can
    /// be decrypted.
    pub open spec fn computed(self, seq: u32, payload: Seq<u8>) -> ReceiverView {
        match crypto::contents(self.key, payload) {
            Some(data) => self.recovered(seq, payload, data),
            None => self,
        }
    }

    /// Those of the `n` numbers from `from` on that were not received.
    pub open spec fn absent(self, from: int, n: nat) -> Seq<u32>
        decreases n,
    {
        if n == 0 {
            Seq::empty()
        } else {
            let rest = self.absent(from, (n - 1) as nat);
            let s = (from + n - 1) as u32;
            if self.received.contains_key(s) {
                rest
            } else {
                rest.push(s)
            }
        }
    }

    /// The payloads under those of the `n` numbers from `from` on that were received.
    pub open spec fn present(self, from: int, n: nat) -> Seq<Seq<u8>>
        decreases n,
    {
        if n == 0 {
            Seq::empty()
        } else {
            let rest = self.present(from, (n - 1) as nat);
            let s = (from + n - 1) as u32;
            if self.received.contains_key(s) {
                rest.push(self.payloads[s])
            } else {
                rest
            }
        }
    }

    /// Parity packets are in use.
    pub open spec fn uses_xor(self) -> bool {
        self.layout.fec_enabled && self.fec_mode == FecMode::Xor
    }

    /// How many packets the parity of the block of `seq` stands for.
    pub open spec fn block_len(self, seq: u32) -> nat {
        let start = self.layout.start(seq);
        let end = self.parity[start as u32].end;
        if end < start {
            0
        } else {
            (end - start) as nat
        }
    }

    /// One packet of the block of `seq` is missing, and there is parity for it.
    pub open spec fn can_heal(self, seq: u32) -> bool {
        let start = self.layout.start(seq);
        &&& self.parity.contains_key(start as u32)
        &&& self.absent(start, self.block_len(seq)).len() == 1
        &&& self.layout.block() == self.layout.fec_block_size
    }

    /// The missing packet of the block of `seq` computed from the parity, where that is
    /// possible.
    pub open spec fn healed(self, seq: u32) -> ReceiverView {
        let start = self.layout.start(seq);
        let n = self.block_len(seq);
        if self.can_heal(seq) {
            self.computed(
                self.absent(start, n)[0],
                fec::remainder(self.present(start, n), self.parity[start as u32].data),
            )
        } else {
            self
        }
    }

    /// The missing ones among the first `n` numbers from `first` on filled in from
    /// `packets`.
    pub open spec fn filled(self, first: int, packets: Seq<Seq<u8>>, n: nat) -> ReceiverView
        decreases n,
    {
        if n == 0 {
            self
        } else {
            let s = self.filled(first, packets, (n - 1) as nat);
            let q = (first + n - 1) as u32;
            if s.received.contains_key(q) {
                s
            } else {
                s.computed(q, packets[n - 1])
            }
        }
    }

    /// The generation with this first number; a new one takes its sizes from the packet at
    /// hand.
    pub open spec fn generation(self, first: u32, k: nat, size: nat) -> GenerationView {
        if self.generations.contains_key(first) {
            self.generations[first]
        } else {
            GenerationView { k, size, packets: Seq::empty() }
        }
    }

    /// A coded packet under the number `seq`: two bytes for the number of source packets,
    /// two for the id of the generation, the coefficients, the data. Once the generation
    /// can be solved, its missing packets are filled in.
    pub open spec fn coded(self, seq: u32, payload: Seq<u8>) -> ReceiverView {
        let k = buffer::be16_at(payload, 0);
        let first = first_number(seq, buffer::be16_at(payload, 2), k as nat);
        if payload.len() < 4 || payload.len() < 4 + k {
            self
        } else {
            self.coded_parts(first, payload.subrange(4, 4 + k), payload.skip(4 + k))
        }
    }

    /// A coded packet of the generation from `first` on.
    pub open spec fn coded_parts(self, first: u32, coeffs: Seq<u8>, data: Seq<u8>) -> ReceiverView {
        let g = self.generation(first, coeffs.len(), data.len()).extended(coeffs, data);
        let s = ReceiverView { generations: self.generations.insert(first, g), ..self };
        if g.solvable() {
            s.filled(first as int, g.solution(), g.k)
        } else {
            s
        }
    }

    /// The state after a packet. A payload that cannot be decrypted is an error.
    pub open spec fn processed(self, header: Header, payload: Seq<u8>) -> Result<
        ReceiverView,
        CryptoError,
    > {
        let seq = header.seq;
        if header.flags.includes(PacketFlags::DATA) {
            match crypto::decrypted(self.key, payload) {
                Err(e) => Err(e),
                Ok(data) => {
                    let s = self.arrived(seq, payload, data);
                    Ok(
                        if self.uses_xor() {
                            s.healed(seq)
                        } else {
                            s
                        },
                    )
                },
            }
        } else if header.flags.includes(PacketFlags::FEC) {
            let s = ReceiverView { nack: self.nack.recorded(seq), ..self };
            if !self.layout.fec_enabled {
                Ok(s)
            } else {
                let t = ReceiverView { redundant: s.redundant.insert(seq), ..s };
                if self.fec_mode == FecMode::Xor {
                    Ok(t.with_parity(seq, payload).healed(self.layout.start(seq) as u32))
                } else {
                    Ok(t.coded(seq, payload))
                }
            }
        } else if header.flags.includes(PacketFlags::FIN) {
            Ok(ReceiverView { fin_seq: Some(seq), ..self })
        } else {
            Ok(self)
        }
    }

    /// The parity under the number `seq`.
    pub open spec fn with_parity(self, seq: u32, data: Seq<u8>) -> ReceiverView {
        ReceiverView {
            parity: self.parity.insert(
                self.layout.start(seq) as u32,
                ParityView { end: seq, data },
            ),
            ..self
        }
    }

    /// A data packet under this number was not received: the number is no place of parity,
    /// and no packet of redundancy came under it.
    pub open spec fn lost(self, seq: u32) -> bool {
        &&& !(self.fec_mode == FecMode::Xor && self.layout.is_parity(seq))
        &&& !self.redundant.contains(seq)
        &&& !self.received.contains_key(seq)
    }

    /// Where the last packet ends is known however it came: payloads are not encrypted, and
    /// the size of the file is known.
    pub open spec fn end_told(self, file_size: u64) -> bool {
        self.key is None && file_size != u64::MAX
    }

    /// The last packet was computed and may have zeros behind it that nothing cuts off.
    pub open spec fn doubtful(self, seq: u32, file_size: u64) -> bool {
        &&& !self.end_told(file_size)
        &&& self.guessed.contains(seq)
        &&& forall|q: u32| #[trigger] self.received.contains_key(q) ==> q <= seq
    }

    /// The last packet is not certain.
    pub open spec fn in_doubt(self, file_size: u64) -> bool {
        exists|q: u32| #[trigger] self.doubtful(q, file_size)
    }

    /// A data packet under this number has to come yet.
    pub open spec fn needed(self, seq: u32, file_size: u64) -> bool {
        self.lost(seq) || self.doubtful(seq, file_size)
    }

    /// The numbers from 1 up to `n`, without `n`, that are needed.
    pub open spec fn needed_below(self, n: nat, file_size: u64) -> Seq<u32>
        decreases n,
    {
        if n <= 1 {
            Seq::empty()
        } else {
            let rest = self.needed_below((n - 1) as nat, file_size);
            if self.needed((n - 1) as u32, file_size) {
                rest.push((n - 1) as u32)
            } else {
                rest
            }
        }
    }

    /// All data is there: as many bytes as the file has, or where its size is unknown
    /// (`u64::MAX`) no number before the FIN is needed. The last packet has to be certain.
    pub open spec fn complete(self, file_size: u64) -> bool {
        match self.fin_seq {
            None => false,
            Some(fin) => if file_size == u64::MAX {
                self.needed_below(fin as nat, file_size).len() == 0
            } else {
                self.received_bytes >= file_size && !self.in_doubt(file_size)
            },
        }
    }

    /// The FIN has told where the data ends.
    pub open spec fn end_known(self) -> bool {
        self.fin_seq matches Some(fin) && fin > 0
    }

    /// The sequence numbers to ask for: after the FIN all that are needed, before it what
    /// the tracker lists.
    pub open spec fn wanted(self, now: u64, file_size: u64) -> Seq<u32> {
        if self.end_known() {
            self.needed_below((self.fin_seq->0) as nat, file_size)
        } else if self.nack.too_soon(now) {
            Seq::empty()
        } else {
            self.nack.missing(1)
        }
    }

    /// The state after that list was given out.
    pub open spec fn asked(self, now: u64, file_size: u64) -> ReceiverView {
        if self.end_known() || self.wanted(now, file_size).len() == 0 {
            self
        } else {
            ReceiverView { nack: NackState { last_nack: Some(now), ..self.nack }, ..self }
        }
    }

    /// The packet's sequence number is one that its block arithmetic can deal with.
    pub open spec fn numbered(self, header: Header) -> bool {
        (header.flags.includes(PacketFlags::DATA) || header.flags.includes(PacketFlags::FEC))
            && self.uses_xor() ==> self.layout.in_range(header.seq)
    }

    /// The packet can be processed: its number can be dealt with and the counters have room
    /// for it, or it cannot be decrypted anyway.
    pub open spec fn takes(self, header: Header, payload: Seq<u8>) -> bool {
        ||| self.numbered(header) && self.room()
        ||| header.flags.includes(PacketFlags::DATA) && crypto::decrypted(self.key, payload) is Err
    }

    /// Sizes as packets' payloads allow them.
    pub open spec fn bounded(self) -> bool {
        &&& forall|s: u32| #[trigger]
            self.received.contains_key(s) ==> self.received[s].len() <= MAX_WIRE_PAYLOAD
        &&& forall|b: u32| #[trigger]
            self.parity.contains_key(b) ==> self.parity[b].data.len() <= MAX_WIRE_PAYLOAD
        &&& forall|f: u32| #[trigger]
            self.generations.contains_key(f) ==> self.generations[f].bounded() && f
                + self.generations[f].k <= u32::MAX
        &&& 0 <= self.received_bytes <= usize::MAX
        &&& 0 <= self.total_packets <= u64::MAX
        &&& 0 <= self.fec_recoveries <= u64::MAX
    }

    /// The counters have room for a packet.
    pub open spec fn room(self) -> bool {
        &&& self.received_bytes + MAX_GROWTH <= usize::MAX
        &&& self.total_packets < u64::MAX
        &&& self.fec_recoveries + MAX_WIRE_PAYLOAD <= u64::MAX
    }
}

// ---------------------------------------------------------------------------
// Parity and generations
// ---------------------------------------------------------------------------

/// The parity of a block.
struct Parity {
    end: u32,
    data: Vec<u8>,
}

impl View for Parity {
    type V = ParityView;

    closed spec fn view(&self) -> ParityView {
        ParityView { end: self.end, data: self.data@ }
    }
}

/// Parity by the first sequence number of its block.
struct Parities {
    inner: HashMap<u32, Parity>,
}

impl View for Parities {
    type V = Map<u32, ParityView>;

    closed spec fn view(&self) -> Map<u32, ParityView> {
        self.inner@.map_values(|p: Parity| p@)
    }
}

impl Parities {
    fn new() -> (p: Self)
        ensures
            p@ == Map::<u32, ParityView>::empty(),
    {
        let p = Parities { inner: HashMap::new() };
        proof {
            assert(p@ =~= Map::<u32, ParityView>::empty());
        }
        p
    }

    fn get(&self, start: u32) -> (r: Option<&Parity>)
        ensures
            match r {
                Some(p) => self@.contains_key(start) && self@[start] == p@,
                None => !self@.contains_key(start),
            },
    {
        self.inner.get(&start)
    }

    fn put(&mut self, start: u32, p: Parity)
        ensures
            final(self)@ == old(self)@.insert(start, p@),
    {
        let ghost before = self@;
        self.inner.insert(start, p);
        proof {
            assert(self@ =~= before.insert(start, p@));
        }
    }
}

/// What a decoder knows of its generation.
spec fn generation_of(d: RlncDecoder) -> GenerationView {
    GenerationView { k: d.generation(), size: d.size(), packets: d@ }
}

/// Generations by their first sequence number.
struct Generations {
    inner: HashMap<u32, RlncDecoder>,
}

impl View for Generations {
    type V = Map<u32, GenerationView>;

    closed spec fn view(&self) -> Map<u32, GenerationView> {
        self.inner@.map_values(|d: RlncDecoder| generation_of(d))
    }
}

impl Generations {
    fn new() -> (g: Self)
        ensures
            g@ == Map::<u32, GenerationView>::empty(),
    {
        let g = Generations { inner: HashMap::new() };
        proof {
            assert(g@ =~= Map::<u32, GenerationView>::empty());
        }
        g
    }

    /// Takes a generation out.
    fn take(&mut self, first: u32) -> (r: Option<RlncDecoder>)
        ensures
            final(self)@ == old(self)@.remove(first),
            match r {
                Some(d) => old(self)@.contains_key(first) && old(self)@[first] == generation_of(d),
                None => !old(self)@.contains_key(first),
            },
    {
        let ghost before = self@;
        let r: Option<RlncDecoder> = self.inner.remove(&first);
        proof {
            assert(self@ =~= before.remove(first));
        }
        r
    }

    fn put(&mut self, first: u32, d: RlncDecoder)
        ensures
            final(self)@ == old(self)@.insert(first, generation_of(d)),
    {
        let ghost before = self@;
        self.inner.insert(first, d);
        proof {
            assert(self@ =~= before.insert(first, generation_of(d)));
        }
    }
}

// ---------------------------------------------------------------------------
// The receiving end
// ---------------------------------------------------------------------------

/// Configuration of the receiving end.
#[derive(Clone, Copy, Debug)]
pub struct ReceiverConfig {
    /// NACK interval in milliseconds (rate-limit NACK emissions).
    pub nack_interval_ms: u64,
    /// Enable FEC recovery.
    pub fec_enabled: bool,
    /// FEC block size (XOR mode).
    pub fec_block_size: usize,
    /// FEC mode: Xor (default) or Rlnc.
    pub fec_mode: FecMode,
    /// RLNC generation size (must match sender).
    pub rlnc_generation_size: usize,
    /// Enable AES-256-GCM decryption.
    pub encryption_enabled: bool,
    /// Decryption key (must match sender's key).
    pub encryption_key: Option<[u8; 32]>,
    /// Idle timeout: give up if no packets for this long.
    pub idle_timeout_secs: u64,
}

impl Default for ReceiverConfig {
    fn default() -> (c: Self)
        ensures
            c.nack_interval_ms == 50,
            c.fec_enabled,
            c.fec_block_size == fec::FEC_BLOCK_SIZE,
            c.fec_mode == FecMode::Xor,
            c.rlnc_generation_size == rlnc::RLNC_GENERATION_SIZE,
            !c.encryption_enabled,
            c.encryption_key is None,
            c.idle_timeout_secs == 5,
            c.fec_block_size == 8,
            c.rlnc_generation_size == 16,
    {
        ReceiverConfig {
            nack_interval_ms: 50,
            fec_enabled: true,
            fec_block_size: fec::FEC_BLOCK_SIZE,
            fec_mode: FecMode::Xor,
            rlnc_generation_size: rlnc::RLNC_GENERATION_SIZE,
            encryption_enabled: false,
            encryption_key: None,
            idle_timeout_secs: 5,
        }
    }
}

/// The state of the receiving end of a transfer.
pub struct ChirpReceiver {
    layout: FecLayout,
    fec_mode: FecMode,
    cipher: Cipher,
    nack_tracker: NackTracker,
    received: PayloadStore,
    /// Encrypted payloads, kept for what is computed from them. Without a cipher the data
    /// is the payload.
    sealed: PayloadStore,
    parity: Parities,
    generations: Generations,
    /// Sequence numbers of parity packets and coded packets, which are no data.
    redundant: SeqSet,
    /// Sequence numbers whose data was computed and did not come itself.
    guessed: HashSet<u32>,
    fin_seq: Option<u32>,
    total_packets: u64,
    received_bytes: usize,
    fec_recoveries: u64,
}

impl View for ChirpReceiver {
    type V = ReceiverView;

    closed spec fn view(&self) -> ReceiverView {
        ReceiverView {
            layout: self.layout,
            fec_mode: self.fec_mode,
            key: self.cipher@,
            nack: self.nack_tracker@,
            received: self.received@,
            payloads: if self.cipher@ is Some {
                self.sealed@
            } else {
                self.received@
            },
            parity: self.parity@,
            generations: self.generations@,
            redundant: self.redundant@,
            guessed: self.guessed@,
            fin_seq: self.fin_seq,
            total_packets: self.total_packets as int,
            received_bytes: self.received_bytes as int,
            fec_recoveries: self.fec_recoveries as int,
        }
    }
}

impl ChirpReceiver {
    /// There is a payload for all data, only what was received was computed, and all sizes
    /// are as packets allow them.
    pub closed spec fn wf(&self) -> bool {
        &&& self@.payloads.dom() == self@.received.dom()
        &&& self@.guessed.subset_of(self@.received.dom())
        &&& self@.bounded()
    }

    /// The receiving end before the first packet. Decryption without a key is an error.
    pub fn new(config: &ReceiverConfig) -> (r: Result<Self, CryptoError>)
        ensures
            match r {
                Ok(s) => {
                    &&& s.wf()
                    &&& config.encryption_enabled ==> config.encryption_key is Some
                    &&& s@ == (ReceiverView {
                        layout: FecLayout {
                            fec_enabled: config.fec_enabled,
                            fec_block_size: config.fec_block_size,
                        },
                        fec_mode: config.fec_mode,
                        key: if config.encryption_enabled {
                            Some((config.encryption_key->0)@)
                        } else {
                            None
                        },
                        nack: NackState {
                            received: Set::empty(),
                            highest: 0,
                            last_nack: None,
                            interval: config.nack_interval_ms,
                        },
                        received: Map::empty(),
                        payloads: Map::empty(),
                        parity: Map::empty(),
                        generations: Map::empty(),
                        redundant: Set::empty(),
                        guessed: Set::empty(),
                        fin_seq: None,
                        total_packets: 0,
                        received_bytes: 0,
                        fec_recoveries: 0,
                    })
                },
                Err(e) => {
                    &&& e == CryptoError::MissingKey
                    &&& config.encryption_enabled
                    &&& config.encryption_key is None
                },
            },
    {
        let cipher: Cipher = match Cipher::for_receiver(
            config.encryption_enabled,
            config.encryption_key,
        ) {
            Ok(c) => c,
            Err(e) => {
                return Err(e);
            },
        };
        let r = ChirpReceiver {
            layout: FecLayout {
                fec_enabled: config.fec_enabled,
                fec_block_size: config.fec_block_size,
            },
            fec_mode: config.fec_mode,
            cipher,
            nack_tracker: NackTracker::new(config.nack_interval_ms),
            received: PayloadStore::new(),
            sealed: PayloadStore::new(),
            parity: Parities::new(),
            generations: Generations::new(),
            redundant: SeqSet::new(),
            guessed: HashSet::new(),
            fin_seq: None,
            total_packets: 0,
            received_bytes: 0,
            fec_recoveries: 0,
        };
        Ok(r)
    }

    /// Whether the packet can be processed: its sequence number is one that its block
    /// arithmetic can deal with and the counters have room for it, or it cannot be
    /// decrypted anyway.
    pub fn admits(&self, pkt: &Packet) -> (b: bool)
        ensures
            b == self@.takes(pkt.header, pkt.payload@),
            self@.received_bytes + 0x4000_0000 <= usize::MAX && self@.total_packets
                < 0xffff_ffff_ffff_ffff && self@.fec_recoveries + 65_535 <= 0xffff_ffff_ffff_ffff
                && !(self@.layout.fec_enabled && self@.fec_mode == FecMode::Xor) ==> b,
            self@.received_bytes + 0x4000_0000 <= usize::MAX && self@.total_packets
                < 0xffff_ffff_ffff_ffff && self@.fec_recoveries + 65_535 <= 0xffff_ffff_ffff_ffff
                && self@.layout.in_range(pkt.header.seq) ==> b,
    {
        let header: &Header = &pkt.header;
        let room: bool = self.received_bytes <= usize::MAX - MAX_GROWTH && self.total_packets
            < u64::MAX && self.fec_recoveries <= u64::MAX - MAX_WIRE_PAYLOAD as u64;
        let xor: bool = self.layout.fec_enabled && self.fec_mode == FecMode::Xor;
        let block: bool = header.flags.contains(PacketFlags::DATA) || header.flags.contains(
            PacketFlags::FEC,
        );
        if room && (!(block && xor) || self.layout.block_in_range(header.seq)) {
            return true;
        }
        header.flags.contains(PacketFlags::DATA) && self.cipher.maybe_decrypt(
            pkt.payload.as_slice(),
        ).is_err()
    }

    /// The payload under a sequence number.
    fn payload_of(&self, seq: u32) -> (r: Option<&Vec<u8>>)
        requires
            self.wf(),
        ensures
            match r {
                Some(p) => self@.received.contains_key(seq) && self@.payloads[seq] == p@,
                None => !self@.received.contains_key(seq),
            },
    {
        proof {
            assert(self@.payloads.contains_key(seq) <==> self@.payloads.dom().contains(seq));
            assert(self@.received.contains_key(seq) <==> self@.received.dom().contains(seq));
        }
        if self.cipher.is_set() {
            self.sealed.get(seq)
        } else {
            self.received.get(seq)
        }
    }

    /// Puts data and the payload that it was decrypted from in.
    fn store(&mut self, seq: u32, payload: &[u8], data: Vec<u8>)
        requires
            old(self).wf(),
            data@.len() <= MAX_WIRE_PAYLOAD,
            old(self)@.received_bytes + data@.len() <= usize::MAX,
            old(self)@.key is None ==> data@ == payload@,
        ensures
            final(self).wf(),
            final(self)@ == old(self)@.stored(seq, payload@, data@),
    {
        let ghost before = self@;
        if !self.received.contains(seq) {
            self.received_bytes = self.received_bytes + data.len();
        }
        if self.cipher.is_set() {
            self.sealed.insert(seq, buffer::copy_bytes(payload));
        }
        self.received.insert(seq, data);
        proof {
            let after = before.stored(seq, payload@, data@);
            assert(self@.payloads =~= after.payloads);
            assert(self@.received =~= after.received);
            assert(self@.payloads.dom() =~= self@.received.dom());
            assert(self@.guessed.subset_of(self@.received.dom()));
            assert forall|x: u32| #[trigger] self@.received.contains_key(x) implies self@.received[x].len()
                <= MAX_WIRE_PAYLOAD by {
                if x != seq {
                    assert(before.received.contains_key(x));
                }
            }
        }
    }

    /// Puts a payload in that was computed from other packets, if it can be decrypted.
    fn put_computed(&mut self, seq: u32, payload: &[u8])
        requires
            old(self).wf(),
            !old(self)@.received.contains_key(seq),
            payload@.len() <= MAX_WIRE_PAYLOAD,
            old(self)@.received_bytes + payload@.len() <= usize::MAX,
            old(self)@.fec_recoveries < u64::MAX,
        ensures
            final(self).wf(),
            final(self)@ == old(self)@.computed(seq, payload@),
            final(self)@.received_bytes <= old(self)@.received_bytes + payload@.len(),
            final(self)@.fec_recoveries <= old(self)@.fec_recoveries + 1,
    {
        let ghost before = self@;
        if let Ok(data) = self.cipher.maybe_decrypt(payload) {
            self.store(seq, payload, data);
            self.nack_tracker.record(seq);
            self.guessed.insert(seq);
            self.fec_recoveries = self.fec_recoveries + 1;
            proof {
                assert(self@.guessed =~= before.guessed.insert(seq));
                assert(self@.guessed.subset_of(self@.received.dom()));
            }
        }
    }

    /// Computes the missing packet of the block of `trigger_seq` from the parity, where
    /// one packet is missing.
    fn try_fec_recovery(&mut self, trigger_seq: u32)
        requires
            old(self).wf(),
            old(self)@.layout.in_range(trigger_seq),
            old(self)@.received_bytes + MAX_WIRE_PAYLOAD <= usize::MAX,
            old(self)@.fec_recoveries < u64::MAX,
        ensures
            final(self).wf(),
            final(self)@ == old(self)@.healed(trigger_seq),
    {
        let start: u32 = self.layout.fec_block_start(trigger_seq);
        let ghost view = self@;
        let parity: Vec<u8>;
        let end: u32;
        match self.parity.get(start) {
            Some(p) => {
                parity = buffer::copy_bytes(p.data.as_slice());
                end = p.end;
            },
            None => {
                return ;
            },
        }
        if self.layout.fec_block_size as u64 > u32::MAX as u64 {
            proof {
                layout::lemma_blocks(self.layout, trigger_seq);
            }
            return ;
        }
        let count: u32 = if end < start {
            0
        } else {
            end - start
        };
        let ghost n = view.block_len(trigger_seq);
        let mut missing: u32 = 0;
        let mut missing_count: u32 = 0;
        let mut present: Vec<&[u8]> = Vec::new();
        let mut i: u32 = 0;
        while i < count
            invariant
                i <= count == n,
                start == view.layout.start(trigger_seq),
                start + count <= u32::MAX,
                view == self@,
                self.wf(),
                missing_count == view.absent(start as int, i as nat).len(),
                missing_count <= i,
                missing_count == 1 ==> missing == view.absent(start as int, i as nat)[0],
                fec::contents(present@) == view.present(start as int, i as nat),
                present@.len() + missing_count == i,
            decreases count - i,
        {
            let seq: u32 = start + i;
            let ghost before = present@;
            match self.payload_of(seq) {
                Some(payload) => {
                    let slice: &[u8] = payload.as_slice();
                    present.push(slice);
                    proof {
                        assert(fec::contents(present@) =~= fec::contents(before).push(payload@));
                    }
                },
                None => {
                    if missing_count == 0 {
                        missing = seq;
                    }
                    missing_count = missing_count + 1;
                },
            }
            i = i + 1;
        }
        if missing_count != 1 {
            return ;
        }
        let decoder: FecDecoder = FecDecoder::new(count as usize);
        let recovered: Option<Vec<u8>> = decoder.recover(present.as_slice(), parity.as_slice());
        if let Some(payload) = recovered {
            proof {
                lemma_absent_not_received(view, start as int, n, 0);
            }
            self.put_computed(missing, payload.as_slice());
        }
    }

    /// Takes in a coded packet, and fills in missing packets of its generation once they
    /// can be solved for.
    fn process_rlnc_fec_packet(&mut self, seq: u32, payload: &[u8])
        requires
            old(self).wf(),
            payload@.len() <= MAX_WIRE_PAYLOAD,
            old(self)@.room(),
        ensures
            final(self).wf(),
            final(self)@ == old(self)@.coded(seq, payload@),
    {
        if payload.len() < 4 {
            return ;
        }
        let k16: u16 = buffer::read_be16(payload, 0);
        let id: u16 = buffer::read_be16(payload, 2);
        let k: usize = k16 as usize;
        if payload.len() < 4 + k {
            return ;
        }
        let first: u32 = generation_start(seq, id, k16);
        let coeffs: Vec<u8> = buffer::copy_bytes(&payload[4..4 + k]);
        let data: Vec<u8> = buffer::copy_bytes(&payload[4 + k..payload.len()]);
        proof {
            assert(coeffs@ =~= payload@.subrange(4, 4 + k));
            assert(data@ =~= payload@.skip(4 + k));
        }
        self.add_coded(first, coeffs, data);
    }

    /// Takes in a coded packet of the generation from `first` on.
    fn add_coded(&mut self, first: u32, coeffs: Vec<u8>, data: Vec<u8>)
        requires
            old(self).wf(),
            old(self)@.room(),
            4 + coeffs@.len() + data@.len() <= MAX_WIRE_PAYLOAD,
            first + coeffs@.len() <= u32::MAX,
        ensures
            final(self).wf(),
            final(self)@ == old(self)@.coded_parts(first, coeffs@, data@),
    {
        let ghost view = self@;
        let ghost g0 = view.generation(first, coeffs@.len(), data@.len());
        let ghost g1 = g0.extended(coeffs@, data@);
        let mut decoder: RlncDecoder = match self.generations.take(first) {
            Some(d) => d,
            None => RlncDecoder::new(coeffs.len(), data.len()),
        };
        proof {
            assert(generation_of(decoder).packets =~= g0.packets);
            assert(generation_of(decoder) == g0);
        }
        let k: usize = decoder.source_count();
        let ready: bool = decoder.add_packet(coeffs, data);
        proof {
            assert(generation_of(decoder) == g1);
            assert(g1.bounded() && first + g1.k <= u32::MAX);
        }
        let mut decoded: Option<Vec<Vec<u8>>> = None;
        if ready && self.any_missing(first, k) {
            match decoder.decode() {
                Ok(packets) => {
                    decoded = Some(packets);
                },
                Err(_) => {},
            }
        }
        self.generations.put(first, decoder);
        let ghost s1 = ReceiverView { generations: view.generations.insert(first, g1), ..view };
        proof {
            assert(self@.generations =~= s1.generations);
            assert(self@ == s1);
            assert forall|x: u32| #[trigger] s1.generations.contains_key(x) implies s1.generations[x].bounded()
                && x + s1.generations[x].k <= u32::MAX by {
                if x != first {
                    assert(view.generations.contains_key(x));
                }
            }
        }
        match decoded {
            Some(packets) => self.fill(first, &packets, Ghost(g1)),
            None => {
                proof {
                    if g1.solvable() {
                        lemma_nothing_to_fill(s1, first as int, g1.solution(), g1.k);
                    }
                }
            },
        }
    }

    /// Whether one of the `k` sequence numbers from `first` on was not received.
    fn any_missing(&self, first: u32, k: usize) -> (b: bool)
        requires
            first + k <= u32::MAX,
        ensures
            b == exists|i: int|
                0 <= i < k && !self@.received.contains_key(#[trigger] ((first + i) as u32)),
    {
        let mut i: usize = 0;
        while i < k
            invariant
                i <= k,
                first + k <= u32::MAX,
                forall|j: int|
                    0 <= j < i ==> self@.received.contains_key(#[trigger] ((first + j) as u32)),
            decreases k - i,
        {
            let seq: u32 = first + i as u32;
            if !self.received.contains(seq) {
                assert(!self@.received.contains_key((first + i as int) as u32));
                return true;
            }
            i = i + 1;
        }
        false
    }

    /// Fills in the missing packets of a generation.
    fn fill(&mut self, first: u32, packets: &Vec<Vec<u8>>, Ghost(g): Ghost<GenerationView>)
        requires
            old(self).wf(),
            old(self)@.room(),
            g.bounded(),
            first + g.k <= u32::MAX,
            buffer::rows(packets@) == g.solution(),
            g.solvable(),
        ensures
            final(self).wf(),
            final(self)@ == old(self)@.filled(first as int, g.solution(), g.k),
    {
        let ghost start = self@;
        let ghost sol = g.solution();
        let n: usize = packets.len();
        proof {
            assert(buffer::rows(packets@).len() == packets@.len());
            lemma_solution_shape(g);
        }
        let mut i: usize = 0;
        while i < n
            invariant
                i <= n == packets@.len() == g.k,
                self.wf(),
                start.room(),
                g.bounded(),
                first + g.k <= u32::MAX,
                sol == g.solution(),
                buffer::rows(packets@) == sol,
                linear::rectangular(sol, g.size),
                self@ == start.filled(first as int, sol, i as nat),
                self@.received_bytes <= start.received_bytes + i * g.size,
                self@.fec_recoveries <= start.fec_recoveries + i,
            decreases n - i,
        {
            let seq: u32 = first + i as u32;
            proof {
                assert(sol[i as int] == packets@[i as int]@);
                assert(sol[i as int].len() == g.size);
                lemma_growth(g.k, g.size, i as nat);
            }
            if !self.received.contains(seq) {
                self.put_computed(seq, packets[i].as_slice());
            }
            i = i + 1;
        }
    }

    /// Takes in a packet. A payload that cannot be decrypted is an error and changes
    /// nothing.
    pub fn process_packet(&mut self, pkt: &Packet) -> (r: Result<(), CryptoError>)
        requires
            old(self).wf(),
            pkt.payload@.len() <= MAX_WIRE_PAYLOAD,
            old(self)@.takes(pkt.header, pkt.payload@),
        ensures
            final(self).wf(),
            match old(self)@.processed(pkt.header, pkt.payload@) {
                Ok(s) => r is Ok && final(self)@ == s,
                Err(e) => r == Err::<(), CryptoError>(e) && final(self)@ == old(self)@,
            },
    {
        let flags: PacketFlags = pkt.header.flags;
        let seq: u32 = pkt.header.seq;
        let ghost before = self@;
        if flags.contains(PacketFlags::DATA) {
            let data: Vec<u8> = match self.cipher.maybe_decrypt(pkt.payload.as_slice()) {
                Ok(d) => d,
                Err(e) => {
                    return Err(e);
                },
            };
            self.store(seq, pkt.payload.as_slice(), data);
            self.nack_tracker.record(seq);
            self.guessed.remove(&seq);
            self.total_packets = self.total_packets + 1;
            proof {
                assert(self@.guessed =~= before.guessed.remove(seq));
                assert(self@ == before.arrived(seq, pkt.payload@, data@));
            }
            if self.layout.fec_enabled && self.fec_mode == FecMode::Xor {
                self.try_fec_recovery(seq);
            }
        } else if flags.contains(PacketFlags::FEC) {
            self.nack_tracker.record(seq);
            if self.layout.fec_enabled {
                self.redundant.insert(seq);
                match self.fec_mode {
                    FecMode::Xor => {
                        let start: u32 = self.layout.fec_block_start(seq);
                        proof {
                            lemma_start_in_range(self.layout, seq);
                        }
                        let data: Vec<u8> = buffer::copy_bytes(pkt.payload.as_slice());
                        let ghost mid = self@;
                        self.parity.put(start, Parity { end: seq, data });
                        proof {
                            assert forall|b: u32| #[trigger]
                                self@.parity.contains_key(b) implies self@.parity[b].data.len()
                                <= MAX_WIRE_PAYLOAD by {
                                if b != start {
                                    assert(mid.parity.contains_key(b));
                                }
                            }
                            assert(self@ == mid.with_parity(seq, pkt.payload@));
                        }
                        self.try_fec_recovery(start);
                    },
                    FecMode::Rlnc => {
                        self.process_rlnc_fec_packet(seq, pkt.payload.as_slice());
                    },
                }
            }
        } else if flags.contains(PacketFlags::FIN) {
            self.fin_seq = Some(seq);
        }
        Ok(())
    }

    /// The number of the last packet, if it is not certain.
    fn doubtful_seq(&self, file_size: u64) -> (r: Option<u32>)
        requires
            self.wf(),
        ensures
            match r {
                Some(q) => self@.doubtful(q, file_size) && forall|x: u32| #[trigger]
                    self@.doubtful(x, file_size) ==> x == q,
                None => !self@.in_doubt(file_size),
            },
    {
        if !self.cipher.is_set() && file_size != u64::MAX {
            return None;
        }
        let highest: u32 = self.received.highest_seq();
        let computed: bool = self.guessed.contains(&highest);
        proof {
            assert forall|x: u32| #[trigger] self@.doubtful(x, file_size) implies x == highest
                && computed by {
                assert(self@.received.dom().contains(x));
                assert(self@.received.contains_key(x));
            }
            if computed {
                assert(self@.received.dom().contains(highest));
                assert(self@.doubtful(highest, file_size));
            }
        }
        if computed {
            Some(highest)
        } else {
            None
        }
    }

    /// The data packets before the FIN that have to come yet.
    pub fn full_missing_data_seqs(&self, fin_seq: u32, file_size: u64) -> (out: Vec<u32>)
        requires
            self.wf(),
            self@.uses_xor() ==> self@.layout.block() < u32::MAX,
        ensures
            out@ == self@.needed_below(fin_seq as nat, file_size),
    {
        let doubtful: Option<u32> = self.doubtful_seq(file_size);
        let mut out: Vec<u32> = Vec::new();
        let mut s: u32 = 1;
        while s < fin_seq
            invariant
                1 <= s,
                s <= fin_seq || s == 1,
                self@.uses_xor() ==> self@.layout.block() < u32::MAX,
                match doubtful {
                    Some(q) => self@.doubtful(q, file_size) && forall|x: u32| #[trigger]
                        self@.doubtful(x, file_size) ==> x == q,
                    None => !self@.in_doubt(file_size),
                },
                out@ == self@.needed_below(s as nat, file_size),
            decreases fin_seq - s,
        {
            let parity: bool = self.layout.fec_enabled && self.fec_mode == FecMode::Xor
                && self.layout.is_fec_seq(s);
            let lost: bool = !parity && !self.redundant.contains(s) && !self.received.contains(s);
            let unsure: bool = match doubtful {
                Some(q) => q == s,
                None => false,
            };
            proof {
                assert(unsure == self@.doubtful(s, file_size));
            }
            if lost || unsure {
                out.push(s);
            }
            s = s + 1;
        }
        out
    }

    /// Whether the FIN came and all data is there.
    pub fn is_complete(&self, file_size: u64) -> (b: bool)
        requires
            self.wf(),
            self@.uses_xor() ==> self@.layout.block() < u32::MAX,
        ensures
            b == self@.complete(file_size),
    {
        match self.fin_seq {
            None => false,
            Some(fin) => {
                if file_size == u64::MAX {
                    self.full_missing_data_seqs(fin, file_size).is_empty()
                } else {
                    self.received_bytes as u64 >= file_size && self.doubtful_seq(
                        file_size,
                    ).is_none()
                }
            },
        }
    }

    /// The sequence numbers to ask the sender for at this time.
    pub fn due_nacks(&mut self, now: InstantMs, file_size: u64) -> (out: Vec<u32>)
        requires
            old(self).wf(),
            old(self)@.uses_xor() ==> old(self)@.layout.block() < u32::MAX,
            !old(self)@.end_known() ==> (old(self)@.nack.last_nack matches Some(last)
                ==> nack::not_before(last, now.ticks)),
        ensures
            final(self).wf(),
            out@ == old(self)@.wanted(now.ticks, file_size),
            final(self)@ == old(self)@.asked(now.ticks, file_size),
    {
        if let Some(fin) = self.fin_seq {
            if fin > 0 {
                return self.full_missing_data_seqs(fin, file_size);
            }
        }
        match self.nack_tracker.get_nack_list(1, now) {
            Some(list) => list,
            None => Vec::new(),
        }
    }

    /// Whether the instant can follow the last list on a monotonic clock.
    pub fn in_order(&self, now: InstantMs) -> (b: bool)
        ensures
            b == (self@.nack.last_nack matches Some(last) ==> nack::not_before(last, now.ticks)),
    {
        self.nack_tracker.in_order(now)
    }

    /// Whether the sequence numbers of parity packets can be told.
    pub fn layout_in_range(&self) -> (b: bool)
        ensures
            b == (self@.uses_xor() ==> self@.layout.block() < u32::MAX),
    {
        !(self.layout.fec_enabled && self.fec_mode == FecMode::Xor)
            || self.layout.fec_block_size as u64 % 0x1_0000_0000 != u32::MAX as u64
    }

    /// The sequence number of the FIN, once it came.
    pub fn fin_seq(&self) -> (r: Option<u32>)
        ensures
            r == self@.fin_seq,
    {
        self.fin_seq
    }

    /// Bytes of data received so far.
    pub fn received_bytes(&self) -> (n: u64)
        ensures
            n == self@.received_bytes,
    {
        self.received_bytes as u64
    }

    /// Data packets received so far.
    pub fn total_packets(&self) -> (n: u64)
        ensures
            n == self@.total_packets,
    {
        self.total_packets
    }

    /// Packets recovered so far.
    pub fn fec_recoveries(&self) -> (n: u64)
        ensures
            n == self@.fec_recoveries,
    {
        self.fec_recoveries
    }

    /// The data received so far.
    pub fn received(&self) -> (r: &PayloadStore)
        requires
            self.wf(),
        ensures
            r@ == self@.received,
            output::payloads_bounded(r@),
    {
        proof {
            assert forall|s: u32| #[trigger] self.received@.contains_key(s) implies self.received@[s].len()
                <= 65_535 by {
                assert(self@.received.contains_key(s));
            }
        }
        &self.received
    }
}

// ---------------------------------------------------------------------------
// NACKs
// ---------------------------------------------------------------------------

/// The most sequence numbers that go into one NACK.
pub const MAX_NACK_SEQS: usize = 300;

/// Part `i` of the list, as much as goes into one NACK.
pub open spec fn nack_part(missing: Seq<u32>, i: int) -> Seq<u32> {
    missing.subrange(
        i * MAX_NACK_SEQS,
        if (i + 1) * MAX_NACK_SEQS < missing.len() {
            (i + 1) * MAX_NACK_SEQS
        } else {
            missing.len() as int
        },
    )
}

/// The NACKs that ask for all sequence numbers of a list.
pub fn nack_packets(missing: &[u32]) -> (out: Vec<Packet>)
    ensures
        out@.len() == (missing@.len() + MAX_NACK_SEQS - 1) / MAX_NACK_SEQS as int,
        out@.len() == (missing@.len() + 299) / 300,
        forall|i: int|
            0 <= i < out@.len() ==> (#[trigger] out@[i]).header.flags.bits == 0x02
                && out@[i].header.seq == 0 && out@[i].payload@.len() == 4 * (if 300 * (i + 1)
                < missing@.len() {
                300
            } else {
                missing@.len() - 300 * i
            }),
        forall|i: int|
            0 <= i < out@.len() ==> (#[trigger] out@[i]).payload@ == packet::seq_list(
                nack_part(missing@, i),
            ) && out@[i].wf() && out@[i].header.seq == 0 && out@[i].header.flags.bits
                == PacketFlags::NACK,
{
    let mut out: Vec<Packet> = Vec::new();
    let mut at: usize = 0;
    let ghost count: int = 0;
    while at < missing.len()
        invariant
            count == out@.len(),
            at <= missing@.len(),
            at == count * MAX_NACK_SEQS || at == missing@.len(),
            at == missing@.len() ==> count == (missing@.len() + MAX_NACK_SEQS - 1)
                / MAX_NACK_SEQS as int,
            forall|i: int|
                0 <= i < out@.len() ==> (#[trigger] out@[i]).payload@.len() == 4 * (if 300 * (i + 1)
                    < missing@.len() {
                    300
                } else {
                    missing@.len() - 300 * i
                }),
            forall|i: int|
                0 <= i < out@.len() ==> (#[trigger] out@[i]).payload@ == packet::seq_list(
                    nack_part(missing@, i),
                ) && out@[i].wf() && out@[i].header.seq == 0 && out@[i].header.flags.bits
                    == PacketFlags::NACK,
        decreases missing@.len() - at,
    {
        let end: usize = if missing.len() - at > MAX_NACK_SEQS {
            at + MAX_NACK_SEQS
        } else {
            missing.len()
        };
        let part: &[u32] = &missing[at..end];
        let nack: Packet = Packet::nack(part);
        proof {
            assert(part@ =~= nack_part(missing@, count));
            packet::lemma_seq_list(part@);
        }
        out.push(nack);
        proof {
            count = count + 1;
        }
        at = end;
    }
    out
}

// ---------------------------------------------------------------------------
// The SYN, progress and statistics
// ---------------------------------------------------------------------------

/// The text of bytes, with anything that is no UTF-8 replaced.
pub uninterp spec fn lossy_text(bytes: Seq<u8>) -> Seq<char>;

/// `String::from_utf8_lossy`: the text of the bytes, each part that is no UTF-8
/// replaced; bytes that are UTF-8 as a whole give the text that they encode.
#[verifier::external_body]
fn text_of(bytes: &[u8]) -> (s: String)
    ensures
        s@ == lossy_text(bytes@),
        vstd::utf8::valid_utf8(bytes@) ==> s@ == vstd::utf8::decode_utf8(bytes@),
{
    String::from_utf8_lossy(bytes).into_owned()
}

/// What a SYN tells of the file.
pub struct SynInfo {
    pub file_size: u64,
    pub filename: String,
}

/// Reads the payload of a SYN: the size of the file in eight bytes, then its name. A
/// shorter payload tells nothing, and counts as an empty file without a name.
pub fn parse_syn(payload: &[u8]) -> (info: SynInfo)
    ensures
        payload@.len() < 8 ==> info.file_size == 0 && info.filename@.len() == 0,
        payload@.len() >= 8 ==> info.file_size == buffer::be64_at(payload@, 0)
            && info.filename@ == lossy_text(payload@.skip(8)),
        payload@.len() >= 8 && vstd::utf8::valid_utf8(payload@.skip(8)) ==> info.filename@
            == vstd::utf8::decode_utf8(payload@.skip(8)),
{
    if payload.len() < 8 {
        return SynInfo { file_size: 0, filename: String::new() };
    }
    let name: &[u8] = &payload[8..payload.len()];
    assert(name@ =~= payload@.skip(8));
    SynInfo { file_size: buffer::read_be64(payload, 0), filename: text_of(name) }
}

/// The size of the file, `None` where the sender does not know it.
pub fn known_size(file_size: u64) -> (r: Option<u64>)
    ensures
        r == (if file_size == u64::MAX {
            None
        } else {
            Some(file_size)
        }),
{
    if file_size == u64::MAX {
        None
    } else {
        Some(file_size)
    }
}

/// The name to show: that of the file, or of the output where the file has none.
pub fn display_name(filename: &str, output_name: &str) -> (name: String)
    ensures
        name@ == (if filename@.len() == 0 {
            output_name@
        } else {
            filename@
        }),
{
    if filename.is_empty() {
        output_name.to_owned()
    } else {
        filename.to_owned()
    }
}

/// A snapshot of a receive under way.
#[derive(Debug)]
pub struct RecvProgress {
    pub filename: String,
    pub bytes_received: u64,
    pub total_size: Option<u64>,
    pub elapsed: Duration,
    pub nack_count: u64,
    pub fec_recoveries: u64,
}

impl Clone for RecvProgress {
    fn clone(&self) -> (r: Self)
        ensures
            r == *self,
    {
        RecvProgress {
            filename: self.filename.clone(),
            bytes_received: self.bytes_received,
            total_size: self.total_size,
            elapsed: self.elapsed,
            nack_count: self.nack_count,
            fec_recoveries: self.fec_recoveries,
        }
    }
}

/// Statistics from a completed receive.
#[derive(Debug)]
pub struct RecvStats {
    pub bytes_received: u64,
    pub duration: Duration,
    pub packets_received: u64,
    pub filename: String,
    pub nack_count: u64,
    pub fec_recoveries: u64,
}

impl ChirpReceiver {
    /// A snapshot of the receive.
    pub fn progress(
        &self,
        filename: &str,
        output_name: &str,
        bytes_received: u64,
        total_size: Option<u64>,
        elapsed: Duration,
        nack_count: u64,
    ) -> (p: RecvProgress)
        ensures
            p.filename@ == (if filename@.len() == 0 {
                output_name@
            } else {
                filename@
            }),
            p.bytes_received == bytes_received,
            p.total_size == total_size,
            p.elapsed == elapsed,
            p.nack_count == nack_count,
            p.fec_recoveries == self@.fec_recoveries,
    {
        RecvProgress {
            filename: display_name(filename, output_name),
            bytes_received,
            total_size,
            elapsed,
            nack_count,
            fec_recoveries: self.fec_recoveries,
        }
    }

    /// The statistics of the receive, once `bytes_written` were written.
    pub fn stats(
        &self,
        filename: &str,
        output_name: &str,
        bytes_written: u64,
        duration: Duration,
        nack_count: u64,
    ) -> (s: RecvStats)
        ensures
            s.filename@ == (if filename@.len() == 0 {
                output_name@
            } else {
                filename@
            }),
            s.bytes_received == bytes_written,
            s.duration == duration,
            s.packets_received == self@.total_packets,
            s.nack_count == nack_count,
            s.fec_recoveries == self@.fec_recoveries,
    {
        RecvStats {
            bytes_received: bytes_written,
            duration,
            packets_received: self.total_packets,
            filename: display_name(filename, output_name),
            nack_count,
            fec_recoveries: self.fec_recoveries,
        }
    }
}

impl Clone for RecvStats {
    fn clone(&self) -> (r: Self)
        ensures
            r == *self,
    {
        RecvStats {
            bytes_received: self.bytes_received,
            duration: self.duration,
            packets_received: self.packets_received,
            filename: self.filename.clone(),
            nack_count: self.nack_count,
            fec_recoveries: self.fec_recoveries,
        }
    }
}

/// The first sequence number of the generation of a coded packet.
fn generation_start(seq: u32, id: u16, k: u16) -> (first: u32)
    ensures
        first == first_number(seq, id, k as nat),
        first + k <= u32::MAX,
{
    let low: u32 = seq % 0x1_0000;
    let back: u32 = if low >= id as u32 {
        low - id as u32
    } else {
        low + 0x1_0000 - id as u32
    };
    proof {
        let d = seq as int - id as int;
        let q = if low >= id as u32 {
            (seq / 0x1_0000) as int
        } else {
            seq / 0x1_0000 - 1
        };
        vstd::arithmetic::div_mod::lemma_fundamental_div_mod_converse(d, 0x1_0000, q, back as int);
    }
    if back <= seq && (seq - back) as u64 + k as u64 <= u32::MAX as u64 {
        seq - back
    } else {
        id as u32
    }
}

/// The first number of a block is as good as any other of its numbers.
proof fn lemma_start_in_range(l: FecLayout, seq: u32)
    requires
        l.in_range(seq),
    ensures
        l.start(seq) <= u32::MAX,
        l.in_range(l.start(seq) as u32),
        l.start(l.start(seq) as u32) == l.start(seq),
{
    layout::lemma_blocks(l, seq);
    if l.block() > 0 {
        layout::lemma_same_block(l, seq, l.start(seq) as u32);
    }
}

/// The source packets of a generation have its packet size.
proof fn lemma_solution_shape(g: GenerationView)
    requires
        g.solvable(),
    ensures
        g.solution().len() == g.k,
        linear::rectangular(g.solution(), g.size),
{
    let m = g.equations();
    let width = g.k + g.size;
    assert forall|r: int| 0 <= r < m.len() implies (#[trigger] m[r]).len() == width by {}
    linear::lemma_reduced_iff_independent(m, g.k, width);
    linear::lemma_reduced_shape(m, g.k, width);
    let t = linear::reduced(m, g.k)->0;
    assert forall|r: int| 0 <= r < g.k implies (#[trigger] g.solution()[r]).len() == g.size by {
        assert(t[r].len() == width);
    }
}

/// The source packets of a generation never add up to more than the growth limit.
proof fn lemma_growth(k: nat, size: nat, i: nat)
    requires
        4 + k + size <= MAX_WIRE_PAYLOAD,
        i < k,
    ensures
        i * size + size <= MAX_GROWTH,
        i * size + size == (i + 1) * size,
{
    assert(i * size + size == (i + 1) * size) by (nonlinear_arith);
    assert((i + 1) * size <= k * size) by (nonlinear_arith)
        requires
            i < k,
    ;
    assert(4 * (k * size) <= (k + size) * (k + size)) by (nonlinear_arith);
    assert((k + size) * (k + size) <= 65_531 * 65_531) by (nonlinear_arith)
        requires
            k + size <= 65_531,
    ;
}

/// Where nothing is missing, filling in changes nothing.
proof fn lemma_nothing_to_fill(s: ReceiverView, first: int, packets: Seq<Seq<u8>>, n: nat)
    requires
        forall|i: int| 0 <= i < n ==> s.received.contains_key(#[trigger] ((first + i) as u32)),
    ensures
        s.filled(first, packets, n) == s,
    decreases n,
{
    if n > 0 {
        lemma_nothing_to_fill(s, first, packets, (n - 1) as nat);
        assert(s.received.contains_key((first + (n - 1)) as u32));
    }
}

/// What is listed as absent was not received.
proof fn lemma_absent_not_received(view: ReceiverView, from: int, n: nat, i: int)
    requires
        0 <= i < view.absent(from, n).len(),
    ensures
        !view.received.contains_key(view.absent(from, n)[i]),
    decreases n,
{
    if n > 0 {
        let rest = view.absent(from, (n - 1) as nat);
        if i < rest.len() {
            lemma_absent_not_received(view, from, (n - 1) as nat, i);
        }
    }
}

// ---------------------------------------------------------------------------
// Laws
// ---------------------------------------------------------------------------

/// After the FIN the receiver asks for every lost data packet, however far it lies back:
/// the list holds just the numbers before the FIN that are needed, in ascending order.
pub proof fn lemma_needed_below(s: ReceiverView, n: nat, file_size: u64)
    requires
        n <= 0x1_0000_0000,
    ensures
        forall|q: u32| #[trigger]
            s.needed_below(n, file_size).contains(q) <==> 1 <= q < n && s.needed(q, file_size),
        store::increasing(s.needed_below(n, file_size)),
    decreases n,
{
    if n > 1 {
        let m = (n - 1) as nat;
        lemma_needed_below(s, m, file_size);
        let rest = s.needed_below(m, file_size);
        let all = s.needed_below(n, file_size);
        let t = (n - 1) as u32;
        assert forall|q: u32| #[trigger] all.contains(q) <==> 1 <= q < n && s.needed(
            q,
            file_size,
        ) by {
            assert(rest.contains(q) <==> 1 <= q < m && s.needed(q, file_size));
            if s.needed(t, file_size) {
                assert(all == rest.push(t));
                assert(all.last() == t);
                if rest.contains(q) {
                    let i = choose|i: int| 0 <= i < rest.len() && rest[i] == q;
                    assert(all[i] == q);
                }
            }
        }
        assert forall|i: int, j: int| 0 <= i < j < all.len() implies all[i] < all[j] by {
            if j == rest.len() {
                assert(rest.contains(rest[i]));
            }
        }
    }
}

/// A data packet that arrives is not asked for again, before the FIN or after it.
pub proof fn lemma_arrived_not_wanted(
    s: ReceiverView,
    seq: u32,
    payload: Seq<u8>,
    data: Seq<u8>,
    n: nat,
    file_size: u64,
    start: u32,
)
    requires
        n <= 0x1_0000_0000,
    ensures
        s.arrived(seq, payload, data).received.contains_key(seq),
        !s.arrived(seq, payload, data).needed_below(n, file_size).contains(seq),
        !s.arrived(seq, payload, data).nack.missing(start).contains(seq),
{
    lemma_needed_below(s.arrived(seq, payload, data), n, file_size);
    nack::lemma_recorded_not_missing(s.nack, seq, start);
}

/// A coded packet names its generation, though its id has 16 bits: the first sequence
/// number is told as long as the packet is less than 65536 numbers behind it.
pub proof fn lemma_generation_named(first: u32, seq: u32, k: nat)
    requires
        first <= seq < first + 0x1_0000,
        first + k <= u32::MAX,
    ensures
        first_number(seq, packet::len16(first as nat), k) == first,
{
    let id = packet::len16(first as nat);
    vstd::arithmetic::div_mod::lemma_fundamental_div_mod_converse(
        seq - id,
        0x1_0000,
        (first / 0x1_0000) as int,
        seq - first,
    );
}

/// The NACKs for a list name all of it, each fits into a packet, and reading them gives the
/// numbers back.
pub proof fn lemma_nacks_name_all(missing: Seq<u32>, j: int)
    requires
        0 <= j < missing.len(),
    ensures
        packet::listed_seqs(packet::seq_list(nack_part(missing, j / MAX_NACK_SEQS as int)))
            == nack_part(missing, j / MAX_NACK_SEQS as int),
        nack_part(missing, j / MAX_NACK_SEQS as int)[j % MAX_NACK_SEQS as int] == missing[j],
        packet::HEADER_SIZE + packet::seq_list(
            nack_part(missing, j / MAX_NACK_SEQS as int),
        ).len() <= packet::MAX_PACKET_SIZE,
{
    let i = j / MAX_NACK_SEQS as int;
    let part = nack_part(missing, i);
    packet::lemma_nack_list_read_back(part);
    packet::lemma_seq_list(part);
}

/// The receiver reads from a SYN what the sender wrote into it.
pub proof fn lemma_syn_read_back(total_size: u64, filename: Seq<char>)
    ensures
        packet::syn_payload(total_size, filename).len() >= 8,
        buffer::be64_at(packet::syn_payload(total_size, filename), 0) == total_size,
        vstd::utf8::valid_utf8(packet::syn_payload(total_size, filename).skip(8)),
        vstd::utf8::decode_utf8(packet::syn_payload(total_size, filename).skip(8)) == filename,
{
    let payload = packet::syn_payload(total_size, filename);
    assert(payload.subrange(0, 8) =~= buffer::be64(total_size));
    buffer::lemma_be64(total_size, payload, 0);
    assert(payload.skip(8) =~= vstd::utf8::encode_utf8(filename));
    vstd::utf8::encode_utf8_valid_utf8(filename);
    vstd::utf8::encode_utf8_decode_utf8(filename);
}

/// Filling in leaves what was received as it is, gives every number of the range the data
/// of its packet where that can be decrypted, and touches no other number.
proof fn lemma_filled(s: ReceiverView, first: int, packets: Seq<Seq<u8>>, n: nat)
    requires
        0 <= first,
        first + n <= 0x1_0000_0000,
        n <= packets.len(),
    ensures
        s.filled(first, packets, n).key == s.key,
        s.filled(first, packets, n).nack.interval == s.nack.interval,
        s.filled(first, packets, n).total_packets == s.total_packets,
        forall|q: u32| #[trigger]
            s.received.contains_key(q) ==> s.filled(first, packets, n).received.contains_key(q)
                && s.filled(first, packets, n).received[q] == s.received[q],
        forall|q: u32|
            first <= q < first + n && !(#[trigger] s.received.contains_key(q)) ==> (
            match crypto::contents(s.key, packets[q - first]) {
                Some(data) => s.filled(first, packets, n).received.contains_key(q) && s.filled(
                    first,
                    packets,
                    n,
                ).received[q] == data,
                None => !s.filled(first, packets, n).received.contains_key(q),
            }),
        forall|q: u32|
            !(first <= q < first + n) ==> (#[trigger] s.filled(
                first,
                packets,
                n,
            ).received.contains_key(q) <==> s.received.contains_key(q)),
    decreases n,
{
    if n > 0 {
        lemma_filled(s, first, packets, (n - 1) as nat);
        let t = s.filled(first, packets, (n - 1) as nat);
        let q = (first + n - 1) as u32;
        assert(t.received.contains_key(q) <==> s.received.contains_key(q));
    }
}

/// What payloads decrypt to: without a key they are the data, and under a key each is a
/// payload of its data.
pub open spec fn opens(
    key: Option<Seq<u8>>,
    payloads: Seq<Seq<u8>>,
    plain: Seq<Seq<u8>>,
) -> bool {
    &&& plain.len() == payloads.len()
    &&& forall|i: int|
        0 <= i < payloads.len() ==> crypto::decrypted(key, #[trigger] payloads[i]) == Ok::<
            Seq<u8>,
            CryptoError,
        >(plain[i]) && payloads[i].len() == plain[i].len() + (if key is Some {
            28int
        } else {
            0int
        })
}

/// A generation of any size is recovered: as soon as the coded packets that came are
/// independent and as many as its source packets, each source packet that was missing is
/// there, whichever were lost, and what was there stays. Under a key it is decrypted.
pub proof fn lemma_coded_recovers(
    s: ReceiverView,
    header: Header,
    payload: Seq<u8>,
    source: Seq<Seq<u8>>,
    plain: Seq<Seq<u8>>,
    size: nat,
    first: u32,
    packets: Seq<(Seq<u8>, Seq<u8>)>,
)
    requires
        s.layout.fec_enabled,
        s.fec_mode == FecMode::Rlnc,
        opens(s.key, source, plain),
        header.flags.bits & 0x01 != 0x01,
        header.flags.bits & 0x10 == 0x10,
        linear::rectangular(source, size),
        1 <= source.len() <= 65_535,
        first <= header.seq < first + 0x1_0000,
        first + source.len() <= u32::MAX,
        payload.len() == 4 + source.len() + size,
        payload[0] * 0x100 + payload[1] == source.len(),
        payload[2] * 0x100 + payload[3] == first % 0x1_0000,
        packets.len() >= source.len(),
        packets.last() == (
            payload.subrange(4, 4 + source.len() as int),
            payload.skip(4 + source.len() as int),
        ),
        if s.generations.contains_key(first) {
            s.generations[first] == (GenerationView {
                k: source.len(),
                size,
                packets: packets.drop_last(),
            })
        } else {
            packets.len() == 1
        },
        forall|i: int|
            0 <= i < packets.len() ==> (#[trigger] packets[i]).1 == rlnc::coded(
                source,
                size,
                packets[i].0,
            ),
        linear::independent(rlnc::system(packets, source.len(), size), source.len()),
    ensures
        s.processed(header, payload) is Ok,
        forall|i: int|
            0 <= i < source.len() ==> (s.processed(
                header,
                payload,
            )->Ok_0).received.contains_key(#[trigger] ((first + i) as u32)),
        forall|i: int|
            0 <= i < source.len() && !s.received.contains_key(#[trigger] ((first + i) as u32)) ==> (
            s.processed(header, payload)->Ok_0).received[(first + i) as u32] == plain[i],
        forall|q: u32| #[trigger]
            s.received.contains_key(q) ==> (s.processed(
                header,
                payload,
            )->Ok_0).received.contains_key(q) && (s.processed(header, payload)->Ok_0).received[q]
                == s.received[q],
{
    let k = source.len();
    let coeffs = payload.subrange(4, 4 + k as int);
    let data = payload.skip(4 + k as int);
    let t = ReceiverView {
        nack: s.nack.recorded(header.seq),
        redundant: s.redundant.insert(header.seq),
        ..s
    };
    assert(buffer::be16_at(payload, 0) == k);
    assert(buffer::be16_at(payload, 2) == packet::len16(first as nat));
    lemma_generation_named(first, header.seq, k);
    assert(t.coded(header.seq, payload) == t.coded_parts(first, coeffs, data));
    lemma_solved(t, source, plain, size, first, packets);
    assert(s.processed(header, payload) == Ok::<ReceiverView, CryptoError>(
        t.coded_parts(first, coeffs, data),
    ));
    assert forall|i: int|
        0 <= i < source.len() && !s.received.contains_key(#[trigger] ((first + i) as u32)) implies (
    s.processed(header, payload)->Ok_0).received[(first + i) as u32] == plain[i] by {
        assert(!t.received.contains_key((first + i) as u32));
    }
    assert forall|q: u32| #[trigger] s.received.contains_key(q) implies (s.processed(
        header,
        payload,
    )->Ok_0).received.contains_key(q) && (s.processed(header, payload)->Ok_0).received[q]
        == s.received[q] by {
        assert(t.received.contains_key(q));
    }
}

/// The packet that makes a generation solvable brings its missing packets.
proof fn lemma_solved(
    t: ReceiverView,
    source: Seq<Seq<u8>>,
    plain: Seq<Seq<u8>>,
    size: nat,
    first: u32,
    packets: Seq<(Seq<u8>, Seq<u8>)>,
)
    requires
        opens(t.key, source, plain),
        linear::rectangular(source, size),
        source.len() >= 1,
        first + source.len() <= u32::MAX,
        packets.len() >= source.len(),
        packets.last().0.len() == source.len(),
        packets.last().1.len() == size,
        if t.generations.contains_key(first) {
            t.generations[first] == (GenerationView {
                k: source.len(),
                size,
                packets: packets.drop_last(),
            })
        } else {
            packets.len() == 1
        },
        forall|i: int|
            0 <= i < packets.len() ==> (#[trigger] packets[i]).1 == rlnc::coded(
                source,
                size,
                packets[i].0,
            ),
        linear::independent(rlnc::system(packets, source.len(), size), source.len()),
    ensures
        forall|i: int|
            0 <= i < source.len() ==> t.coded_parts(
                first,
                packets.last().0,
                packets.last().1,
            ).received.contains_key(#[trigger] ((first + i) as u32)),
        forall|i: int|
            0 <= i < source.len() && !t.received.contains_key(#[trigger] ((first + i) as u32))
                ==> t.coded_parts(
                first,
                packets.last().0,
                packets.last().1,
            ).received[(first + i) as u32] == plain[i],
        forall|q: u32| #[trigger]
            t.received.contains_key(q) ==> t.coded_parts(
                first,
                packets.last().0,
                packets.last().1,
            ).received.contains_key(q) && t.coded_parts(
                first,
                packets.last().0,
                packets.last().1,
            ).received[q] == t.received[q],
{
    let k = source.len();
    let coeffs = packets.last().0;
    let data = packets.last().1;
    let g = t.generation(first, coeffs.len(), data.len()).extended(coeffs, data);
    assert(g.packets =~= packets);
    assert(g.equations() == rlnc::system(packets, k, size));
    rlnc::lemma_decode_undoes_encode(source, size, packets);
    assert(g.solution() == source);
    let u = ReceiverView { generations: t.generations.insert(first, g), ..t };
    let w = u.filled(first as int, source, k);
    assert(t.coded_parts(first, coeffs, data) == w);
    lemma_filled(u, first as int, source, k);
    assert forall|i: int| 0 <= i < k implies w.received.contains_key(
        #[trigger] ((first + i) as u32),
    ) && (!t.received.contains_key((first + i) as u32) ==> w.received[(first + i) as u32]
        == plain[i]) by {
        let q = (first + i) as u32;
        assert(u.received.contains_key(q) == t.received.contains_key(q));
        assert(crypto::decrypted(u.key, source[i]) == Ok::<Seq<u8>, CryptoError>(plain[i]));
        assert(crypto::contents(u.key, source[i]) == Some(plain[i]));
    }
    assert forall|q: u32| #[trigger] t.received.contains_key(q) implies w.received.contains_key(q)
        && w.received[q] == t.received[q] by {
        assert(u.received.contains_key(q));
    }
}

/// A coded packet is kept with those of its generation, whether or not it completes it, and
/// other generations stay as they are.
pub proof fn lemma_coded_kept(
    s: ReceiverView,
    header: Header,
    payload: Seq<u8>,
    k: nat,
    first: u32,
    other: u32,
)
    requires
        s.layout.fec_enabled,
        s.fec_mode == FecMode::Rlnc,
        header.flags.bits & 0x01 != 0x01,
        header.flags.bits & 0x10 == 0x10,
        k <= 65_535,
        first <= header.seq < first + 0x1_0000,
        first + k <= u32::MAX,
        payload.len() >= 4 + k,
        payload[0] * 0x100 + payload[1] == k,
        payload[2] * 0x100 + payload[3] == first % 0x1_0000,
        other != first,
    ensures
        ({
            let t = s.processed(header, payload)->Ok_0;
            let parts = (payload.subrange(4, 4 + k as int), payload.skip(4 + k as int));
            &&& t.generations.contains_key(first)
            &&& s.generations.contains_key(first) ==> t.generations[first] == (GenerationView {
                packets: s.generations[first].packets.push(parts),
                ..s.generations[first]
            })
            &&& !s.generations.contains_key(first) ==> t.generations[first] == (GenerationView {
                k,
                size: (payload.len() - 4 - k) as nat,
                packets: seq![parts],
            })
            &&& t.generations.contains_key(other) <==> s.generations.contains_key(other)
            &&& s.generations.contains_key(other) ==> t.generations[other] == s.generations[other]
        }),
{
    let coeffs = payload.subrange(4, 4 + k as int);
    let data = payload.skip(4 + k as int);
    let t = ReceiverView {
        nack: s.nack.recorded(header.seq),
        redundant: s.redundant.insert(header.seq),
        ..s
    };
    assert(buffer::be16_at(payload, 0) == k);
    assert(buffer::be16_at(payload, 2) == packet::len16(first as nat));
    lemma_generation_named(first, header.seq, k);
    assert(t.coded(header.seq, payload) == t.coded_parts(first, coeffs, data));
    let g = t.generation(first, coeffs.len(), data.len()).extended(coeffs, data);
    let u = ReceiverView { generations: t.generations.insert(first, g), ..t };
    lemma_filling_keeps(u, first as int, g.solution(), g.k);
    assert(Seq::<(Seq<u8>, Seq<u8>)>::empty().push((coeffs, data)) =~= seq![(coeffs, data)]);
}

/// Data that comes is kept under its number, counted once as a packet, and no longer in
/// doubt, in whatever state the receiver is; what else was received stays, and the FIN and
/// the redundancy stay as they are.
pub proof fn lemma_data_taken_in(s: ReceiverView, header: Header, payload: Seq<u8>, data: Seq<u8>)
    requires
        header.flags.bits & 0x01 == 0x01,
        s.key is None ==> data == payload,
        s.key is Some ==> crypto::decrypted(s.key, payload) == Ok::<Seq<u8>, CryptoError>(data),
    ensures
        s.processed(header, payload) is Ok,
        ({
            let t = s.processed(header, payload)->Ok_0;
            &&& t.received.contains_key(header.seq)
            &&& t.received[header.seq] == data
            &&& t.payloads[header.seq] == payload
            &&& !t.guessed.contains(header.seq)
            &&& t.nack.received.contains(header.seq)
            &&& t.total_packets == s.total_packets + 1
            &&& s.fec_recoveries <= t.fec_recoveries <= s.fec_recoveries + 1
            &&& t.fin_seq == s.fin_seq
            &&& t.parity == s.parity
            &&& t.generations == s.generations
            &&& t.redundant == s.redundant
            &&& forall|q: u32|
                q != header.seq && #[trigger] s.received.contains_key(q)
                    ==> t.received.contains_key(q) && t.received[q] == s.received[q]
                    && t.payloads[q] == s.payloads[q] && (t.guessed.contains(q)
                    <==> s.guessed.contains(q))
        }),
        !(s.layout.fec_enabled && s.fec_mode == FecMode::Xor) || s.parity.dom()
            =~= Set::<u32>::empty() ==> ({
            let t = s.processed(header, payload)->Ok_0;
            &&& t.received == s.received.insert(header.seq, data)
            &&& t.fec_recoveries == s.fec_recoveries
            &&& t.received_bytes == s.received_bytes + (if s.received.contains_key(header.seq) {
                0
            } else {
                data.len() as int
            })
        }),
{
    let seq = header.seq;
    let a = s.arrived(seq, payload, data);
    if s.uses_xor() {
        let start = s.layout.start(seq);
        assert(a.parity.dom().contains(start as u32) <==> a.parity.contains_key(start as u32));
        if a.can_heal(seq) {
            let n = a.block_len(seq);
            lemma_absent_not_received(a, start, n, 0);
        }
    }
}

/// A packet of redundancy never counts as data and never changes data that is there; a FIN
/// tells the end and nothing else; and a packet of another kind changes nothing.
pub proof fn lemma_other_packets(s: ReceiverView, header: Header, payload: Seq<u8>)
    requires
        header.flags.bits & 0x01 != 0x01,
    ensures
        s.processed(header, payload) is Ok,
        header.flags.bits & 0x10 == 0x10 ==> ({
            let t = s.processed(header, payload)->Ok_0;
            &&& t.total_packets == s.total_packets
            &&& t.fin_seq == s.fin_seq
            &&& t.nack.received.contains(header.seq)
            &&& t.redundant == (if s.layout.fec_enabled {
                s.redundant.insert(header.seq)
            } else {
                s.redundant
            })
            &&& !s.layout.fec_enabled ==> t.received == s.received && t.parity == s.parity
                && t.generations == s.generations
            &&& forall|q: u32| #[trigger]
                s.received.contains_key(q) ==> t.received.contains_key(q) && t.received[q]
                    == s.received[q]
        }),
        header.flags.bits & 0x10 != 0x10 && header.flags.bits & 0x04 == 0x04 ==> (s.processed(
            header,
            payload,
        )->Ok_0).fin_seq == Some(header.seq) && (s.processed(header, payload)->Ok_0)
            == (ReceiverView { fin_seq: Some(header.seq), ..s }),
        header.flags.bits & 0x10 != 0x10 && header.flags.bits & 0x04 != 0x04 ==> (s.processed(
            header,
            payload,
        )->Ok_0) == s,
{
    let seq = header.seq;
    if header.flags.bits & 0x10 == 0x10 {
        let r = ReceiverView { nack: s.nack.recorded(seq), ..s };
        let t = ReceiverView { redundant: r.redundant.insert(seq), ..r };
        if s.layout.fec_enabled {
            if s.fec_mode == FecMode::Xor {
                let u = t.with_parity(seq, payload);
                let at = s.layout.start(seq) as u32;
                if u.can_heal(at) {
                    lemma_absent_not_received(u, u.layout.start(at), u.block_len(at), 0);
                }
            } else {
                lemma_coded_keeps(t, seq, payload);
            }
        }
    }
}

/// A coded packet leaves data, counts and the FIN as they are.
proof fn lemma_coded_keeps(s: ReceiverView, seq: u32, payload: Seq<u8>)
    ensures
        s.coded(seq, payload).total_packets == s.total_packets,
        s.coded(seq, payload).fin_seq == s.fin_seq,
        s.coded(seq, payload).redundant == s.redundant,
        s.nack.received.subset_of(s.coded(seq, payload).nack.received),
        forall|q: u32| #[trigger]
            s.received.contains_key(q) ==> s.coded(seq, payload).received.contains_key(q)
                && s.coded(seq, payload).received[q] == s.received[q],
{
    let k = buffer::be16_at(payload, 0);
    let first = first_number(seq, buffer::be16_at(payload, 2), k as nat);
    if payload.len() >= 4 + k {
        let coeffs = payload.subrange(4, 4 + k);
        let data = payload.skip(4 + k);
        let g = s.generation(first, coeffs.len(), data.len()).extended(coeffs, data);
        let u = ReceiverView { generations: s.generations.insert(first, g), ..s };
        lemma_filling_keeps(u, first as int, g.solution(), g.k);
        assert forall|q: u32| #[trigger] s.received.contains_key(q) implies s.coded(
            seq,
            payload,
        ).received.contains_key(q) && s.coded(seq, payload).received[q] == s.received[q] by {
            assert(u.received.contains_key(q));
        }
    }
}

/// Filling in leaves data, counts and the FIN as they are.
proof fn lemma_filling_keeps(s: ReceiverView, first: int, packets: Seq<Seq<u8>>, n: nat)
    ensures
        s.filled(first, packets, n).total_packets == s.total_packets,
        s.filled(first, packets, n).fin_seq == s.fin_seq,
        s.filled(first, packets, n).redundant == s.redundant,
        s.filled(first, packets, n).generations == s.generations,
        s.nack.received.subset_of(s.filled(first, packets, n).nack.received),
        forall|q: u32| #[trigger]
            s.received.contains_key(q) ==> s.filled(first, packets, n).received.contains_key(q)
                && s.filled(first, packets, n).received[q] == s.received[q],
    decreases n,
{
    if n > 0 {
        lemma_filling_keeps(s, first, packets, (n - 1) as nat);
    }
}

/// When a receive is complete. Never before the FIN. Where the size is known, as soon as
/// that many bytes are there and the last packet is not in doubt, which without encryption
/// it never is. Where the size is unknown, as soon as every number before the FIN is that of
/// data that came, of a packet of redundancy that came, or a place of parity.
pub proof fn lemma_completion_told(s: ReceiverView, file_size: u64)
    ensures
        s.fin_seq is None ==> !s.complete(file_size),
        s.fin_seq is Some && s.key is None && file_size != 0xffff_ffff_ffff_ffff ==> (s.complete(
            file_size,
        ) <==> s.received_bytes >= file_size),
        s.fin_seq is Some && s.key is Some && file_size != 0xffff_ffff_ffff_ffff ==> (s.complete(
            file_size,
        ) <==> s.received_bytes >= file_size && !exists|q: u32|
            #[trigger] s.guessed.contains(q) && forall|x: u32| #[trigger]
                s.received.contains_key(x) ==> x <= q),
        s.fin_seq is Some && file_size == 0xffff_ffff_ffff_ffff ==> (s.complete(file_size)
            <==> forall|q: u32|
            1 <= q < s.fin_seq->0 ==> (#[trigger] s.received.contains_key(q)
                || s.redundant.contains(q) || s.fec_mode == FecMode::Xor && s.layout.is_parity(q))
                && !(s.guessed.contains(q) && forall|x: u32| #[trigger]
                s.received.contains_key(x) ==> x <= q)),
{
    if s.fin_seq is Some {
        let fin = s.fin_seq->0;
        if file_size == u64::MAX {
            let list = s.needed_below(fin as nat, file_size);
            lemma_needed_below(s, fin as nat, file_size);
            if list.len() > 0 {
                assert(list.contains(list[0]));
                let q = list[0];
                assert(s.needed(q, file_size));
                if s.lost(q) {
                    assert(!s.received.contains_key(q));
                } else {
                    assert(s.doubtful(q, file_size));
                    assert(s.received.contains_key(q) || s.redundant.contains(q)
                        || s.fec_mode == FecMode::Xor && s.layout.is_parity(q));
                    assert(s.guessed.contains(q) && forall|x: u32| #[trigger]
                        s.received.contains_key(x) ==> x <= q);
                }
            } else {
                assert forall|q: u32| 1 <= q < fin implies (#[trigger] s.received.contains_key(q)
                    || s.redundant.contains(q) || s.fec_mode == FecMode::Xor && s.layout.is_parity(
                    q,
                )) && !(s.guessed.contains(q) && forall|x: u32| #[trigger]
                    s.received.contains_key(x) ==> x <= q) by {
                    assert(!list.contains(q));
                    assert(!s.needed(q, file_size));
                }
            }
        } else if s.key is Some {
            if s.in_doubt(file_size) {
                let q = choose|q: u32| #[trigger] s.doubtful(q, file_size);
                assert(s.guessed.contains(q));
            }
            assert forall|q: u32|
                #[trigger] s.guessed.contains(q) && (forall|x: u32| #[trigger]
                    s.received.contains_key(x) ==> x <= q) implies s.in_doubt(file_size) by {
                assert(s.doubtful(q, file_size));
            }
        }
    }
}

/// What the receiver asks for. After the FIN it is, at any time and as often as it is asked,
/// each number before the FIN under which no data and no redundancy came, places of parity
/// aside, and the last packet while it is in doubt. Before the FIN it is what the tracker
/// lists, once in an interval.
pub proof fn lemma_wanted_told(s: ReceiverView, now: u64, file_size: u64, q: u32)
    ensures
        s.fin_seq is Some && s.fin_seq->0 > 0 ==> s.asked(now, file_size) == s,
        s.fin_seq is Some && s.fin_seq->0 > 0 ==> (s.wanted(now, file_size).contains(q) <==> 1 <= q
            < s.fin_seq->0 && ((!s.received.contains_key(q) && !s.redundant.contains(q) && !(
        s.fec_mode == FecMode::Xor && s.layout.is_parity(q))) || ((s.key is Some || file_size
            == 0xffff_ffff_ffff_ffff) && s.guessed.contains(q) && forall|x: u32| #[trigger]
            s.received.contains_key(x) ==> x <= q))),
        (s.fin_seq is None || s.fin_seq->0 == 0) && s.nack.last_nack is None ==> s.wanted(
            now,
            file_size,
        ) == s.nack.missing(1),
        (s.fin_seq is None || s.fin_seq->0 == 0) && s.nack.last_nack is Some
            && s.nack.last_nack->0 <= now ==> s.wanted(now, file_size) == (if now
            - s.nack.last_nack->0 < s.nack.interval {
            Seq::<u32>::empty()
        } else {
            s.nack.missing(1)
        }),
        (s.fin_seq is None || s.fin_seq->0 == 0) ==> s.asked(now, file_size).nack.last_nack == (
        if s.wanted(now, file_size).len() > 0 {
            Some(now)
        } else {
            s.nack.last_nack
        }),
        s.asked(now, file_size).received == s.received,
        s.asked(now, file_size).nack.received == s.nack.received,
        s.asked(now, file_size).nack.highest == s.nack.highest,
        s.asked(now, file_size).nack.interval == s.nack.interval,
{
    if s.end_known() {
        lemma_needed_below(s, (s.fin_seq->0) as nat, file_size);
    }
}

/// NACKs are filled up: each but the last names 300 numbers, the last one at least one and
/// no more than 300, and together they name as many as there are.
pub proof fn lemma_nacks_filled(missing: Seq<u32>, i: int)
    requires
        0 <= i < (missing.len() + 299) / 300,
    ensures
        1 <= nack_part(missing, i).len() <= 300,
        i + 1 < (missing.len() + 299) / 300 ==> nack_part(missing, i).len() == 300,
        i + 1 == (missing.len() + 299) / 300 ==> nack_part(missing, i).len() == missing.len() - 300
            * i,
        forall|x: int|
            0 <= x < nack_part(missing, i).len() ==> #[trigger] nack_part(missing, i)[x]
                == missing[300 * i + x],
{
}

/// A packet that was recovered counts as such, and its bytes count.
proof fn lemma_computed_counts(s: ReceiverView, q: u32, payload: Seq<u8>)
    requires
        s.received.dom().finite(),
        !s.received.contains_key(q),
    ensures
        s.computed(q, payload).received.dom().finite(),
        s.computed(q, payload).fec_recoveries - s.fec_recoveries == s.computed(
            q,
            payload,
        ).received.dom().len() - s.received.dom().len(),
        s.key is None ==> s.computed(q, payload).received_bytes - s.received_bytes == payload.len()
            * (s.computed(q, payload).fec_recoveries - s.fec_recoveries),
        s.nack.received.subset_of(s.computed(q, payload).nack.received),
        forall|x: u32| #[trigger]
            s.computed(q, payload).received.contains_key(x) ==> s.received.contains_key(x)
                || s.computed(q, payload).nack.received.contains(x),
{
    let t = s.computed(q, payload);
    if t != s {
        assert(t.received.dom() =~= s.received.dom().insert(q));
        assert(!s.received.dom().contains(q));
    }
    assert(payload.len() * 1 == payload.len());
    assert(payload.len() * 0 == 0);
}

/// The same of the missing packets of a generation, all of one size.
proof fn lemma_filled_counts(
    s: ReceiverView,
    first: int,
    packets: Seq<Seq<u8>>,
    n: nat,
    size: nat,
)
    requires
        s.received.dom().finite(),
        n <= packets.len(),
        linear::rectangular(packets, size),
    ensures
        s.filled(first, packets, n).received.dom().finite(),
        s.filled(first, packets, n).key == s.key,
        s.filled(first, packets, n).fec_recoveries - s.fec_recoveries == s.filled(
            first,
            packets,
            n,
        ).received.dom().len() - s.received.dom().len(),
        s.key is None ==> s.filled(first, packets, n).received_bytes - s.received_bytes == size * (
        s.filled(first, packets, n).fec_recoveries - s.fec_recoveries),
        s.nack.received.subset_of(s.filled(first, packets, n).nack.received),
        forall|x: u32| #[trigger]
            s.filled(first, packets, n).received.contains_key(x) ==> s.received.contains_key(x)
                || s.filled(first, packets, n).nack.received.contains(x),
    decreases n,
{
    if n > 0 {
        lemma_filled_counts(s, first, packets, (n - 1) as nat, size);
        let t = s.filled(first, packets, (n - 1) as nat);
        let q = (first + n - 1) as u32;
        if !t.received.contains_key(q) {
            lemma_computed_counts(t, q, packets[n - 1]);
            let u = t.computed(q, packets[n - 1]);
            assert(packets[n - 1].len() == size);
            assert(size * (t.fec_recoveries - s.fec_recoveries) + size * (u.fec_recoveries
                - t.fec_recoveries) == size * (u.fec_recoveries - s.fec_recoveries))
                by (nonlinear_arith);
        }
    } else {
        assert(size * 0 == 0);
    }
}

/// What was received is never asked for as a gap, however it came: every packet keeps it so
/// that the tracker knows of all data that is there. And every recovery counts once: with a
/// packet of redundancy as many are counted as packets are there that were not there before,
/// and with a data packet the same but for that packet itself.
pub proof fn lemma_recoveries_counted(s: ReceiverView, header: Header, payload: Seq<u8>)
    requires
        s.received.dom().finite(),
        forall|q: u32| #[trigger] s.received.contains_key(q) ==> s.nack.received.contains(q),
        s.processed(header, payload) is Ok,
    ensures
        ({
            let t = s.processed(header, payload)->Ok_0;
            &&& t.received.dom().finite()
            &&& forall|q: u32| #[trigger]
                t.received.contains_key(q) ==> t.nack.received.contains(q)
            &&& t.fec_recoveries - s.fec_recoveries == t.received.dom().len()
                - s.received.dom().len() - (if header.flags.bits & 0x01 == 0x01
                && !s.received.contains_key(header.seq) {
                1int
            } else {
                0int
            })
        }),
{
    let seq = header.seq;
    if header.flags.bits & 0x01 == 0x01 {
        let data = crypto::decrypted(s.key, payload)->Ok_0;
        let a = s.arrived(seq, payload, data);
        assert(a.received.dom() =~= s.received.dom().insert(seq));
        if s.uses_xor() && a.can_heal(seq) {
            let start = a.layout.start(seq);
            let n = a.block_len(seq);
            lemma_absent_not_received(a, start, n, 0);
            lemma_computed_counts(
                a,
                a.absent(start, n)[0],
                fec::remainder(a.present(start, n), a.parity[start as u32].data),
            );
        }
    } else if header.flags.bits & 0x10 == 0x10 && s.layout.fec_enabled {
        let r = ReceiverView { nack: s.nack.recorded(seq), ..s };
        let t = ReceiverView { redundant: r.redundant.insert(seq), ..r };
        if s.fec_mode == FecMode::Xor {
            let u = t.with_parity(seq, payload);
            let at = s.layout.start(seq) as u32;
            if u.can_heal(at) {
                let start = u.layout.start(at);
                let n = u.block_len(at);
                lemma_absent_not_received(u, start, n, 0);
                lemma_computed_counts(
                    u,
                    u.absent(start, n)[0],
                    fec::remainder(u.present(start, n), u.parity[start as u32].data),
                );
            }
        } else {
            let k = buffer::be16_at(payload, 0);
            let first = first_number(seq, buffer::be16_at(payload, 2), k as nat);
            if !(payload.len() < 4 || payload.len() < 4 + k) {
                let coeffs = payload.subrange(4, 4 + k);
                let data = payload.skip(4 + k);
                let g = t.generation(first, coeffs.len(), data.len()).extended(coeffs, data);
                let u = ReceiverView { generations: t.generations.insert(first, g), ..t };
                if g.solvable() {
                    lemma_solution_shape(g);
                    lemma_filled_counts(u, first as int, g.solution(), g.k, g.size);
                    let w = u.filled(first as int, g.solution(), g.k);
                    assert forall|q: u32| #[trigger]
                        w.received.contains_key(q) implies w.nack.received.contains(q) by {
                        if s.received.contains_key(q) {
                            assert(s.nack.received.contains(q));
                            assert(u.nack.received.contains(q));
                        }
                    }
                }
            }
        }
    }
}

} // verus!
