//! The sending end of a transfer: the packets that carry a file, the redundancy that
//! goes with them, and what feedback does to its state.

use crate::buffer;
use crate::protocol::fec;
use crate::protocol::fec::{FecEncoder, FecMode};
use crate::protocol::packet;
use crate::protocol::packet::{Header, Packet, PacketFlags};
use crate::protocol::rlnc;
use crate::protocol::rlnc::RlncEncoder;
use crate::transfer::crypto;
use crate::transfer::crypto::{Cipher, CryptoError};
use crate::transfer::store;
use std::collections::HashMap;
use std::time::Duration;
use vstd::prelude::*;

verus! {

broadcast use vstd::std_specs::hash::group_hash_axioms;

// ---------------------------------------------------------------------------
// The model
// ---------------------------------------------------------------------------

/// A packet kept for retransmission.
pub struct SentView {
    /// The bytes as they were sent.
    pub wire: Seq<u8>,
    /// When it was last sent, in microseconds.
    pub sent_at_us: u64,
    /// How often it was sent again.
    pub retransmits: u32,
}

/// The state of the sending end.
pub struct SenderView {
    pub fec_enabled: bool,
    pub fec_mode: FecMode,
    /// Data packets per parity packet.
    pub block: nat,
    /// Source packets per generation.
    pub generation_size: nat,
    /// The key, if payloads are encrypted.
    pub key: Option<Seq<u8>>,
    /// Packets by sequence number: data and redundancy.
    pub sent: Map<u32, SentView>,
    /// The payloads of the parity block under way.
    pub block_payloads: Seq<Seq<u8>>,
    /// The payloads of the generation under way, all of one size.
    pub source: Seq<Seq<u8>>,
    pub source_size: nat,
    /// Their sequence numbers.
    pub source_seqs: Seq<u32>,
    pub next_seq: u32,
    pub last_data_seq: u32,
    pub last_rtt_us: u64,
    pub nack_count: u64,
}

/// The header and payload of a data packet.
pub open spec fn data_wire(seq: u32, payload: Seq<u8>) -> Seq<u8> {
    packet::wire(
        Header {
            seq,
            flags: PacketFlags { bits: PacketFlags::DATA },
            payload_len: packet::len16(payload.len()),
        },
        payload,
    )
}

/// The header and payload of a parity packet or a coded packet.
pub open spec fn fec_wire(seq: u32, payload: Seq<u8>) -> Seq<u8> {
    packet::wire(
        Header {
            seq,
            flags: PacketFlags { bits: PacketFlags::FEC },
            payload_len: packet::len16(payload.len()),
        },
        payload,
    )
}

/// How many coded packets go with a generation of `k`.
pub open spec fn redundancy(k: nat) -> nat {
    if k / 2 < 1 {
        1
    } else {
        k / 2
    }
}

/// The payload of a coded packet: the number of source packets and the first sequence
/// number, both in two bytes, then the coefficients and the coded data.
pub open spec fn coded_payload(
    source: Seq<Seq<u8>>,
    size: nat,
    first_seq: u32,
    coeffs: Seq<u8>,
) -> Seq<u8> {
    buffer::be16(packet::len16(source.len())) + buffer::be16(packet::len16(first_seq as nat))
        + coeffs + rlnc::coded(source, size, coeffs)
}

/// `payload` is a coded packet of the generation for some coefficients, one for each
/// source packet and not all of them zero, drawn for the packet with the number `seq`.
pub open spec fn codes(
    source: Seq<Seq<u8>>,
    size: nat,
    first_seq: u32,
    seq: u32,
    payload: Seq<u8>,
) -> bool {
    exists|coeffs: Seq<u8>|
        {
            &&& coeffs.len() == source.len()
            &&& rlnc::some_nonzero(coeffs)
            &&& rlnc::from_draw(seq, source.len(), coeffs)
            &&& payload == #[trigger] coded_payload(source, size, first_seq, coeffs)
        }
}

impl SenderView {
    /// No block and no generation is under way.
    pub open spec fn idle(self) -> bool {
        &&& self.block_payloads.len() == 0
        &&& self.source.len() == 0
        &&& self.source_size == 0
        &&& self.source_seqs.len() == 0
    }

    /// The state at the start of a transfer. What an earlier one left in the encoders when it
    /// was cut short stays there.
    pub open spec fn begun(self) -> SenderView {
        SenderView {
            sent: Map::empty(),
            next_seq: 1,
            last_data_seq: 0,
            nack_count: 0,
            ..self
        }
    }

    /// A data packet took the next sequence number.
    pub open spec fn numbered(self) -> SenderView {
        SenderView { next_seq: (self.next_seq + 1) as u32, last_data_seq: self.next_seq, ..self }
    }

    /// A data packet was sent.
    pub open spec fn kept(self, seq: u32, wire: Seq<u8>, now_us: u64) -> SenderView {
        SenderView {
            sent: self.sent.insert(seq, SentView { wire, sent_at_us: now_us, retransmits: 0 }),
            ..self
        }
    }

    /// Packets of redundancy were sent, under the numbers from `first` on.
    pub open spec fn kept_all(self, first: u32, wires: Seq<Vec<u8>>, now_us: u64) -> SenderView
        decreases wires.len(),
    {
        if wires.len() == 0 {
            self
        } else {
            self.kept_all(first, wires.drop_last(), now_us).kept(
                (first + wires.len() - 1) as u32,
                wires.last()@,
                now_us,
            )
        }
    }

    /// Bytes that a packet has to spare beside a chunk: for the nonce and the tag, and for
    /// what goes with coded data.
    pub open spec fn reserve(self) -> nat {
        crypto::overhead(self.key) + (if self.fec_enabled && self.fec_mode == FecMode::Rlnc {
            4 + (if self.generation_size == 0 {
                1
            } else {
                self.generation_size
            })
        } else {
            0
        })
    }

    /// The longest chunk all of whose packets have room in a datagram.
    pub open spec fn chunk_room(self) -> nat {
        if self.reserve() < packet::MAX_PAYLOAD {
            (packet::MAX_PAYLOAD - self.reserve()) as nat
        } else {
            1
        }
    }

    /// A block of payloads is full with this one.
    pub open spec fn completes_block(self) -> bool {
        self.block_payloads.len() + 1 >= self.block
    }

    /// A payload went into the parity block; a full block takes a sequence number for its
    /// parity and leaves an empty block.
    pub open spec fn parity_fed(self, payload: Seq<u8>) -> SenderView {
        if self.completes_block() {
            SenderView {
                block_payloads: Seq::empty(),
                next_seq: (self.next_seq + 1) as u32,
                ..self
            }
        } else {
            SenderView { block_payloads: self.block_payloads.push(payload), ..self }
        }
    }

    /// The generation under way with a payload more.
    pub open spec fn source_fed(self, seq: u32, payload: Seq<u8>) -> SenderView {
        let size = if payload.len() > self.source_size {
            payload.len()
        } else {
            self.source_size
        };
        SenderView {
            source: self.source.map_values(|r: Seq<u8>| buffer::padded(r, size)).push(
                buffer::padded(payload, size),
            ),
            source_size: size,
            source_seqs: self.source_seqs.push(seq),
            ..self
        }
    }

    /// The generation was sent out: each coded packet took a sequence number.
    pub open spec fn generation_sent(self) -> SenderView {
        SenderView {
            source: Seq::empty(),
            source_size: 0,
            source_seqs: Seq::empty(),
            next_seq: (self.next_seq + redundancy(self.source.len())) as u32,
            ..self
        }
    }

    /// The generation is full.
    pub open spec fn completes_generation(self) -> bool {
        self.source.len() >= self.generation_size
    }

    /// The id of the generation: its first sequence number.
    pub open spec fn generation_id(self) -> u32 {
        if self.source_seqs.len() > 0 {
            self.source_seqs[0]
        } else {
            0
        }
    }

    /// `wire` is a coded packet of the generation, `i` numbers after the next.
    pub open spec fn is_coded_wire(self, i: int, wire: Seq<u8>) -> bool {
        exists|payload: Seq<u8>|
            {
                &&& codes(
                    self.source,
                    self.source_size,
                    self.generation_id(),
                    (self.next_seq + i) as u32,
                    payload,
                )
                &&& wire == #[trigger] fec_wire((self.next_seq + i) as u32, payload)
            }
    }

    /// `wires` are the coded packets of the generation, under the next sequence numbers.
    pub open spec fn generation_wires(self, wires: Seq<Vec<u8>>) -> bool {
        &&& wires.len() == redundancy(self.source.len())
        &&& forall|i: int|
            0 <= i < wires.len() ==> self.is_coded_wire(i, (#[trigger] wires[i])@)
    }

    /// How many packets of redundancy a payload brings about.
    pub open spec fn redundancy_due(self) -> nat {
        if !self.fec_enabled {
            0
        } else if self.fec_mode == FecMode::Xor {
            if self.completes_block() {
                1
            } else {
                0
            }
        } else if self.source.len() + 1 >= self.generation_size {
            redundancy(self.source.len() + 1)
        } else {
            0
        }
    }

    /// How many packets of redundancy are left to send at the end.
    pub open spec fn redundancy_left(self) -> nat {
        if !self.fec_enabled {
            0
        } else if self.fec_mode == FecMode::Xor {
            if self.block_payloads.len() > 0 {
                1
            } else {
                0
            }
        } else if self.source.len() > 0 {
            redundancy(self.source.len())
        } else {
            0
        }
    }

    /// The state after a payload went into the redundancy.
    pub open spec fn protected(self, seq: u32, payload: Seq<u8>) -> SenderView {
        if !self.fec_enabled {
            self
        } else if self.fec_mode == FecMode::Xor {
            self.parity_fed(payload)
        } else {
            let fed = self.source_fed(seq, payload);
            if fed.completes_generation() {
                fed.generation_sent()
            } else {
                fed
            }
        }
    }

    /// `wires` are the packets of redundancy that a payload brings about.
    pub open spec fn protection(self, seq: u32, payload: Seq<u8>, wires: Seq<Vec<u8>>) -> bool {
        if self.redundancy_due() == 0 {
            wires.len() == 0
        } else if self.fec_mode == FecMode::Xor {
            wires.len() == 1 && wires[0]@ == fec_wire(
                self.next_seq,
                fec::parity_of(self.block_payloads.push(payload)),
            )
        } else {
            self.source_fed(seq, payload).generation_wires(wires)
        }
    }

    /// The state after the redundancy was flushed at the end.
    pub open spec fn flushed(self) -> SenderView {
        if self.redundancy_left() == 0 {
            self
        } else if self.fec_mode == FecMode::Xor {
            SenderView {
                block_payloads: Seq::empty(),
                next_seq: (self.next_seq + 1) as u32,
                ..self
            }
        } else {
            self.generation_sent()
        }
    }

    /// `wires` are the packets of redundancy left at the end.
    pub open spec fn remainder(self, wires: Seq<Vec<u8>>) -> bool {
        if self.redundancy_left() == 0 {
            wires.len() == 0
        } else if self.fec_mode == FecMode::Xor {
            wires.len() == 1 && wires[0]@ == fec_wire(
                self.next_seq,
                fec::parity_of(self.block_payloads),
            )
        } else {
            self.generation_wires(wires)
        }
    }

    /// Packets made of what the encoders hold can be addressed.
    pub open spec fn sizes_fit(self) -> bool {
        &&& fec::longest(self.block_payloads) + 64 <= isize::MAX
        &&& self.source.len() + self.source_size + 64 <= isize::MAX
    }

    /// There are sequence numbers for `n` more packets.
    pub open spec fn can_number(self, n: nat) -> bool {
        self.next_seq + n <= u32::MAX
    }

    /// The round-trip time that a NACK shows: since the first packet that it names was
    /// last sent, if that packet is kept.
    pub open spec fn shown_rtt(self, seqs: Seq<u32>, now_us: u64) -> u64 {
        if seqs.len() > 0 && self.sent.contains_key(seqs[0]) {
            if now_us >= self.sent[seqs[0]].sent_at_us {
                (now_us - self.sent[seqs[0]].sent_at_us) as u64
            } else {
                0
            }
        } else {
            self.last_rtt_us
        }
    }

    /// The state after a NACK, before anything is sent again.
    pub open spec fn nacked(self, seqs: Seq<u32>, now_us: u64) -> SenderView {
        let rtt = self.shown_rtt(seqs, now_us);
        SenderView {
            nack_count: (self.nack_count + 1) as u64,
            last_rtt_us: if rtt > 0 {
                rtt
            } else {
                self.last_rtt_us
            },
            ..self
        }
    }

    /// Those of `seqs` that are kept, in order.
    pub open spec fn kept_of(self, seqs: Seq<u32>) -> Seq<u32>
        decreases seqs.len(),
    {
        if seqs.len() == 0 {
            Seq::empty()
        } else {
            let rest = self.kept_of(seqs.drop_last());
            if self.sent.contains_key(seqs.last()) {
                rest.push(seqs.last())
            } else {
                rest
            }
        }
    }

    /// A kept packet was sent again.
    pub open spec fn resent(self, seq: u32, now_us: u64) -> SenderView {
        SenderView {
            sent: self.sent.insert(
                seq,
                SentView {
                    sent_at_us: now_us,
                    retransmits: (self.sent[seq].retransmits + 1) as u32,
                    ..self.sent[seq]
                },
            ),
            ..self
        }
    }

    /// Retransmissions of the packets under `seqs`.
    pub open spec fn resends_of(self, seqs: Seq<u32>) -> nat
        decreases seqs.len(),
    {
        if seqs.len() == 0 {
            0
        } else {
            self.resends_of(seqs.drop_last()) + self.sent[seqs.last()].retransmits as nat
        }
    }
}

// ---------------------------------------------------------------------------
// Sent packets
// ---------------------------------------------------------------------------

/// A packet kept for retransmission.
pub struct SentPacket {
    data: Vec<u8>,
    sent_at_us: u64,
    retransmit_count: u32,
}

impl View for SentPacket {
    type V = SentView;

    closed spec fn view(&self) -> SentView {
        SentView {
            wire: self.data@,
            sent_at_us: self.sent_at_us,
            retransmits: self.retransmit_count,
        }
    }
}

/// Packets by sequence number.
pub struct SentPackets {
    inner: HashMap<u32, SentPacket>,
}

impl View for SentPackets {
    type V = Map<u32, SentView>;

    closed spec fn view(&self) -> Map<u32, SentView> {
        self.inner@.map_values(|p: SentPacket| p@)
    }
}

impl SentPackets {
    fn new() -> (s: Self)
        ensures
            s@ == Map::<u32, SentView>::empty(),
    {
        let s = SentPackets { inner: HashMap::new() };
        proof {
            assert(s@ =~= Map::<u32, SentView>::empty());
        }
        s
    }

    fn clear(&mut self)
        ensures
            final(self)@ == Map::<u32, SentView>::empty(),
    {
        self.inner.clear();
        proof {
            assert(self@ =~= Map::<u32, SentView>::empty());
        }
    }

    fn insert(&mut self, seq: u32, p: SentPacket)
        ensures
            final(self)@ == old(self)@.insert(seq, p@),
    {
        let ghost before = self@;
        self.inner.insert(seq, p);
        proof {
            assert(self@ =~= before.insert(seq, p@));
        }
    }

    fn take(&mut self, seq: u32) -> (r: Option<SentPacket>)
        ensures
            final(self)@ == old(self)@.remove(seq),
            match r {
                Some(p) => old(self)@.contains_key(seq) && old(self)@[seq] == p@,
                None => !old(self)@.contains_key(seq),
            },
    {
        let ghost before = self@;
        let r: Option<SentPacket> = self.inner.remove(&seq);
        proof {
            assert(self@ =~= before.remove(seq));
        }
        r
    }

    /// The sequence numbers in ascending order.
    fn sorted_seqs(&self) -> (out: Vec<u32>)
        ensures
            out@ == store::ascending(self@.dom()),
    {
        let list: Vec<u32> = store::keys_of(&self.inner);
        let ghost dom = self.inner@.dom();
        proof {
            assert(self@.dom() =~= dom);
        }
        store::sort_members(list, Ghost(dom))
    }

    fn get(&self, seq: u32) -> (r: Option<&SentPacket>)
        ensures
            match r {
                Some(p) => self@.contains_key(seq) && self@[seq] == p@,
                None => !self@.contains_key(seq),
            },
    {
        self.inner.get(&seq)
    }
}

// ---------------------------------------------------------------------------
// The sending end
// ---------------------------------------------------------------------------

/// Configuration of the sending end.
#[derive(Clone, Copy, Debug)]
pub struct SenderConfig {
    /// Initial sending rate in bits per second (default: 10 Mbps).
    pub initial_rate_bps: u64,
    /// Maximum sending rate in bits per second (default: 1 Gbps).
    pub max_rate_bps: u64,
    /// Enable FEC (forward error correction).
    pub fec_enabled: bool,
    /// FEC block size (data packets per parity packet, XOR mode).
    pub fec_block_size: usize,
    /// FEC mode: Xor (default) or Rlnc.
    pub fec_mode: FecMode,
    /// RLNC generation size (source packets per coding block).
    pub rlnc_generation_size: usize,
    /// Enable AES-256-GCM encryption.
    pub encryption_enabled: bool,
    /// Encryption key (32 bytes for AES-256). If `None`, a random key is generated.
    pub encryption_key: Option<[u8; 32]>,
    /// Timeout waiting for final ACK (seconds).
    pub fin_timeout_secs: u64,
}

impl Default for SenderConfig {
    fn default() -> (c: Self)
        ensures
            c.initial_rate_bps == 10_000_000,
            c.max_rate_bps == 1_000_000_000,
            c.fec_enabled,
            c.fec_block_size == fec::FEC_BLOCK_SIZE,
            c.fec_mode == FecMode::Xor,
            c.rlnc_generation_size == rlnc::RLNC_GENERATION_SIZE,
            !c.encryption_enabled,
            c.encryption_key is None,
            c.fin_timeout_secs == 120,
            c.fec_block_size == 8,
            c.rlnc_generation_size == 16,
    {
        SenderConfig {
            initial_rate_bps: 10_000_000,
            max_rate_bps: 1_000_000_000,
            fec_enabled: true,
            fec_block_size: fec::FEC_BLOCK_SIZE,
            fec_mode: FecMode::Xor,
            rlnc_generation_size: rlnc::RLNC_GENERATION_SIZE,
            encryption_enabled: false,
            encryption_key: None,
            fin_timeout_secs: 120,
        }
    }
}

/// The state of the sending end of a transfer.
pub struct ChirpSender {
    fec_enabled: bool,
    fec_mode: FecMode,
    generation_size: usize,
    cipher: Cipher,
    sent_packets: SentPackets,
    fec_encoder: FecEncoder,
    rlnc_encoder: RlncEncoder,
    /// Sequence numbers of source packets in the current generation.
    rlnc_source_seqs: Vec<u32>,
    /// Next sequence number to assign.
    next_seq: u32,
    /// Sequence number of the last data packet.
    last_data_seq: u32,
    /// Last observed round-trip time (us).
    last_rtt_us: u64,
    /// NACK packets received from receiver.
    nack_count: u64,
}

impl View for ChirpSender {
    type V = SenderView;

    closed spec fn view(&self) -> SenderView {
        SenderView {
            fec_enabled: self.fec_enabled,
            fec_mode: self.fec_mode,
            block: self.fec_encoder.block(),
            generation_size: self.generation_size as nat,
            key: self.cipher@,
            sent: self.sent_packets@,
            block_payloads: self.fec_encoder@,
            source: self.rlnc_encoder@,
            source_size: self.rlnc_encoder.size(),
            source_seqs: self.rlnc_source_seqs@,
            next_seq: self.next_seq,
            last_data_seq: self.last_data_seq,
            last_rtt_us: self.last_rtt_us,
            nack_count: self.nack_count,
        }
    }
}

/// A data packet that is ready to send.
pub struct DataPacket {
    pub seq: u32,
    /// What goes into the redundancy.
    pub payload: Vec<u8>,
    /// The bytes to send.
    pub wire: Vec<u8>,
}

impl ChirpSender {
    /// The encoders are well-formed, and packets made of what they hold can be addressed.
    pub closed spec fn wf(&self) -> bool {
        &&& self.fec_encoder.wf()
        &&& self.rlnc_encoder.wf()
        &&& self@.sizes_fit()
    }

    /// The sending end before the first transfer.
    pub fn new(config: &SenderConfig) -> (s: Self)
        ensures
            s.wf(),
            s@.fec_enabled == config.fec_enabled,
            s@.fec_mode == config.fec_mode,
            s@.block == (if config.fec_enabled {
                config.fec_block_size
            } else {
                usize::MAX
            }),
            s@.generation_size == config.rlnc_generation_size,
            !config.encryption_enabled ==> s@.key is None,
            config.encryption_enabled ==> (s@.key matches Some(k) && k.len() == crypto::KEY_SIZE),
            config.encryption_enabled ==> (config.encryption_key matches Some(k) ==> s@.key == Some(
                k@,
            )),
            config.encryption_enabled && config.encryption_key is None ==> crypto::drawn(
                32,
                s@.key->0,
            ),
            s@.sent == Map::<u32, SentView>::empty(),
            s@.block_payloads.len() == 0,
            s@.source.len() == 0,
            s@.source_size == 0,
            s@.source_seqs.len() == 0,
            s@.next_seq == 1,
            s@.last_data_seq == 0,
            s@.last_rtt_us == 5_000,
            s@.nack_count == 0,
    {
        let block_size: usize = if config.fec_enabled {
            config.fec_block_size
        } else {
            usize::MAX
        };
        ChirpSender {
            fec_enabled: config.fec_enabled,
            fec_mode: config.fec_mode,
            generation_size: config.rlnc_generation_size,
            cipher: Cipher::for_sender(config.encryption_enabled, config.encryption_key),
            sent_packets: SentPackets::new(),
            fec_encoder: FecEncoder::new(block_size),
            rlnc_encoder: RlncEncoder::new(),
            rlnc_source_seqs: Vec::new(),
            next_seq: 1,
            last_data_seq: 0,
            last_rtt_us: 5_000,
            nack_count: 0,
        }
    }

    /// Starts a transfer.
    pub fn begin(&mut self)
        requires
            old(self).wf(),
        ensures
            final(self).wf(),
            final(self)@ == old(self)@.begun(),
            final(self)@.next_seq == 1,
            final(self)@.last_data_seq == 0,
            final(self)@.nack_count == 0,
            final(self)@.sent.dom() =~= Set::<u32>::empty(),
            final(self)@.key == old(self)@.key,
            final(self)@.last_rtt_us == old(self)@.last_rtt_us,
    {
        self.sent_packets.clear();
        self.next_seq = 1;
        self.last_data_seq = 0;
        self.nack_count = 0;
    }

    /// Whether there are sequence numbers for `n` more packets.
    pub fn can_number(&self, n: u32) -> (b: bool)
        ensures
            b == self@.can_number(n as nat),
            b == (self@.next_seq + n <= 0xffff_ffff),
    {
        n <= u32::MAX - self.next_seq
    }

    /// The data packet for the next bytes of the file. What cannot be encrypted takes no
    /// sequence number.
    pub fn data_packet(&mut self, chunk: &[u8]) -> (r: Result<DataPacket, CryptoError>)
        requires
            old(self).wf(),
            old(self)@.can_number(1),
            chunk@.len() + 64 <= isize::MAX,
        ensures
            final(self).wf(),
            match r {
                Ok(p) => {
                    &&& old(self)@.key is Some ==> chunk@.len() <= crypto::MAX_PLAINTEXT
                    &&& p.seq == old(self)@.next_seq
                    &&& crypto::payload_for(old(self)@.key, chunk@, p.payload@)
                    &&& crypto::decrypted(old(self)@.key, p.payload@) == Ok::<
                        Seq<u8>,
                        CryptoError,
                    >(chunk@)
                    &&& p.wire@ == data_wire(p.seq, p.payload@)
                    &&& chunk@.len() <= old(self)@.chunk_room() && old(self)@.reserve()
                        < packet::MAX_PAYLOAD ==> p.wire@.len() <= packet::MAX_PACKET_SIZE
                    &&& final(self)@ == old(self)@.numbered()
                    &&& final(self)@.next_seq == old(self)@.next_seq + 1
                    &&& final(self)@.last_data_seq == old(self)@.next_seq
                    &&& final(self)@.sent == old(self)@.sent
                    &&& p.wire@.len() == 12 + p.payload@.len()
                    &&& p.wire@.skip(12) == p.payload@
                    &&& p.payload@.len() == chunk@.len() + (if old(self)@.key is Some {
                        28int
                    } else {
                        0int
                    })
                    &&& old(self)@.key is None ==> p.payload@ == chunk@
                    &&& old(self)@.key is Some ==> crypto::drawn(12, p.payload@.take(12))
                },
                Err(e) => {
                    &&& old(self)@.key is Some
                    &&& chunk@.len() > crypto::MAX_PLAINTEXT
                    &&& e == CryptoError::EncryptionFailed
                    &&& final(self)@ == old(self)@
                },
            },
    {
        let payload: Vec<u8> = match self.cipher.maybe_encrypt(chunk) {
            Ok(p) => p,
            Err(e) => {
                return Err(e);
            },
        };
        let seq: u32 = self.next_seq;
        self.next_seq = self.next_seq + 1;
        self.last_data_seq = seq;
        let wire: Vec<u8> = Packet::data(seq, buffer::copy_bytes(payload.as_slice())).encode();
        Ok(DataPacket { seq, payload, wire })
    }

    /// Keeps a data packet that was sent at `now_us`.
    pub fn record_sent(&mut self, seq: u32, wire: Vec<u8>, now_us: u64)
        requires
            old(self).wf(),
        ensures
            final(self).wf(),
            final(self)@ == old(self)@.kept(seq, wire@, now_us),
            final(self)@.sent.contains_key(seq),
            final(self)@.sent[seq].wire == wire@,
            final(self)@.sent[seq].sent_at_us == now_us,
            final(self)@.sent[seq].retransmits == 0,
            final(self)@.next_seq == old(self)@.next_seq,
    {
        self.sent_packets.insert(
            seq,
            SentPacket { data: wire, sent_at_us: now_us, retransmit_count: 0 },
        );
    }

    /// Keeps packets of redundancy that are sent at `now_us`, under the numbers from
    /// `first` on.
    pub fn record_redundancy(&mut self, first: u32, wires: &Vec<Vec<u8>>, now_us: u64)
        requires
            old(self).wf(),
            first + wires@.len() <= u32::MAX,
        ensures
            final(self).wf(),
            final(self)@ == old(self)@.kept_all(first, wires@, now_us),
    {
        let ghost before = self@;
        let mut i: usize = 0;
        while i < wires.len()
            invariant
                i <= wires@.len(),
                first + wires@.len() <= u32::MAX,
                self.wf(),
                self@ == before.kept_all(first, wires@.take(i as int), now_us),
            decreases wires@.len() - i,
        {
            let seq: u32 = first + i as u32;
            self.record_sent(seq, buffer::copy_bytes(wires[i].as_slice()), now_us);
            i = i + 1;
            proof {
                assert(wires@.take(i as int).drop_last() =~= wires@.take(i - 1));
            }
        }
        proof {
            assert(wires@.take(i as int) =~= wires@);
        }
    }

    /// The sequence number of the next packet.
    pub fn next_seq(&self) -> (n: u32)
        ensures
            n == self@.next_seq,
    {
        self.next_seq
    }

    /// The length of the chunks to send: the longest whose packets all have room in a
    /// datagram.
    pub fn chunk_len(&self) -> (n: usize)
        ensures
            n == self@.chunk_room(),
            n > 0,
            !(self@.fec_enabled && self@.fec_mode == FecMode::Rlnc) ==> n == (if self@.key is Some {
                1_172int
            } else {
                1_200int
            }),
            self@.fec_enabled && self@.fec_mode == FecMode::Rlnc && 1 <= self@.generation_size
                <= 1_100 ==> n + self@.generation_size == (if self@.key is Some {
                1_168int
            } else {
                1_196int
            }),
    {
        let sealing: usize = if self.cipher.is_set() {
            crypto::NONCE_SIZE + crypto::TAG_SIZE
        } else {
            0
        };
        let size: usize = if self.generation_size == 0 {
            1
        } else {
            self.generation_size
        };
        let coded: bool = self.fec_enabled && match self.fec_mode {
            FecMode::Xor => false,
            FecMode::Rlnc => true,
        };
        if coded && size >= packet::MAX_PAYLOAD {
            return 1;
        }
        let reserve: usize = sealing + if coded {
            4 + size
        } else {
            0
        };
        if reserve < packet::MAX_PAYLOAD {
            packet::MAX_PAYLOAD - reserve
        } else {
            1
        }
    }

    /// The bytes of a kept packet.
    pub fn wire(&self, seq: u32) -> (r: Option<&[u8]>)
        ensures
            match r {
                Some(w) => self@.sent.contains_key(seq) && self@.sent[seq].wire == w@,
                None => !self@.sent.contains_key(seq),
            },
    {
        match self.sent_packets.get(seq) {
            Some(p) => Some(p.data.as_slice()),
            None => None,
        }
    }

    /// Whether a payload of this length can go into the redundancy: what it brings about
    /// has sequence numbers and can be addressed.
    pub fn can_protect(&self, payload_len: usize) -> (b: bool)
        requires
            self.wf(),
        ensures
            b == (self@.can_number(self@.redundancy_due()) && payload_len + 64 <= isize::MAX
                && self@.source.len() + 1 + payload_len + 64 <= isize::MAX
                && self@.source.len() + 1 + self@.source_size + 64 <= isize::MAX),
    {
        let k: usize = self.rlnc_encoder.len();
        let size: usize = self.rlnc_encoder.packet_size();
        let limit: usize = isize::MAX as usize;
        if payload_len > limit - 64 || k + 1 > limit - 64 {
            return false;
        }
        if payload_len > limit - 64 - (k + 1) || size > limit - 64 - (k + 1) {
            return false;
        }
        let due: usize = if !self.fec_enabled {
            0
        } else {
            match self.fec_mode {
                FecMode::Xor => {
                    if self.fec_encoder.completes_next() {
                        1
                    } else {
                        0
                    }
                },
                FecMode::Rlnc => {
                    if k + 1 >= self.generation_size {
                        if (k + 1) / 2 < 1 {
                            1
                        } else {
                            (k + 1) / 2
                        }
                    } else {
                        0
                    }
                },
            }
        };
        due as u64 <= (u32::MAX - self.next_seq) as u64
    }

    /// Feeds the payload of a data packet into the redundancy. Returns the bytes of the
    /// packets to send: the parity of a block, or the coded packets of a generation, when
    /// it is full.
    pub fn protect(&mut self, seq: u32, payload: &[u8]) -> (wires: Vec<Vec<u8>>)
        requires
            old(self).wf(),
            old(self)@.can_number(old(self)@.redundancy_due()),
            old(self)@.source.len() + 1 + payload@.len() + 64 <= isize::MAX,
            old(self)@.source.len() + 1 + old(self)@.source_size + 64 <= isize::MAX,
        ensures
            final(self).wf(),
            final(self)@ == old(self)@.protected(seq, payload@),
            old(self)@.protection(seq, payload@, wires@),
            final(self)@.next_seq == old(self)@.next_seq + wires@.len(),
            final(self)@.sent == old(self)@.sent,
            final(self)@.last_data_seq == old(self)@.last_data_seq,
            !old(self)@.fec_enabled ==> wires@.len() == 0 && final(self)@ == old(self)@,
            old(self)@.fec_enabled && old(self)@.fec_mode == FecMode::Xor ==> wires@.len() == (
            if old(self)@.block_payloads.len() + 1 >= old(self)@.block {
                1int
            } else {
                0int
            }),
            old(self)@.fec_enabled && old(self)@.fec_mode == FecMode::Xor
                ==> final(self)@.block_payloads =~= (if wires@.len() == 1 {
                Seq::<Seq<u8>>::empty()
            } else {
                old(self)@.block_payloads.push(payload@)
            }),
            old(self)@.fec_enabled && old(self)@.fec_mode == FecMode::Rlnc ==> wires@.len() == (
            if old(self)@.source.len() + 1 < old(self)@.generation_size {
                0int
            } else if old(self)@.source.len() + 1 < 2 {
                1int
            } else {
                (old(self)@.source.len() + 1) as int / 2
            }),
            old(self)@.fec_enabled && old(self)@.fec_mode == FecMode::Rlnc
                ==> final(self)@.source.len() == (if wires@.len() > 0 {
                0
            } else {
                old(self)@.source.len() + 1
            }),
    {
        let mut wires: Vec<Vec<u8>> = Vec::new();
        if !self.fec_enabled {
            return wires;
        }
        let ghost view = self@;
        match self.fec_mode {
            FecMode::Xor => {
                proof {
                    let all = view.block_payloads.push(payload@);
                    assert(all.drop_last() =~= view.block_payloads);
                }
                if let Some(parity) = self.fec_encoder.add_payload(payload) {
                    let fec_seq: u32 = self.next_seq;
                    self.next_seq = self.next_seq + 1;
                    wires.push(Packet::fec(fec_seq, parity).encode());
                }
                proof {
                    assert(self@.block_payloads =~= view.parity_fed(payload@).block_payloads);
                }
                wires
            },
            FecMode::Rlnc => {
                self.rlnc_encoder.push(payload);
                self.rlnc_source_seqs.push(seq);
                proof {
                    assert(self@.source =~= view.source_fed(seq, payload@).source);
                    assert(self@ == view.source_fed(seq, payload@));
                }
                if self.rlnc_encoder.len() >= self.generation_size {
                    self.flush_rlnc_generation()
                } else {
                    wires
                }
            },
        }
    }

    /// Flushes what the redundancy holds at the end of the file. Returns the bytes of the
    /// packets to send.
    pub fn flush(&mut self) -> (wires: Vec<Vec<u8>>)
        requires
            old(self).wf(),
            old(self)@.can_number(old(self)@.redundancy_left()),
        ensures
            final(self).wf(),
            final(self)@ == old(self)@.flushed(),
            old(self)@.remainder(wires@),
            final(self)@.next_seq == old(self)@.next_seq + wires@.len(),
            final(self)@.sent == old(self)@.sent,
            !old(self)@.fec_enabled ==> wires@.len() == 0 && final(self)@ == old(self)@,
            old(self)@.fec_enabled && old(self)@.fec_mode == FecMode::Xor ==> wires@.len() == (
            if old(self)@.block_payloads.len() > 0 {
                1int
            } else {
                0int
            }) && final(self)@.block_payloads.len() == 0,
            old(self)@.fec_enabled && old(self)@.fec_mode == FecMode::Rlnc ==> wires@.len() == (
            if old(self)@.source.len() == 0 {
                0int
            } else if old(self)@.source.len() == 1 {
                1int
            } else {
                old(self)@.source.len() as int / 2
            }) && final(self)@.source.len() == 0,
    {
        let mut wires: Vec<Vec<u8>> = Vec::new();
        if !self.fec_enabled {
            return wires;
        }
        let ghost view = self@;
        match self.fec_mode {
            FecMode::Xor => {
                if let Some(parity) = self.fec_encoder.flush() {
                    let fec_seq: u32 = self.next_seq;
                    self.next_seq = self.next_seq + 1;
                    wires.push(Packet::fec(fec_seq, parity).encode());
                }
                proof {
                    assert(self@.block_payloads =~= view.flushed().block_payloads);
                }
                wires
            },
            FecMode::Rlnc => {
                if !self.rlnc_encoder.is_empty() {
                    self.flush_rlnc_generation()
                } else {
                    wires
                }
            },
        }
    }

    /// Whether the redundancy left at the end has sequence numbers.
    pub fn can_flush(&self) -> (b: bool)
        requires
            self.wf(),
        ensures
            b == self@.can_number(self@.redundancy_left()),
    {
        let k: usize = self.rlnc_encoder.len();
        let left: usize = if !self.fec_enabled {
            0
        } else {
            match self.fec_mode {
                FecMode::Xor => {
                    if self.fec_encoder.is_pending() {
                        1
                    } else {
                        0
                    }
                },
                FecMode::Rlnc => {
                    if k == 0 {
                        0
                    } else if k / 2 < 1 {
                        1
                    } else {
                        k / 2
                    }
                },
            }
        };
        left as u64 <= (u32::MAX - self.next_seq) as u64
    }

    /// Emits the coded packets of the current generation, and starts a new one.
    fn flush_rlnc_generation(&mut self) -> (wires: Vec<Vec<u8>>)
        requires
            old(self).wf(),
            old(self)@.source.len() > 0,
            old(self)@.can_number(redundancy(old(self)@.source.len())),
        ensures
            final(self).wf(),
            final(self)@ == old(self)@.generation_sent(),
            old(self)@.generation_wires(wires@),
    {
        let ghost view = self@;
        let k: usize = self.rlnc_encoder.len();
        let r: usize = if k * rlnc::RLNC_REDUNDANCY_NUM / rlnc::RLNC_REDUNDANCY_DEN < 1 {
            1
        } else {
            k * rlnc::RLNC_REDUNDANCY_NUM / rlnc::RLNC_REDUNDANCY_DEN
        };
        let gen_id: u32 = if self.rlnc_source_seqs.len() > 0 {
            self.rlnc_source_seqs[0]
        } else {
            0
        };
        let k16: u16 = (k % 0x1_0000) as u16;
        let gen_id16: u16 = (gen_id % 0x1_0000) as u16;
        let mut wires: Vec<Vec<u8>> = Vec::new();
        let mut i: usize = 0;
        while i < r
            invariant
                i <= r == redundancy(view.source.len()),
                i == wires@.len(),
                view.source.len() > 0,
                k16 == packet::len16(view.source.len()),
                gen_id16 == packet::len16(view.generation_id() as nat),
                view.can_number(r as nat),
                view.sizes_fit(),
                self.wf(),
                self.next_seq == view.next_seq + i,
                self@ == (SenderView { next_seq: self.next_seq, ..view }),
                forall|j: int| 0 <= j < i ==> view.is_coded_wire(j, (#[trigger] wires@[j])@),
            decreases r - i,
        {
            let fec_seq: u32 = self.next_seq;
            let (coeffs, coded_data) = self.rlnc_encoder.encode_turn(fec_seq);
            let mut payload: Vec<u8> = Vec::new();
            buffer::push_be16(&mut payload, k16);
            buffer::push_be16(&mut payload, gen_id16);
            payload.extend_from_slice(coeffs.as_slice());
            payload.extend_from_slice(coded_data.as_slice());
            let ghost p = payload@;
            proof {
                assert(p =~= coded_payload(
                    view.source,
                    view.source_size,
                    view.generation_id(),
                    coeffs@,
                ));
                assert(codes(view.source, view.source_size, view.generation_id(), fec_seq, p));
            }
            self.next_seq = self.next_seq + 1;
            let wire: Vec<u8> = Packet::fec(fec_seq, payload).encode();
            proof {
                assert(wire@ == fec_wire((view.next_seq + i) as u32, p));
                assert(view.is_coded_wire(i as int, wire@));
            }
            wires.push(wire);
            i = i + 1;
        }
        self.rlnc_encoder.clear();
        self.rlnc_source_seqs.clear();
        proof {
            assert(self@.source =~= view.generation_sent().source);
            assert(self@.source_seqs =~= view.generation_sent().source_seqs);
        }
        wires
    }

    /// The sequence number of the FIN.
    pub fn fin_seq(&self) -> (seq: u32)
        ensures
            seq == self@.next_seq,
    {
        self.next_seq
    }

    /// Sequence number of the last data packet.
    pub fn last_data_seq(&self) -> (seq: u32)
        ensures
            seq == self@.last_data_seq,
    {
        self.last_data_seq
    }

    /// NACKs received in this transfer.
    pub fn nack_count(&self) -> (n: u64)
        ensures
            n == self@.nack_count,
    {
        self.nack_count
    }

    /// The last round-trip time observed, in microseconds.
    pub fn last_rtt_us(&self) -> (t: u64)
        ensures
            t == self@.last_rtt_us,
    {
        self.last_rtt_us
    }

    /// Takes in a NACK: the round-trip time that it shows, and the listed packets that are
    /// kept and have to be sent again.
    pub fn on_nack(&mut self, payload: &[u8], now_us: u64) -> (out: Vec<u32>)
        requires
            old(self).wf(),
            old(self)@.nack_count < u64::MAX,
        ensures
            final(self).wf(),
            final(self)@ == old(self)@.nacked(packet::listed_seqs(payload@), now_us),
            out@ == old(self)@.kept_of(packet::listed_seqs(payload@)),
            final(self)@.nack_count == old(self)@.nack_count + 1,
            final(self)@.sent == old(self)@.sent,
            final(self)@.next_seq == old(self)@.next_seq,
            ({
                let first = (payload@[0] * 0x100_0000 + payload@[1] * 0x1_0000 + payload@[2] * 0x100
                    + payload@[3]) as u32;
                final(self)@.last_rtt_us == (if payload@.len() >= 4
                    && old(self)@.sent.contains_key(first) && now_us
                    > old(self)@.sent[first].sent_at_us {
                    now_us - old(self)@.sent[first].sent_at_us
                } else {
                    old(self)@.last_rtt_us as int
                })
            }),
    {
        let seqs: Vec<u32> = packet::nack_seqs(payload);
        self.nack_count = self.nack_count + 1;
        let rtt_us: u64 = if seqs.len() > 0 {
            match self.sent_packets.get(seqs[0]) {
                Some(p) => {
                    if now_us >= p.sent_at_us {
                        now_us - p.sent_at_us
                    } else {
                        0
                    }
                },
                None => self.last_rtt_us,
            }
        } else {
            self.last_rtt_us
        };
        if rtt_us > 0 {
            self.last_rtt_us = rtt_us;
        }
        let mut out: Vec<u32> = Vec::new();
        let mut i: usize = 0;
        while i < seqs.len()
            invariant
                i <= seqs@.len(),
                self@.sent == old(self)@.sent,
                out@ == old(self)@.kept_of(seqs@.take(i as int)),
            decreases seqs@.len() - i,
        {
            proof {
                assert(seqs@.take(i + 1).drop_last() =~= seqs@.take(i as int));
            }
            if self.sent_packets.get(seqs[i]).is_some() {
                out.push(seqs[i]);
            }
            i = i + 1;
        }
        proof {
            assert(seqs@.take(i as int) =~= seqs@);
        }
        out
    }

    /// Whether a kept packet can be counted as sent again.
    pub fn can_resend(&self, seq: u32) -> (b: bool)
        ensures
            b == (self@.sent.contains_key(seq) && self@.sent[seq].retransmits < u32::MAX),
    {
        match self.sent_packets.get(seq) {
            Some(p) => p.retransmit_count < u32::MAX,
            None => false,
        }
    }

    /// Counts a kept packet as sent again at `now_us`.
    pub fn retransmitted(&mut self, seq: u32, now_us: u64)
        requires
            old(self).wf(),
            old(self)@.sent.contains_key(seq),
            old(self)@.sent[seq].retransmits < u32::MAX,
        ensures
            final(self).wf(),
            final(self)@ == old(self)@.resent(seq, now_us),
    {
        let ghost before = self@;
        if let Some(p) = self.sent_packets.take(seq) {
            self.sent_packets.insert(
                seq,
                SentPacket {
                    data: p.data,
                    sent_at_us: now_us,
                    retransmit_count: p.retransmit_count + 1,
                },
            );
        }
        proof {
            assert(self@.sent =~= before.resent(seq, now_us).sent);
        }
    }

    /// Retransmissions of all kept packets, `None` if they are more than 32 bits can tell.
    pub fn retransmissions(&self) -> (r: Option<u32>)
        ensures
            match r {
                Some(n) => n == self@.resends_of(store::ascending(self@.sent.dom())),
                None => self@.resends_of(store::ascending(self@.sent.dom())) > u32::MAX,
            },
    {
        let seqs: Vec<u32> = self.sent_packets.sorted_seqs();
        let mut sum: u32 = 0;
        let mut i: usize = 0;
        while i < seqs.len()
            invariant
                i <= seqs@.len(),
                seqs@ == store::ascending(self@.sent.dom()),
                sum == self@.resends_of(seqs@.take(i as int)),
            decreases seqs@.len() - i,
        {
            let seq: u32 = seqs[i];
            proof {
                store::lemma_members_below(self@.sent.dom(), 0x1_0000_0000);
                assert(seqs@.contains(seq));
                assert(self@.sent.contains_key(seq));
                assert(seqs@.take(i + 1).drop_last() =~= seqs@.take(i as int));
            }
            if let Some(p) = self.sent_packets.get(seq) {
                match sum.checked_add(p.retransmit_count) {
                    Some(n) => {
                        sum = n;
                    },
                    None => {
                        proof {
                            lemma_resends_grow(self@, seqs@, i + 1);
                        }
                        return None;
                    },
                }
            }
            i = i + 1;
        }
        proof {
            assert(seqs@.take(i as int) =~= seqs@);
        }
        Some(sum)
    }
}

/// A snapshot of a send under way.
#[derive(Debug)]
pub struct SendProgress {
    pub filename: String,
    pub bytes_sent: u64,
    pub total_size: Option<u64>,
    pub elapsed: Duration,
    pub nack_count: u64,
    pub fec_recoveries: u64,
}

impl Clone for SendProgress {
    fn clone(&self) -> (r: Self)
        ensures
            r == *self,
    {
        SendProgress {
            filename: self.filename.clone(),
            bytes_sent: self.bytes_sent,
            total_size: self.total_size,
            elapsed: self.elapsed,
            nack_count: self.nack_count,
            fec_recoveries: self.fec_recoveries,
        }
    }
}

/// Statistics from a completed transfer.
#[derive(Clone, Copy, Debug)]
pub struct TransferStats {
    pub bytes_sent: u64,
    pub duration: Duration,
    pub packets_sent: u32,
    pub retransmissions: u32,
    pub nack_count: u64,
    pub fec_recoveries: u64,
}

impl ChirpSender {
    /// The statistics of the transfer, `None` if its retransmissions are more than 32 bits
    /// can tell.
    pub fn stats(&self, bytes_sent: u64, duration: Duration) -> (r: Option<TransferStats>)
        ensures
            r is None <==> self@.resends_of(store::ascending(self@.sent.dom())) > u32::MAX,
            r matches Some(s) ==> {
                &&& s.bytes_sent == bytes_sent
                &&& s.duration == duration
                &&& s.packets_sent == self@.last_data_seq
                &&& s.retransmissions == self@.resends_of(store::ascending(self@.sent.dom()))
                &&& s.nack_count == self@.nack_count
                &&& s.fec_recoveries == 0
            },
    {
        match self.retransmissions() {
            Some(retransmissions) => Some(
                TransferStats {
                    bytes_sent,
                    duration,
                    packets_sent: self.last_data_seq,
                    retransmissions,
                    nack_count: self.nack_count,
                    fec_recoveries: 0,
                },
            ),
            None => None,
        }
    }

    /// A snapshot of the transfer.
    pub fn progress(
        &self,
        filename: &str,
        bytes_sent: u64,
        total_size: Option<u64>,
        elapsed: Duration,
    ) -> (p: SendProgress)
        ensures
            p.filename@ == filename@,
            p.bytes_sent == bytes_sent,
            p.total_size == total_size,
            p.elapsed == elapsed,
            p.nack_count == self@.nack_count,
            p.fec_recoveries == 0,
    {
        SendProgress {
            filename: filename.to_owned(),
            bytes_sent,
            total_size,
            elapsed,
            nack_count: self.nack_count,
            fec_recoveries: 0,
        }
    }
}

/// More packets have no fewer retransmissions.
proof fn lemma_resends_grow(s: SenderView, seqs: Seq<u32>, i: int)
    requires
        0 <= i <= seqs.len(),
    ensures
        s.resends_of(seqs.take(i)) <= s.resends_of(seqs),
    decreases seqs.len() - i,
{
    if i < seqs.len() {
        lemma_resends_grow(s, seqs, i + 1);
        assert(seqs.take(i + 1).drop_last() =~= seqs.take(i));
    } else {
        assert(seqs.take(i) =~= seqs);
    }
}

// ---------------------------------------------------------------------------
// Laws
// ---------------------------------------------------------------------------

/// Packets of redundancy are kept as data packets are, and nothing else changes.
pub proof fn lemma_redundancy_kept(v: SenderView, first: u32, wires: Seq<Vec<u8>>, now_us: u64)
    requires
        first + wires.len() <= u32::MAX,
    ensures
        v.kept_all(first, wires, now_us) == (SenderView {
            sent: v.kept_all(first, wires, now_us).sent,
            ..v
        }),
        forall|i: int|
            0 <= i < wires.len() ==> v.kept_all(first, wires, now_us).sent.contains_key(
                #[trigger] ((first + i) as u32),
            ) && v.kept_all(first, wires, now_us).sent[(first + i) as u32].wire == wires[i]@,
        forall|q: u32| #[trigger]
            v.sent.contains_key(q) ==> v.kept_all(first, wires, now_us).sent.contains_key(q),
        forall|q: u32|
            !(first <= q < first + wires.len()) && #[trigger] v.sent.contains_key(q)
                ==> v.kept_all(first, wires, now_us).sent[q] == v.sent[q],
    decreases wires.len(),
{
    if wires.len() > 0 {
        lemma_redundancy_kept(v, first, wires.drop_last(), now_us);
    }
}

/// A packet once sent is kept to the end of the transfer, byte for byte: neither further
/// packets nor redundancy nor NACKs nor retransmissions take it away or change it.
pub proof fn lemma_sent_retained(
    v: SenderView,
    seq: u32,
    other: u32,
    payload: Seq<u8>,
    seqs: Seq<u32>,
    now_us: u64,
)
    requires
        v.sent.contains_key(seq),
        other != seq,
    ensures
        v.numbered().sent == v.sent,
        v.protected(other, payload).sent == v.sent,
        v.flushed().sent == v.sent,
        v.nacked(seqs, now_us).sent == v.sent,
        v.kept(other, payload, now_us).sent.contains_key(seq),
        v.kept(other, payload, now_us).sent[seq] == v.sent[seq],
        v.resent(seq, now_us).sent.contains_key(seq),
        v.resent(seq, now_us).sent[seq].wire == v.sent[seq].wire,
        v.sent.contains_key(other) ==> v.resent(other, now_us).sent.contains_key(seq) && v.resent(
            other,
            now_us,
        ).sent[seq] == v.sent[seq],
{
}

/// Sending a packet again counts it and sets its age back.
pub proof fn lemma_resend_resets_age(v: SenderView, seq: u32, now_us: u64)
    requires
        v.sent.contains_key(seq),
        v.sent[seq].retransmits < u32::MAX,
    ensures
        v.resent(seq, now_us).sent[seq].sent_at_us == now_us,
        v.resent(seq, now_us).sent[seq].retransmits == v.sent[seq].retransmits + 1,
{
}

/// Every packet that a NACK names and that was sent is sent again, and nothing else is.
pub proof fn lemma_nack_answered(v: SenderView, seqs: Seq<u32>)
    ensures
        forall|q: u32| #[trigger]
            v.kept_of(seqs).contains(q) <==> seqs.contains(q) && v.sent.contains_key(q),
    decreases seqs.len(),
{
    if seqs.len() > 0 {
        let rest = seqs.drop_last();
        lemma_nack_answered(v, rest);
        let all = v.kept_of(seqs);
        let kept = v.kept_of(rest);
        let x = seqs.last();
        assert forall|q: u32| #[trigger] all.contains(q) <==> seqs.contains(q)
            && v.sent.contains_key(q) by {
            assert(kept.contains(q) <==> rest.contains(q) && v.sent.contains_key(q));
            assert(seqs.contains(q) <==> rest.contains(q) || q == x) by {
                if rest.contains(q) {
                    let i = choose|i: int| 0 <= i < rest.len() && rest[i] == q;
                    assert(seqs[i] == q);
                }
                if seqs.contains(q) && q != x {
                    let i = choose|i: int| 0 <= i < seqs.len() && seqs[i] == q;
                    assert(rest[i] == q);
                }
                assert(seqs[seqs.len() - 1] == x);
            }
            if v.sent.contains_key(x) {
                assert(all == kept.push(x));
                assert(all[all.len() - 1] == x);
                if kept.contains(q) {
                    let i = choose|i: int| 0 <= i < kept.len() && kept[i] == q;
                    assert(all[i] == q);
                }
                if all.contains(q) && q != x {
                    let i = choose|i: int| 0 <= i < all.len() && all[i] == q;
                    assert(kept[i] == q);
                }
            }
        }
    }
}

/// A generation gets half as many coded packets as it has source packets, and at least one.
pub proof fn lemma_half_as_many(k: nat)
    ensures
        redundancy(k) >= 1,
        k >= 2 ==> 2 * redundancy(k) <= k < 2 * redundancy(k) + 2,
        k <= 2 ==> redundancy(k) == 1,
{
}

/// A NACK is answered in the order in which it names packets, each as often as it is named:
/// the answer to two lists one after the other is the answers one after the other, and that
/// to a single number is that number where it is kept, and else nothing.
pub proof fn lemma_answered_in_order(v: SenderView, a: Seq<u32>, b: Seq<u32>, q: u32)
    ensures
        v.kept_of(a + b) == v.kept_of(a) + v.kept_of(b),
        v.kept_of(seq![q]) == (if v.sent.contains_key(q) {
            seq![q]
        } else {
            Seq::<u32>::empty()
        }),
    decreases b.len(),
{
    let one = seq![q];
    assert(one.drop_last() =~= Seq::<u32>::empty());
    assert(v.kept_of(one.drop_last()) =~= Seq::<u32>::empty());
    assert(v.kept_of(one) =~= (if v.sent.contains_key(q) {
        seq![q]
    } else {
        Seq::<u32>::empty()
    }));
    if b.len() == 0 {
        assert(a + b =~= a);
        assert(v.kept_of(b) =~= Seq::<u32>::empty());
        assert(v.kept_of(a) + v.kept_of(b) =~= v.kept_of(a));
    } else {
        lemma_answered_in_order(v, a, b.drop_last(), q);
        assert((a + b).drop_last() =~= a + b.drop_last());
        assert((a + b).last() == b.last());
        assert(v.kept_of(a + b) =~= v.kept_of(a) + v.kept_of(b));
    }
}

/// The coded payload begins with the size of the generation and the low 16 bits of its first
/// number, the high byte first; the coefficients and the coded data follow.
pub proof fn lemma_coded_places(
    source: Seq<Seq<u8>>,
    size: nat,
    first_seq: u32,
    coeffs: Seq<u8>,
)
    requires
        coeffs.len() == source.len(),
    ensures
        coded_payload(source, size, first_seq, coeffs).len() == 4 + source.len() + size,
        coded_payload(source, size, first_seq, coeffs)[0] * 0x100 + coded_payload(
            source,
            size,
            first_seq,
            coeffs,
        )[1] == source.len() % 0x1_0000,
        coded_payload(source, size, first_seq, coeffs)[2] * 0x100 + coded_payload(
            source,
            size,
            first_seq,
            coeffs,
        )[3] == first_seq % 0x1_0000,
        coded_payload(source, size, first_seq, coeffs).subrange(4, 4 + source.len() as int)
            == coeffs,
        coded_payload(source, size, first_seq, coeffs).skip(4 + source.len() as int)
            == rlnc::coded(source, size, coeffs),
{
    let p = coded_payload(source, size, first_seq, coeffs);
    assert(p.subrange(4, 4 + source.len() as int) =~= coeffs);
    assert(p.skip(4 + source.len() as int) =~= rlnc::coded(source, size, coeffs));
}

/// Every retransmission counts once: sending a kept packet again raises the count of the
/// transfer by one, whichever packet it is, and at the start there is none.
pub proof fn lemma_resends_counted(v: SenderView, seq: u32, now_us: u64)
    requires
        v.sent.contains_key(seq),
        v.sent[seq].retransmits < u32::MAX,
    ensures
        v.begun().resends_of(store::ascending(v.begun().sent.dom())) == 0,
        v.resent(seq, now_us).resends_of(store::ascending(v.resent(seq, now_us).sent.dom()))
            == v.resends_of(store::ascending(v.sent.dom())) + 1,
{
    let all = store::ascending(v.sent.dom());
    store::lemma_members_below(v.sent.dom(), 0x1_0000_0000);
    assert(v.resent(seq, now_us).sent.dom() =~= v.sent.dom());
    assert(v.sent.dom().contains(seq));
    assert(all.contains(seq));
    let at = choose|i: int| 0 <= i < all.len() && all[i] == seq;
    lemma_one_more(v, all, seq, at, now_us);
    let none = v.begun();
    store::lemma_members_below(none.sent.dom(), 0x1_0000_0000);
    let empty = store::ascending(none.sent.dom());
    if empty.len() > 0 {
        assert(empty.contains(empty[0]));
        assert(none.sent.dom().contains(empty[0]));
    }
}

/// One retransmission more of a packet that is listed once.
proof fn lemma_one_more(v: SenderView, seqs: Seq<u32>, seq: u32, at: int, now_us: u64)
    requires
        store::increasing(seqs),
        v.sent.contains_key(seq),
        v.sent[seq].retransmits < u32::MAX,
        at < seqs.len(),
        at >= 0 ==> seqs[at] == seq,
        at < 0 ==> !seqs.contains(seq),
    ensures
        v.resent(seq, now_us).resends_of(seqs) == v.resends_of(seqs) + (if at >= 0 {
            1int
        } else {
            0int
        }),
    decreases seqs.len(),
{
    if seqs.len() > 0 {
        let rest = seqs.drop_last();
        let last = seqs.len() - 1;
        assert(seqs[last] == seqs.last());
        if at == last {
            if rest.contains(seq) {
                let j = choose|j: int| 0 <= j < rest.len() && rest[j] == seq;
                assert(seqs[j] < seqs[last]);
            }
            lemma_one_more(v, rest, seq, -1, now_us);
        } else {
            if at < 0 && rest.contains(seq) {
                let j = choose|j: int| 0 <= j < rest.len() && rest[j] == seq;
                assert(seqs[j] == seq);
            }
            if at >= 0 {
                assert(seqs[at] < seqs[last]);
            } else {
                assert(seqs.contains(seqs[last]));
            }
            lemma_one_more(v, rest, seq, at, now_us);
        }
    }
}

/// Every coded packet has coefficients of its own: behind the twelve bytes of its header and
/// the four that name the generation it carries the bytes that the generator gave for its
/// number, but that the first is one where all are zero.
pub proof fn lemma_own_draws(v: SenderView, wires: Seq<Vec<u8>>, i: int)
    requires
        v.generation_wires(wires),
        0 <= i < wires.len(),
    ensures
        wires[i]@.len() == 16 + v.source.len() + v.source_size,
        exists|bytes: Seq<u8>| #[trigger]
            rlnc::drawn((v.next_seq + i) as u32, v.source.len(), bytes) && bytes.len()
                == v.source.len() && (wires[i]@.subrange(16, 16 + v.source.len() as int) == bytes
                || (forall|x: int| 0 <= x < bytes.len() ==> bytes[x] == 0) && wires[i]@.subrange(
                16,
                16 + v.source.len() as int,
            ) == bytes.update(0, 1)),
{
    let seq = (v.next_seq + i) as u32;
    let k = v.source.len() as int;
    assert(v.is_coded_wire(i, wires[i]@));
    let payload = choose|payload: Seq<u8>|
        {
            &&& codes(v.source, v.source_size, v.generation_id(), seq, payload)
            &&& wires[i]@ == #[trigger] fec_wire(seq, payload)
        };
    let coeffs = choose|coeffs: Seq<u8>|
        {
            &&& coeffs.len() == v.source.len()
            &&& rlnc::some_nonzero(coeffs)
            &&& rlnc::from_draw(seq, v.source.len(), coeffs)
            &&& payload == #[trigger] coded_payload(
                v.source,
                v.source_size,
                v.generation_id(),
                coeffs,
            )
        };
    rlnc::lemma_draw_used(seq, v.source.len(), coeffs);
    assert(wires[i]@.subrange(16, 16 + k) =~= coeffs);
}

} // verus!
