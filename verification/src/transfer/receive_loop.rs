//! The turns of a receive: what is done with each datagram, when to ask for packets,
//! when to report, and when to stop.
//!
//! The caller owns the socket, the clock and the file. Times are microseconds since the
//! receive began.

use crate::protocol::fec::FecMode;
use crate::protocol::nack;
use crate::protocol::nack::InstantMs;
use crate::protocol::packet;
use crate::protocol::packet::{Packet, PacketFlags};
use crate::transfer::crypto::CryptoError;
use crate::transfer::receiver;
use crate::transfer::receiver::{ChirpReceiver, ReceiverView, SynInfo};
use vstd::prelude::*;

verus! {

/// How often the record of a partial file is written, in microseconds.
pub const SIDECAR_EVERY_US: u64 = 1_000_000;

/// How often progress is reported, in microseconds.
pub const PROGRESS_EVERY_US: u64 = 200_000;

/// How often the acknowledgement of the FIN is sent.
pub const FIN_ACKS: u32 = 3;

/// What the receiver does at the start of a turn.
pub enum Turn {
    /// Everything is there: acknowledge the FIN with this packet, and write the file.
    Finish(Packet),
    /// Report that nothing came for too long.
    IdleTimeout,
    /// Wait for a datagram.
    Listen,
}

/// What became of a datagram.
#[derive(Clone, Copy, Debug, PartialEq, Eq, Structural)]
pub enum Taken {
    /// It was a packet and was processed.
    Processed,
    /// It was no packet.
    Ignored,
    /// It was a packet whose sequence number or size the arithmetic cannot deal with.
    OutOfRange,
    /// Its payload could not be decrypted.
    Failed(CryptoError),
}

/// What is due at the end of a turn.
pub struct Duties {
    /// NACKs to send.
    pub nacks: Vec<Packet>,
    /// The record of the partial file is to be written.
    pub sidecar: bool,
    /// Progress is to be reported.
    pub progress: bool,
}

/// The state of a receive.
pub struct ReceiveView {
    pub receiver: ReceiverView,
    pub file_size: u64,
    pub filename: Seq<char>,
    /// Silence of more than this ends the receive.
    pub idle_timeout_us: int,
    pub nack_count: int,
    /// When the last datagram came.
    pub last_activity_us: u64,
    pub last_sidecar_us: u64,
    pub last_progress_us: u64,
    /// The last time that was told.
    pub now_us: u64,
}

impl ReceiveView {
    /// Nothing came for too long.
    pub open spec fn idle(self, now_us: u64) -> bool {
        now_us - self.last_activity_us > self.idle_timeout_us
    }

    /// The state after a datagram that is a packet that can be processed.
    pub open spec fn taken(self, data: Seq<u8>, now_us: u64) -> Result<ReceiveView, CryptoError> {
        let h = packet::header_of(data);
        match self.receiver.processed(h, packet::payload_of(data)) {
            Ok(r) => Ok(ReceiveView { receiver: r, ..self.heard(now_us) }),
            Err(e) => Err(e),
        }
    }

    /// The state after a datagram came, whatever it is.
    pub open spec fn heard(self, now_us: u64) -> ReceiveView {
        ReceiveView { last_activity_us: now_us, now_us, ..self }
    }

    /// The packet in the datagram is one that can be processed.
    pub open spec fn can_take(self, data: Seq<u8>) -> bool {
        let h = packet::header_of(data);
        self.receiver.takes(
            h,
            packet::payload_of(data),
        )
    }

    /// The sequence numbers to ask for.
    pub open spec fn wanted(self, now_us: u64) -> Seq<u32> {
        self.receiver.wanted((now_us / 1_000) as u64, self.file_size)
    }

    /// How many NACKs they take.
    pub open spec fn nacks_due(self, now_us: u64) -> int {
        (self.wanted(now_us).len() + receiver::MAX_NACK_SEQS - 1) / receiver::MAX_NACK_SEQS as int
    }

    /// The record of the partial file is due.
    pub open spec fn sidecar_due(self, now_us: u64) -> bool {
        now_us - self.last_sidecar_us >= SIDECAR_EVERY_US
    }

    /// Progress is due.
    pub open spec fn progress_due(self, now_us: u64) -> bool {
        now_us - self.last_progress_us >= PROGRESS_EVERY_US
    }

    /// The state after the end of a turn. The record is kept only where `sidecar` says so.
    pub open spec fn turned(self, sidecar: bool, now_us: u64) -> ReceiveView {
        ReceiveView {
            receiver: self.receiver.asked((now_us / 1_000) as u64, self.file_size),
            nack_count: self.nack_count + self.nacks_due(now_us),
            last_sidecar_us: if sidecar && self.sidecar_due(now_us) {
                now_us
            } else {
                self.last_sidecar_us
            },
            last_progress_us: if self.progress_due(now_us) {
                now_us
            } else {
                self.last_progress_us
            },
            now_us,
            ..self
        }
    }

    /// What was given out and heard was so before now.
    pub open spec fn timely(self) -> bool {
        &&& self.last_activity_us <= self.now_us
        &&& self.last_sidecar_us <= self.now_us
        &&& self.last_progress_us <= self.now_us
        &&& self.receiver.nack.last_nack matches Some(last) ==> last <= self.now_us / 1_000
    }

    /// The turn can be taken: time does not run back, parity can be told from data, and
    /// the NACKs can be counted.
    pub open spec fn can_turn(self, now_us: u64) -> bool {
        &&& now_us >= self.now_us
        &&& self.receiver.uses_xor() ==> self.receiver.layout.block() < u32::MAX
        &&& self.nack_count + 0x1_0000_0000 <= u64::MAX
    }
}

/// A receive under way.
pub struct Receiving {
    receiver: ChirpReceiver,
    file_size: u64,
    filename: String,
    idle_timeout_secs: u64,
    nack_count: u64,
    last_activity_us: u64,
    last_sidecar_us: u64,
    last_progress_us: u64,
    now_us: u64,
}

impl View for Receiving {
    type V = ReceiveView;

    closed spec fn view(&self) -> ReceiveView {
        ReceiveView {
            receiver: self.receiver@,
            file_size: self.file_size,
            filename: self.filename@,
            idle_timeout_us: self.idle_timeout_secs * 1_000_000,
            nack_count: self.nack_count as int,
            last_activity_us: self.last_activity_us,
            last_sidecar_us: self.last_sidecar_us,
            last_progress_us: self.last_progress_us,
            now_us: self.now_us,
        }
    }
}

impl Receiving {
    /// The receiver is well-formed, and nothing lies in the future.
    pub closed spec fn wf(&self) -> bool {
        &&& self.receiver.wf()
        &&& self@.timely()
    }

    /// A receive that begins with the SYN that came at `now_us`.
    pub fn new(
        receiver: ChirpReceiver,
        syn: &Packet,
        idle_timeout_secs: u64,
        now_us: u64,
    ) -> (r: Self)
        requires
            receiver.wf(),
            receiver@.nack.last_nack is None,
        ensures
            r.wf(),
            r@.receiver == receiver@,
            syn.payload@.len() < 8 ==> r@.file_size == 0 && r@.filename.len() == 0,
            syn.payload@.len() >= 8 ==> r@.file_size == crate::buffer::be64_at(syn.payload@, 0)
                && r@.filename == receiver::lossy_text(syn.payload@.skip(8)),
            r@.idle_timeout_us == idle_timeout_secs * 1_000_000,
            r@.nack_count == 0,
            r@.last_activity_us == now_us,
            r@.last_sidecar_us == 0,
            r@.last_progress_us == 0,
            r@.now_us == now_us,
    {
        let info: SynInfo = receiver::parse_syn(syn.payload.as_slice());
        Receiving {
            receiver,
            file_size: info.file_size,
            filename: info.filename,
            idle_timeout_secs,
            nack_count: 0,
            last_activity_us: now_us,
            last_sidecar_us: 0,
            last_progress_us: 0,
            now_us,
        }
    }

    /// Whether a turn can be taken at `now_us`.
    pub fn can_turn(&self, now_us: u64) -> (b: bool)
        ensures
            b == self@.can_turn(now_us),
            b <==> now_us >= self@.now_us && self@.nack_count + 0x1_0000_0000
                <= 0xffff_ffff_ffff_ffff && (self@.receiver.layout.fec_enabled
                && self@.receiver.fec_mode == FecMode::Xor
                ==> self@.receiver.layout.fec_block_size as int % 0x1_0000_0000 != 0xffff_ffff),
    {
        now_us >= self.now_us && self.receiver.layout_in_range() && self.nack_count <= u64::MAX
            - 0x1_0000_0000
    }

    /// The start of a turn.
    pub fn start_turn(&self, now_us: u64) -> (t: Turn)
        requires
            self.wf(),
            self@.can_turn(now_us),
        ensures
            match t {
                Turn::Finish(ack) => {
                    &&& self@.receiver.complete(self@.file_size)
                    &&& ack.header.seq == self@.receiver.fin_seq->0
                    &&& ack.header.flags.bits == PacketFlags::ACK
                    &&& ack.wf()
                    &&& ack.payload@.len() == 0
                },
                Turn::IdleTimeout => !self@.receiver.complete(self@.file_size) && self@.idle(
                    now_us,
                ),
                Turn::Listen => !self@.receiver.complete(self@.file_size) && !self@.idle(now_us),
            },
            t matches Turn::Finish(ack) ==> ack.header.flags.bits == 0x08
                && self@.receiver.fin_seq == Some(ack.header.seq),
            t is IdleTimeout ==> now_us > self@.last_activity_us + self@.idle_timeout_us,
            t is Listen ==> now_us <= self@.last_activity_us + self@.idle_timeout_us,
    {
        if let Some(fin) = self.receiver.fin_seq() {
            if self.receiver.is_complete(self.file_size) {
                return Turn::Finish(Packet::ack(fin));
            }
        }
        let silence: u64 = now_us - self.last_activity_us;
        if silence as u128 > self.idle_timeout_secs as u128 * 1_000_000 {
            Turn::IdleTimeout
        } else {
            Turn::Listen
        }
    }

    /// Takes in a datagram of the sender.
    pub fn on_datagram(&mut self, data: &[u8], now_us: u64) -> (r: Taken)
        requires
            old(self).wf(),
            now_us >= old(self)@.now_us,
        ensures
            final(self).wf(),
            r is Ignored <==> !packet::readable(data@),
            final(self)@.last_activity_us == now_us,
            final(self)@.now_us == now_us,
            final(self)@.last_sidecar_us == old(self)@.last_sidecar_us,
            final(self)@.last_progress_us == old(self)@.last_progress_us,
            final(self)@.nack_count == old(self)@.nack_count,
            final(self)@.file_size == old(self)@.file_size,
            final(self)@.idle_timeout_us == old(self)@.idle_timeout_us,
            !(r is Processed) ==> final(self)@.receiver == old(self)@.receiver,
            r is OutOfRange <==> packet::readable(data@) && !old(self)@.can_take(data@),
            r is Ignored || r is OutOfRange ==> final(self)@ == old(self)@.heard(now_us),
            packet::readable(data@) && old(self)@.can_take(data@) ==> match old(self)@.taken(
                data@,
                now_us,
            ) {
                Ok(v) => r is Processed && final(self)@ == v,
                Err(e) => r == Taken::Failed(e) && final(self)@ == old(self)@.heard(now_us),
            },
    {
        self.last_activity_us = now_us;
        self.now_us = now_us;
        match Packet::decode(data) {
            Err(_) => Taken::Ignored,
            Ok(pkt) => {
                if !self.receiver.admits(&pkt) {
                    return Taken::OutOfRange;
                }
                let ghost before = self@;
                match self.receiver.process_packet(&pkt) {
                    Ok(_) => {
                        proof {
                            lemma_nack_time_kept(before.receiver, pkt.header, pkt.payload@);
                        }
                        Taken::Processed
                    },
                    Err(e) => Taken::Failed(e),
                }
            },
        }
    }

    /// The end of a turn: the NACKs to send, and whether to write the record of the partial
    /// file and to report progress. `sidecar` tells whether such a record is kept.
    pub fn end_turn(&mut self, sidecar: bool, now_us: u64) -> (d: Duties)
        requires
            old(self).wf(),
            old(self)@.can_turn(now_us),
        ensures
            final(self).wf(),
            final(self)@ == old(self)@.turned(sidecar, now_us),
            d.sidecar == (sidecar && old(self)@.sidecar_due(now_us)),
            d.progress == old(self)@.progress_due(now_us),
            d.nacks@.len() == old(self)@.nacks_due(now_us),
            d.sidecar <==> sidecar && now_us >= old(self)@.last_sidecar_us + 1_000_000,
            d.progress <==> now_us >= old(self)@.last_progress_us + 200_000,
            final(self)@.last_sidecar_us == (if d.sidecar {
                now_us
            } else {
                old(self)@.last_sidecar_us
            }),
            final(self)@.last_progress_us == (if d.progress {
                now_us
            } else {
                old(self)@.last_progress_us
            }),
            final(self)@.nack_count == old(self)@.nack_count + d.nacks@.len(),
            final(self)@.last_activity_us == old(self)@.last_activity_us,
            final(self)@.receiver.received == old(self)@.receiver.received,
            d.nacks@.len() == (old(self)@.receiver.wanted(
                (now_us / 1_000) as u64,
                old(self)@.file_size,
            ).len() + 299) / 300,
            forall|i: int|
                0 <= i < d.nacks@.len() ==> (#[trigger] d.nacks@[i]).payload@ == packet::seq_list(
                    receiver::nack_part(old(self)@.wanted(now_us), i),
                ) && d.nacks@[i].wf() && d.nacks@[i].header.seq == 0
                    && d.nacks@[i].header.flags.bits == PacketFlags::NACK,
    {
        let ghost before = self@;
        let tick: u64 = now_us / 1_000;
        proof {
            if before.receiver.nack.last_nack is Some {
                let last = before.receiver.nack.last_nack->0;
                assert(last <= tick);
                assert(nack::ticks_between(last, tick) == tick - last);
            }
        }
        let missing: Vec<u32> = self.receiver.due_nacks(
            InstantMs::from_ticks(tick),
            self.file_size,
        );
        let nacks: Vec<Packet> = receiver::nack_packets(missing.as_slice());
        proof {
            lemma_wanted_bounded(before.receiver, tick, before.file_size);
        }
        self.nack_count = self.nack_count + nacks.len() as u64;
        self.now_us = now_us;
        let sidecar_due: bool = sidecar && now_us - self.last_sidecar_us >= SIDECAR_EVERY_US;
        if sidecar_due {
            self.last_sidecar_us = now_us;
        }
        let progress_due: bool = now_us - self.last_progress_us >= PROGRESS_EVERY_US;
        if progress_due {
            self.last_progress_us = now_us;
        }
        Duties { nacks, sidecar: sidecar_due, progress: progress_due }
    }

    /// The state of the receiving end.
    pub fn receiver(&self) -> (r: &ChirpReceiver)
        requires
            self.wf(),
        ensures
            r.wf(),
            r@ == self@.receiver,
    {
        &self.receiver
    }

    /// The size of the file as the SYN told it.
    pub fn file_size(&self) -> (n: u64)
        ensures
            n == self@.file_size,
    {
        self.file_size
    }

    /// The name of the file as the SYN told it.
    pub fn filename(&self) -> (s: &str)
        ensures
            s@ == self@.filename,
    {
        self.filename.as_str()
    }

    /// NACKs sent so far.
    pub fn nack_count(&self) -> (n: u64)
        ensures
            n == self@.nack_count,
    {
        self.nack_count
    }
}

/// There are no more needed numbers than numbers.
proof fn lemma_needed_count(s: ReceiverView, n: nat, file_size: u64)
    ensures
        s.needed_below(n, file_size).len() <= n,
    decreases n,
{
    if n > 1 {
        lemma_needed_count(s, (n - 1) as nat, file_size);
    }
}

/// No list of wanted numbers is longer than there are numbers.
proof fn lemma_wanted_bounded(s: ReceiverView, now: u64, file_size: u64)
    ensures
        s.wanted(now, file_size).len() <= 0xffff_ffff,
{
    if s.end_known() {
        lemma_needed_count(s, (s.fin_seq->0) as nat, file_size);
    } else {
        nack::lemma_missing_exact(s.nack, 1);
    }
}

proof fn lemma_filled_keeps_nack_time(
    s: ReceiverView,
    first: int,
    packets: Seq<Seq<u8>>,
    n: nat,
)
    ensures
        s.filled(first, packets, n).nack.last_nack == s.nack.last_nack,
    decreases n,
{
    if n > 0 {
        lemma_filled_keeps_nack_time(s, first, packets, (n - 1) as nat);
    }
}

/// A packet does not change when the last list was given out.
proof fn lemma_nack_time_kept(s: ReceiverView, header: packet::Header, payload: Seq<u8>)
    requires
        s.processed(header, payload) is Ok,
    ensures
        (s.processed(header, payload)->Ok_0).nack.last_nack == s.nack.last_nack,
{
    let k = crate::buffer::be16_at(payload, 0);
    let first = receiver::first_number(
        header.seq,
        crate::buffer::be16_at(payload, 2),
        k as nat,
    );
    if !(payload.len() < 4 || payload.len() < 4 + k) {
        let coeffs = payload.subrange(4, 4 + k);
        let data = payload.skip(4 + k);
        let a = ReceiverView { nack: s.nack.recorded(header.seq), ..s };
        let t = ReceiverView { redundant: a.redundant.insert(header.seq), ..a };
        let g = t.generation(first, coeffs.len(), data.len()).extended(coeffs, data);
        let u = ReceiverView { generations: t.generations.insert(first, g), ..t };
        lemma_filled_keeps_nack_time(u, first as int, g.solution(), g.k);
    }
}

// ---------------------------------------------------------------------------
// Laws
// ---------------------------------------------------------------------------

/// Silence ends a receive when it has lasted longer than the timeout, and not before:
/// whatever comes, be it a packet or not, starts the time anew, and the end of a turn does
/// not.
pub proof fn lemma_silence_counted(s: ReceiveView, heard_us: u64, sidecar: bool, now_us: u64)
    requires
        heard_us <= now_us,
    ensures
        s.idle(now_us) <==> now_us > s.last_activity_us + s.idle_timeout_us,
        s.heard(heard_us).idle(now_us) <==> now_us - heard_us > s.idle_timeout_us,
        s.turned(sidecar, heard_us).idle(now_us) <==> s.idle(now_us),
{
}

/// Records and reports are neither late nor too many: at the end of each turn the last
/// report lies less than 200 ms back, the last record, where one is kept, less than a
/// second, and neither is made before that time is over.
pub proof fn lemma_reports_on_time(s: ReceiveView, now_us: u64)
    requires
        s.last_sidecar_us <= now_us,
        s.last_progress_us <= now_us,
    ensures
        now_us - s.turned(true, now_us).last_progress_us < 200_000,
        now_us - s.turned(true, now_us).last_sidecar_us < 1_000_000,
        s.turned(false, now_us).last_sidecar_us == s.last_sidecar_us,
        s.turned(true, now_us).last_progress_us != s.last_progress_us ==> now_us
            >= s.last_progress_us + 200_000 && s.turned(true, now_us).last_progress_us == now_us,
        s.turned(true, now_us).last_sidecar_us != s.last_sidecar_us ==> now_us >= s.last_sidecar_us
            + 1_000_000 && s.turned(true, now_us).last_sidecar_us == now_us,
        s.turned(true, now_us).last_activity_us == s.last_activity_us,
        s.turned(true, now_us).receiver.received == s.receiver.received,
        s.turned(true, now_us).receiver.fin_seq == s.receiver.fin_seq,
        FIN_ACKS == 3,
{
}

} // verus!
