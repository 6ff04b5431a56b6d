//! The turns of a send: what each piece of the file brings about, when to raise the rate
//! and when to report.
//!
//! The caller owns the socket, the clock and the file. Times are microseconds since the
//! send began.

use crate::congestion::delay_based;
use crate::transfer::crypto;
use crate::transfer::crypto::CryptoError;
use crate::transfer::sender;
use crate::transfer::sender::{ChirpSender, DataPacket, SenderView, SentView};
use vstd::prelude::*;

verus! {

/// How often the rate is raised, in microseconds.
pub const TICK_EVERY_US: u64 = 100_000;

/// How often progress is reported, in microseconds.
pub const PROGRESS_EVERY_US: u64 = 200_000;

/// What is due at the end of a turn.
#[derive(Clone, Copy, Debug, PartialEq, Eq, Structural)]
pub struct SendDuties {
    /// The rate is to be raised.
    pub tick: bool,
    /// Progress is to be reported.
    pub progress: bool,
}

/// The state of a send.
pub struct SendView {
    pub sender: SenderView,
    /// Bytes of the file sent so far.
    pub total_sent: u64,
    /// The delay that has built up under rate control.
    pub debt_us: u64,
    pub last_tick_us: u64,
    pub last_progress_us: u64,
}

impl SendView {
    /// The rate is to be raised.
    pub open spec fn tick_due(self, now_us: u64) -> bool {
        now_us - self.last_tick_us >= TICK_EVERY_US
    }

    /// Progress is to be reported.
    pub open spec fn progress_due(self, now_us: u64) -> bool {
        now_us - self.last_progress_us >= PROGRESS_EVERY_US
    }

    /// The state after a data packet was sent: it is kept, counted and went into the
    /// redundancy. The packets of redundancy that it brought about are kept as well.
    pub open spec fn sent(
        self,
        p: DataPacket,
        len: nat,
        wires: Seq<Vec<u8>>,
        now_us: u64,
    ) -> SendView {
        SendView {
            sender: self.sender.kept(p.seq, p.wire@, now_us).protected(
                p.seq,
                p.payload@,
            ).kept_all(self.sender.next_seq, wires, now_us),
            total_sent: (self.total_sent + len) as u64,
            ..self
        }
    }

    /// The state after the redundancy was flushed at the end of the file.
    pub open spec fn ended(self, wires: Seq<Vec<u8>>, now_us: u64) -> SendView {
        SendView {
            sender: self.sender.flushed().kept_all(self.sender.next_seq, wires, now_us),
            ..self
        }
    }

    /// The state after the end of a turn.
    pub open spec fn turned(self, now_us: u64) -> SendView {
        SendView {
            last_tick_us: if self.tick_due(now_us) {
                now_us
            } else {
                self.last_tick_us
            },
            last_progress_us: if self.progress_due(now_us) {
                now_us
            } else {
                self.last_progress_us
            },
            ..self
        }
    }
}

/// A send under way.
pub struct Sending {
    sender: ChirpSender,
    total_sent: u64,
    debt_us: u64,
    last_tick_us: u64,
    last_progress_us: u64,
}

impl View for Sending {
    type V = SendView;

    closed spec fn view(&self) -> SendView {
        SendView {
            sender: self.sender@,
            total_sent: self.total_sent,
            debt_us: self.debt_us,
            last_tick_us: self.last_tick_us,
            last_progress_us: self.last_progress_us,
        }
    }
}

impl Sending {
    /// The sender is well-formed.
    pub closed spec fn wf(&self) -> bool {
        self.sender.wf()
    }

    /// A send that begins at `now_us`: the sender starts anew.
    pub fn new(sender: ChirpSender, now_us: u64) -> (s: Self)
        requires
            sender.wf(),
        ensures
            s.wf(),
            s@ == (SendView {
                sender: sender@.begun(),
                total_sent: 0,
                debt_us: 0,
                last_tick_us: now_us,
                last_progress_us: now_us,
            }),
    {
        let mut sender: ChirpSender = sender;
        sender.begin();
        Sending { sender, total_sent: 0, debt_us: 0, last_tick_us: now_us, last_progress_us: now_us }
    }

    /// The data packet for the next bytes of the file.
    pub fn data_packet(&mut self, chunk: &[u8]) -> (r: Result<DataPacket, CryptoError>)
        requires
            old(self).wf(),
            old(self)@.sender.can_number(1),
            chunk@.len() + 64 <= isize::MAX,
        ensures
            final(self).wf(),
            match r {
                Ok(p) => {
                    &&& p.seq == old(self)@.sender.next_seq
                    &&& crypto::payload_for(old(self)@.sender.key, chunk@, p.payload@)
                    &&& crypto::decrypted(old(self)@.sender.key, p.payload@) == Ok::<
                        Seq<u8>,
                        CryptoError,
                    >(chunk@)
                    &&& p.wire@ == sender::data_wire(p.seq, p.payload@)
                    &&& old(self)@.sender.key is Some ==> crypto::drawn(12, p.payload@.take(12))
                    &&& old(self)@.sender.key is None ==> p.payload@ == chunk@
                    &&& final(self)@.sender.next_seq == p.seq + 1
                    &&& final(self)@.sender.last_data_seq == p.seq
                    &&& final(self)@.total_sent == old(self)@.total_sent
                    &&& final(self)@ == (SendView {
                        sender: old(self)@.sender.numbered(),
                        ..old(self)@
                    })
                },
                Err(e) => {
                    &&& old(self)@.sender.key is Some
                    &&& chunk@.len() > crypto::MAX_PLAINTEXT
                    &&& e == CryptoError::EncryptionFailed
                    &&& final(self)@ == old(self)@
                },
            },
    {
        self.sender.data_packet(chunk)
    }

    /// Adds the delay that rate control asks for a packet. Returns the time to sleep, once
    /// it is worth it.
    pub fn pace(&mut self, delay_us: u64) -> (sleep_us: Option<u64>)
        requires
            old(self).wf(),
            old(self)@.debt_us + delay_us <= u64::MAX,
        ensures
            final(self).wf(),
            final(self)@ == (SendView {
                debt_us: delay_based::paced(old(self)@.debt_us as int, delay_us as int).0 as u64,
                ..old(self)@
            }),
            match sleep_us {
                Some(t) => delay_based::paced(old(self)@.debt_us as int, delay_us as int).1
                    == Some(t as int),
                None => delay_based::paced(old(self)@.debt_us as int, delay_us as int).1 is None,
            },
    {
        let (debt_us, sleep_us) = delay_based::pace(self.debt_us, delay_us);
        self.debt_us = debt_us;
        sleep_us
    }

    /// Whether a delay can be added.
    pub fn can_pace(&self, delay_us: u64) -> (b: bool)
        ensures
            b == (self@.debt_us + delay_us <= u64::MAX),
    {
        delay_us <= u64::MAX - self.debt_us
    }

    /// Whether a packet with a payload of this length can be counted and go into the
    /// redundancy.
    pub fn can_send(&self, payload_len: usize, len: usize) -> (b: bool)
        requires
            self.wf(),
        ensures
            b ==> {
                &&& self@.sender.can_number(self@.sender.redundancy_due())
                &&& self@.sender.source.len() + 1 + payload_len + 64 <= isize::MAX
                &&& self@.sender.source.len() + 1 + self@.sender.source_size + 64 <= isize::MAX
                &&& self@.total_sent + len <= u64::MAX
            },
            !b ==> {
                ||| !self@.sender.can_number(self@.sender.redundancy_due())
                ||| self@.sender.source.len() + 1 + payload_len + 64 > isize::MAX
                ||| self@.sender.source.len() + 1 + self@.sender.source_size + 64 > isize::MAX
                ||| self@.total_sent + len > u64::MAX
            },
    {
        self.sender.can_protect(payload_len) && len as u64 <= u64::MAX - self.total_sent
    }

    /// Takes in that a data packet with `len` bytes of the file was sent at `now_us`. Returns
    /// the bytes of the packets of redundancy to send.
    pub fn on_sent(&mut self, p: DataPacket, len: usize, now_us: u64) -> (wires: Vec<Vec<u8>>)
        requires
            old(self).wf(),
            old(self)@.sender.can_number(old(self)@.sender.redundancy_due()),
            old(self)@.sender.source.len() + 1 + p.payload@.len() + 64 <= isize::MAX,
            old(self)@.sender.source.len() + 1 + old(self)@.sender.source_size + 64 <= isize::MAX,
            old(self)@.total_sent + len <= u64::MAX,
        ensures
            final(self).wf(),
            final(self)@ == old(self)@.sent(p, len as nat, wires@, now_us),
            old(self)@.sender.protection(p.seq, p.payload@, wires@),
            final(self)@.total_sent == old(self)@.total_sent + len,
            final(self)@.debt_us == old(self)@.debt_us,
            final(self)@.last_tick_us == old(self)@.last_tick_us,
            final(self)@.last_progress_us == old(self)@.last_progress_us,
            final(self)@.sender.next_seq == old(self)@.sender.next_seq + wires@.len(),
            p.seq < old(self)@.sender.next_seq ==> final(self)@.sender.sent.contains_key(p.seq)
                && final(self)@.sender.sent[p.seq] == (SentView {
                wire: p.wire@,
                sent_at_us: now_us,
                retransmits: 0,
            }),
            forall|i: int|
                0 <= i < wires@.len() ==> final(self)@.sender.sent.contains_key(
                    #[trigger] ((old(self)@.sender.next_seq + i) as u32),
                ) && final(self)@.sender.sent[(old(self)@.sender.next_seq + i) as u32].wire
                    == wires@[i]@,
    {
        let ghost before = self@;
        self.sender.record_sent(p.seq, p.wire, now_us);
        self.total_sent = self.total_sent + len as u64;
        let ghost kept = before.sender.kept(p.seq, p.wire@, now_us);
        proof {
            assert(kept.redundancy_due() == before.sender.redundancy_due());
        }
        let first: u32 = self.sender.next_seq();
        let wires: Vec<Vec<u8>> = self.sender.protect(p.seq, p.payload.as_slice());
        proof {
            lemma_kept_protects(before.sender, p.seq, p.wire@, now_us, p.payload@, wires@);
            lemma_protection_count(kept, p.seq, p.payload@, wires@);
        }
        self.sender.record_redundancy(first, &wires, now_us);
        proof {
            let v = kept.protected(p.seq, p.payload@);
            sender::lemma_redundancy_kept(v, first, wires@, now_us);
            assert(v.sent.contains_key(p.seq));
        }
        wires
    }

    /// Flushes the redundancy at the end of the file. Returns the bytes of the packets to
    /// send, which are kept as sent at `now_us`.
    pub fn finish(&mut self, now_us: u64) -> (wires: Vec<Vec<u8>>)
        requires
            old(self).wf(),
            old(self)@.sender.can_number(old(self)@.sender.redundancy_left()),
        ensures
            final(self).wf(),
            old(self)@.sender.remainder(wires@),
            final(self)@ == old(self)@.ended(wires@, now_us),
            final(self)@.total_sent == old(self)@.total_sent,
            final(self)@.sender.next_seq == old(self)@.sender.next_seq + wires@.len(),
            forall|i: int|
                0 <= i < wires@.len() ==> final(self)@.sender.sent.contains_key(
                    #[trigger] ((old(self)@.sender.next_seq + i) as u32),
                ) && final(self)@.sender.sent[(old(self)@.sender.next_seq + i) as u32].wire
                    == wires@[i]@,
    {
        let first: u32 = self.sender.next_seq();
        let wires: Vec<Vec<u8>> = self.sender.flush();
        self.sender.record_redundancy(first, &wires, now_us);
        proof {
            sender::lemma_redundancy_kept(old(self)@.sender.flushed(), first, wires@, now_us);
        }
        wires
    }

    /// The end of a turn at `now_us`.
    pub fn end_turn(&mut self, now_us: u64) -> (d: SendDuties)
        requires
            old(self).wf(),
        ensures
            final(self).wf(),
            final(self)@ == old(self)@.turned(now_us),
            d.tick == old(self)@.tick_due(now_us),
            d.progress == old(self)@.progress_due(now_us),
            d.tick <==> now_us >= old(self)@.last_tick_us + 100_000,
            d.progress <==> now_us >= old(self)@.last_progress_us + 200_000,
            final(self)@.last_tick_us == (if d.tick {
                now_us
            } else {
                old(self)@.last_tick_us
            }),
            final(self)@.last_progress_us == (if d.progress {
                now_us
            } else {
                old(self)@.last_progress_us
            }),
            final(self)@.sender == old(self)@.sender,
            final(self)@.total_sent == old(self)@.total_sent,
            final(self)@.debt_us == old(self)@.debt_us,
    {
        let tick: bool = now_us >= self.last_tick_us && now_us - self.last_tick_us
            >= TICK_EVERY_US;
        if tick {
            self.last_tick_us = now_us;
        }
        let progress: bool = now_us >= self.last_progress_us && now_us - self.last_progress_us
            >= PROGRESS_EVERY_US;
        if progress {
            self.last_progress_us = now_us;
        }
        SendDuties { tick, progress }
    }

    /// Bytes of the file sent so far.
    pub fn total_sent(&self) -> (n: u64)
        ensures
            n == self@.total_sent,
    {
        self.total_sent
    }

    /// The state of the sending end.
    pub fn sender(&mut self) -> (r: &mut ChirpSender)
        requires
            old(self).wf(),
        ensures
            r.wf(),
            r@ == old(self)@.sender,
            final(r).wf() ==> final(self).wf(),
            final(self)@ == (SendView { sender: final(r)@, ..old(self)@ }),
    {
        &mut self.sender
    }

    /// The sender, once the file is sent.
    pub fn into_sender(self) -> (s: ChirpSender)
        requires
            self.wf(),
        ensures
            s.wf(),
            s@ == self@.sender,
    {
        self.sender
    }
}

/// As many packets of redundancy come as are due.
proof fn lemma_protection_count(v: SenderView, seq: u32, payload: Seq<u8>, wires: Seq<Vec<u8>>)
    requires
        v.protection(seq, payload, wires),
    ensures
        wires.len() == v.redundancy_due(),
{
    assert(v.source_fed(seq, payload).source.len() == v.source.len() + 1);
}

/// Keeping a packet does not change what redundancy a payload brings about.
proof fn lemma_kept_protects(
    v: SenderView,
    seq: u32,
    wire: Seq<u8>,
    now_us: u64,
    payload: Seq<u8>,
    wires: Seq<Vec<u8>>,
)
    requires
        v.kept(seq, wire, now_us).protection(seq, payload, wires),
    ensures
        v.protection(seq, payload, wires),
{
    let k = v.kept(seq, wire, now_us);
    assert(k.redundancy_due() == v.redundancy_due());
    if v.redundancy_due() > 0 && v.fec_mode != crate::protocol::fec::FecMode::Xor {
        let a = k.source_fed(seq, payload);
        let b = v.source_fed(seq, payload);
        assert(a.source =~= b.source);
        assert forall|i: int| 0 <= i < wires.len() implies b.is_coded_wire(
            i,
            (#[trigger] wires[i])@,
        ) by {
            assert(a.is_coded_wire(i, wires[i]@));
            let data = choose|data: Seq<u8>|
                {
                    &&& sender::codes(
                        a.source,
                        a.source_size,
                        a.generation_id(),
                        (a.next_seq + i) as u32,
                        data,
                    )
                    &&& wires[i]@ == #[trigger] sender::fec_wire((a.next_seq + i) as u32, data)
                };
            assert(sender::codes(
                b.source,
                b.source_size,
                b.generation_id(),
                (b.next_seq + i) as u32,
                data,
            ));
            assert(wires[i]@ == sender::fec_wire((b.next_seq + i) as u32, data));
        }
    }
}

// ---------------------------------------------------------------------------
// Laws
// ---------------------------------------------------------------------------

/// At the end of each turn the rate was last raised less than 100 ms ago and progress last
/// reported less than 200 ms ago, neither before that time was over, and nothing else has
/// changed.
pub proof fn lemma_duties_on_time(s: SendView, now_us: u64)
    requires
        s.last_tick_us <= now_us,
        s.last_progress_us <= now_us,
    ensures
        now_us - s.turned(now_us).last_tick_us < 100_000,
        now_us - s.turned(now_us).last_progress_us < 200_000,
        s.turned(now_us).last_tick_us != s.last_tick_us ==> now_us >= s.last_tick_us + 100_000
            && s.turned(now_us).last_tick_us == now_us,
        s.turned(now_us).last_progress_us != s.last_progress_us ==> now_us >= s.last_progress_us
            + 200_000 && s.turned(now_us).last_progress_us == now_us,
        s.turned(now_us).sender == s.sender,
        s.turned(now_us).total_sent == s.total_sent,
        s.turned(now_us).debt_us == s.debt_us,
{
}

} // verus!
