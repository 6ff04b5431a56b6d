//! The turns of a transfer: the SYN handshake, feedback to the sender, and the end.
//!
//! The caller sends, receives and sleeps; what comes next is decided here.

use crate::protocol::packet;
use crate::protocol::packet::{Packet, PacketFlags};
use vstd::prelude::*;

verus! {

// ---------------------------------------------------------------------------
// The handshake
// ---------------------------------------------------------------------------

/// SYNs that are sent before giving up.
pub const SYN_ATTEMPTS: u32 = 10;

/// How long to wait for the answer to a SYN, in milliseconds.
pub const SYN_REPLY_MS: u64 = 2_000;

/// How long to pause when the receiver refuses the connection, in milliseconds.
pub const REFUSED_PAUSE_MS: u64 = 200;

/// How the sending of a SYN went.
#[derive(Clone, Copy, Debug, PartialEq, Eq, Structural)]
pub enum SendOutcome {
    Sent,
    /// Nobody listens yet.
    Refused,
    Failed,
}

/// What came in answer to a SYN.
#[derive(Clone, Copy, Debug, PartialEq, Eq, Structural)]
pub enum SynReply {
    /// A packet with the ACK flag.
    Ack,
    /// Anything else.
    Other,
    /// Nobody listens yet.
    Refused,
    Failed,
    TimedOut,
}

/// What the sender does next.
#[derive(Clone, Copy, Debug, PartialEq, Eq, Structural)]
pub enum SynStep {
    /// Wait for the answer.
    Await,
    /// Send the SYN again after a pause.
    Retry { pause_ms: u64 },
    /// Give up after a pause.
    GiveUp { pause_ms: u64 },
    /// Start with the data.
    Connected,
    /// Report the error of sending.
    Abort,
}

/// The step after an attempt failed, when `attempt` attempts failed before it.
pub open spec fn after_failure(attempt: u32, pause_ms: u64) -> SynStep {
    if attempt + 1 < SYN_ATTEMPTS {
        SynStep::Retry { pause_ms }
    } else {
        SynStep::GiveUp { pause_ms }
    }
}

/// The state of the handshake: how many attempts have failed.
#[derive(Clone, Copy, Debug, PartialEq, Eq, Structural)]
pub struct Handshake {
    pub attempt: u32,
}

impl Handshake {
    /// There are attempts left.
    pub open spec fn wf(self) -> bool {
        self.attempt < SYN_ATTEMPTS
    }

    /// The step after a SYN was sent or was not.
    pub open spec fn sent(self, outcome: SendOutcome) -> SynStep {
        match outcome {
            SendOutcome::Sent => SynStep::Await,
            SendOutcome::Refused => after_failure(self.attempt, REFUSED_PAUSE_MS),
            SendOutcome::Failed => SynStep::Abort,
        }
    }

    /// The step after the answer.
    pub open spec fn answered(self, reply: SynReply) -> SynStep {
        match reply {
            SynReply::Ack => SynStep::Connected,
            SynReply::Refused => after_failure(self.attempt, REFUSED_PAUSE_MS),
            _ => after_failure(self.attempt, 0),
        }
    }

    /// The state after a step.
    pub open spec fn moved(self, step: SynStep) -> Handshake {
        match step {
            SynStep::Retry { .. } | SynStep::GiveUp { .. } => Handshake {
                attempt: (self.attempt + 1) as u32,
            },
            _ => self,
        }
    }

    pub fn new() -> (h: Self)
        ensures
            h.wf(),
            h.attempt == 0,
    {
        Handshake { attempt: 0 }
    }

    fn fail(&mut self, pause_ms: u64) -> (step: SynStep)
        requires
            old(self).wf(),
        ensures
            step == after_failure(old(self).attempt, pause_ms),
            *final(self) == old(self).moved(step),
            step is GiveUp || final(self).wf(),
    {
        self.attempt = self.attempt + 1;
        if self.attempt < SYN_ATTEMPTS {
            SynStep::Retry { pause_ms }
        } else {
            SynStep::GiveUp { pause_ms }
        }
    }

    /// Takes in how the sending went.
    pub fn on_send(&mut self, outcome: SendOutcome) -> (step: SynStep)
        requires
            old(self).wf(),
        ensures
            step == old(self).sent(outcome),
            *final(self) == old(self).moved(step),
            step is GiveUp || final(self).wf(),
            outcome == SendOutcome::Sent <==> step == SynStep::Await,
            outcome == SendOutcome::Failed <==> step == SynStep::Abort,
            outcome == SendOutcome::Refused && old(self).attempt < 9 ==> step == (
                SynStep::Retry { pause_ms: 200 }
            ),
            outcome == SendOutcome::Refused && old(self).attempt == 9 ==> step == (
                SynStep::GiveUp { pause_ms: 200 }
            ),
            final(self).attempt == old(self).attempt + (if outcome == SendOutcome::Refused {
                1int
            } else {
                0
            }),
    {
        match outcome {
            SendOutcome::Sent => SynStep::Await,
            SendOutcome::Refused => self.fail(REFUSED_PAUSE_MS),
            SendOutcome::Failed => SynStep::Abort,
        }
    }

    /// Takes in the answer.
    pub fn on_reply(&mut self, reply: SynReply) -> (step: SynStep)
        requires
            old(self).wf(),
        ensures
            step == old(self).answered(reply),
            *final(self) == old(self).moved(step),
            step is GiveUp || final(self).wf(),
            reply == SynReply::Ack <==> step == SynStep::Connected,
            reply != SynReply::Ack && old(self).attempt < 9 ==> step == (SynStep::Retry {
                pause_ms: if reply == SynReply::Refused {
                    200
                } else {
                    0
                },
            }),
            reply != SynReply::Ack && old(self).attempt == 9 ==> step == (SynStep::GiveUp {
                pause_ms: if reply == SynReply::Refused {
                    200
                } else {
                    0
                },
            }),
            final(self).attempt == old(self).attempt + (if reply == SynReply::Ack {
                0int
            } else {
                1
            }),
    {
        match reply {
            SynReply::Ack => SynStep::Connected,
            SynReply::Refused => self.fail(REFUSED_PAUSE_MS),
            SynReply::Other => self.fail(0),
            SynReply::Failed => self.fail(0),
            SynReply::TimedOut => self.fail(0),
        }
    }
}

/// What a datagram is as an answer to a SYN.
pub fn syn_reply(data: &[u8]) -> (r: SynReply)
    ensures
        r == (if packet::readable(data@) && packet::header_of(data@).flags.includes(
            PacketFlags::ACK,
        ) {
            SynReply::Ack
        } else {
            SynReply::Other
        }),
{
    match Packet::decode(data) {
        Ok(p) => {
            if p.header.flags.contains(PacketFlags::ACK) {
                SynReply::Ack
            } else {
                SynReply::Other
            }
        },
        Err(_) => SynReply::Other,
    }
}

/// The SYN for a file; the size goes as `u64::MAX` where it is not known.
pub fn syn_packet(total_size: Option<u64>, filename: &str) -> (p: Packet)
    ensures
        p.header.seq == 0,
        p.header.flags.bits == PacketFlags::SYN,
        p.header.flags.bits == 0x20,
        p.payload@.skip(8) == vstd::utf8::encode_utf8(filename@),
        p.payload@.take(8) == crate::buffer::be64(
            match total_size {
                Some(n) => n,
                None => 0xffff_ffff_ffff_ffff,
            },
        ),
        p.payload@ == packet::syn_payload(
            match total_size {
                Some(n) => n,
                None => u64::MAX,
            },
            filename@,
        ),
        p.header.payload_len == packet::len16(p.payload@.len()),
{
    let size: u64 = match total_size {
        Some(n) => n,
        None => u64::MAX,
    };
    let p: Packet = Packet::syn(size, filename);
    proof {
        assert(p.payload@.take(8) =~= crate::buffer::be64(size));
    }
    p
}

/// The SYN in a datagram, if it is one.
pub fn received_syn(data: &[u8]) -> (r: Option<Packet>)
    ensures
        r is Some <==> packet::readable(data@) && packet::header_of(data@).flags.includes(
            PacketFlags::SYN,
        ),
        r matches Some(p) ==> p.header == packet::header_of(data@) && p.payload@
            == data@.subrange(
            packet::HEADER_SIZE as int,
            packet::HEADER_SIZE + p.header.payload_len,
        ),
{
    match Packet::decode(data) {
        Ok(p) => {
            if p.header.flags.contains(PacketFlags::SYN) {
                Some(p)
            } else {
                None
            }
        },
        Err(_) => None,
    }
}

// ---------------------------------------------------------------------------
// Feedback
// ---------------------------------------------------------------------------

/// What a datagram from the receiver means to the sender.
pub enum Feedback {
    /// The receiver has everything.
    Done,
    /// The receiver lacks packets.
    Nack(Packet),
    /// Nothing.
    Ignored,
}

/// The datagram acknowledges the FIN.
pub open spec fn acknowledges(data: Seq<u8>, fin_seq: Option<u32>) -> bool {
    &&& packet::readable(data)
    &&& packet::header_of(data).flags.includes(PacketFlags::ACK)
    &&& fin_seq == Some(packet::header_of(data).seq)
}

/// The datagram is a NACK.
pub open spec fn is_nack(data: Seq<u8>) -> bool {
    packet::readable(data) && packet::header_of(data).flags.includes(PacketFlags::NACK)
}

/// Reads a datagram from the receiver. `fin_seq` is the sequence number of the FIN once it
/// was sent.
pub fn feedback(data: &[u8], fin_seq: Option<u32>) -> (r: Feedback)
    ensures
        match r {
            Feedback::Done => acknowledges(data@, fin_seq),
            Feedback::Nack(p) => {
                &&& !acknowledges(data@, fin_seq)
                &&& is_nack(data@)
                &&& p.header == packet::header_of(data@)
                &&& p.payload@ == data@.subrange(
                    packet::HEADER_SIZE as int,
                    packet::HEADER_SIZE + p.header.payload_len,
                )
            },
            Feedback::Ignored => !acknowledges(data@, fin_seq) && !is_nack(data@),
        },
{
    match Packet::decode(data) {
        Ok(p) => {
            if let Some(fin) = fin_seq {
                if p.header.flags.contains(PacketFlags::ACK) && p.header.seq == fin {
                    return Feedback::Done;
                }
            }
            if p.header.flags.contains(PacketFlags::NACK) {
                Feedback::Nack(p)
            } else {
                Feedback::Ignored
            }
        },
        Err(_) => Feedback::Ignored,
    }
}

// ---------------------------------------------------------------------------
// The end
// ---------------------------------------------------------------------------

/// The FIN is sent again after this time, in microseconds.
pub const FIN_RESEND_US: u64 = 500_000;

/// What the sender does next at the end of a transfer.
#[derive(Clone, Copy, Debug, PartialEq, Eq, Structural)]
pub enum DrainStep {
    /// Report that the receiver did not acknowledge.
    TimedOut,
    /// Send the FIN, then look for feedback.
    SendFin,
    /// Look for feedback.
    Listen,
}

/// The end of a transfer: the FIN is sent at once and then again and again, until the
/// receiver acknowledges or the deadline passes.
#[derive(Clone, Copy, Debug, PartialEq, Eq, Structural)]
pub struct FinDrain {
    /// When the sender gives up; in 128 bits, so that any timeout can be told.
    pub deadline_us: u128,
    /// When the FIN was last sent.
    pub last_fin_us: Option<u64>,
}

impl FinDrain {
    /// The FIN is due.
    pub open spec fn due(self, now_us: u64) -> bool {
        match self.last_fin_us {
            None => true,
            Some(last) => now_us - last >= FIN_RESEND_US,
        }
    }

    /// The step at a time.
    pub open spec fn step(self, now_us: u64) -> DrainStep {
        if now_us >= self.deadline_us {
            DrainStep::TimedOut
        } else if self.due(now_us) {
            DrainStep::SendFin
        } else {
            DrainStep::Listen
        }
    }

    /// Starts the end at `now_us`, with so many seconds to go.
    pub fn new(now_us: u64, timeout_secs: u64) -> (r: Self)
        ensures
            r.deadline_us == now_us + timeout_secs * 1_000_000,
            r.last_fin_us is None,
    {
        let timeout_us: u128 = timeout_secs as u128 * 1_000_000;
        FinDrain { deadline_us: now_us as u128 + timeout_us, last_fin_us: None }
    }

    /// What to do at `now_us`. A FIN that is due counts as sent then.
    pub fn poll(&mut self, now_us: u64) -> (step: DrainStep)
        ensures
            step == old(self).step(now_us),
            step == DrainStep::TimedOut <==> now_us >= old(self).deadline_us,
            now_us < old(self).deadline_us ==> (step == DrainStep::SendFin <==> (
            old(self).last_fin_us matches Some(last) ==> now_us - last >= 500_000)),
            *final(self) == (if step == DrainStep::SendFin {
                FinDrain { last_fin_us: Some(now_us), ..*old(self) }
            } else {
                *old(self)
            }),
    {
        if now_us as u128 >= self.deadline_us {
            return DrainStep::TimedOut;
        }
        let due: bool = match self.last_fin_us {
            None => true,
            Some(last) => now_us >= last && now_us - last >= FIN_RESEND_US,
        };
        if due {
            self.last_fin_us = Some(now_us);
            DrainStep::SendFin
        } else {
            DrainStep::Listen
        }
    }
}

// ---------------------------------------------------------------------------
// Laws
// ---------------------------------------------------------------------------

/// The handshake after a number of attempts that failed, each in one of the ways in which
/// another attempt is made.
pub open spec fn after_failures(pauses: Seq<u64>) -> (Handshake, SynStep)
    decreases pauses.len(),
{
    if pauses.len() == 0 {
        (Handshake { attempt: 0 }, SynStep::Retry { pause_ms: 0 })
    } else {
        let (h, _) = after_failures(pauses.drop_last());
        let step = after_failure(h.attempt, pauses.last());
        (h.moved(step), step)
    }
}

/// A refused connection is no reason to stop, and neither is a missing or wrong answer:
/// the sender gives up with the tenth failure and not before.
pub proof fn lemma_gives_up_after_all_attempts(pauses: Seq<u64>)
    requires
        pauses.len() <= SYN_ATTEMPTS,
    ensures
        after_failures(pauses).0.attempt == pauses.len(),
        after_failures(pauses).1 is GiveUp <==> pauses.len() == SYN_ATTEMPTS,
        after_failures(pauses).1 is Retry <==> pauses.len() < SYN_ATTEMPTS,
    decreases pauses.len(),
{
    if pauses.len() > 0 {
        lemma_gives_up_after_all_attempts(pauses.drop_last());
    }
}

/// The sender pauses for 200 milliseconds where it was refused and not at all else, and an
/// acknowledgement is what connects, at whatever attempt.
pub proof fn lemma_handshake_steps(h: Handshake, reply: SynReply, outcome: SendOutcome)
    requires
        h.attempt < 10,
    ensures
        h.wf(),
        h.answered(reply) is Connected <==> reply == SynReply::Ack,
        h.sent(outcome) is Await <==> outcome == SendOutcome::Sent,
        h.sent(outcome) is Abort <==> outcome == SendOutcome::Failed,
        reply != SynReply::Ack ==> (h.answered(reply) is GiveUp <==> h.attempt == 9),
        reply != SynReply::Ack ==> (h.answered(reply) is Retry <==> h.attempt < 9),
        outcome == SendOutcome::Refused ==> (h.sent(outcome) is GiveUp <==> h.attempt == 9),
        outcome == SendOutcome::Refused ==> (h.sent(outcome) is Retry <==> h.attempt < 9),
        h.answered(reply) matches SynStep::Retry { pause_ms } ==> pause_ms == (if reply
            == SynReply::Refused {
            200u64
        } else {
            0u64
        }),
        h.sent(outcome) matches SynStep::Retry { pause_ms } ==> pause_ms == 200,
        SYN_REPLY_MS == 2_000,
{
}

/// The end after a poll.
pub open spec fn polled(d: FinDrain, now_us: u64) -> FinDrain {
    if d.step(now_us) == DrainStep::SendFin {
        FinDrain { last_fin_us: Some(now_us), ..d }
    } else {
        d
    }
}

/// The end after polls at a number of times.
pub open spec fn after_polls(d: FinDrain, times: Seq<u64>) -> FinDrain
    decreases times.len(),
{
    if times.len() == 0 {
        d
    } else {
        polled(after_polls(d, times.drop_last()), times.last())
    }
}

/// Whatever the deadline: at a poll before it that comes half a second or more after the last
/// FIN, or before any, the FIN is sent; at one that comes sooner it is not, and from the
/// deadline on it is not either.
pub proof fn lemma_fin_every_half_second(d: FinDrain, now_us: u64)
    ensures
        now_us >= d.deadline_us <==> d.step(now_us) == DrainStep::TimedOut,
        now_us < d.deadline_us && d.last_fin_us is None ==> d.step(now_us) == DrainStep::SendFin,
        forall|last: u64|
            d.last_fin_us == Some(last) && now_us < d.deadline_us ==> (if now_us >= last + 500_000 {
                d.step(now_us) == DrainStep::SendFin
            } else {
                d.step(now_us) == DrainStep::Listen
            }),
        polled(d, now_us).deadline_us == d.deadline_us,
        d.step(now_us) == DrainStep::SendFin ==> polled(d, now_us).last_fin_us == Some(now_us),
        d.step(now_us) != DrainStep::SendFin ==> polled(d, now_us) == d,
{
}

/// No two FINs are further apart than half a second and the time between two polls: of any
/// polls before the deadline, one after the other, the last of which comes half a second or
/// more after the FIN before them, one sends the FIN.
pub proof fn lemma_fin_repeated(d: FinDrain, last: u64, times: Seq<u64>)
    requires
        d.last_fin_us == Some(last),
        times.len() > 0,
        forall|i: int| 0 <= i < times.len() ==> (#[trigger] times[i]) < d.deadline_us,
        forall|i: int| 0 <= i < times.len() ==> last <= #[trigger] times[i],
        times.last() >= last + 500_000,
    ensures
        exists|i: int|
            0 <= i < times.len() && after_polls(d, #[trigger] times.take(i)).step(times[i])
                == DrainStep::SendFin,
{
    let n = times.len() - 1;
    if forall|i: int|
        0 <= i < times.len() ==> after_polls(d, #[trigger] times.take(i)).step(times[i])
            != DrainStep::SendFin {
        lemma_no_fin(d, times, n);
        let e = after_polls(d, times.take(n));
        assert(times[n] == times.last());
        assert(times[n] < d.deadline_us);
        assert(e.step(times[n]) == DrainStep::SendFin);
    }
}

proof fn lemma_no_fin(d: FinDrain, times: Seq<u64>, n: int)
    requires
        0 <= n <= times.len(),
        forall|i: int|
            0 <= i < n ==> after_polls(d, #[trigger] times.take(i)).step(times[i])
                != DrainStep::SendFin,
    ensures
        after_polls(d, times.take(n)) == d,
    decreases n,
{
    if n > 0 {
        lemma_no_fin(d, times, n - 1);
        assert(times.take(n).drop_last() =~= times.take(n - 1));
        assert(times.take(n).last() == times[n - 1]);
    }
}

/// The first poll of a sender that has time left sends the FIN.
pub proof fn lemma_fin_at_once(d: FinDrain, now_us: u64)
    requires
        d.last_fin_us is None,
        now_us < d.deadline_us,
    ensures
        d.step(now_us) == DrainStep::SendFin,
        polled(d, now_us).last_fin_us == Some(now_us),
{
}

/// What the sender makes of a packet of the receiver. Once the FIN was sent, an ACK under its
/// number ends the transfer, and no other packet does; before that, none does. A NACK counts
/// at any time. What is no packet counts for nothing.
pub proof fn lemma_feedback_told(
    header: packet::Header,
    payload: Seq<u8>,
    fin: u32,
    noise: Seq<u8>,
)
    requires
        header.payload_len == payload.len(),
        header.flags.bits < 0x40,
        noise.len() < 12 || noise[0] != 0x44,
    ensures
        acknowledges(packet::wire(header, payload), Some(fin)) <==> header.flags.bits & 0x08 == 0x08
            && header.seq == fin,
        !acknowledges(packet::wire(header, payload), None),
        is_nack(packet::wire(header, payload)) <==> header.flags.bits & 0x02 == 0x02,
        !acknowledges(noise, Some(fin)),
        !is_nack(noise),
{
    packet::lemma_wire_parts(header, payload);
    if noise.len() >= 12 {
        assert(noise.take(4)[0] == noise[0]);
        assert(packet::MAGIC@[0] == 0x44);
    }
}

} // verus!
