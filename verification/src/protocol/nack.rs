//! Selective NACK tracker.
//!
//! Membership of a sequence number is kept in a hash set. Timing is driven by a
//! caller-supplied [`InstantMs`].

use crate::protocol::seq_set::SeqSet;
use vstd::prelude::*;

verus! {

/// Millisecond-resolution monotonic instant (1 000 ticks per second).
///
/// With a standard clock: `InstantMs::from_ticks(start.elapsed().as_millis() as u64)`.
#[derive(Debug, Clone, Copy, PartialEq, Eq, Structural)]
pub struct InstantMs {
    pub ticks: u64,
}

impl InstantMs {
    pub fn from_ticks(ticks: u64) -> (t: Self)
        ensures
            t.ticks == ticks,
    {
        InstantMs { ticks }
    }

    pub fn ticks(&self) -> (n: u64)
        ensures
            n == self.ticks,
    {
        self.ticks
    }
}

/// Millisecond-resolution duration.
#[derive(Debug, Clone, Copy, PartialEq, Eq, Structural)]
pub struct DurationMs {
    pub ticks: u64,
}

impl DurationMs {
    pub fn from_ticks(ticks: u64) -> (d: Self)
        ensures
            d.ticks == ticks,
    {
        DurationMs { ticks }
    }

    pub fn ticks(&self) -> (n: u64)
        ensures
            n == self.ticks,
    {
        self.ticks
    }
}

/// Maximum gap window scanned by [`NackTracker::missing`].
///
/// It bounds the list of missing sequence numbers whatever the distance to the highest
/// one; further gaps come with later lists.
pub const MAX_GAP_WINDOW: u32 = 16_384;

/// How far `to` lies ahead of `from` in the circle of 32-bit sequence numbers.
pub open spec fn ahead(from: u32, to: u32) -> u32 {
    ((to - from) % 0x1_0000_0000) as u32
}

/// The sequence number `n` places after `from`.
pub open spec fn after(from: u32, n: int) -> u32 {
    ((from + n) % 0x1_0000_0000) as u32
}

/// The ticks from `last` to `now` on a clock that wraps around.
pub open spec fn ticks_between(last: u64, now: u64) -> u64 {
    ((now - last) % 0x1_0000_0000_0000_0000) as u64
}

/// Whether `now` is not before `last`: less than half the clock's range later.
pub open spec fn not_before(last: u64, now: u64) -> bool {
    ticks_between(last, now) <= u64::MAX / 2
}

/// Those of the `n` sequence numbers from `start` on that were not received, in order.
pub open spec fn gaps(received: Set<u32>, start: u32, n: nat) -> Seq<u32>
    decreases n,
{
    if n == 0 {
        Seq::empty()
    } else {
        let rest = gaps(received, start, (n - 1) as nat);
        let s = after(start, n - 1);
        if received.contains(s) {
            rest
        } else {
            rest.push(s)
        }
    }
}

/// How many sequence numbers a scan from `start` looks at: up to `highest`, and no more
/// than the gap window.
pub open spec fn scanned(start: u32, highest: u32) -> nat {
    if ahead(start, highest) < MAX_GAP_WINDOW {
        (ahead(start, highest) + 1) as nat
    } else {
        MAX_GAP_WINDOW as nat
    }
}

/// What a tracker knows.
pub struct NackState {
    /// The sequence numbers received.
    pub received: Set<u32>,
    /// The highest sequence number seen.
    pub highest: u32,
    /// When the last list was given out.
    pub last_nack: Option<u64>,
    /// The least time between two lists.
    pub interval: u64,
}

impl NackState {
    /// The missing sequence numbers from `start` on, as far as a scan goes.
    pub open spec fn missing(self, start: u32) -> Seq<u32> {
        gaps(self.received, start, scanned(start, self.highest))
    }

    /// The state after a sequence number came in.
    pub open spec fn recorded(self, seq: u32) -> NackState {
        NackState {
            received: self.received.insert(seq),
            highest: if ahead(self.highest, seq) < 0x8000_0000 {
                seq
            } else {
                self.highest
            },
            ..self
        }
    }

    /// The last list was given out too short a time ago.
    pub open spec fn too_soon(self, now: u64) -> bool {
        self.last_nack matches Some(last) && ticks_between(last, now) < self.interval
    }
}

/// The ticks from one `fugit` instant to a later one: `Instant::from_ticks`, the
/// difference of two `Instant<u64, 1, 1_000>` and `Duration::ticks`. The difference
/// wraps around, and panics where it is over half the range.
#[verifier::external_body]
pub(crate) fn elapsed_ticks(now: u64, last: u64) -> (d: u64)
    requires
        not_before(last, now),
    ensures
        d == ticks_between(last, now),
{
    let now: fugit::Instant<u64, 1, 1_000> = fugit::Instant::<u64, 1, 1_000>::from_ticks(now);
    let last: fugit::Instant<u64, 1, 1_000> = fugit::Instant::<u64, 1, 1_000>::from_ticks(last);
    (now - last).ticks()
}

/// Tracks received sequence numbers and identifies gaps for selective NACK.
pub struct NackTracker {
    received: SeqSet,
    highest_seen: u32,
    /// Instant of the last NACK sent (`None` = never sent).
    last_nack: Option<InstantMs>,
    /// Minimum gap between consecutive NACKs.
    nack_interval: DurationMs,
}

impl View for NackTracker {
    type V = NackState;

    closed spec fn view(&self) -> NackState {
        NackState {
            received: self.received@,
            highest: self.highest_seen,
            last_nack: match self.last_nack {
                Some(t) => Some(t.ticks),
                None => None,
            },
            interval: self.nack_interval.ticks,
        }
    }
}

impl NackTracker {
    /// Creates a new tracker.
    ///
    /// `nack_interval_ms`: minimum milliseconds between NACKs (0 for no rate-limiting).
    pub fn new(nack_interval_ms: u64) -> (t: Self)
        ensures
            t@ == (NackState {
                received: Set::empty(),
                highest: 0,
                last_nack: None,
                interval: nack_interval_ms,
            }),
    {
        NackTracker {
            received: SeqSet::new(),
            highest_seen: 0,
            last_nack: None,
            nack_interval: DurationMs::from_ticks(nack_interval_ms),
        }
    }

    /// Records a received sequence number.
    ///
    /// The highest number seen advances across the boundary from `u32::MAX` to 0: `seq` is
    /// ahead of it if it lies less than half the sequence space further on.
    pub fn record(&mut self, seq: u32)
        ensures
            final(self)@ == old(self)@.recorded(seq),
            final(self)@.received == old(self)@.received.insert(seq),
            final(self)@.highest == (if (seq - old(self)@.highest) % 0x1_0000_0000 < 0x8000_0000 {
                seq
            } else {
                old(self)@.highest
            }),
            final(self)@.last_nack == old(self)@.last_nack,
            final(self)@.interval == old(self)@.interval,
    {
        self.received.insert(seq);
        if seq.wrapping_sub(self.highest_seen) < 0x8000_0000 {
            self.highest_seen = seq;
        }
    }

    /// Whether a sequence number has been received.
    pub fn has(&self, seq: u32) -> (b: bool)
        ensures
            b == self@.received.contains(seq),
    {
        self.received.contains(seq)
    }

    /// Highest sequence number seen so far.
    pub fn highest(&self) -> (seq: u32)
        ensures
            seq == self@.highest,
    {
        self.highest_seen
    }

    /// All missing sequence numbers from `start_seq` to the highest seen, across the
    /// boundary if need be, within the gap window.
    pub fn missing(&self, start_seq: u32) -> (out: Vec<u32>)
        ensures
            out@ == self@.missing(start_seq),
            forall|s: u32| #[trigger]
                out@.contains(s) <==> {
                    &&& (s - start_seq) % 0x1_0000_0000 <= (self@.highest - start_seq)
                        % 0x1_0000_0000
                    &&& (s - start_seq) % 0x1_0000_0000 < 16_384
                    &&& !self@.received.contains(s)
                },
            forall|i: int, j: int|
                0 <= i < j < out@.len() ==> (#[trigger] out@[i] - start_seq) % 0x1_0000_0000 < (
                #[trigger] out@[j] - start_seq) % 0x1_0000_0000,
    {
        let dist: u32 = self.highest_seen.wrapping_sub(start_seq);
        let count: u32 = if dist < MAX_GAP_WINDOW {
            dist + 1
        } else {
            MAX_GAP_WINDOW
        };
        let mut out: Vec<u32> = Vec::new();
        let mut i: u32 = 0;
        while i < count
            invariant
                i <= count,
                out@ == gaps(self@.received, start_seq, i as nat),
            decreases count - i,
        {
            let s: u32 = start_seq.wrapping_add(i);
            assert(s == after(start_seq, i as int));
            if !self.received.contains(s) {
                out.push(s);
            }
            i = i + 1;
        }
        proof {
            lemma_missing_exact(self@, start_seq);
            lemma_gaps(self@.received, start_seq, scanned(start_seq, self@.highest));
            assert forall|s: u32| #[trigger] out@.contains(s) <==> {
                &&& (s - start_seq) % 0x1_0000_0000 <= (self@.highest - start_seq)
                    % 0x1_0000_0000
                &&& (s - start_seq) % 0x1_0000_0000 < 16_384
                &&& !self@.received.contains(s)
            } by {
                assert(self@.missing(start_seq).contains(s) <==> {
                    &&& ahead(start_seq, s) <= ahead(start_seq, self@.highest)
                    &&& ahead(start_seq, s) < MAX_GAP_WINDOW
                    &&& !self@.received.contains(s)
                });
            }
            assert forall|i: int, j: int| 0 <= i < j < out@.len() implies (#[trigger] out@[i]
                - start_seq) % 0x1_0000_0000 < (#[trigger] out@[j] - start_seq)
                % 0x1_0000_0000 by {
                assert(ahead(start_seq, out@[i]) < ahead(start_seq, out@[j]));
            }
        }
        out
    }

    /// Whether `now` can follow the last list on a monotonic clock.
    pub fn in_order(&self, now: InstantMs) -> (b: bool)
        ensures
            b == (self@.last_nack matches Some(last) ==> not_before(last, now.ticks)),
    {
        match self.last_nack {
            Some(last) => now.ticks.wrapping_sub(last.ticks) <= u64::MAX / 2,
            None => true,
        }
    }

    /// The missing sequence numbers from `start_seq` on, if there are any and the
    /// interval has elapsed since the last such list.
    pub fn get_nack_list(&mut self, start_seq: u32, now: InstantMs) -> (r: Option<Vec<u32>>)
        requires
            old(self)@.last_nack matches Some(last) ==> not_before(last, now.ticks),
        ensures
            r is Some <==> !old(self)@.too_soon(now.ticks) && old(self)@.missing(start_seq).len()
                > 0,
            old(self)@.missing(start_seq).len() > 0 ==> (r is None <==> (
            old(self)@.last_nack matches Some(last) && (now.ticks - last)
                % 0x1_0000_0000_0000_0000 < old(self)@.interval)),
            match r {
                Some(list) => {
                    &&& list@ == old(self)@.missing(start_seq)
                    &&& final(self)@ == (NackState {
                        last_nack: Some(now.ticks),
                        ..old(self)@
                    })
                },
                None => final(self)@ == old(self)@,
            },
    {
        if let Some(last) = self.last_nack {
            if elapsed_ticks(now.ticks, last.ticks) < self.nack_interval.ticks {
                return None;
            }
        }
        let list: Vec<u32> = self.missing(start_seq);
        if list.is_empty() {
            return None;
        }
        self.last_nack = Some(now);
        Some(list)
    }

    /// Number of unique packets received.
    pub fn received_count(&self) -> (n: usize)
        ensures
            n == self@.received.len(),
    {
        self.received.len()
    }

    /// Drops all entries below `below_seq` to bound memory growth.
    pub fn trim_below(&mut self, below_seq: u32)
        ensures
            final(self)@ == (NackState {
                received: old(self)@.received.filter(|s: u32| s >= below_seq),
                ..old(self)@
            }),
    {
        self.received.retain_from(below_seq);
    }

    /// Sets the highest sequence number seen, as if all packets before had come in.
    pub fn force_highest_seen(&mut self, seq: u32)
        ensures
            final(self)@ == (NackState { highest: seq, ..old(self)@ }),
    {
        self.highest_seen = seq;
    }
}

// ---------------------------------------------------------------------------
// Laws
// ---------------------------------------------------------------------------

/// A scan lists exactly the sequence numbers that it passes and that were not received,
/// each once and in the order of the circle, and never more than it passes.
pub proof fn lemma_gaps(received: Set<u32>, start: u32, n: nat)
    requires
        n <= 0x1_0000_0000,
    ensures
        gaps(received, start, n).len() <= n,
        forall|s: u32|
            #[trigger] gaps(received, start, n).contains(s) <==> ahead(start, s) < n
                && !received.contains(s),
        forall|i: int, j: int|
            0 <= i < j < gaps(received, start, n).len() ==> ahead(
                start,
                #[trigger] gaps(received, start, n)[i],
            ) < ahead(start, #[trigger] gaps(received, start, n)[j]),
    decreases n,
{
    if n > 0 {
        let m = (n - 1) as nat;
        lemma_gaps(received, start, m);
        let rest = gaps(received, start, m);
        let all = gaps(received, start, n);
        let t = after(start, n - 1);
        assert(ahead(start, t) == n - 1);
        assert forall|s: u32| #[trigger] all.contains(s) <==> ahead(start, s) < n
            && !received.contains(s) by {
            assert(rest.contains(s) <==> ahead(start, s) < m && !received.contains(s));
            assert(ahead(start, s) == n - 1 ==> s == t);
            if !received.contains(t) {
                assert(all == rest.push(t));
                assert(all.last() == t);
                if rest.contains(s) {
                    let i = choose|i: int| 0 <= i < rest.len() && rest[i] == s;
                    assert(all[i] == s);
                }
            }
        }
        assert forall|i: int, j: int| 0 <= i < j < all.len() implies ahead(
            start,
            #[trigger] all[i],
        ) < ahead(start, #[trigger] all[j]) by {
            if j == rest.len() {
                assert(rest.contains(rest[i]));
            } else {
                assert(rest[i] == all[i] && rest[j] == all[j]);
            }
        }
    }
}

/// A list of missing numbers never has more entries than the gap window, and holds just
/// what was not received of the numbers within it.
pub proof fn lemma_missing_exact(state: NackState, start: u32)
    ensures
        state.missing(start).len() <= MAX_GAP_WINDOW,
        forall|s: u32|
            #[trigger] state.missing(start).contains(s) <==> {
                &&& ahead(start, s) <= ahead(start, state.highest)
                &&& ahead(start, s) < MAX_GAP_WINDOW
                &&& !state.received.contains(s)
            },
{
    lemma_gaps(state.received, start, scanned(start, state.highest));
}

/// A received sequence number is never asked for again.
pub proof fn lemma_recorded_not_missing(state: NackState, seq: u32, start: u32)
    ensures
        state.recorded(seq).received.contains(seq),
        !state.recorded(seq).missing(start).contains(seq),
{
    lemma_missing_exact(state.recorded(seq), start);
}

/// What one number does to the record, wherever it lies in the circle: it is in, what was in
/// stays, and nothing else comes. The highest number is this one or the one before, and lies
/// behind neither, half a circle being as far ahead as behind. The times do not change.
pub proof fn lemma_highest_never_goes_back(state: NackState, seq: u32)
    ensures
        ({
            let r = state.recorded(seq);
            &&& forall|s: u32| #[trigger]
                r.received.contains(s) <==> s == seq || state.received.contains(s)
            &&& r.highest == seq || r.highest == state.highest
            &&& (r.highest - state.highest) % 0x1_0000_0000 < 0x8000_0000
            &&& (r.highest - seq) % 0x1_0000_0000 <= 0x8000_0000
            &&& (r.highest - seq) % 0x1_0000_0000 == 0x8000_0000 ==> (seq - state.highest)
                % 0x1_0000_0000 == 0x8000_0000
            &&& r.last_nack == state.last_nack
            &&& r.interval == state.interval
        }),
{
}

/// A number that comes again changes nothing: at once, and also later, unless the highest
/// number has gone on by half a circle since.
pub proof fn lemma_duplicate_changes_nothing(state: NackState, seq: u32)
    requires
        state.received.contains(seq),
        !(0 < (seq - state.highest) % 0x1_0000_0000 < 0x8000_0000),
    ensures
        state.recorded(seq) == state,
{
    assert(state.received.insert(seq) =~= state.received);
}

/// A number that was just recorded is one that a duplicate of changes nothing.
pub proof fn lemma_recorded_is_behind(state: NackState, seq: u32)
    ensures
        state.recorded(seq).received.contains(seq),
        !(0 < (seq - state.recorded(seq).highest) % 0x1_0000_0000 < 0x8000_0000),
        state.recorded(seq).recorded(seq) == state.recorded(seq),
{
    lemma_duplicate_changes_nothing(state.recorded(seq), seq);
}

/// A gap that is listed stays listed until its own number comes: whichever other number is
/// recorded, as long as the scan starts no later than the highest number.
pub proof fn lemma_gap_stays_listed(state: NackState, start: u32, gap: u32, seq: u32)
    requires
        state.missing(start).contains(gap),
        (state.highest - start) % 0x1_0000_0000 < 0x8000_0000,
        seq != gap,
    ensures
        state.recorded(seq).missing(start).contains(gap),
{
    lemma_missing_exact(state, start);
    lemma_missing_exact(state.recorded(seq), start);
    assert(ahead(start, gap) <= ahead(start, state.highest));
    let r = state.recorded(seq);
    assert(ahead(start, state.highest) <= ahead(start, r.highest));
    assert(!r.received.contains(gap));
}

/// What comes out of a new record after any numbers below half the circle, in whatever order
/// and however often they came.
pub open spec fn after_all(interval: u64, seqs: Seq<u32>) -> NackState
    decreases seqs.len(),
{
    if seqs.len() == 0 {
        NackState { received: Set::empty(), highest: 0, last_nack: None, interval }
    } else {
        after_all(interval, seqs.drop_last()).recorded(seqs.last())
    }
}

/// The record of any numbers below half the circle: the highest is the greatest of them, and
/// the list from 1 on names, in ascending order, just those up to it and within the window
/// that did not come.
pub proof fn lemma_all_recorded(interval: u64, seqs: Seq<u32>)
    requires
        forall|i: int| 0 <= i < seqs.len() ==> #[trigger] seqs[i] < 0x8000_0000,
    ensures
        ({
            let r = after_all(interval, seqs);
            let list = r.missing(1);
            &&& forall|s: u32| #[trigger] r.received.contains(s) <==> seqs.contains(s)
            &&& r.highest == 0 || seqs.contains(r.highest)
            &&& forall|i: int| 0 <= i < seqs.len() ==> #[trigger] seqs[i] <= r.highest
            &&& r.highest > 0 ==> forall|s: u32| #[trigger]
                list.contains(s) <==> 1 <= s <= r.highest && s <= 16_384 && !seqs.contains(s)
            &&& r.highest > 0 ==> forall|i: int, j: int|
                0 <= i < j < list.len() ==> #[trigger] list[i] < #[trigger] list[j]
        }),
    decreases seqs.len(),
{
    let r = after_all(interval, seqs);
    if seqs.len() > 0 {
        let rest = seqs.drop_last();
        let last = seqs.last();
        assert forall|i: int| 0 <= i < rest.len() implies #[trigger] rest[i] < 0x8000_0000 by {
            assert(rest[i] == seqs[i]);
        }
        lemma_all_recorded(interval, rest);
        let p = after_all(interval, rest);
        assert(last == seqs[seqs.len() - 1]);
        assert forall|s: u32| seqs.contains(s) <==> s == last || rest.contains(s) by {
            if rest.contains(s) {
                let i = choose|i: int| 0 <= i < rest.len() && rest[i] == s;
                assert(seqs[i] == s);
            }
            if seqs.contains(s) && s != last {
                let i = choose|i: int| 0 <= i < seqs.len() && seqs[i] == s;
                assert(rest[i] == s);
            }
        }
        assert(p.highest < 0x8000_0000) by {
            if p.highest > 0 {
                let i = choose|i: int| 0 <= i < rest.len() && rest[i] == p.highest;
                assert(rest[i] < 0x8000_0000);
            }
        }
        assert forall|i: int| 0 <= i < seqs.len() implies #[trigger] seqs[i] <= r.highest by {
            if i < rest.len() {
                assert(rest[i] == seqs[i]);
                assert(rest[i] <= p.highest);
            }
        }
    }
    lemma_missing_exact(r, 1);
    lemma_gaps(r.received, 1, scanned(1, r.highest));
    let list = r.missing(1);
    if r.highest > 0 {
        assert forall|s: u32| #[trigger] list.contains(s) <==> 1 <= s <= r.highest && s <= 16_384
            && !seqs.contains(s) by {
            assert(list.contains(s) <==> {
                &&& ahead(1, s) <= ahead(1, r.highest)
                &&& ahead(1, s) < MAX_GAP_WINDOW
                &&& !r.received.contains(s)
            });
        }
        assert forall|i: int, j: int| 0 <= i < j < list.len() implies #[trigger] list[i]
            < #[trigger] list[j] by {
            assert(list.contains(list[i]));
            assert(list.contains(list[j]));
            assert(ahead(1, list[i]) < ahead(1, list[j]));
        }
    }
}

/// On a clock that does not run back, a list is held back just as long as the interval since
/// the last one has not gone by.
pub proof fn lemma_interval_kept(state: NackState, last: u64, now: u64)
    requires
        state.last_nack == Some(last),
        last <= now,
    ensures
        state.too_soon(now) <==> now - last < state.interval,
{
}

/// Before the first list none is held back.
pub proof fn lemma_first_list_at_once(state: NackState, now: u64)
    requires
        state.last_nack is None,
    ensures
        !state.too_soon(now),
{
}

} // verus!
