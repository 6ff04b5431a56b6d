//! The sample window and the congestion window of delay-based congestion control.
//!
//! On lossy links, packet loss is not congestion. What counts is the trend of the
//! one-way delay:
//!
//! - rising: queues are filling, the window shrinks
//! - falling: there is spare capacity, the window grows fast
//! - stable: the window grows gently
//!
//! The gradient that tells the trend is computed by the caller from the aged samples.

use crate::protocol::nack;
use std::collections::VecDeque;
use vstd::prelude::*;

pub use crate::protocol::nack::InstantMs;

verus! {

/// The most samples that are kept.
pub const MAX_SAMPLES: usize = 64;

/// Fewer samples than this tell no trend.
pub const MIN_SAMPLES: usize = 4;

/// Congestion window at the start.
pub const INITIAL_CWND: u32 = 64;

/// The congestion window never shrinks below this.
pub const MIN_CWND: u32 = 8;

/// The congestion window never grows beyond this.
pub const MAX_CWND: u32 = 4096;

/// One-way delay sample with a caller-provided instant.
#[derive(Clone, Copy, Debug, PartialEq, Eq, Structural)]
pub struct DelaySample {
    pub owd_us: u64,
    pub tick: InstantMs,
}

/// Where the one-way delay is going.
#[derive(Clone, Copy, Debug, PartialEq, Eq, Structural)]
pub enum Trend {
    Rising,
    Falling,
    Stable,
}

/// A delay and how many milliseconds before the newest sample it was taken.
#[derive(Clone, Copy, Debug, PartialEq, Eq, Structural)]
pub struct AgedDelay {
    pub owd_us: u64,
    pub age_ms: u64,
}

/// What the controller knows.
pub struct DelayView {
    /// The samples kept, oldest first.
    pub samples: Seq<DelaySample>,
    /// The least delay seen.
    pub min_owd_us: u64,
    /// The congestion window.
    pub cwnd: u32,
}

/// The window grown by `n`, up to its maximum.
pub open spec fn grown(cwnd: u32, n: u32) -> u32 {
    if cwnd + n < MAX_CWND {
        (cwnd + n) as u32
    } else {
        MAX_CWND
    }
}

/// A number, but not less than the minimum window.
pub open spec fn floored(cwnd: u32) -> u32 {
    if cwnd < MIN_CWND {
        MIN_CWND
    } else {
        cwnd
    }
}

impl DelayView {
    /// No more samples than there is room for, and a window within its bounds.
    pub open spec fn wf(self) -> bool {
        &&& self.samples.len() <= MAX_SAMPLES
        &&& MIN_CWND <= self.cwnd <= MAX_CWND
    }

    /// No sample is later than the newest.
    pub open spec fn ordered(self) -> bool {
        forall|i: int|
            0 <= i < self.samples.len() ==> nack::not_before(
                (#[trigger] self.samples[i]).tick.ticks,
                self.samples.last().tick.ticks,
            )
    }

    /// A sample more: the oldest goes when there is no room.
    pub open spec fn sampled(self, owd_us: u64, now: InstantMs) -> DelayView {
        let all = self.samples.push(DelaySample { owd_us, tick: now });
        DelayView {
            samples: if all.len() > MAX_SAMPLES {
                all.drop_first()
            } else {
                all
            },
            min_owd_us: if owd_us < self.min_owd_us {
                owd_us
            } else {
                self.min_owd_us
            },
            ..self
        }
    }

    /// There are enough samples to act on.
    pub open spec fn ready(self) -> bool {
        self.samples.len() >= MIN_SAMPLES
    }

    /// The samples have a gradient: there are two halves, and a delay to measure by.
    pub open spec fn measurable(self) -> bool {
        self.samples.len() >= 2 && self.min_owd_us != 0 && self.min_owd_us != u64::MAX
    }

    /// The samples from `from` to `to`, with their age.
    pub open spec fn aged(self, from: int, to: int) -> Seq<AgedDelay> {
        Seq::new(
            (to - from) as nat,
            |i: int|
                AgedDelay {
                    owd_us: self.samples[from + i].owd_us,
                    age_ms: nack::ticks_between(
                        self.samples[from + i].tick.ticks,
                        self.samples.last().tick.ticks,
                    ),
                },
        )
    }

    /// The congestion window after a trend; `reduced` is what a congested window comes
    /// down to.
    pub open spec fn adjusted(self, trend: Trend, reduced: u32) -> DelayView {
        DelayView {
            cwnd: match trend {
                Trend::Rising => floored(reduced),
                Trend::Falling => grown(self.cwnd, 2),
                Trend::Stable => grown(self.cwnd, 1),
            },
            ..self
        }
    }
}

/// The part of the delay-based controller that holds the samples and the window.
pub struct DelayBasedController {
    samples: VecDeque<DelaySample>,
    /// Minimum delay observed: a proxy for propagation delay.
    min_owd_us: u64,
    cwnd: u32,
}

impl View for DelayBasedController {
    type V = DelayView;

    closed spec fn view(&self) -> DelayView {
        DelayView { samples: self.samples@, min_owd_us: self.min_owd_us, cwnd: self.cwnd }
    }
}

impl DelayBasedController {
    pub fn new() -> (w: Self)
        ensures
            w@.wf(),
            w@ == (DelayView {
                samples: Seq::empty(),
                min_owd_us: u64::MAX,
                cwnd: INITIAL_CWND,
            }),
            w@.cwnd == 64,
    {
        DelayBasedController {
            samples: VecDeque::with_capacity(MAX_SAMPLES),
            min_owd_us: u64::MAX,
            cwnd: INITIAL_CWND,
        }
    }

    /// Takes in a one-way delay measurement. Returns whether there are enough samples to
    /// adjust the rate.
    pub fn on_delay_sample(&mut self, owd_us: u64, now: InstantMs) -> (ready: bool)
        requires
            old(self)@.wf(),
        ensures
            final(self)@.wf(),
            final(self)@ == old(self)@.sampled(owd_us, now),
            ready == final(self)@.ready(),
            ready <==> old(self)@.samples.len() + 1 >= 4,
            final(self)@.cwnd == old(self)@.cwnd,
            final(self)@.min_owd_us <= owd_us,
            final(self)@.min_owd_us <= old(self)@.min_owd_us,
            final(self)@.min_owd_us == owd_us || final(self)@.min_owd_us == old(
                self,
            )@.min_owd_us,
            final(self)@.samples.last() == (DelaySample { owd_us, tick: now }),
            final(self)@.samples.len() == (if old(self)@.samples.len() < 64 {
                old(self)@.samples.len() + 1
            } else {
                64
            }),
    {
        let ghost before = self@;
        if owd_us < self.min_owd_us {
            self.min_owd_us = owd_us;
        }
        self.samples.push_back(DelaySample { owd_us, tick: now });
        if self.samples.len() > MAX_SAMPLES {
            self.samples.pop_front();
        }
        proof {
            assert(self@.samples =~= before.sampled(owd_us, now).samples);
        }
        self.samples.len() >= MIN_SAMPLES
    }

    /// Reports packet loss. Isolated loss is not congestion, and many NACKs are packet
    /// reordering: loss changes nothing.
    pub fn on_loss(&mut self, _lost_count: u32)
        ensures
            *final(self) == *old(self),
    {
    }

    /// Additive increase: called every 100 ms or so.
    pub fn tick_increase(&mut self)
        requires
            old(self)@.wf(),
        ensures
            final(self)@.wf(),
            final(self)@ == (DelayView { cwnd: grown(old(self)@.cwnd, 1), ..old(self)@ }),
            final(self)@.cwnd == (if old(self)@.cwnd < 4096 {
                old(self)@.cwnd + 1
            } else {
                4096
            }),
    {
        self.grow(1);
    }

    fn grow(&mut self, n: u32)
        requires
            old(self)@.wf(),
            n <= 2,
        ensures
            final(self)@.wf(),
            final(self)@ == (DelayView { cwnd: grown(old(self)@.cwnd, n), ..old(self)@ }),
    {
        self.cwnd = if self.cwnd + n < MAX_CWND {
            self.cwnd + n
        } else {
            MAX_CWND
        };
    }

    /// Current congestion window (most packets in flight).
    pub fn cwnd(&self) -> (n: u32)
        ensures
            n == self@.cwnd,
    {
        self.cwnd
    }

    /// The least delay seen, if the samples have a gradient.
    pub fn base_delay_us(&self) -> (r: Option<u64>)
        ensures
            r == (if self@.measurable() {
                Some(self@.min_owd_us)
            } else {
                None
            }),
            r is Some <==> self@.samples.len() >= 2 && self@.min_owd_us != 0 && self@.min_owd_us
                != u64::MAX,
            r matches Some(d) ==> d == self@.min_owd_us,
    {
        if self.samples.len() < 2 || self.min_owd_us == 0 || self.min_owd_us == u64::MAX {
            None
        } else {
            Some(self.min_owd_us)
        }
    }

    /// Whether no sample is later than the newest.
    pub fn ordered(&self) -> (b: bool)
        ensures
            b == self@.ordered(),
    {
        let n: usize = self.samples.len();
        let mut i: usize = 0;
        while i < n
            invariant
                i <= n == self.samples@.len(),
                forall|j: int|
                    0 <= j < i ==> nack::not_before(
                        (#[trigger] self@.samples[j]).tick.ticks,
                        self@.samples.last().tick.ticks,
                    ),
            decreases n - i,
        {
            let last: u64 = self.samples[n - 1].tick.ticks;
            let tick: u64 = self.samples[i].tick.ticks;
            if last.wrapping_sub(tick) > u64::MAX / 2 {
                assert(!nack::not_before(self@.samples[i as int].tick.ticks, last));
                return false;
            }
            i = i + 1;
        }
        true
    }

    /// The older and the recent half of the samples, with their age against the newest.
    pub fn halves(&self) -> (r: (Vec<AgedDelay>, Vec<AgedDelay>))
        requires
            self@.ordered(),
        ensures
            r.0@ == self@.aged(0, self@.samples.len() as int / 2),
            r.1@ == self@.aged(self@.samples.len() as int / 2, self@.samples.len() as int),
            r.0@.len() == self@.samples.len() / 2,
            r.0@.len() + r.1@.len() == self@.samples.len(),
            forall|i: int|
                0 <= i < self@.samples.len() ==> (#[trigger] (r.0@ + r.1@)[i]).owd_us
                    == self@.samples[i].owd_us && (r.0@ + r.1@)[i].age_ms == (
                self@.samples.last().tick.ticks - self@.samples[i].tick.ticks)
                    % 0x1_0000_0000_0000_0000,
    {
        let n: usize = self.samples.len();
        let half: usize = n / 2;
        (self.aged(0, half), self.aged(half, n))
    }

    fn aged(&self, from: usize, to: usize) -> (out: Vec<AgedDelay>)
        requires
            self@.ordered(),
            from <= to <= self@.samples.len(),
        ensures
            out@ == self@.aged(from as int, to as int),
    {
        let n: usize = self.samples.len();
        let mut out: Vec<AgedDelay> = Vec::new();
        let mut i: usize = from;
        while i < to
            invariant
                from <= i <= to <= n == self.samples@.len(),
                self@.ordered(),
                out@ == self@.aged(from as int, i as int),
            decreases to - i,
        {
            let s: DelaySample = self.samples[i];
            let last: u64 = self.samples[n - 1].tick.ticks;
            assert(self@.samples[i as int] == s);
            let age_ms: u64 = nack::elapsed_ticks(last, s.tick.ticks);
            out.push(AgedDelay { owd_us: s.owd_us, age_ms });
            i = i + 1;
            proof {
                assert(out@ =~= self@.aged(from as int, i as int));
            }
        }
        proof {
            assert(out@ =~= self@.aged(from as int, to as int));
        }
        out
    }

    /// Adjusts the congestion window to the trend. `reduced` is the window after
    /// multiplicative decrease, which applies where the delay is rising.
    pub fn adjust(&mut self, trend: Trend, reduced: u32)
        requires
            old(self)@.wf(),
            reduced <= old(self)@.cwnd,
        ensures
            final(self)@.wf(),
            final(self)@ == old(self)@.adjusted(trend, reduced),
            final(self)@.samples == old(self)@.samples,
            final(self)@.min_owd_us == old(self)@.min_owd_us,
            trend == Trend::Rising && reduced >= 8 ==> final(self)@.cwnd == reduced,
            trend == Trend::Rising && reduced < 8 ==> final(self)@.cwnd == 8,
            trend == Trend::Falling ==> final(self)@.cwnd == (if old(self)@.cwnd + 2 < 4096 {
                old(self)@.cwnd + 2
            } else {
                4096
            }),
            trend == Trend::Stable ==> final(self)@.cwnd == (if old(self)@.cwnd + 1 < 4096 {
                old(self)@.cwnd + 1
            } else {
                4096
            }),
    {
        match trend {
            Trend::Rising => {
                self.cwnd = if reduced < MIN_CWND {
                    MIN_CWND
                } else {
                    reduced
                };
            },
            Trend::Falling => self.grow(2),
            Trend::Stable => self.grow(1),
        }
    }
}

/// The delay that has built up under rate control, taken in one sleep once it is worth
/// a millisecond: the new debt, and the time to sleep.
pub open spec fn paced(debt_us: int, delay_us: int) -> (int, Option<int>) {
    if debt_us + delay_us >= 1_000 {
        (0, Some(debt_us + delay_us))
    } else {
        (debt_us + delay_us, None)
    }
}

/// Adds the delay of a packet to the debt, and tells whether to sleep it off.
pub fn pace(debt_us: u64, delay_us: u64) -> (r: (u64, Option<u64>))
    requires
        debt_us + delay_us <= u64::MAX,
    ensures
        r.0 == paced(debt_us as int, delay_us as int).0,
        match r.1 {
            Some(t) => paced(debt_us as int, delay_us as int).1 == Some(t as int),
            None => paced(debt_us as int, delay_us as int).1 is None,
        },
        r.1 is Some <==> debt_us + delay_us >= 1_000,
        r.1 matches Some(t) ==> t == debt_us + delay_us && r.0 == 0,
        r.1 is None ==> r.0 == debt_us + delay_us,
{
    let debt: u64 = debt_us + delay_us;
    if debt >= 1_000 {
        (0, Some(debt))
    } else {
        (debt, None)
    }
}

// ---------------------------------------------------------------------------
// Laws
// ---------------------------------------------------------------------------

/// The samples kept are the newest: any number of samples leave the last 64 of what was
/// there and of them.
pub proof fn lemma_newest_kept(start: DelayView, samples: Seq<DelaySample>)
    requires
        start.wf(),
    ensures
        after_samples(start, samples).wf(),
        after_samples(start, samples).samples == newest(start.samples + samples),
        after_samples(start, samples).cwnd == start.cwnd,
    decreases samples.len(),
{
    if samples.len() == 0 {
        assert(start.samples + samples =~= start.samples);
    } else {
        let rest = samples.drop_last();
        let s = samples.last();
        lemma_newest_kept(start, rest);
        let all = start.samples + samples;
        assert(all.drop_last() =~= start.samples + rest);
        let mid = after_samples(start, rest);
        assert(after_samples(start, samples).samples =~= newest(all));
    }
}

/// The state after a number of samples.
pub open spec fn after_samples(start: DelayView, samples: Seq<DelaySample>) -> DelayView
    decreases samples.len(),
{
    if samples.len() == 0 {
        start
    } else {
        after_samples(start, samples.drop_last()).sampled(
            samples.last().owd_us,
            samples.last().tick,
        )
    }
}

/// The last samples, as many as there is room for.
pub open spec fn newest(all: Seq<DelaySample>) -> Seq<DelaySample> {
    if all.len() > MAX_SAMPLES {
        all.skip(all.len() - MAX_SAMPLES)
    } else {
        all
    }
}

/// A rising delay: the window becomes the decreased window that is given, whatever it was,
/// but not less than eight packets. Nothing else changes.
pub proof fn lemma_rising_delay(v: DelayView, reduced: u32)
    requires
        v.wf(),
        reduced <= v.cwnd,
    ensures
        ({
            let r = v.adjusted(Trend::Rising, reduced);
            &&& r.wf()
            &&& reduced >= 8 ==> r.cwnd == reduced
            &&& reduced < 8 ==> r.cwnd == 8
            &&& r.cwnd <= v.cwnd
            &&& r.samples == v.samples
            &&& r.min_owd_us == v.min_owd_us
        }),
{
}

/// The greater the decreased window, the greater what is left: no two windows of eight
/// packets or more come down to one.
pub proof fn lemma_decrease_in_proportion(v: DelayView, a: u32, b: u32)
    requires
        v.wf(),
        8 <= a < b <= v.cwnd,
    ensures
        v.adjusted(Trend::Rising, b).cwnd - v.adjusted(Trend::Rising, a).cwnd == b - a,
{
}

/// A window below its maximum grows by one packet where the delay is stable and by two where
/// it falls, and never beyond 4096 packets.
pub proof fn lemma_growth(v: DelayView, reduced: u32)
    requires
        v.wf(),
    ensures
        v.adjusted(Trend::Stable, reduced).wf(),
        v.adjusted(Trend::Falling, reduced).wf(),
        v.cwnd <= 4095 ==> v.adjusted(Trend::Stable, reduced).cwnd == v.cwnd + 1,
        v.cwnd <= 4094 ==> v.adjusted(Trend::Falling, reduced).cwnd == v.cwnd + 2,
        v.cwnd == 4096 ==> v.adjusted(Trend::Stable, reduced).cwnd == 4096,
        v.cwnd >= 4095 ==> v.adjusted(Trend::Falling, reduced).cwnd == 4096,
        v.adjusted(Trend::Falling, reduced).samples == v.samples,
        v.adjusted(Trend::Stable, reduced).samples == v.samples,
{
}

/// The base delay is the least of all delays that were measured, those no longer kept too.
pub proof fn lemma_least_delay(start: DelayView, samples: Seq<DelaySample>)
    ensures
        after_samples(start, samples).min_owd_us <= start.min_owd_us,
        forall|i: int|
            0 <= i < samples.len() ==> after_samples(start, samples).min_owd_us <= (
            #[trigger] samples[i]).owd_us,
        after_samples(start, samples).min_owd_us == start.min_owd_us || exists|i: int|
            0 <= i < samples.len() && (#[trigger] samples[i]).owd_us == after_samples(
                start,
                samples,
            ).min_owd_us,
    decreases samples.len(),
{
    if samples.len() > 0 {
        let rest = samples.drop_last();
        lemma_least_delay(start, rest);
        let m = after_samples(start, rest).min_owd_us;
        let r = after_samples(start, samples).min_owd_us;
        assert(samples.last() == samples[samples.len() - 1]);
        assert forall|i: int| 0 <= i < samples.len() implies r <= (#[trigger] samples[i]).owd_us by {
            if i < rest.len() {
                assert(rest[i] == samples[i]);
            }
        }
        if r == m && m != start.min_owd_us {
            let i = choose|i: int| 0 <= i < rest.len() && (#[trigger] rest[i]).owd_us == m;
            assert(samples[i].owd_us == r);
        }
    }
}

/// Rate control neither loses nor adds time: what is slept and what is still owed make up
/// what was owed and what came, a sleep leaves nothing owed, and less than a millisecond is
/// ever owed.
pub proof fn lemma_pace_conserves(debt_us: int, delay_us: int)
    requires
        0 <= debt_us,
        0 <= delay_us,
    ensures
        ({
            let (left, sleep) = paced(debt_us, delay_us);
            &&& left + (match sleep {
                Some(t) => t,
                None => 0,
            }) == debt_us + delay_us
            &&& 0 <= left < 1_000
            &&& sleep matches Some(t) ==> t >= 1_000 && left == 0
        }),
{
}

} // verus!
