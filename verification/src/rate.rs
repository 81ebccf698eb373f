//! A per-second packet rate limiter.

use vstd::prelude::*;
use crate::clock::{Clock, elapsed_ns};

verus! {

/// Length of a rate-limiting window (one second) in nanoseconds.
pub const WINDOW_NS: u128 = 1_000_000_000;

/// The state of a rate limiter: when its window began and how many packets
/// it has let through in it.
pub struct RateState {
    pub last_reset: u128,
    pub count: u64,
}

/// One decision: with no limit (0) every packet passes and nothing changes;
/// else a window that has lasted a second or more is restarted at `now`,
/// and the packet passes (and is counted) while fewer than `rate_limit`
/// packets passed in the window.
pub open spec fn rate_step(s: RateState, rate_limit: u64, now: u128) -> (RateState, bool) {
    if rate_limit == 0 {
        (s, true)
    } else {
        let s1 = if elapsed_ns(now, s.last_reset) >= WINDOW_NS {
            RateState { last_reset: now, count: 0 }
        } else {
            s
        };
        if s1.count < rate_limit {
            (RateState { count: (s1.count + 1) as u64, ..s1 }, true)
        } else {
            (s1, false)
        }
    }
}

/// Rate limiter.
pub struct RateLimiter {
    clock: Clock,
    last_reset: u128,
    count: u64,
}

impl View for RateLimiter {
    type V = RateState;

    closed spec fn view(&self) -> RateState {
        RateState { last_reset: self.last_reset, count: self.count }
    }
}

impl RateLimiter {
    /// The latest reading of this limiter's clock.
    pub closed spec fn clock_reading(&self) -> u128 {
        self.clock.last_reading()
    }

    /// A limiter whose window starts now, with nothing counted: its clock
    /// is made now, so the window starts at the clock's reading zero.
    pub fn new() -> (r: Self)
        ensures
            r@ == (RateState { last_reset: 0, count: 0 }),
            r.clock_reading() == 0,
    {
        RateLimiter { clock: Clock::new(), last_reset: 0, count: 0 }
    }

    /// Decide on one packet at clock reading `now` (nanoseconds).
    pub fn allow_packet_at(&mut self, rate_limit: u64, now: u128) -> (r: bool)
        ensures
            (final(self)@, r) == rate_step(old(self)@, rate_limit, now),
            final(self).clock_reading() == old(self).clock_reading(),
    {
        if rate_limit == 0 {
            return true;
        }
        if now >= self.last_reset && now - self.last_reset >= WINDOW_NS {
            self.count = 0;
            self.last_reset = now;
        }
        if self.count < rate_limit {
            self.count = self.count + 1;
            true
        } else {
            false
        }
    }

    /// A new reading of this limiter's clock, never below the last one.
    pub fn clock_now(&mut self) -> (r: u128)
        ensures
            r >= old(self).clock_reading(),
            final(self).clock_reading() == r,
            final(self)@ == old(self)@,
    {
        self.clock.now_ns()
    }

    /// Decide on one packet now: at a reading of the limiter's clock no
    /// earlier than its last one.
    pub fn allow_packet(&mut self, rate_limit: u64) -> (r: bool)
        ensures
            exists|now: u128|
                {
                    &&& now >= old(self).clock_reading()
                    &&& final(self).clock_reading() == now
                    &&& (final(self)@, r) == #[trigger] rate_step(old(self)@, rate_limit, now)
                },
    {
        let ghost before = *self;
        let now = self.clock_now();
        proof {
            assert(self@ == before@);
        }
        self.allow_packet_at(rate_limit, now)
    }
}

/// The outcomes of consecutive decisions at the given clock readings.
pub open spec fn rate_run(s: RateState, rate_limit: u64, times: Seq<u128>) -> (RateState, Seq<bool>)
    decreases times.len(),
{
    if times.len() == 0 {
        (s, Seq::empty())
    } else {
        let (s1, passed) = rate_run(s, rate_limit, times.drop_last());
        let (s2, b) = rate_step(s1, rate_limit, times.last());
        (s2, passed.push(b))
    }
}

/// The number of `true` in `bs`.
pub open spec fn count_true(bs: Seq<bool>) -> nat
    decreases bs.len(),
{
    if bs.len() == 0 {
        0
    } else {
        count_true(bs.drop_last()) + if bs.last() {
            1nat
        } else {
            0nat
        }
    }
}

/// Within one window at most `rate_limit` packets pass: from a state whose
/// window has not run out, a run of decisions all within the same second
/// lets through exactly the first `rate_limit - count` packets.
pub proof fn lemma_rate_window(s: RateState, rate_limit: u64, times: Seq<u128>)
    requires
        rate_limit > 0,
        s.count <= rate_limit,
        forall|i: int| 0 <= i < times.len() ==> elapsed_ns(#[trigger] times[i], s.last_reset) < WINDOW_NS,
    ensures
        ({
            let (s2, passed) = rate_run(s, rate_limit, times);
            &&& s2.last_reset == s.last_reset
            &&& passed.len() == times.len()
            &&& s2.count == if s.count + times.len() <= rate_limit {
                s.count + times.len()
            } else {
                rate_limit as int
            }
            &&& forall|i: int|
                0 <= i < times.len() ==> #[trigger] passed[i] == (s.count + i < rate_limit)
            &&& count_true(passed) == s2.count - s.count
        }),
    decreases times.len(),
{
    if times.len() > 0 {
        let prefix = times.drop_last();
        assert forall|i: int| 0 <= i < prefix.len() implies elapsed_ns(
            #[trigger] prefix[i],
            s.last_reset,
        ) < WINDOW_NS by {
            assert(prefix[i] == times[i]);
        }
        lemma_rate_window(s, rate_limit, prefix);
        let (s1, passed1) = rate_run(s, rate_limit, prefix);
        assert(times.last() == times[times.len() - 1]);
        let (s2, passed) = rate_run(s, rate_limit, times);
        assert(passed == passed1.push(rate_step(s1, rate_limit, times.last()).1));
        assert(passed.drop_last() =~= passed1);
        assert forall|i: int|
            0 <= i < times.len() implies #[trigger] passed[i] == (s.count + i < rate_limit) by {
            if i < prefix.len() {
                assert(passed[i] == passed1[i]);
            }
        }
    }
}

/// A window that has run out restarts at the packet that finds it so: that
/// packet passes and opens a new one-second window, and of the packets that
/// follow within that second exactly the first `rate_limit - 1` pass, the
/// others are refused. So at most `rate_limit` packets pass in the second
/// after a restart, whatever came before.
pub proof fn lemma_restarted_window(s: RateState, rate_limit: u64, now: u128, later: Seq<u128>)
    requires
        rate_limit > 0,
        elapsed_ns(now, s.last_reset) >= WINDOW_NS,
        forall|i: int| 0 <= i < later.len() ==> elapsed_ns(#[trigger] later[i], now) < WINDOW_NS,
    ensures
        ({
            let (s1, first) = rate_step(s, rate_limit, now);
            let (s2, passed) = rate_run(s1, rate_limit, later);
            &&& first
            &&& s1.last_reset == now
            &&& s2.last_reset == now
            &&& forall|i: int| 0 <= i < later.len() ==> #[trigger] passed[i] == (i + 1 < rate_limit)
            &&& 1 + count_true(passed) <= rate_limit
            &&& s2.count <= rate_limit
        }),
{
    let (s1, first) = rate_step(s, rate_limit, now);
    assert(s1 == RateState { last_reset: now, count: 1 });
    lemma_rate_window(s1, rate_limit, later);
}

/// Without a limit every packet passes.
pub proof fn lemma_no_limit_passes(s: RateState, now: u128)
    ensures
        rate_step(s, 0, now) == (s, true),
{
}

/// A decision never leaves more packets counted than the limit allows.
pub proof fn lemma_rate_count_bounded(s: RateState, rate_limit: u64, now: u128)
    requires
        s.count <= rate_limit,
    ensures
        rate_step(s, rate_limit, now).0.count <= rate_limit,
{
}

} // verus!
