//! The scheduling policy: aging weight, retry budget and backoff.

use vstd::prelude::*;

verus! {

/// The largest magnitude of a score that the queue stores. Every score that
/// the scheduler writes lies within it, and the aging of a score within it
/// never leaves 128 bits.
pub const SCORE_LIMIT: i128 = 0x4000_0000_0000_0000_0000_0000_0000_0000;

/// Whether `score` can be stored in the queue.
pub open spec fn storable(score: i128) -> bool {
    -SCORE_LIMIT <= score <= SCORE_LIMIT
}

/// Two to the power `n`.
pub open spec fn pow2(n: nat) -> nat
    decreases n,
{
    if n == 0 {
        1
    } else {
        2 * pow2((n - 1) as nat)
    }
}

/// The delay before retry number `retries` (counted from 1): the initial
/// backoff, doubled once for every retry that came before.
pub open spec fn backoff(initial_backoff: int, retries: int) -> int {
    if retries >= 1 {
        initial_backoff * pow2((retries - 1) as nat)
    } else {
        initial_backoff
    }
}

/// The score by which entries are ranked at `now`: the base priority, lowered
/// (made more urgent) by the weight for each tick since `reference_time`. An
/// entry whose reference time lies in the future is raised instead.
pub open spec fn adjusted_score(priority: int, time_weight: int, now: int, reference_time: int) -> int {
    priority - time_weight * (now - reference_time)
}

/// The score written for an entry that is retried after `delay` ticks.
pub open spec fn retry_score(priority: int, time_weight: int, delay: int) -> int {
    priority - time_weight * delay
}

/// `pow2` never decreases.
pub proof fn lemma_pow2_monotone(a: nat, b: nat)
    requires
        a <= b,
    ensures
        1 <= pow2(a) <= pow2(b),
    decreases b,
{
    if b == 0 {
    } else if a == b {
        lemma_pow2_monotone(0, (b - 1) as nat);
    } else {
        lemma_pow2_monotone(a, (b - 1) as nat);
    }
}

/// The first retry waits for the initial backoff.
pub proof fn lemma_backoff_first(initial_backoff: int)
    ensures
        backoff(initial_backoff, 1) == initial_backoff,
{
    assert(pow2(0) == 1);
    assert(initial_backoff * 1 == initial_backoff);
}

/// Each retry waits twice as long as the one before.
pub proof fn lemma_backoff_doubles(initial_backoff: int, retries: int)
    requires
        retries >= 1,
    ensures
        backoff(initial_backoff, retries + 1) == 2 * backoff(initial_backoff, retries),
{
    let p = pow2((retries - 1) as nat) as int;
    assert(pow2(retries as nat) == 2 * pow2((retries - 1) as nat));
    assert(initial_backoff * (2 * p) == 2 * (initial_backoff * p)) by (nonlinear_arith);
}

/// The backoff delay grows with the retry number.
pub proof fn lemma_backoff_monotone(initial_backoff: int, a: int, b: int)
    requires
        0 <= initial_backoff,
        1 <= a <= b,
    ensures
        0 <= backoff(initial_backoff, a) <= backoff(initial_backoff, b),
{
    lemma_pow2_monotone((a - 1) as nat, (b - 1) as nat);
    let x = pow2((a - 1) as nat) as int;
    let y = pow2((b - 1) as nat) as int;
    assert(0 <= initial_backoff * x <= initial_backoff * y) by (nonlinear_arith)
        requires
            0 <= initial_backoff,
            1 <= x <= y,
    ;
}

/// Of two entries that have waited since the same instant, the one with the
/// lower base priority has the lower score.
pub proof fn lemma_equal_wait_orders_by_priority(a: int, b: int, time_weight: int, now: int, reference_time: int)
    requires
        a < b,
    ensures
        adjusted_score(a, time_weight, now, reference_time) < adjusted_score(
            b,
            time_weight,
            now,
            reference_time,
        ),
{
}

/// Waiting makes an entry more urgent: with a weight that is not negative,
/// its score at a later instant is no higher than at an earlier one.
pub proof fn lemma_score_falls_with_time(priority: int, time_weight: int, earlier: int, later: int, reference_time: int)
    requires
        0 <= time_weight,
        earlier <= later,
    ensures
        adjusted_score(priority, time_weight, later, reference_time) <= adjusted_score(
            priority,
            time_weight,
            earlier,
            reference_time,
        ),
{
    assert(time_weight * (earlier - reference_time) <= time_weight * (later - reference_time))
        by (nonlinear_arith)
        requires
            0 <= time_weight,
            earlier <= later,
    ;
}

/// How the scheduler ages entries and spaces out retries.
#[derive(Clone, Copy, Debug, PartialEq, Eq, Structural)]
pub struct Policy {
    /// Priority units by which an entry becomes more urgent per tick of waiting.
    pub time_weight: u32,
    /// The retry number at which a URL is given up. At least 1.
    pub max_retries: u32,
    /// The delay before the first retry, in ticks.
    pub initial_backoff: u64,
}

impl Policy {
    /// The longest delay that the settings can give: that of the last retry
    /// that is still scheduled, or 0 where none is.
    pub open spec fn longest_backoff(max_retries: u32, initial_backoff: u64) -> int {
        if max_retries >= 2 {
            backoff(initial_backoff as int, max_retries - 1)
        } else {
            0
        }
    }

    /// Whether the three settings make a policy: the retry budget is at least
    /// 1, and every delay that can come up fits 64 bits.
    pub open spec fn valid(time_weight: u32, max_retries: u32, initial_backoff: u64) -> bool {
        &&& max_retries >= 1
        &&& Self::longest_backoff(max_retries, initial_backoff) <= u64::MAX
    }

    pub open spec fn wf(&self) -> bool {
        Self::valid(self.time_weight, self.max_retries, self.initial_backoff)
    }

    /// Whether a retry can be scheduled at `now`: the instant at which the
    /// longest delay would end still fits 64 bits.
    pub open spec fn schedules_at(&self, now: u64) -> bool {
        now + Self::longest_backoff(self.max_retries, self.initial_backoff) <= u64::MAX
    }

    /// Builds a policy, or `None` where the settings do not make one.
    pub fn new(time_weight: u32, max_retries: u32, initial_backoff: u64) -> (r: Option<Policy>)
        ensures
            r is Some <==> Self::valid(time_weight, max_retries, initial_backoff),
            r is Some ==> r == Some(Policy { time_weight, max_retries, initial_backoff }),
    {
        let policy = Policy { time_weight, max_retries, initial_backoff };
        if max_retries == 0 {
            return None;
        }
        if max_retries == 1 || initial_backoff == 0 {
            proof {
                assert(0 * pow2((max_retries - 2) as nat) == 0) by (nonlinear_arith);
            }
            return Some(policy);
        }
        let last: u32 = max_retries - 1;
        let mut delay: u64 = initial_backoff;
        let mut n: u32 = 1;
        proof {
            lemma_backoff_first(initial_backoff as int);
        }
        while n < last
            invariant
                1 <= n <= last,
                last == max_retries - 1,
                1 <= initial_backoff,
                delay == backoff(initial_backoff as int, n as int),
            decreases last - n,
        {
            proof {
                lemma_backoff_doubles(initial_backoff as int, n as int);
            }
            if delay > 0x7FFF_FFFF_FFFF_FFFF {
                proof {
                    lemma_backoff_monotone(initial_backoff as int, n + 1, last as int);
                }
                return None;
            }
            delay = delay * 2;
            n = n + 1;
        }
        Some(policy)
    }

    /// The delay before retry number `retries`.
    pub fn backoff_delay(&self, retries: u32) -> (delay: u64)
        requires
            self.wf(),
            1 <= retries < self.max_retries,
        ensures
            delay == backoff(self.initial_backoff as int, retries as int),
            delay <= Self::longest_backoff(self.max_retries, self.initial_backoff),
    {
        proof {
            lemma_backoff_monotone(
                self.initial_backoff as int,
                retries as int,
                self.max_retries - 1,
            );
        }
        if self.initial_backoff == 0 {
            proof {
                assert(0 * pow2((retries - 1) as nat) == 0) by (nonlinear_arith);
            }
            return 0;
        }
        let mut delay: u64 = self.initial_backoff;
        let mut n: u32 = 1;
        proof {
            lemma_backoff_first(self.initial_backoff as int);
        }
        while n < retries
            invariant
                self.wf(),
                1 <= n <= retries < self.max_retries,
                delay == backoff(self.initial_backoff as int, n as int),
            decreases retries - n,
        {
            proof {
                lemma_backoff_doubles(self.initial_backoff as int, n as int);
                lemma_backoff_monotone(
                    self.initial_backoff as int,
                    n + 1,
                    self.max_retries - 1,
                );
            }
            delay = delay * 2;
            n = n + 1;
        }
        delay
    }

    /// The longest delay that this policy can give.
    pub fn longest_delay(&self) -> (delay: u64)
        requires
            self.wf(),
        ensures
            delay == Self::longest_backoff(self.max_retries, self.initial_backoff),
    {
        if self.max_retries >= 2 {
            self.backoff_delay(self.max_retries - 1)
        } else {
            0
        }
    }

    /// The score of an entry with stored score `priority` and the given
    /// reference time, as seen at `now`.
    pub fn calculate_adjusted_priority(&self, priority: i128, now: u64, reference_time: u64) -> (score: i128)
        requires
            storable(priority),
        ensures
            score == adjusted_score(
                priority as int,
                self.time_weight as int,
                now as int,
                reference_time as int,
            ),
    {
        let age: i128 = now as i128 - reference_time as i128;
        let weight: i128 = self.time_weight as i128;
        assert(-0x1_0000_0000_0000_0000_0000_0000 <= weight * age
            <= 0x1_0000_0000_0000_0000_0000_0000) by (nonlinear_arith)
            requires
                0 <= weight <= 0xFFFF_FFFF,
                -0x1_0000_0000_0000_0000 <= age <= 0x1_0000_0000_0000_0000,
        ;
        priority - weight * age
    }

    /// The score written for an entry that is retried after `delay` ticks.
    pub fn calculate_retry_priority(&self, priority: i64, delay: u64) -> (score: i128)
        ensures
            score == retry_score(priority as int, self.time_weight as int, delay as int),
            storable(score),
    {
        let weight: i128 = self.time_weight as i128;
        let ticks: i128 = delay as i128;
        assert(0 <= weight * ticks <= 0x1_0000_0000_0000_0000_0000_0000) by (nonlinear_arith)
            requires
                0 <= weight <= 0xFFFF_FFFF,
                0 <= ticks <= 0xFFFF_FFFF_FFFF_FFFF,
        ;
        priority as i128 - weight * ticks
    }
}

} // verus!
