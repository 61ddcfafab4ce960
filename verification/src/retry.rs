//! What to do with a URL whose fetch has failed.

use vstd::prelude::*;
use crate::policy::{adjusted_score, backoff, lemma_backoff_monotone, retry_score, storable, Policy};
use crate::selection::Metadata;

verus! {

/// The decision taken for a failed URL.
#[derive(Clone, Copy, Debug, PartialEq, Eq, Structural)]
pub enum RetryPlan {
    /// The retry budget is used up: the URL leaves the queue for the
    /// dead-letter list.
    DeadLetter,
    /// The URL is queued again with this score and metadata.
    Reschedule { score: i128, metadata: Metadata },
}

/// The number of the retry that is now asked for: one more than the count in
/// the URL's metadata, or 1 where it has none.
pub open spec fn next_retry_count(existing: Option<Metadata>) -> int {
    match existing {
        Some(m) => m.retry_count + 1,
        None => 1,
    }
}

/// The decision for a URL with metadata `existing` that failed at `now` and
/// is asked to be retried with base priority `priority`.
///
/// A retry that is still within budget waits for the backoff delay of its
/// number. The score written is the priority lowered by the weight times that
/// delay, and the reference time is `now` plus the delay.
pub open spec fn retry_plan(policy: Policy, existing: Option<Metadata>, priority: i64, now: u64) -> RetryPlan {
    let retries = next_retry_count(existing);
    if retries >= policy.max_retries {
        RetryPlan::DeadLetter
    } else {
        let delay = backoff(policy.initial_backoff as int, retries);
        RetryPlan::Reschedule {
            score: retry_score(priority as int, policy.time_weight as int, delay) as i128,
            metadata: Metadata {
                reference_time: (now + delay) as u64,
                retry_count: retries as u32,
            },
        }
    }
}

/// Decides between another retry and the dead-letter list.
pub fn plan_retry(policy: &Policy, existing: Option<Metadata>, priority: i64, now: u64) -> (plan: RetryPlan)
    requires
        policy.wf(),
        policy.schedules_at(now),
    ensures
        plan == retry_plan(*policy, existing, priority, now),
        plan is DeadLetter <==> next_retry_count(existing) >= policy.max_retries,
        match plan {
            RetryPlan::DeadLetter => true,
            RetryPlan::Reschedule { score, metadata } => {
                let retries = next_retry_count(existing);
                let delay = backoff(policy.initial_backoff as int, retries);
                &&& score == retry_score(priority as int, policy.time_weight as int, delay)
                &&& metadata.reference_time == now + delay
                &&& metadata.retry_count == retries
                &&& storable(score)
            },
        },
{
    let count: u32 = match existing {
        Some(m) => m.retry_count,
        None => 0,
    };
    if count >= policy.max_retries - 1 {
        return RetryPlan::DeadLetter;
    }
    let retries: u32 = if existing.is_some() { count + 1 } else { 1 };
    let delay: u64 = policy.backoff_delay(retries);
    let score: i128 = policy.calculate_retry_priority(priority, delay);
    RetryPlan::Reschedule {
        score,
        metadata: Metadata { reference_time: now + delay, retry_count: retries },
    }
}

/// Right after a retry is scheduled, the penalty in its score and its future
/// reference time cancel: at the instant of the call the entry ranks at the
/// priority it was retried with.
pub proof fn lemma_retry_cancels_penalty(policy: Policy, existing: Option<Metadata>, priority: i64, now: u64)
    requires
        policy.wf(),
        policy.schedules_at(now),
        next_retry_count(existing) < policy.max_retries,
    ensures
        retry_plan(policy, existing, priority, now) is Reschedule,
        adjusted_score(
            retry_plan(policy, existing, priority, now)->score as int,
            policy.time_weight as int,
            now as int,
            retry_plan(policy, existing, priority, now)->metadata.reference_time as int,
        ) == priority,
{
    let retries = next_retry_count(existing);
    let delay = backoff(policy.initial_backoff as int, retries);
    lemma_plan_in_range(policy, existing, priority);
    let w = policy.time_weight as int;
    assert(priority - w * delay - w * (now - (now + delay)) == priority) by (nonlinear_arith);
}

/// The score of a scheduled retry can be stored, and its delay fits 64 bits.
pub proof fn lemma_plan_in_range(policy: Policy, existing: Option<Metadata>, priority: i64)
    requires
        policy.wf(),
        next_retry_count(existing) < policy.max_retries,
    ensures
        ({
            let delay = backoff(policy.initial_backoff as int, next_retry_count(existing));
            let score = retry_score(priority as int, policy.time_weight as int, delay);
            &&& 0 <= delay <= Policy::longest_backoff(policy.max_retries, policy.initial_backoff)
            &&& delay <= u64::MAX
            &&& -crate::policy::SCORE_LIMIT <= score <= crate::policy::SCORE_LIMIT
        }),
{
    let retries = next_retry_count(existing);
    let delay = backoff(policy.initial_backoff as int, retries);
    lemma_backoff_monotone(policy.initial_backoff as int, retries, policy.max_retries - 1);
    let w = policy.time_weight as int;
    assert(0 <= w * delay <= 0x1_0000_0000_0000_0000_0000_0000) by (nonlinear_arith)
        requires
            0 <= w <= 0xFFFF_FFFF,
            0 <= delay <= 0xFFFF_FFFF_FFFF_FFFF,
    ;
}

} // verus!
