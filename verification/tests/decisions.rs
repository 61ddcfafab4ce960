use url_priority_queue::policy::{Policy, SCORE_LIMIT};
use url_priority_queue::retry::{plan_retry, RetryPlan};
use url_priority_queue::selection::{select_best, Metadata, QueueEntry, Selection};

fn entry(url: &str, base_priority: i128, reference_time: Option<u64>) -> QueueEntry {
    QueueEntry {
        url: url.to_string(),
        base_priority,
        metadata: reference_time.map(|t| Metadata { reference_time: t, retry_count: 0 }),
    }
}

#[test]
fn policy_keeps_its_settings() {
    let p = Policy::new(7, 3, 5).unwrap();
    assert_eq!(p, Policy { time_weight: 7, max_retries: 3, initial_backoff: 5 });
}

#[test]
fn policy_needs_a_retry_budget() {
    assert_eq!(Policy::new(1, 0, 0), None);
    assert!(Policy::new(1, 1, u64::MAX).is_some());
}

#[test]
fn policy_takes_every_delay_that_fits_64_bits() {
    // the longest delay is initial_backoff * 2^(max_retries - 2)
    assert!(Policy::new(1, 2, u64::MAX).is_some());
    assert!(Policy::new(1, 3, 0x7FFF_FFFF_FFFF_FFFF).is_some());
    assert_eq!(Policy::new(1, 3, 0x8000_0000_0000_0000), None);
    assert!(Policy::new(1, 65, 1).is_some());
    assert_eq!(Policy::new(1, 66, 1), None);
    assert!(Policy::new(1, u32::MAX, 0).is_some());
    assert_eq!(Policy::new(1, u32::MAX, 1), None);
    assert_eq!(
        Policy::new(100, 20, 5000),
        Some(Policy { time_weight: 100, max_retries: 20, initial_backoff: 5000 })
    );
    assert!(Policy::new(1, 2, 0x4000_0001).is_some());
}

#[test]
fn longest_delay_is_that_of_the_last_scheduled_retry() {
    assert_eq!(Policy::new(1, 1, 7).unwrap().longest_delay(), 0);
    assert_eq!(Policy::new(1, 2, 7).unwrap().longest_delay(), 7);
    assert_eq!(Policy::new(1, 5, 7).unwrap().longest_delay(), 56);
    assert_eq!(Policy::new(1, 2, u64::MAX).unwrap().longest_delay(), u64::MAX);
}

#[test]
fn backoff_doubles_with_each_retry() {
    let p = Policy::new(1, 6, 5).unwrap();
    assert_eq!(p.backoff_delay(1), 5);
    assert_eq!(p.backoff_delay(2), 10);
    assert_eq!(p.backoff_delay(3), 20);
    assert_eq!(p.backoff_delay(4), 40);
    assert_eq!(p.backoff_delay(5), 80);
}

#[test]
fn backoff_of_nothing_is_nothing() {
    let p = Policy::new(1, 100, 0).unwrap();
    assert_eq!(p.backoff_delay(1), 0);
    assert_eq!(p.backoff_delay(99), 0);
}

#[test]
fn backoff_reaches_the_limit() {
    let p = Policy::new(1, 65, 1).unwrap();
    assert_eq!(p.backoff_delay(31), 0x4000_0000);
    assert_eq!(p.backoff_delay(64), 0x8000_0000_0000_0000);
    let q = Policy::new(1, 2, u64::MAX).unwrap();
    assert_eq!(q.backoff_delay(1), u64::MAX);
}

#[test]
fn adjusted_priority_subtracts_weighted_age() {
    let p = Policy::new(3, 3, 5).unwrap();
    assert_eq!(p.calculate_adjusted_priority(10, 100, 90), -20);
    assert_eq!(p.calculate_adjusted_priority(10, 100, 100), 10);
}

#[test]
fn adjusted_priority_with_future_reference_time_is_raised() {
    let p = Policy::new(3, 3, 5).unwrap();
    assert_eq!(p.calculate_adjusted_priority(10, 100, 104), 22);
}

#[test]
fn adjusted_priority_at_the_extremes() {
    let p = Policy::new(u32::MAX, 1, 0).unwrap();
    let w = u32::MAX as i128;
    let t = u64::MAX as i128;
    assert_eq!(p.calculate_adjusted_priority(-SCORE_LIMIT, u64::MAX, 0), -SCORE_LIMIT - w * t);
    assert_eq!(p.calculate_adjusted_priority(SCORE_LIMIT, 0, u64::MAX), SCORE_LIMIT + w * t);
}

#[test]
fn retry_priority_subtracts_weighted_delay() {
    let p = Policy::new(4, 3, 5).unwrap();
    assert_eq!(p.calculate_retry_priority(10, 5), -10);
    assert_eq!(p.calculate_retry_priority(-7, 0), -7);
    let q = Policy::new(u32::MAX, 1, 0).unwrap();
    assert_eq!(
        q.calculate_retry_priority(i64::MIN, u64::MAX),
        i64::MIN as i128 - (u32::MAX as i128) * (u64::MAX as i128)
    );
    assert_eq!(q.calculate_retry_priority(i64::MAX, 0), i64::MAX as i128);
}

#[test]
fn scan_picks_the_smallest_adjusted_score() {
    let p = Policy::new(1, 3, 5).unwrap();
    let entries = vec![entry("a", 10, Some(95)), entry("b", 5, Some(100)), entry("c", 8, Some(90))];
    // at 100: 10 - 5 = 5, 5 - 0 = 5, 8 - 10 = -2
    assert_eq!(select_best(&entries, &p, 100), Some(Selection { index: 2, adjusted_score: -2 }));
}

#[test]
fn scan_keeps_the_first_of_equal_scores() {
    let p = Policy::new(1, 3, 5).unwrap();
    let entries = vec![entry("a", 10, Some(95)), entry("b", 5, Some(100))];
    assert_eq!(select_best(&entries, &p, 100), Some(Selection { index: 0, adjusted_score: 5 }));
}

#[test]
fn scan_skips_entries_without_metadata() {
    let p = Policy::new(1, 3, 5).unwrap();
    let entries = vec![entry("lost", -100, None), entry("b", 5, Some(100)), entry("gone", -50, None)];
    assert_eq!(select_best(&entries, &p, 100), Some(Selection { index: 1, adjusted_score: 5 }));
}

#[test]
fn scan_finds_nothing_without_any_metadata() {
    let p = Policy::new(1, 3, 5).unwrap();
    let entries = vec![entry("lost", 1, None), entry("gone", 2, None)];
    assert_eq!(select_best(&entries, &p, 100), None);
    assert_eq!(select_best(&Vec::new(), &p, 100), None);
}

#[test]
fn scan_accepts_the_largest_scores() {
    let p = Policy::new(u32::MAX, 3, 5).unwrap();
    let entries = vec![entry("a", SCORE_LIMIT, Some(u64::MAX)), entry("b", -SCORE_LIMIT, Some(0))];
    assert_eq!(
        select_best(&entries, &p, u64::MAX),
        Some(Selection {
            index: 1,
            adjusted_score: -SCORE_LIMIT - (u32::MAX as i128) * (u64::MAX as i128),
        })
    );
}

#[test]
fn first_retry_of_an_unknown_url_counts_as_one() {
    let p = Policy::new(2, 3, 5).unwrap();
    assert_eq!(
        plan_retry(&p, None, 10, 1000),
        RetryPlan::Reschedule {
            score: 0,
            metadata: Metadata { reference_time: 1005, retry_count: 1 },
        }
    );
}

#[test]
fn second_retry_waits_twice_as_long() {
    let p = Policy::new(2, 3, 5).unwrap();
    let existing = Some(Metadata { reference_time: 1005, retry_count: 1 });
    assert_eq!(
        plan_retry(&p, existing, 10, 2000),
        RetryPlan::Reschedule {
            score: -10,
            metadata: Metadata { reference_time: 2010, retry_count: 2 },
        }
    );
}

#[test]
fn retry_at_the_budget_is_given_up() {
    let p = Policy::new(2, 3, 5).unwrap();
    let existing = Some(Metadata { reference_time: 2010, retry_count: 2 });
    assert_eq!(plan_retry(&p, existing, 10, 3000), RetryPlan::DeadLetter);
    let far = Some(Metadata { reference_time: 0, retry_count: u32::MAX });
    assert_eq!(plan_retry(&p, far, 10, 3000), RetryPlan::DeadLetter);
    let one = Policy::new(2, 1, 5).unwrap();
    assert_eq!(plan_retry(&one, None, 10, 3000), RetryPlan::DeadLetter);
}

#[test]
fn retry_at_the_latest_instant() {
    let p = Policy::new(1, 3, 4).unwrap();
    let existing = Some(Metadata { reference_time: 0, retry_count: 1 });
    assert_eq!(
        plan_retry(&p, existing, 0, u64::MAX - 8),
        RetryPlan::Reschedule {
            score: -8,
            metadata: Metadata { reference_time: u64::MAX, retry_count: 2 },
        }
    );
}

#[test]
fn retry_with_a_delay_beyond_32_bits() {
    let p = Policy::new(1000, 3, 0x1_0000_0000_0000).unwrap();
    let existing = Some(Metadata { reference_time: 0, retry_count: 1 });
    assert_eq!(
        plan_retry(&p, existing, i64::MIN, 5),
        RetryPlan::Reschedule {
            score: i64::MIN as i128 - 1000 * 0x2_0000_0000_0000,
            metadata: Metadata { reference_time: 5 + 0x2_0000_0000_0000, retry_count: 2 },
        }
    );
}
