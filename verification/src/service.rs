//! The scheduler itself: the queue, its metadata and the dead-letter list.

use vstd::prelude::*;
use crate::policy::{backoff, storable, Policy};
use crate::retry::{lemma_plan_in_range, next_retry_count, plan_retry, retry_plan, RetryPlan};
use crate::selection::{
    all_storable, candidate_score, entry_views, is_best, lemma_best_is_unique, select_best, Metadata,
    QueueEntry, QueueEntryView,
};

verus! {

/// The state of a scheduler as contracts speak of it.
pub struct ServiceView {
    pub policy: Policy,
    /// The queued URLs, in the order in which they first entered the queue.
    pub entries: Seq<QueueEntryView>,
    /// The URLs that were given up, oldest first.
    pub dead_letter: Seq<Seq<char>>,
}

/// Whether `url` is queued.
pub open spec fn holds(entries: Seq<QueueEntryView>, url: Seq<char>) -> bool {
    exists|i: int| 0 <= i < entries.len() && (#[trigger] entries[i]).url == url
}

/// A place at which `url` is queued, where it is queued at all.
pub open spec fn position(entries: Seq<QueueEntryView>, url: Seq<char>) -> int {
    choose|i: int| 0 <= i < entries.len() && (#[trigger] entries[i]).url == url
}

/// No URL is queued twice.
pub open spec fn distinct_urls(entries: Seq<QueueEntryView>) -> bool {
    forall|i: int, j: int|
        0 <= i < j < entries.len() ==> (#[trigger] entries[i]).url != (#[trigger] entries[j]).url
}

/// Every queued URL has its metadata.
pub open spec fn all_have_metadata(entries: Seq<QueueEntryView>) -> bool {
    forall|i: int| 0 <= i < entries.len() ==> (#[trigger] entries[i]).metadata is Some
}

/// The metadata stored for `url`, or `None` where it is not queued.
pub open spec fn metadata_of(entries: Seq<QueueEntryView>, url: Seq<char>) -> Option<Metadata> {
    if holds(entries, url) {
        entries[position(entries, url)].metadata
    } else {
        None
    }
}

/// The queue after `entry` was written: in the place of the entry with the
/// same URL where there is one, else at the end.
pub open spec fn upsert(entries: Seq<QueueEntryView>, entry: QueueEntryView) -> Seq<QueueEntryView> {
    if holds(entries, entry.url) {
        entries.update(position(entries, entry.url), entry)
    } else {
        entries.push(entry)
    }
}

/// The queue without `url`.
pub open spec fn without(entries: Seq<QueueEntryView>, url: Seq<char>) -> Seq<QueueEntryView> {
    if holds(entries, url) {
        entries.remove(position(entries, url))
    } else {
        entries
    }
}

/// The invariant of a scheduler's state: the policy is one, every queued URL
/// has exactly one entry, and every entry carries its metadata and a score
/// that can be stored.
pub open spec fn well_formed(v: ServiceView) -> bool {
    &&& v.policy.wf()
    &&& distinct_urls(v.entries)
    &&& all_have_metadata(v.entries)
    &&& all_storable(v.entries)
}

/// The state after `url` was enqueued at `now` with `priority`.
pub open spec fn enqueued(v: ServiceView, url: Seq<char>, priority: i64, now: u64) -> ServiceView {
    ServiceView {
        entries: upsert(
            v.entries,
            QueueEntryView {
                url,
                base_priority: priority as i128,
                metadata: Some(Metadata { reference_time: now, retry_count: 0 }),
            },
        ),
        ..v
    }
}

/// The state after a retry of `url` was asked for at `now` with `priority`.
pub open spec fn retried(v: ServiceView, url: Seq<char>, priority: i64, now: u64) -> ServiceView {
    match retry_plan(v.policy, metadata_of(v.entries, url), priority, now) {
        RetryPlan::DeadLetter => ServiceView {
            entries: without(v.entries, url),
            dead_letter: v.dead_letter.push(url),
            ..v
        },
        RetryPlan::Reschedule { score, metadata } => ServiceView {
            entries: upsert(
                v.entries,
                QueueEntryView { url, base_priority: score, metadata: Some(metadata) },
            ),
            ..v
        },
    }
}

/// The state after the entry at `index` was dequeued.
pub open spec fn dequeued(v: ServiceView, index: int) -> ServiceView {
    ServiceView { entries: v.entries.remove(index), ..v }
}

/// Whether some entry wins the scan at `now`.
pub open spec fn has_best(entries: Seq<QueueEntryView>, time_weight: u32, now: u64) -> bool {
    exists|i: int| is_best(entries, time_weight, now, i)
}

/// The place of the entry that wins the scan at `now`, where one does.
pub open spec fn best_index(entries: Seq<QueueEntryView>, time_weight: u32, now: u64) -> int {
    choose|i: int| is_best(entries, time_weight, now, i)
}

/// The state after the most urgent entry at `now` was dequeued: the state
/// without the winner of the scan, or the same state where nothing wins.
pub open spec fn fetched(v: ServiceView, now: u64) -> ServiceView {
    if has_best(v.entries, v.policy.time_weight, now) {
        dequeued(v, best_index(v.entries, v.policy.time_weight, now))
    } else {
        v
    }
}

/// One request to the scheduler.
pub enum Operation {
    Enqueue { url: Seq<char>, priority: i64, now: u64 },
    DequeueBest { now: u64 },
    Retry { url: Seq<char>, priority: i64, now: u64 },
}

/// The state after one request.
pub open spec fn applied(v: ServiceView, op: Operation) -> ServiceView {
    match op {
        Operation::Enqueue { url, priority, now } => enqueued(v, url, priority, now),
        Operation::DequeueBest { now } => fetched(v, now),
        Operation::Retry { url, priority, now } => retried(v, url, priority, now),
    }
}

/// The state after a run of requests, the first of them first.
pub open spec fn run(v: ServiceView, ops: Seq<Operation>) -> ServiceView
    decreases ops.len(),
{
    if ops.len() == 0 {
        v
    } else {
        applied(run(v, ops.drop_last()), ops.last())
    }
}

/// The views of a list of URLs, in the same order.
pub open spec fn url_views(urls: Seq<String>) -> Seq<Seq<char>> {
    urls.map_values(|u: String| u@)
}

/// In a queue without duplicates, the place of a URL is the one place that
/// holds it.
pub proof fn lemma_position_is_unique(entries: Seq<QueueEntryView>, i: int)
    requires
        distinct_urls(entries),
        0 <= i < entries.len(),
    ensures
        holds(entries, entries[i].url),
        position(entries, entries[i].url) == i,
{
    let p = position(entries, entries[i].url);
    if p < i {
        assert(entries[p].url != entries[i].url);
    } else if i < p {
        assert(entries[i].url != entries[p].url);
    }
}

/// Writing an entry keeps the invariant and leaves the URL queued with that
/// entry's metadata.
pub proof fn lemma_upsert_keeps_invariant(entries: Seq<QueueEntryView>, entry: QueueEntryView)
    requires
        distinct_urls(entries),
        all_have_metadata(entries),
        all_storable(entries),
        entry.metadata is Some,
        storable(entry.base_priority),
    ensures
        distinct_urls(upsert(entries, entry)),
        all_have_metadata(upsert(entries, entry)),
        all_storable(upsert(entries, entry)),
        holds(upsert(entries, entry), entry.url),
        metadata_of(upsert(entries, entry), entry.url) == entry.metadata,
{
    let after = upsert(entries, entry);
    let at = if holds(entries, entry.url) {
        position(entries, entry.url)
    } else {
        entries.len() as int
    };
    assert(after[at] == entry);
    assert forall|i: int, j: int| 0 <= i < j < after.len() implies (#[trigger] after[i]).url != (
    #[trigger] after[j]).url by {
        if i != at && j != at {
            assert(after[i] == entries[i] && after[j] == entries[j]);
        } else if holds(entries, entry.url) {
            let other = if i == at { j } else { i };
            assert(after[other] == entries[other]);
            if at < other {
                assert(entries[at].url != entries[other].url);
            } else {
                assert(entries[other].url != entries[at].url);
            }
        } else {
            assert(after[i] == entries[i]);
        }
    }
    assert forall|i: int| 0 <= i < after.len() implies (#[trigger] after[i]).metadata is Some by {
        if i != at {
            assert(after[i] == entries[i]);
        }
    }
    assert forall|i: int| 0 <= i < after.len() implies storable((#[trigger] after[i]).base_priority) by {
        if i != at {
            assert(after[i] == entries[i]);
        }
    }
    lemma_position_is_unique(after, at);
}

/// Removing a URL keeps the invariant and leaves the URL out of the queue.
pub proof fn lemma_without_keeps_invariant(entries: Seq<QueueEntryView>, url: Seq<char>)
    requires
        distinct_urls(entries),
        all_have_metadata(entries),
        all_storable(entries),
    ensures
        distinct_urls(without(entries, url)),
        all_have_metadata(without(entries, url)),
        all_storable(without(entries, url)),
        !holds(without(entries, url), url),
{
    if holds(entries, url) {
        let at = position(entries, url);
        lemma_remove_keeps_invariant(entries, at);
    }
}

/// Removing the entry at one place keeps the invariant, and its URL is then
/// no longer queued.
pub proof fn lemma_remove_keeps_invariant(entries: Seq<QueueEntryView>, at: int)
    requires
        distinct_urls(entries),
        all_have_metadata(entries),
        all_storable(entries),
        0 <= at < entries.len(),
    ensures
        distinct_urls(entries.remove(at)),
        all_have_metadata(entries.remove(at)),
        all_storable(entries.remove(at)),
        !holds(entries.remove(at), entries[at].url),
{
    let after = entries.remove(at);
    let shift = |k: int| if k < at { k } else { k + 1 };
    assert forall|k: int| 0 <= k < after.len() implies #[trigger] after[k] == entries[shift(k)] by {}
    assert forall|i: int, j: int| 0 <= i < j < after.len() implies (#[trigger] after[i]).url != (
    #[trigger] after[j]).url by {
        assert(after[i] == entries[shift(i)]);
        assert(after[j] == entries[shift(j)]);
        assert(entries[shift(i)].url != entries[shift(j)].url);
    }
    assert forall|i: int| 0 <= i < after.len() implies (#[trigger] after[i]).metadata is Some by {
        assert(after[i] == entries[shift(i)]);
    }
    assert forall|i: int| 0 <= i < after.len() implies storable((#[trigger] after[i]).base_priority) by {
        assert(after[i] == entries[shift(i)]);
    }
    assert forall|k: int| 0 <= k < after.len() implies (#[trigger] after[k]).url != entries[at].url by {
        assert(after[k] == entries[shift(k)]);
        if shift(k) < at {
            assert(entries[shift(k)].url != entries[at].url);
        } else {
            assert(entries[at].url != entries[shift(k)].url);
        }
    }
}

/// Writing an entry leaves every other URL as it was: queued or not, and
/// with the same metadata.
pub proof fn lemma_upsert_keeps_others(entries: Seq<QueueEntryView>, entry: QueueEntryView, other: Seq<char>)
    requires
        distinct_urls(entries),
        all_have_metadata(entries),
        all_storable(entries),
        entry.metadata is Some,
        storable(entry.base_priority),
        other != entry.url,
    ensures
        holds(upsert(entries, entry), other) == holds(entries, other),
        metadata_of(upsert(entries, entry), other) == metadata_of(entries, other),
{
    let after = upsert(entries, entry);
    lemma_upsert_keeps_invariant(entries, entry);
    let at = if holds(entries, entry.url) {
        position(entries, entry.url)
    } else {
        entries.len() as int
    };
    assert(after[at] == entry);
    if holds(entries, other) {
        let p = position(entries, other);
        assert(after[p] == entries[p]);
        lemma_position_is_unique(after, p);
    }
    if holds(after, other) {
        let q = position(after, other);
        assert(after[q] == entries[q]);
        lemma_position_is_unique(entries, q);
    }
}

/// Removing a URL leaves every other URL as it was: queued or not, and with
/// the same metadata.
pub proof fn lemma_without_keeps_others(entries: Seq<QueueEntryView>, url: Seq<char>, other: Seq<char>)
    requires
        distinct_urls(entries),
        all_have_metadata(entries),
        all_storable(entries),
        other != url,
    ensures
        holds(without(entries, url), other) == holds(entries, other),
        metadata_of(without(entries, url), other) == metadata_of(entries, other),
{
    if holds(entries, url) {
        let at = position(entries, url);
        let after = entries.remove(at);
        lemma_remove_keeps_invariant(entries, at);
        if holds(entries, other) {
            let p = position(entries, other);
            let moved = if p < at { p } else { p - 1 };
            assert(after[moved] == entries[p]);
            lemma_position_is_unique(after, moved);
        }
        if holds(after, other) {
            let q = position(after, other);
            let from = if q < at { q } else { q + 1 };
            assert(after[q] == entries[from]);
            lemma_position_is_unique(entries, from);
        }
    }
}

/// A retry touches one URL only. Afterwards that URL is queued with its
/// metadata or neither queued nor recorded, and every other URL is queued,
/// and recorded, exactly as before.
pub proof fn lemma_retry_touches_one_url(v: ServiceView, url: Seq<char>, other: Seq<char>, priority: i64, now: u64)
    requires
        well_formed(v),
        other != url,
    ensures
        holds(retried(v, url, priority, now).entries, url) <==> metadata_of(
            retried(v, url, priority, now).entries,
            url,
        ) is Some,
        holds(retried(v, url, priority, now).entries, other) == holds(v.entries, other),
        metadata_of(retried(v, url, priority, now).entries, other) == metadata_of(v.entries, other),
{
    lemma_operations_keep_invariant(v, url, priority, now, 0);
    lemma_queue_and_metadata_agree(retried(v, url, priority, now), url);
    match retry_plan(v.policy, metadata_of(v.entries, url), priority, now) {
        RetryPlan::DeadLetter => {
            lemma_without_keeps_others(v.entries, url, other);
        },
        RetryPlan::Reschedule { score, metadata } => {
            lemma_plan_in_range(v.policy, metadata_of(v.entries, url), priority);
            lemma_upsert_keeps_others(
                v.entries,
                QueueEntryView { url, base_priority: score, metadata: Some(metadata) },
                other,
            );
        },
    }
}

/// Every operation of the scheduler keeps the invariant: after any of them
/// each queued URL still has exactly one entry, with its metadata.
pub proof fn lemma_operations_keep_invariant(v: ServiceView, url: Seq<char>, priority: i64, now: u64, index: int)
    requires
        well_formed(v),
    ensures
        well_formed(enqueued(v, url, priority, now)),
        well_formed(retried(v, url, priority, now)),
        0 <= index < v.entries.len() ==> well_formed(dequeued(v, index)),
{
    let fresh = QueueEntryView {
        url,
        base_priority: priority as i128,
        metadata: Some(Metadata { reference_time: now, retry_count: 0 }),
    };
    lemma_upsert_keeps_invariant(v.entries, fresh);
    match retry_plan(v.policy, metadata_of(v.entries, url), priority, now) {
        RetryPlan::DeadLetter => {
            lemma_without_keeps_invariant(v.entries, url);
        },
        RetryPlan::Reschedule { score, metadata } => {
            lemma_plan_in_range(v.policy, metadata_of(v.entries, url), priority);
            lemma_upsert_keeps_invariant(
                v.entries,
                QueueEntryView { url, base_priority: score, metadata: Some(metadata) },
            );
        },
    }
    if 0 <= index < v.entries.len() {
        lemma_remove_keeps_invariant(v.entries, index);
    }
}

/// Where every entry has its metadata, a queue that is not empty has a
/// winner, and an empty one has none.
pub proof fn lemma_best_exists(entries: Seq<QueueEntryView>, time_weight: u32, now: u64)
    requires
        all_have_metadata(entries),
    ensures
        has_best(entries, time_weight, now) <==> entries.len() > 0,
    decreases entries.len(),
{
    if entries.len() == 1 {
        assert(is_best(entries, time_weight, now, 0));
    } else if entries.len() > 1 {
        let front = entries.drop_last();
        let last = entries.len() - 1;
        assert forall|i: int| 0 <= i < front.len() implies #[trigger] front[i] == entries[i] by {}
        assert(all_have_metadata(front)) by {
            assert forall|i: int| 0 <= i < front.len() implies (#[trigger] front[i]).metadata is Some by {
                assert(front[i] == entries[i]);
            }
        }
        lemma_best_exists(front, time_weight, now);
        let b = best_index(front, time_weight, now);
        assert(is_best(front, time_weight, now, b));
        assert(front[b] == entries[b]);
        if candidate_score(entries, time_weight, now, last) < candidate_score(
            entries,
            time_weight,
            now,
            b,
        ) {
            assert forall|j: int| 0 <= j < last && (#[trigger] entries[j]).metadata is Some implies candidate_score(
                entries,
                time_weight,
                now,
                last,
            ) < candidate_score(entries, time_weight, now, j) by {
                assert(front[j] == entries[j]);
                assert(candidate_score(front, time_weight, now, b) <= candidate_score(
                    front,
                    time_weight,
                    now,
                    j,
                ));
            }
            assert(is_best(entries, time_weight, now, last));
        } else {
            assert forall|j: int|
                0 <= j < entries.len() && (#[trigger] entries[j]).metadata is Some implies candidate_score(
                entries,
                time_weight,
                now,
                b,
            ) <= candidate_score(entries, time_weight, now, j) by {
                if j < last {
                    assert(front[j] == entries[j]);
                    assert(candidate_score(front, time_weight, now, b) <= candidate_score(
                        front,
                        time_weight,
                        now,
                        j,
                    ));
                }
            }
            assert forall|j: int| 0 <= j < b && (#[trigger] entries[j]).metadata is Some implies candidate_score(
                entries,
                time_weight,
                now,
                b,
            ) < candidate_score(entries, time_weight, now, j) by {
                assert(front[j] == entries[j]);
                assert(candidate_score(front, time_weight, now, b) < candidate_score(
                    front,
                    time_weight,
                    now,
                    j,
                ));
            }
            assert(is_best(entries, time_weight, now, b));
        }
    }
}

/// Dequeuing from an empty queue changes nothing, at any instant.
pub proof fn lemma_empty_queue_stays(v: ServiceView, now: u64)
    requires
        v.entries.len() == 0,
    ensures
        fetched(v, now) == v,
{
}

/// Whatever requests are made, in whatever order, every queued URL has
/// exactly one entry afterwards, and every entry has its metadata.
pub proof fn lemma_invariant_survives_every_run(v: ServiceView, ops: Seq<Operation>)
    requires
        well_formed(v),
    ensures
        well_formed(run(v, ops)),
    decreases ops.len(),
{
    if ops.len() > 0 {
        lemma_invariant_survives_every_run(v, ops.drop_last());
        let before = run(v, ops.drop_last());
        match ops.last() {
            Operation::Enqueue { url, priority, now } => {
                lemma_operations_keep_invariant(before, url, priority, now, 0);
            },
            Operation::DequeueBest { now } => {
                if has_best(before.entries, before.policy.time_weight, now) {
                    let i = best_index(before.entries, before.policy.time_weight, now);
                    lemma_remove_keeps_invariant(before.entries, i);
                }
            },
            Operation::Retry { url, priority, now } => {
                lemma_operations_keep_invariant(before, url, priority, now, 0);
            },
        }
    }
}

/// In a state that meets the invariant, a URL is queued exactly where it has
/// a metadata record, and it is queued at one place only.
pub proof fn lemma_queue_and_metadata_agree(v: ServiceView, url: Seq<char>)
    requires
        well_formed(v),
    ensures
        holds(v.entries, url) <==> metadata_of(v.entries, url) is Some,
        forall|i: int, j: int|
            0 <= i < v.entries.len() && 0 <= j < v.entries.len() && (#[trigger] v.entries[i]).url
                == url && (#[trigger] v.entries[j]).url == url ==> i == j,
{
    assert forall|i: int, j: int|
        0 <= i < v.entries.len() && 0 <= j < v.entries.len() && (#[trigger] v.entries[i]).url
            == url && (#[trigger] v.entries[j]).url == url implies i == j by {
        lemma_position_is_unique(v.entries, i);
        lemma_position_is_unique(v.entries, j);
    }
}

/// Enqueuing the same URL twice with the same priority at the same instant
/// leaves the state that enqueuing it once leaves.
pub proof fn lemma_enqueue_is_idempotent(v: ServiceView, url: Seq<char>, priority: i64, now: u64)
    requires
        well_formed(v),
    ensures
        enqueued(enqueued(v, url, priority, now), url, priority, now) == enqueued(
            v,
            url,
            priority,
            now,
        ),
{
    let entry = QueueEntryView {
        url,
        base_priority: priority as i128,
        metadata: Some(Metadata { reference_time: now, retry_count: 0 }),
    };
    let once = upsert(v.entries, entry);
    lemma_upsert_keeps_invariant(v.entries, entry);
    let at = if holds(v.entries, url) {
        position(v.entries, url)
    } else {
        v.entries.len() as int
    };
    assert(once[at] == entry);
    lemma_position_is_unique(once, at);
    assert(once.update(at, entry) =~= once);
}

/// A retry that uses up the budget takes the URL out of the queue and puts
/// it at the end of the dead-letter list.
pub proof fn lemma_exhausted_retry_dead_letters(v: ServiceView, url: Seq<char>, priority: i64, now: u64)
    requires
        well_formed(v),
        next_retry_count(metadata_of(v.entries, url)) >= v.policy.max_retries,
    ensures
        !holds(retried(v, url, priority, now).entries, url),
        retried(v, url, priority, now).dead_letter == v.dead_letter.push(url),
{
    lemma_without_keeps_invariant(v.entries, url);
}

/// A retry within the budget leaves the URL queued, with a retry count one
/// higher than before and a reference time that lies the backoff delay
/// ahead; the dead-letter list stays as it was.
pub proof fn lemma_retry_within_budget(v: ServiceView, url: Seq<char>, priority: i64, now: u64)
    requires
        well_formed(v),
        v.policy.schedules_at(now),
        next_retry_count(metadata_of(v.entries, url)) < v.policy.max_retries,
    ensures
        holds(retried(v, url, priority, now).entries, url),
        retried(v, url, priority, now).dead_letter == v.dead_letter,
        metadata_of(retried(v, url, priority, now).entries, url) is Some,
        ({
            let retries = next_retry_count(metadata_of(v.entries, url));
            let m = metadata_of(retried(v, url, priority, now).entries, url)->0;
            &&& m.retry_count == retries
            &&& m.reference_time == now + backoff(v.policy.initial_backoff as int, retries)
        }),
{
    let existing = metadata_of(v.entries, url);
    lemma_plan_in_range(v.policy, existing, priority);
    let plan = retry_plan(v.policy, existing, priority, now);
    lemma_upsert_keeps_invariant(
        v.entries,
        QueueEntryView { url, base_priority: plan->score, metadata: Some(plan->metadata) },
    );
}

/// What is dequeued was queued: a URL that is not in the queue never wins.
pub proof fn lemma_best_is_queued(entries: Seq<QueueEntryView>, time_weight: u32, now: u64, i: int)
    requires
        is_best(entries, time_weight, now, i),
    ensures
        holds(entries, entries[i].url),
{
}

/// A scheduler that keeps its queue in memory. Instants are handed in by the
/// caller, so that every operation is a function of the state and its
/// arguments.
pub struct PriorityQueueService {
    policy: Policy,
    entries: Vec<QueueEntry>,
    dead_letter: Vec<String>,
}

impl View for PriorityQueueService {
    type V = ServiceView;

    closed spec fn view(&self) -> ServiceView {
        ServiceView {
            policy: self.policy,
            entries: entry_views(self.entries@),
            dead_letter: url_views(self.dead_letter@),
        }
    }
}

impl PriorityQueueService {
    /// The invariant that every operation keeps.
    pub open spec fn wf(&self) -> bool {
        well_formed(self@)
    }

    /// An empty scheduler with the given settings, or `None` where they do
    /// not make a policy.
    pub fn new(time_weight: u32, max_retries: u32, initial_backoff: u64) -> (r: Option<Self>)
        ensures
            r is Some <==> Policy::valid(time_weight, max_retries, initial_backoff),
            r is Some ==> r->0.wf() && r->0@ == (ServiceView {
                policy: Policy { time_weight, max_retries, initial_backoff },
                entries: Seq::empty(),
                dead_letter: Seq::empty(),
            }),
    {
        match Policy::new(time_weight, max_retries, initial_backoff) {
            Some(policy) => {
                let service = PriorityQueueService {
                    policy,
                    entries: Vec::new(),
                    dead_letter: Vec::new(),
                };
                proof {
                    assert(service@.entries =~= Seq::empty());
                    assert(service@.dead_letter =~= Seq::empty());
                }
                Some(service)
            },
            None => None,
        }
    }

    fn find(&self, url: &String) -> (r: Option<usize>)
        requires
            self.wf(),
        ensures
            match r {
                Some(i) => i < self.entries.len() && holds(self@.entries, url@) && position(
                    self@.entries,
                    url@,
                ) == i,
                None => !holds(self@.entries, url@),
            },
    {
        let ghost views = entry_views(self.entries@);
        let mut k: usize = 0;
        while k < self.entries.len()
            invariant
                self.wf(),
                0 <= k <= self.entries.len(),
                views == entry_views(self.entries@),
                forall|j: int| 0 <= j < k ==> (#[trigger] views[j]).url != url@,
            decreases self.entries.len() - k,
        {
            if self.entries[k].url == *url {
                proof {
                    assert(views[k as int] == self.entries[k as int]@);
                    lemma_position_is_unique(views, k as int);
                }
                return Some(k);
            }
            proof {
                assert(views[k as int] == self.entries[k as int]@);
            }
            k = k + 1;
        }
        None
    }

    /// Whether `url` is queued.
    pub fn is_queued(&self, url: &str) -> (r: bool)
        requires
            self.wf(),
        ensures
            r == holds(self@.entries, url@),
    {
        let key = url.to_owned();
        self.find(&key).is_some()
    }

    /// The metadata stored for `url`, or `None` where it is not queued.
    pub fn metadata_for(&self, url: &str) -> (r: Option<Metadata>)
        requires
            self.wf(),
        ensures
            r == metadata_of(self@.entries, url@),
    {
        let key = url.to_owned();
        match self.find(&key) {
            Some(i) => {
                proof {
                    assert(self@.entries[i as int] == self.entries[i as int]@);
                }
                self.entries[i].metadata
            },
            None => None,
        }
    }

    /// The number of queued URLs.
    pub fn queue_len(&self) -> (n: usize)
        ensures
            n == self@.entries.len(),
    {
        self.entries.len()
    }

    /// The number of URLs on the dead-letter list.
    pub fn dead_letter_len(&self) -> (n: usize)
        ensures
            n == self@.dead_letter.len(),
    {
        self.dead_letter.len()
    }

    fn write(&mut self, entry: QueueEntry)
        requires
            old(self).wf(),
            entry.metadata is Some,
            storable(entry.base_priority),
        ensures
            final(self).wf(),
            final(self)@ == (ServiceView { entries: upsert(old(self)@.entries, entry@), ..old(self)@ }),
    {
        let ghost before = self@.entries;
        let ghost e = entry@;
        proof {
            lemma_upsert_keeps_invariant(before, e);
        }
        match self.find(&entry.url) {
            Some(i) => {
                self.entries.set(i, entry);
                proof {
                    assert(self@.entries =~= before.update(i as int, e));
                }
            },
            None => {
                self.entries.push(entry);
                proof {
                    assert(self@.entries =~= before.push(e));
                }
            },
        }
    }

    fn erase(&mut self, url: &String)
        requires
            old(self).wf(),
        ensures
            final(self).wf(),
            final(self)@ == (ServiceView { entries: without(old(self)@.entries, url@), ..old(self)@ }),
    {
        let ghost before = self@.entries;
        proof {
            lemma_without_keeps_invariant(before, url@);
        }
        match self.find(url) {
            Some(i) => {
                let _ = self.entries.remove(i);
                proof {
                    assert(self@.entries =~= before.remove(i as int));
                }
            },
            None => {},
        }
    }

    /// Enqueues `url` with base priority `priority` at `now`. An entry that
    /// the URL already has is overwritten; its retry count starts again at 0.
    pub fn add_url(&mut self, url: &str, priority: i64, now: u64)
        requires
            old(self).wf(),
        ensures
            final(self).wf(),
            final(self)@ == enqueued(old(self)@, url@, priority, now),
    {
        let entry = QueueEntry {
            url: url.to_owned(),
            base_priority: priority as i128,
            metadata: Some(Metadata { reference_time: now, retry_count: 0 }),
        };
        self.write(entry);
    }

    /// Dequeues the most urgent URL at `now` and returns it with its adjusted
    /// score. Among entries with the same score the one that entered the
    /// queue first wins. Returns `None`, and changes nothing, exactly where
    /// the queue is empty.
    pub fn fetch_next_url(&mut self, now: u64) -> (r: Option<(String, i128)>)
        requires
            old(self).wf(),
        ensures
            final(self).wf(),
            final(self)@ == fetched(old(self)@, now),
            r is None <==> old(self)@.entries.len() == 0,
            match r {
                Some((url, score)) => {
                    let i = best_index(old(self)@.entries, old(self)@.policy.time_weight, now);
                    &&& is_best(old(self)@.entries, old(self)@.policy.time_weight, now, i)
                    &&& url@ == old(self)@.entries[i].url
                    &&& score == candidate_score(
                        old(self)@.entries,
                        old(self)@.policy.time_weight,
                        now,
                        i,
                    )
                },
                None => true,
            },
    {
        let ghost before = self@.entries;
        match select_best(&self.entries, &self.policy, now) {
            Some(best) => {
                let entry = self.entries.remove(best.index);
                proof {
                    let i = best.index as int;
                    assert(before[i] == entry@);
                    assert(self@.entries =~= before.remove(i));
                    lemma_remove_keeps_invariant(before, i);
                    assert(is_best(before, self.policy.time_weight, now, i));
                    lemma_best_is_unique(
                        before,
                        self.policy.time_weight,
                        now,
                        i,
                        best_index(before, self.policy.time_weight, now),
                    );
                }
                Some((entry.url, best.adjusted_score))
            },
            None => {
                proof {
                    if before.len() > 0 {
                        assert(before[0] == self.entries[0]@);
                        assert(before[0].metadata is Some);
                    }
                    lemma_best_exists(before, self.policy.time_weight, now);
                }
                None
            },
        }
    }

    /// Handles a failed fetch of `url` at `now`. Within the retry budget the
    /// URL is queued again, with a score and a reference time that hold it
    /// back for the backoff delay; at the end of the budget it leaves the
    /// queue and is appended to the dead-letter list.
    pub fn retry_url(&mut self, url: &str, priority: i64, now: u64)
        requires
            old(self).wf(),
            old(self)@.policy.schedules_at(now),
        ensures
            final(self).wf(),
            final(self)@ == retried(old(self)@, url@, priority, now),
    {
        let key = url.to_owned();
        let existing = match self.find(&key) {
            Some(i) => {
                proof {
                    assert(self@.entries[i as int] == self.entries[i as int]@);
                }
                self.entries[i].metadata
            },
            None => None,
        };
        match plan_retry(&self.policy, existing, priority, now) {
            RetryPlan::DeadLetter => {
                self.move_to_dead_letter_queue(key);
            },
            RetryPlan::Reschedule { score, metadata } => {
                self.write(QueueEntry { url: key, base_priority: score, metadata: Some(metadata) });
            },
        }
    }

    fn move_to_dead_letter_queue(&mut self, url: String)
        requires
            old(self).wf(),
        ensures
            final(self).wf(),
            final(self)@ == (ServiceView {
                entries: without(old(self)@.entries, url@),
                dead_letter: old(self)@.dead_letter.push(url@),
                ..old(self)@
            }),
    {
        let ghost before = self@.dead_letter;
        self.erase(&url);
        self.dead_letter.push(url);
        proof {
            assert(self@.dead_letter =~= before.push(url@));
        }
    }

    /// Takes the oldest URL off the dead-letter list, or returns `None`
    /// where the list is empty.
    pub fn pop_dead_letter(&mut self) -> (r: Option<String>)
        ensures
            r is None <==> old(self)@.dead_letter.len() == 0,
            match r {
                Some(url) => url@ == old(self)@.dead_letter[0] && final(self)@ == (ServiceView {
                    dead_letter: old(self)@.dead_letter.drop_first(),
                    ..old(self)@
                }),
                None => final(self)@ == old(self)@,
            },
    {
        if self.dead_letter.len() == 0 {
            return None;
        }
        let ghost before = self@.dead_letter;
        let url = self.dead_letter.remove(0);
        proof {
            assert(before[0] == url@);
            assert(self@.dead_letter =~= before.drop_first());
        }
        Some(url)
    }

    /// Empties the dead-letter list and returns its URLs, oldest first, for
    /// the caller to deal with. The queue is left alone.
    pub fn process_dead_letter_queue(&mut self) -> (urls: Vec<String>)
        ensures
            url_views(urls@) == old(self)@.dead_letter,
            final(self)@ == (ServiceView { dead_letter: Seq::empty(), ..old(self)@ }),
    {
        let ghost start = self@;
        let mut urls: Vec<String> = Vec::new();
        proof {
            assert(url_views(urls@) + self@.dead_letter =~= start.dead_letter);
        }
        loop
            invariant
                self@.policy == start.policy,
                self@.entries == start.entries,
                url_views(urls@) + self@.dead_letter == start.dead_letter,
                self.dead_letter.len() == self@.dead_letter.len(),
            ensures
                self@.dead_letter.len() == 0,
            decreases self.dead_letter.len(),
        {
            let ghost rest = self@.dead_letter;
            let ghost taken = url_views(urls@);
            match self.pop_dead_letter() {
                Some(url) => {
                    urls.push(url);
                    proof {
                        assert(url_views(urls@) =~= taken.push(rest[0]));
                        assert(url_views(urls@) + self@.dead_letter =~= taken + rest);
                    }
                },
                None => {
                    break ;
                },
            }
        }
        proof {
            assert(url_views(urls@) =~= start.dead_letter);
            assert(self@.dead_letter =~= Seq::empty());
        }
        urls
    }
}

} // verus!
