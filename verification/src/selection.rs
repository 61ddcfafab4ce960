//! Choosing the most urgent entry among the queued ones.

use vstd::prelude::*;
use crate::policy::{adjusted_score, storable, Policy};

verus! {

/// What is stored beside each queued URL.
#[derive(Clone, Copy, Debug, PartialEq, Eq, Structural)]
pub struct Metadata {
    /// The instant from which waiting counts: when the URL was enqueued, or,
    /// after a retry, the later instant at which the retry falls due.
    pub reference_time: u64,
    /// How many times the URL has been retried.
    pub retry_count: u32,
}

/// One queued URL as the dequeue scan sees it.
#[derive(Debug)]
pub struct QueueEntry {
    pub url: String,
    /// The score stored in the queue.
    pub base_priority: i128,
    /// The URL's metadata, or `None` where it is missing or unreadable.
    pub metadata: Option<Metadata>,
}

/// A queued URL as contracts speak of it.
pub struct QueueEntryView {
    pub url: Seq<char>,
    pub base_priority: i128,
    pub metadata: Option<Metadata>,
}

impl View for QueueEntry {
    type V = QueueEntryView;

    open spec fn view(&self) -> QueueEntryView {
        QueueEntryView { url: self.url@, base_priority: self.base_priority, metadata: self.metadata }
    }
}

/// The entries of a vector as contracts speak of them, in the same order.
pub open spec fn entry_views(entries: Seq<QueueEntry>) -> Seq<QueueEntryView> {
    entries.map_values(|e: QueueEntry| e@)
}

/// The outcome of a scan: the position of the winner and its score.
#[derive(Clone, Copy, Debug, PartialEq, Eq, Structural)]
pub struct Selection {
    pub index: usize,
    pub adjusted_score: i128,
}

/// Every score is one that the queue can store.
pub open spec fn all_storable(entries: Seq<QueueEntryView>) -> bool {
    forall|i: int| 0 <= i < entries.len() ==> storable((#[trigger] entries[i]).base_priority)
}

/// The score of candidate `i` at `now`. Meaningful only where the candidate
/// has metadata.
pub open spec fn candidate_score(candidates: Seq<QueueEntryView>, time_weight: u32, now: u64, i: int) -> int {
    adjusted_score(
        candidates[i].base_priority as int,
        time_weight as int,
        now as int,
        candidates[i].metadata->0.reference_time as int,
    )
}

/// Candidate `i` wins the scan: it has metadata, no candidate with metadata
/// has a smaller score, and every one before it has a larger score.
/// Candidates without metadata take no part.
pub open spec fn is_best(candidates: Seq<QueueEntryView>, time_weight: u32, now: u64, i: int) -> bool {
    &&& 0 <= i < candidates.len()
    &&& candidates[i].metadata is Some
    &&& forall|j: int|
        0 <= j < candidates.len() && (#[trigger] candidates[j]).metadata is Some
            ==> candidate_score(candidates, time_weight, now, i) <= candidate_score(
            candidates,
            time_weight,
            now,
            j,
        )
    &&& forall|j: int|
        0 <= j < i && (#[trigger] candidates[j]).metadata is Some ==> candidate_score(
            candidates,
            time_weight,
            now,
            i,
        ) < candidate_score(candidates, time_weight, now, j)
}

/// At most one candidate wins a scan.
pub proof fn lemma_best_is_unique(candidates: Seq<QueueEntryView>, time_weight: u32, now: u64, i: int, j: int)
    requires
        is_best(candidates, time_weight, now, i),
        is_best(candidates, time_weight, now, j),
    ensures
        i == j,
{
    if i < j {
        assert(candidates[i].metadata is Some);
    } else if j < i {
        assert(candidates[j].metadata is Some);
    }
}

/// Of two queued entries the one with the strictly lower score wins,
/// whichever of them entered the queue first.
pub proof fn lemma_lower_score_wins(a: QueueEntryView, b: QueueEntryView, time_weight: u32, now: u64)
    requires
        a.metadata is Some,
        b.metadata is Some,
        candidate_score(seq![a, b], time_weight, now, 0) < candidate_score(
            seq![a, b],
            time_weight,
            now,
            1,
        ),
    ensures
        is_best(seq![a, b], time_weight, now, 0),
        is_best(seq![b, a], time_weight, now, 1),
{
    let ab = seq![a, b];
    let ba = seq![b, a];
    assert(ab[0] == a && ab[1] == b && ba[0] == b && ba[1] == a);
    assert(candidate_score(ba, time_weight, now, 1) == candidate_score(ab, time_weight, now, 0));
    assert(candidate_score(ba, time_weight, now, 0) == candidate_score(ab, time_weight, now, 1));
}

/// Picks the candidate to dequeue at `now`: the one with the smallest
/// adjusted score, the earliest of them where several share it. Returns
/// `None` exactly where no candidate has metadata.
pub fn select_best(candidates: &Vec<QueueEntry>, policy: &Policy, now: u64) -> (r: Option<Selection>)
    requires
        all_storable(entry_views(candidates@)),
    ensures
        match r {
            Some(s) => {
                &&& is_best(entry_views(candidates@), policy.time_weight, now, s.index as int)
                &&& s.adjusted_score == candidate_score(
                    entry_views(candidates@),
                    policy.time_weight,
                    now,
                    s.index as int,
                )
            },
            None => forall|j: int|
                0 <= j < candidates.len() ==> (#[trigger] candidates[j]).metadata is None,
        },
{
    let ghost all = entry_views(candidates@);
    let mut best: Option<Selection> = None;
    let mut k: usize = 0;
    while k < candidates.len()
        invariant
            0 <= k <= candidates.len(),
            all == entry_views(candidates@),
            all_storable(all),
            match best {
                Some(s) => {
                    &&& is_best(all.take(k as int), policy.time_weight, now, s.index as int)
                    &&& s.adjusted_score == candidate_score(all, policy.time_weight, now, s.index as int)
                },
                None => forall|j: int| 0 <= j < k ==> (#[trigger] all[j]).metadata is None,
            },
        decreases candidates.len() - k,
    {
        let ghost before = all.take(k as int);
        let ghost after = all.take(k + 1);
        proof {
            assert forall|j: int| 0 <= j < k implies #[trigger] after[j] == before[j] by {}
            assert(after[k as int] == candidates@[k as int]@);
            assert(all[k as int] == candidates@[k as int]@);
        }
        match candidates[k].metadata {
            Some(m) => {
                let score = policy.calculate_adjusted_priority(
                    candidates[k].base_priority,
                    now,
                    m.reference_time,
                );
                let better = match best {
                    Some(s) => score < s.adjusted_score,
                    None => true,
                };
                if better {
                    best = Some(Selection { index: k, adjusted_score: score });
                    proof {
                        assert(is_best(after, policy.time_weight, now, k as int));
                    }
                } else {
                    proof {
                        assert(is_best(after, policy.time_weight, now, best->0.index as int));
                    }
                }
            },
            None => {
                proof {
                    if best is Some {
                        assert(is_best(after, policy.time_weight, now, best->0.index as int));
                    }
                }
            },
        }
        k = k + 1;
    }
    proof {
        assert(all.take(k as int) =~= all);
        if best is None {
            assert forall|j: int| 0 <= j < candidates.len() implies (#[trigger] candidates[j]).metadata is None by {
                assert(all[j] == candidates[j]@);
            }
        }
    }
    best
}

} // verus!
