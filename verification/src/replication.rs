//! The decision logic of the replication coordinator: applying one operation
//! to one follower, the fixed retry policy, and quorum accounting over the
//! per-follower outcomes. The coordinator's loop itself (dequeueing, sleeping
//! between retries) is outside work; it feeds events to these functions.

use vstd::prelude::*;
use crate::hashring::HashRing;
use crate::routes_resp::WalOp;
use crate::storage::{db_insert, db_remove, db_flush};

verus! {

/// How many attempts each follower gets in total.
pub const REPLICATION_MAX_ATTEMPTS: u8 = 3;

/// The fixed delay between a follower's attempts, in milliseconds.
pub const REPLICATION_RETRY_DELAY_MS: u64 = 500;

/// The trues in a sequence of per-follower outcomes.
pub open spec fn count_true(s: Seq<bool>) -> int
    decreases s.len(),
{
    if s.len() == 0 {
        0
    } else {
        count_true(s.drop_last()) + if s.last() {
            1int
        } else {
            0int
        }
    }
}

/// Quorum: at least one follower was attempted and at least half of the
/// attempted followers succeeded.
pub open spec fn spec_quorum(success: int, total: int) -> bool {
    total > 0 && 2 * success >= total
}

/// The outcome of replicating one entry.
pub struct ReplicationReport {
    pub success_count: usize,
    pub total_attempts: usize,
    pub quorum: bool,
}

/// Whether a success count out of a total reaches quorum.
pub fn quorum_achieved(success_count: usize, total_attempts: usize) -> (r: bool)
    requires
        success_count <= total_attempts,
    ensures
        r == spec_quorum(success_count as int, total_attempts as int),
{
    total_attempts > 0 && success_count >= total_attempts - success_count
}

proof fn lemma_count_true_bound(s: Seq<bool>)
    ensures
        0 <= count_true(s) <= s.len(),
    decreases s.len(),
{
    if s.len() > 0 {
        lemma_count_true_bound(s.drop_last());
    }
}

/// Folds per-follower outcomes (one per attempted follower, true when its
/// apply eventually succeeded) into the counts and the quorum verdict.
pub fn assess_replication(outcomes: &Vec<bool>) -> (r: ReplicationReport)
    ensures
        r.total_attempts == outcomes@.len(),
        r.success_count == count_true(outcomes@),
        r.quorum == spec_quorum(count_true(outcomes@), outcomes@.len() as int),
{
    let mut success: usize = 0;
    let mut i: usize = 0;
    proof {
        assert(outcomes@.take(0) =~= Seq::<bool>::empty());
    }
    while i < outcomes.len()
        invariant
            i <= outcomes@.len(),
            success as int == count_true(outcomes@.take(i as int)),
            success <= i,
        decreases outcomes@.len() - i,
    {
        proof {
            assert(outcomes@.take(i + 1).drop_last() =~= outcomes@.take(i as int));
            assert(outcomes@.take(i + 1).last() == outcomes@[i as int]);
        }
        if outcomes[i] {
            success = success + 1;
        }
        i = i + 1;
    }
    proof {
        assert(outcomes@.take(outcomes@.len() as int) =~= outcomes@);
        lemma_count_true_bound(outcomes@);
    }
    let quorum = quorum_achieved(success, outcomes.len());
    ReplicationReport { success_count: success, total_attempts: outcomes.len(), quorum }
}

/// Quorum threshold law: with half or more of the attempted followers
/// succeeding the entry counts as replicated, with fewer than half it counts
/// as failed, and with no follower attempted it also counts as failed.
pub proof fn lemma_quorum_threshold(success: int, total: int)
    requires
        0 <= success <= total,
    ensures
        total > 0 && 2 * success >= total ==> spec_quorum(success, total),
        2 * success < total ==> !spec_quorum(success, total),
        total == 0 ==> !spec_quorum(success, total),
{
}

/// One apply of an operation to one node: insert or remove on that node's
/// engine followed by a flush, reporting whether every step succeeded; false
/// when the node is not registered.
pub fn apply_to_node(ring: &HashRing, node_id: &str, op: &WalOp) -> (r: bool)
    ensures
        !ring.ids().contains(node_id@) ==> r == false,
        r ==> ring.ids().contains(node_id@),
{
    match ring.get_node_by_id(node_id) {
        None => false,
        Some(node) => match op {
            WalOp::Put { key, value } => {
                if db_insert(&node.db, key.as_str(), value.as_str()) {
                    db_flush(&node.db)
                } else {
                    false
                }
            },
            WalOp::Delete { key } => {
                if db_remove(&node.db, key.as_str()) {
                    db_flush(&node.db)
                } else {
                    false
                }
            },
        },
    }
}

/// What the coordinator does after one attempt on one follower.
#[derive(Clone, Copy, Debug, PartialEq, Eq, Structural)]
pub enum RetryDecision {
    /// The attempt succeeded: this follower is done, counted a success.
    Done,
    /// The attempt failed and retries remain: wait the fixed delay and retry.
    RetryAfterDelay,
    /// The attempt failed and no retries remain: counted a failure.
    GiveUp,
}

/// The fixed retry policy: success ends a follower's attempts; failure
/// retries while attempts remain, and gives the follower up otherwise.
pub fn retry_decision(attempt_ok: bool, retries_left: u8) -> (r: RetryDecision)
    ensures
        attempt_ok ==> r == RetryDecision::Done,
        !attempt_ok && retries_left > 0 ==> r == RetryDecision::RetryAfterDelay,
        !attempt_ok && retries_left == 0 ==> r == RetryDecision::GiveUp,
{
    if attempt_ok {
        RetryDecision::Done
    } else if retries_left > 0 {
        RetryDecision::RetryAfterDelay
    } else {
        RetryDecision::GiveUp
    }
}

} // verus!
