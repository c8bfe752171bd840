//! The health tracker's per-iteration work: probing every registered node's
//! engine with a cheap read, and the node's own heartbeat. The periodic loops
//! that sleep between iterations are outside work; they call these functions.

use vstd::prelude::*;
use std::time::SystemTime;
use crate::config::{HealthTable, NodeHealth};
use crate::hashring::{HashRing, ids_sorted};
use crate::storage::{StorageProbe, db_get};

verus! {

/// Relies on std's `SystemTime::now`: the clock is ambient state, so nothing
/// is promised of the returned count of milliseconds since the Unix epoch.
#[verifier::external_body]
fn system_time_millis() -> u64 {
    match SystemTime::now().duration_since(std::time::UNIX_EPOCH) {
        Ok(d) => d.as_millis() as u64,
        Err(_) => 0,
    }
}

/// The wall-clock time stamped onto health records, in epoch milliseconds.
pub fn current_timestamp_ms() -> u64 {
    system_time_millis()
}

/// The liveness verdict of one probe: the node counts as alive unless its
/// engine reported an error (a missing probe key is still a successful read).
pub fn probe_verdict(probe: &StorageProbe) -> (r: bool)
    ensures
        r == !(probe is Failed),
{
    match probe {
        StorageProbe::Failed => false,
        StorageProbe::Present(_) => true,
        StorageProbe::Absent => true,
    }
}

/// One iteration of the peer checker: every registered node's engine is
/// probed with a cheap read, and its record is overwritten with the probe's
/// verdict at time `now`; nothing else in the table changes.
pub fn health_check_iteration(ring: &HashRing, table: &mut HealthTable, now: u64)
    ensures
        forall|id: Seq<char>|
            ring.ids().contains(id) ==> final(table).map_view().contains_key(id)
                && (#[trigger] final(table).map_view()[id]).0 == now,
        forall|id: Seq<char>|
            !ring.ids().contains(id) ==> #[trigger] final(table).map_view().contains_key(id)
                == old(table).map_view().contains_key(id),
        forall|id: Seq<char>|
            !ring.ids().contains(id) && old(table).map_view().contains_key(id)
                ==> #[trigger] final(table).map_view()[id] == old(table).map_view()[id],
{
    let ids = ring.get_all_node_ids();
    let ghost idsv = ids.deep_view();
    let mut i: usize = 0;
    while i < ids.len()
        invariant
            idsv == ids.deep_view(),
            idsv == ring.ids(),
            ids_sorted(idsv),
            i <= ids@.len(),
            ids@.len() == idsv.len(),
            forall|k: int| 0 <= k < ids@.len() ==> ids@[k]@ == idsv[k],
            forall|k: int|
                0 <= k < i ==> table.map_view().contains_key(#[trigger] idsv[k])
                    && table.map_view()[idsv[k]].0 == now,
            forall|id: Seq<char>|
                !idsv.contains(id) ==> #[trigger] table.map_view().contains_key(id) == old(
                    table,
                ).map_view().contains_key(id),
            forall|id: Seq<char>|
                !idsv.contains(id) && old(table).map_view().contains_key(id)
                    ==> #[trigger] table.map_view()[id] == old(table).map_view()[id],
        decreases ids@.len() - i,
    {
        let id = &ids[i];
        let alive = match ring.get_node_by_id(id.as_str()) {
            Some(node) => probe_verdict(&db_get(&node.db, "dummy")),
            None => false,
        };
        let ghost before = table.map_view();
        table.upsert(NodeHealth { id: id.clone(), last_heartbeat: now, is_alive: alive });
        proof {
            assert(table.map_view() == before.insert(idsv[i as int], (now, alive)));
            assert(idsv.contains(idsv[i as int]));
            assert forall|k: int|
                0 <= k < i + 1 implies table.map_view().contains_key(#[trigger] idsv[k])
                && table.map_view()[idsv[k]].0 == now by {
                if k < i && idsv[k] != idsv[i as int] {
                    assert(table.map_view()[idsv[k]] == before[idsv[k]]);
                } else if k < i {
                    crate::hashring::lemma_sorted_ids_distinct(idsv, k, i as int);
                }
            }
            assert forall|id: Seq<char>|
                !idsv.contains(id) implies #[trigger] table.map_view().contains_key(id) == old(
                table,
            ).map_view().contains_key(id) by {
                assert(id != idsv[i as int]);
                assert(table.map_view().contains_key(id) == before.contains_key(id));
            }
            assert forall|id: Seq<char>|
                !idsv.contains(id) && old(table).map_view().contains_key(id)
                    implies #[trigger] table.map_view()[id] == old(table).map_view()[id] by {
                assert(id != idsv[i as int]);
                assert(before.contains_key(id));
                assert(table.map_view()[id] == before[id]);
                assert(before[id] == old(table).map_view()[id]);
            }
        }
        i = i + 1;
    }
    proof {
        assert forall|id: Seq<char>|
            ring.ids().contains(id) implies table.map_view().contains_key(id) && (#[trigger] table
            .map_view()[id]).0 == now by {
            let k = choose|k: int| 0 <= k < idsv.len() && idsv[k] == id;
            assert(table.map_view().contains_key(idsv[k]));
        }
    }
}

/// One heartbeat of this node: its own record is overwritten as alive now.
pub fn heartbeat_iteration(table: &mut HealthTable, my_id: &String, now: u64)
    ensures
        final(table).map_view() == old(table).map_view().insert(my_id@, (now, true)),
{
    table.upsert(NodeHealth { id: my_id.clone(), last_heartbeat: now, is_alive: true });
}

} // verus!
