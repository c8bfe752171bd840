//! The request handlers' decision logic: what SET, GET and DELETE do on the
//! owning node and its replicas, and the exact responses they report. The
//! storage engine's answers arrive through the probe type, and every decision
//! taken from a probe is pinned down.

use vstd::prelude::*;
use crate::hashring::HashRing;
use crate::routes_resp::{Status, SetResponse, GetResponse, DeleteResponse, ErrorResponse};
use crate::storage::{StorageProbe, db_get, db_insert, db_remove, db_flush, bytes_to_string};
use crate::text::{str_chars, chars_to_string, append_chars, copy_bytes};
use crate::wal_format::push_str;

verus! {

/// What a SET request concluded.
#[derive(Clone, Copy, Debug, PartialEq, Eq, Structural)]
pub enum SetOutcome {
    /// The key was absent and has been stored.
    Inserted,
    /// The key already holds a value, which is left untouched.
    AlreadyPresent,
    /// The ring is empty: no node can own the key.
    NoNode,
    /// The engine rejected the insert.
    InsertFailed,
    /// The engine failed while probing for the key.
    ProbeFailed,
}

/// What a SET does once the presence probe has answered.
#[derive(Clone, Copy, Debug, PartialEq, Eq, Structural)]
pub enum SetAction {
    ReportAlreadyPresent,
    DoInsert,
    ReportProbeError,
}

/// The decision a SET takes from the presence probe: a present key is
/// reported, never overwritten; an absent key is inserted; a failed probe
/// rejects the request.
pub open spec fn spec_set_decision(probe: StorageProbe) -> SetAction {
    match probe {
        StorageProbe::Present(_) => SetAction::ReportAlreadyPresent,
        StorageProbe::Absent => SetAction::DoInsert,
        StorageProbe::Failed => SetAction::ReportProbeError,
    }
}

/// Idempotent SET law: on a key that is already present, the decision is to
/// report it, never the insert action, whatever value was stored.
pub proof fn lemma_set_idempotent(probe: StorageProbe)
    requires
        probe is Present,
    ensures
        spec_set_decision(probe) == SetAction::ReportAlreadyPresent,
        spec_set_decision(probe) != SetAction::DoInsert,
{
}

/// Decides a SET from the presence probe.
pub fn set_decision(probe: &StorageProbe) -> (r: SetAction)
    ensures
        r == spec_set_decision(*probe),
{
    match probe {
        StorageProbe::Present(_) => SetAction::ReportAlreadyPresent,
        StorageProbe::Absent => SetAction::DoInsert,
        StorageProbe::Failed => SetAction::ReportProbeError,
    }
}

/// SET on the key's owning node: stores the value only when the key is
/// absent there; an existing value is never overwritten.
pub fn set_value(ring: &HashRing, key: &String, value: &String) -> (r: SetOutcome)
    ensures
        (r == SetOutcome::NoNode) <==> ring.ring_seq().len() == 0,
{
    let leader = match ring.get_node(key.as_str()) {
        None => {
            return SetOutcome::NoNode;
        },
        Some(n) => n,
    };
    let probe = db_get(&leader.db, key.as_str());
    match set_decision(&probe) {
        SetAction::ReportAlreadyPresent => SetOutcome::AlreadyPresent,
        SetAction::DoInsert => {
            if db_insert(&leader.db, key.as_str(), value.as_str()) {
                // the write is acknowledged on insert; the flush is advisory
                let _ = db_flush(&leader.db);
                SetOutcome::Inserted
            } else {
                SetOutcome::InsertFailed
            }
        },
        SetAction::ReportProbeError => SetOutcome::ProbeFailed,
    }
}

/// What a GET request concluded.
#[derive(Debug)]
pub enum GetOutcome {
    /// The value, from the owner or the first replica that holds the key.
    Found(String),
    /// Neither the owner nor any replica holds the key.
    NotFound,
    /// The ring is empty: no node can own the key.
    NoNode,
    /// The owner's engine failed while reading.
    StoreError,
}

/// The text a stored value is delivered as: the decoded characters for valid
/// UTF-8, a fixed marker otherwise.
pub open spec fn spec_value_chars(bytes: Seq<u8>) -> Seq<char> {
    if vstd::utf8::valid_utf8(bytes) {
        vstd::utf8::decode_utf8(bytes)
    } else {
        "Invalid UTF-8"@
    }
}

/// Decodes value bytes for delivery.
pub fn value_string(bytes: Vec<u8>) -> (r: String)
    ensures
        r@ == spec_value_chars(bytes@),
{
    match bytes_to_string(bytes) {
        Some(s) => s,
        None => "Invalid UTF-8".to_owned(),
    }
}

/// What a GET does once the owner's probe has answered.
#[derive(Clone, Copy, Debug, PartialEq, Eq, Structural)]
pub enum GetAction {
    /// The owner holds the key: deliver its value.
    DeliverValue,
    /// The owner lacks the key: scan the replicas.
    ScanReplicas,
    /// The owner's engine failed: report a database error.
    ReportStoreError,
}

/// The decision a GET takes from the owner's probe: a held key's value is
/// delivered; an absent key sends the read to the replicas; a failed read is
/// a database error, distinguished from not-found.
pub open spec fn spec_get_decision(probe: StorageProbe) -> GetAction {
    match probe {
        StorageProbe::Present(_) => GetAction::DeliverValue,
        StorageProbe::Absent => GetAction::ScanReplicas,
        StorageProbe::Failed => GetAction::ReportStoreError,
    }
}

/// Decides a GET from the owner's probe.
pub fn get_decision(probe: &StorageProbe) -> (r: GetAction)
    ensures
        r == spec_get_decision(*probe),
{
    match probe {
        StorageProbe::Present(_) => GetAction::DeliverValue,
        StorageProbe::Absent => GetAction::ScanReplicas,
        StorageProbe::Failed => GetAction::ReportStoreError,
    }
}

/// What the replica probes yield: the decoded value of the first replica
/// that holds the key, or nothing when none does (a failing replica is
/// skipped like one without the key).
pub open spec fn spec_scan_replicas(probes: Seq<StorageProbe>) -> Option<Seq<char>>
    decreases probes.len(),
{
    if probes.len() == 0 {
        None
    } else {
        match probes[0] {
            StorageProbe::Present(b) => Some(spec_value_chars(b@)),
            StorageProbe::Absent => spec_scan_replicas(probes.drop_first()),
            StorageProbe::Failed => spec_scan_replicas(probes.drop_first()),
        }
    }
}

/// Folds the replica probes, in follower order, into the delivered value.
pub fn scan_replica_probes(probes: &Vec<StorageProbe>) -> (r: Option<String>)
    ensures
        match r {
            Some(v) => spec_scan_replicas(probes@) == Some(v@),
            None => spec_scan_replicas(probes@) is None,
        },
{
    let mut idx: usize = 0;
    proof {
        assert(probes@.skip(0) =~= probes@);
    }
    while idx < probes.len()
        invariant
            idx <= probes@.len(),
            spec_scan_replicas(probes@) == spec_scan_replicas(probes@.skip(idx as int)),
        decreases probes@.len() - idx,
    {
        proof {
            assert(probes@.skip(idx as int)[0] == probes@[idx as int]);
            assert(probes@.skip(idx as int).drop_first() =~= probes@.skip(idx as int + 1));
        }
        match &probes[idx] {
            StorageProbe::Present(bytes) => {
                let ghost bv = bytes@;
                let v = value_string(copy_bytes(bytes));
                proof {
                    assert(spec_scan_replicas(probes@.skip(idx as int)) == Some(
                        spec_value_chars(bv),
                    ));
                }
                return Some(v);
            },
            StorageProbe::Absent => {},
            StorageProbe::Failed => {},
        }
        idx = idx + 1;
    }
    proof {
        assert(probes@.skip(probes@.len() as int) =~= Seq::<StorageProbe>::empty());
    }
    None
}

/// GET: reads the key from its owning node first and, when absent there,
/// from each replica in turn, returning the first value found.
pub fn get_value(ring: &HashRing, key: &String) -> (r: GetOutcome)
    ensures
        (r is NoNode) <==> ring.ring_seq().len() == 0,
{
    let leader = match ring.get_node(key.as_str()) {
        None => {
            return GetOutcome::NoNode;
        },
        Some(n) => n,
    };
    let owner_probe = db_get(&leader.db, key.as_str());
    match get_decision(&owner_probe) {
        GetAction::DeliverValue => {
            let bytes = match owner_probe {
                StorageProbe::Present(b) => b,
                _ => {
                    proof {
                        assert(false);
                    }
                    Vec::new()
                },
            };
            GetOutcome::Found(value_string(bytes))
        },
        GetAction::ReportStoreError => GetOutcome::StoreError,
        GetAction::ScanReplicas => {
            // collect the replica probes in follower order, skipping the
            // owner (already consulted) and any unregistered identifier
            let followers = ring.get_follower_node_ids(key.as_str());
            let mut probes: Vec<StorageProbe> = Vec::new();
            let mut i: usize = 0;
            while i < followers.len()
                invariant
                    i <= followers@.len(),
                    ring.ring_seq().len() > 0,
                decreases followers@.len() - i,
            {
                let replica_id = &followers[i];
                if !(*replica_id == leader.id) {
                    match ring.get_node_by_id(replica_id.as_str()) {
                        Some(replica) => {
                            probes.push(db_get(&replica.db, key.as_str()));
                        },
                        None => {},
                    }
                }
                i = i + 1;
            }
            match scan_replica_probes(&probes) {
                Some(v) => GetOutcome::Found(v),
                None => GetOutcome::NotFound,
            }
        },
    }
}

/// What a DELETE request concluded.
#[derive(Clone, Copy, Debug, PartialEq, Eq, Structural)]
pub enum DeleteOutcome {
    /// The owner accepted the removal (also for a key that was absent).
    Deleted,
    /// The ring is empty: no node can own the key.
    NoNode,
    /// The owner's engine rejected the removal.
    StoreError,
}

/// What a DELETE reports for each answer of the owner's removal: an accepted
/// removal (also of an absent key) is the deleted outcome, a rejected one is
/// an engine error.
pub open spec fn spec_delete_decision(removed: bool) -> DeleteOutcome {
    if removed {
        DeleteOutcome::Deleted
    } else {
        DeleteOutcome::StoreError
    }
}

/// Decides a DELETE from the owner's removal result.
pub fn delete_decision(removed: bool) -> (r: DeleteOutcome)
    ensures
        r == spec_delete_decision(removed),
{
    if removed {
        DeleteOutcome::Deleted
    } else {
        DeleteOutcome::StoreError
    }
}

/// DELETE on the key's owning node: removes the key and flushes.
pub fn delete_value(ring: &HashRing, key: &String) -> (r: DeleteOutcome)
    ensures
        (r == DeleteOutcome::NoNode) <==> ring.ring_seq().len() == 0,
{
    let leader = match ring.get_node(key.as_str()) {
        None => {
            return DeleteOutcome::NoNode;
        },
        Some(n) => n,
    };
    let outcome = delete_decision(db_remove(&leader.db, key.as_str()));
    if outcome == DeleteOutcome::Deleted {
        let _ = db_flush(&leader.db);
    }
    outcome
}

/// The message a failed SET reports: the key and the reason.
pub open spec fn set_fail_message(key: Seq<char>, reason: Seq<char>) -> Seq<char> {
    "Failed to set key '"@ + key + "': "@ + reason
}

fn build_set_fail_message(key: &String, reason: &str) -> (r: String)
    ensures
        r@ == set_fail_message(key@, reason@),
{
    let mut out: Vec<char> = Vec::new();
    push_str(&mut out, "Failed to set key '");
    let kc = str_chars(key.as_str());
    append_chars(&mut out, &kc);
    push_str(&mut out, "': ");
    push_str(&mut out, reason);
    chars_to_string(&out)
}

/// The response a SET outcome is reported as: both the stored and the
/// already-present cases are successes; the message states which.
pub fn set_response_for(outcome: &SetOutcome, key: &String) -> (r: SetResponse)
    ensures
        r.status == Status::Success <==> (outcome == SetOutcome::Inserted || outcome
            == SetOutcome::AlreadyPresent),
        outcome == SetOutcome::Inserted ==> r.message@ == "key stored"@,
        outcome == SetOutcome::AlreadyPresent ==> r.message@ == "key already present"@,
        outcome == SetOutcome::NoNode ==> r.message@ == "No node available"@,
        outcome == SetOutcome::InsertFailed ==> r.message@ == set_fail_message(
            key@,
            "Failed to insert key"@,
        ),
        outcome == SetOutcome::ProbeFailed ==> r.message@ == set_fail_message(
            key@,
            "Database error"@,
        ),
{
    match outcome {
        SetOutcome::Inserted => SetResponse {
            status: Status::Success,
            message: "key stored".to_owned(),
        },
        SetOutcome::AlreadyPresent => SetResponse {
            status: Status::Success,
            message: "key already present".to_owned(),
        },
        SetOutcome::NoNode => SetResponse {
            status: Status::Error,
            message: "No node available".to_owned(),
        },
        SetOutcome::InsertFailed => SetResponse {
            status: Status::Error,
            message: build_set_fail_message(key, "Failed to insert key"),
        },
        SetOutcome::ProbeFailed => SetResponse {
            status: Status::Error,
            message: build_set_fail_message(key, "Database error"),
        },
    }
}

/// The response a GET outcome is reported as: the value on success, the
/// distinguishing error otherwise ("not found" is not an engine error).
pub fn get_response_for(outcome: GetOutcome) -> (r: Result<GetResponse, ErrorResponse>)
    ensures
        match outcome {
            GetOutcome::Found(v) => r matches Ok(resp) && resp.status == Status::Success
                && resp.value == v,
            GetOutcome::NotFound => r matches Err(e) && e.status == Status::Error && e.error@
                == "Key not found in any node"@,
            GetOutcome::NoNode => r matches Err(e) && e.status == Status::Error && e.error@
                == "No node available"@,
            GetOutcome::StoreError => r matches Err(e) && e.status == Status::Error && e.error@
                == "Database error"@,
        },
{
    match outcome {
        GetOutcome::Found(v) => Ok(GetResponse { status: Status::Success, value: v }),
        GetOutcome::NotFound => Err(
            ErrorResponse { status: Status::Error, error: "Key not found in any node".to_owned() },
        ),
        GetOutcome::NoNode => Err(
            ErrorResponse { status: Status::Error, error: "No node available".to_owned() },
        ),
        GetOutcome::StoreError => Err(
            ErrorResponse { status: Status::Error, error: "Database error".to_owned() },
        ),
    }
}

/// The message a failed DELETE reports.
pub open spec fn delete_fail_message(key: Seq<char>) -> Seq<char> {
    "Failed to delete key: "@ + key
}

fn build_delete_fail_message(key: &String) -> (r: String)
    ensures
        r@ == delete_fail_message(key@),
{
    let mut out: Vec<char> = Vec::new();
    push_str(&mut out, "Failed to delete key: ");
    let kc = str_chars(key.as_str());
    append_chars(&mut out, &kc);
    chars_to_string(&out)
}

/// The response a DELETE outcome is reported as.
pub fn delete_response_for(outcome: &DeleteOutcome, key: &String) -> (r: Result<
    DeleteResponse,
    ErrorResponse,
>)
    ensures
        match outcome {
            DeleteOutcome::Deleted => r matches Ok(resp) && resp.status == Status::Success
                && resp.message@ == "key deleted "@,
            DeleteOutcome::NoNode => r matches Err(e) && e.status == Status::Error && e.error@
                == "No node available"@,
            DeleteOutcome::StoreError => r matches Err(e) && e.status == Status::Error && e.error@
                == delete_fail_message(key@),
        },
{
    match outcome {
        DeleteOutcome::Deleted => Ok(
            DeleteResponse { status: Status::Success, message: "key deleted ".to_owned() },
        ),
        DeleteOutcome::NoNode => Err(
            ErrorResponse { status: Status::Error, error: "No node available".to_owned() },
        ),
        DeleteOutcome::StoreError => Err(
            ErrorResponse { status: Status::Error, error: build_delete_fail_message(key) },
        ),
    }
}

} // verus!
