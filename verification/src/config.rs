//! The health table: one liveness record per known node identifier, written
//! over in place on every probe or heartbeat — no history is kept.

use vstd::prelude::*;
use crate::text::{str_chars, chars_eq};

verus! {

/// One node's liveness record.
#[derive(Debug, Clone)]
pub struct NodeHealth {
    pub id: String,
    pub last_heartbeat: u64,
    pub is_alive: bool,
}

/// The health entries of a record vector, keyed by identifier.
pub open spec fn health_entries(s: Seq<NodeHealth>) -> Seq<(Seq<char>, (u64, bool))> {
    s.map_values(|n: NodeHealth| (n.id@, (n.last_heartbeat, n.is_alive)))
}

/// The health map as a fold of the entries, later records winning.
pub open spec fn health_map_of(s: Seq<(Seq<char>, (u64, bool))>) -> Map<Seq<char>, (u64, bool)>
    decreases s.len(),
{
    if s.len() == 0 {
        Map::empty()
    } else {
        health_map_of(s.drop_last()).insert(s.last().0, s.last().1)
    }
}

proof fn lemma_health_map_unique(r: Seq<(Seq<char>, (u64, bool))>)
    requires
        forall|i: int, j: int| 0 <= i < j < r.len() ==> r[i].0 != r[j].0,
    ensures
        forall|p: Seq<char>|
            #[trigger] health_map_of(r).contains_key(p) <==> exists|i: int|
                0 <= i < r.len() && r[i].0 == p,
        forall|i: int|
            0 <= i < r.len() ==> health_map_of(r).contains_key(#[trigger] r[i].0) && health_map_of(
                r,
            )[r[i].0] == r[i].1,
    decreases r.len(),
{
    if r.len() > 0 {
        let dl = r.drop_last();
        assert(forall|i: int| 0 <= i < dl.len() ==> dl[i] == r[i]);
        lemma_health_map_unique(dl);
        assert forall|i: int|
            0 <= i < r.len() implies health_map_of(r).contains_key(#[trigger] r[i].0)
            && health_map_of(r)[r[i].0] == r[i].1 by {
            if i < r.len() - 1 {
                assert(r[i].0 != r.last().0);
                assert(health_map_of(dl).contains_key(dl[i].0) && health_map_of(dl)[dl[i].0]
                    == dl[i].1);
            }
        }
        assert forall|p: Seq<char>| #[trigger] health_map_of(r).contains_key(p) implies exists|
            i: int,
        |
            0 <= i < r.len() && r[i].0 == p by {
            if p != r.last().0 {
                assert(health_map_of(dl).contains_key(p));
                assert(exists|i: int| 0 <= i < dl.len() && dl[i].0 == p);
                let i = choose|i: int| 0 <= i < dl.len() && dl[i].0 == p;
                assert(r[i].0 == p);
            } else {
                assert(r[r.len() - 1].0 == p);
            }
        }
    }
}

fn find_record_index(records: &Vec<NodeHealth>, idc: &Vec<char>) -> (r: Option<usize>)
    ensures
        match r {
            Some(i) => i < records@.len() && records@[i as int].id@ == idc@,
            None => forall|k: int| 0 <= k < records@.len() ==> records@[k].id@ != idc@,
        },
{
    let mut i: usize = 0;
    while i < records.len()
        invariant
            i <= records@.len(),
            forall|k: int| 0 <= k < i ==> records@[k].id@ != idc@,
        decreases records@.len() - i,
    {
        let nc = str_chars(records[i].id.as_str());
        if chars_eq(&nc, &idc) {
            return Some(i);
        }
        i = i + 1;
    }
    None
}

/// The shared table of health records, one per known node identifier.
pub struct HealthTable {
    records: Vec<NodeHealth>,
}

impl HealthTable {
    /// The table as a map from identifier to (last heartbeat, liveness).
    pub closed spec fn map_view(&self) -> Map<Seq<char>, (u64, bool)> {
        health_map_of(health_entries(self.records@))
    }

    #[verifier::type_invariant]
    spec fn wf(&self) -> bool {
        forall|i: int, j: int|
            0 <= i < j < self.records@.len() ==> self.records@[i].id@ != self.records@[j].id@
    }

    /// An empty table.
    pub fn new() -> (r: Self)
        ensures
            r.map_view() == Map::<Seq<char>, (u64, bool)>::empty(),
    {
        let r = HealthTable { records: Vec::new() };
        proof {
            assert(health_entries(r.records@) =~= Seq::<(Seq<char>, (u64, bool))>::empty());
        }
        r
    }

    /// Writes or overwrites the record for `rec.id`.
    pub fn upsert(&mut self, rec: NodeHealth)
        ensures
            final(self).map_view() == old(self).map_view().insert(
                rec.id@,
                (rec.last_heartbeat, rec.is_alive),
            ),
    {
        proof {
            use_type_invariant(&*self);
        }
        let ghost v0 = health_entries(self.records@);
        let idc = str_chars(rec.id.as_str());
        let mut records: Vec<NodeHealth> = Vec::new();
        core::mem::swap(&mut records, &mut self.records);

        let found = find_record_index(&records, &idc);
        let ghost e = (rec.id@, (rec.last_heartbeat, rec.is_alive));
        match found {
            Some(j) => {
                let _ = records.remove(j);
                records.insert(j, rec);
                proof {
                    let v1 = health_entries(records@);
                    let jj = j as int;
                    assert(forall|k: int| 0 <= k < v1.len() && k != jj ==> v1[k] == v0[k]);
                    assert(v1[jj] == e);
                    assert(v0[jj].0 == e.0);
                    lemma_health_map_unique(v0);
                    lemma_health_map_unique(v1);
                    assert forall|p: Seq<char>| #[trigger] health_map_of(v1).contains_key(p)
                        implies health_map_of(v0).insert(e.0, e.1).contains_key(p) by {
                        let k = choose|k: int| 0 <= k < v1.len() && v1[k].0 == p;
                        if k != jj {
                            assert(v0[k].0 == p);
                        }
                    }
                    assert forall|p: Seq<char>|
                        #[trigger] health_map_of(v0).insert(e.0, e.1).contains_key(
                            p,
                        ) implies health_map_of(v1).contains_key(p) by {
                        if p == e.0 {
                            assert(v1[jj].0 == p);
                        } else {
                            let k = choose|k: int| 0 <= k < v0.len() && v0[k].0 == p;
                            assert(k != jj);
                            assert(v1[k] == v0[k]);
                        }
                    }
                    assert forall|p: Seq<char>| health_map_of(v1).contains_key(
                        p,
                    ) implies health_map_of(v1)[p] == health_map_of(v0).insert(e.0, e.1)[p] by {
                        if p == e.0 {
                            assert(health_map_of(v1)[p] == v1[jj].1);
                        } else {
                            let k = choose|k: int| 0 <= k < v1.len() && v1[k].0 == p;
                            assert(k != jj);
                            assert(health_map_of(v1)[p] == v1[k].1);
                            assert(v0[k] == v1[k]);
                            assert(health_map_of(v0)[p] == v0[k].1);
                        }
                    }
                    assert(health_map_of(v1) =~= health_map_of(v0).insert(e.0, e.1));
                }
            },
            None => {
                records.push(rec);
                proof {
                    let v1 = health_entries(records@);
                    assert(v1.drop_last() =~= v0);
                    assert(v1.last() == e);
                }
            },
        }
        self.records = records;
    }

    /// Reads the record for an identifier.
    pub fn get(&self, id: &str) -> (r: Option<(u64, bool)>)
        ensures
            match r {
                Some(v) => self.map_view().contains_key(id@) && self.map_view()[id@] == v,
                None => !self.map_view().contains_key(id@),
            },
    {
        proof {
            use_type_invariant(self);
        }
        let ghost v0 = health_entries(self.records@);
        proof {
            lemma_health_map_unique(v0);
        }
        let idc = str_chars(id);
        let mut i: usize = 0;
        while i < self.records.len()
            invariant
                idc@ == id@,
                v0 == health_entries(self.records@),
                i <= self.records@.len(),
                forall|k: int| 0 <= k < i ==> v0[k].0 != id@,
            decreases self.records@.len() - i,
        {
            let nc = str_chars(self.records[i].id.as_str());
            if chars_eq(&nc, &idc) {
                proof {
                    use_type_invariant(self);
                    lemma_health_map_unique(v0);
                    assert(v0[i as int].0 == id@);
                }
                return Some((self.records[i].last_heartbeat, self.records[i].is_alive));
            }
            i = i + 1;
        }
        proof {
            if self.map_view().contains_key(id@) {
                let k = choose|k: int| 0 <= k < v0.len() && v0[k].0 == id@;
                assert(v0[k].0 != id@);
            }
        }
        None
    }
}

} // verus!
