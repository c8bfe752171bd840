//! The consistent-hash ring: an ordered map from 64-bit positions to node
//! identifiers built from virtual nodes, plus the registry of nodes and the
//! identifier-order replica-selection policy.

use vstd::prelude::*;
use crate::ring::{position_of, position_of_chars};
use crate::text::{lex_lt, dec_chars, chars_lt, chars_eq, str_chars, append_chars, push_dec_u64};
use crate::text::{lemma_lex_lt_irreflexive, lemma_lex_lt_total, lemma_lex_lt_transitive};

verus! {

/// A storage node: a unique identifier and the handle of its durable engine.
pub struct Node {
    pub id: String,
    pub db: sled::Db,
}

/// The ring: virtual-node positions mapping to node identifiers, and the
/// registry of nodes, kept sorted by identifier.
pub struct HashRing {
    ring: Vec<(u64, String)>,
    vnode_count: usize,
    nodes: Vec<Node>,
}

// --- the mathematical model ---

/// The entries of a position vector, with identifiers as character sequences.
pub open spec fn rv(r: Seq<(u64, String)>) -> Seq<(u64, Seq<char>)> {
    r.map_values(|e: (u64, String)| (e.0, e.1@))
}

/// The identifiers of a node vector, as character sequences.
pub open spec fn nids(nodes: Seq<Node>) -> Seq<Seq<char>> {
    nodes.map_values(|n: Node| n.id@)
}

/// Strictly increasing positions.
pub open spec fn entries_sorted(r: Seq<(u64, Seq<char>)>) -> bool {
    forall|i: int, j: int| 0 <= i < j < r.len() ==> r[i].0 < r[j].0
}

/// Strictly increasing identifiers.
pub open spec fn ids_sorted(ids: Seq<Seq<char>>) -> bool {
    forall|i: int, j: int| 0 <= i < j < ids.len() ==> lex_lt(ids[i], ids[j])
}

/// The position map as a fold of the entry sequence, later entries winning.
pub open spec fn entries_map(r: Seq<(u64, Seq<char>)>) -> Map<u64, Seq<char>>
    decreases r.len(),
{
    if r.len() == 0 {
        Map::empty()
    } else {
        entries_map(r.drop_last()).insert(r.last().0, r.last().1)
    }
}

/// The identifier of the first entry at or after position `h`, if any.
pub open spec fn succ_node(r: Seq<(u64, Seq<char>)>, h: u64) -> Option<Seq<char>>
    decreases r.len(),
{
    if r.len() == 0 {
        None
    } else if r[0].0 >= h {
        Some(r[0].1)
    } else {
        succ_node(r.drop_first(), h)
    }
}

/// The consistent-hashing lookup: the successor of `h` in the ring, wrapping
/// around to the smallest position; `None` only on an empty ring.
pub open spec fn spec_locate(r: Seq<(u64, Seq<char>)>, h: u64) -> Option<Seq<char>> {
    match succ_node(r, h) {
        Some(id) => Some(id),
        None => if r.len() > 0 {
            Some(r[0].1)
        } else {
            None
        },
    }
}

/// The key hashed for the `i`-th virtual node of a node identifier.
pub open spec fn vnode_key(id: Seq<char>, i: nat) -> Seq<char> {
    id + seq!['-'] + dec_chars(i)
}

/// The position map after placing the `n` virtual nodes of `id`, in order,
/// last write winning.
pub open spec fn add_vnodes(m: Map<u64, Seq<char>>, id: Seq<char>, n: nat) -> Map<u64, Seq<char>>
    decreases n,
{
    if n == 0 {
        m
    } else {
        add_vnodes(m, id, (n - 1) as nat).insert(position_of(vnode_key(id, (n - 1) as nat)), id)
    }
}

/// A sorted identifier list with `id` inserted, unchanged if already present.
pub open spec fn insert_id(ids: Seq<Seq<char>>, id: Seq<char>) -> Seq<Seq<char>>
    decreases ids.len(),
{
    if ids.len() == 0 {
        seq![id]
    } else if lex_lt(ids[0], id) {
        seq![ids[0]] + insert_id(ids.drop_first(), id)
    } else if ids[0] == id {
        ids
    } else {
        seq![id] + ids
    }
}

/// The index of `id` in a list of identifiers (the list's length if absent).
pub open spec fn index_of_id(ids: Seq<Seq<char>>, id: Seq<char>) -> int
    decreases ids.len(),
{
    if ids.len() == 0 {
        0
    } else if ids[0] == id {
        0
    } else {
        1 + index_of_id(ids.drop_first(), id)
    }
}

/// The replica set for a leader: the next two distinct identifiers after the
/// leader's, cyclically in identifier order; fewer when fewer nodes exist.
pub open spec fn spec_followers(ids: Seq<Seq<char>>, leader: Seq<char>) -> Seq<Seq<char>> {
    let n = ids.len() as int;
    let i = index_of_id(ids, leader);
    if n >= 3 {
        seq![ids[(i + 1) % n], ids[(i + 2) % n]]
    } else if n == 2 {
        seq![ids[(i + 1) % 2]]
    } else {
        Seq::empty()
    }
}

impl HashRing {
    /// The ring's entries, sorted by position.
    pub closed spec fn ring_seq(&self) -> Seq<(u64, Seq<char>)> {
        rv(self.ring@)
    }

    /// The ring as a position map.
    pub open spec fn ring_map(&self) -> Map<u64, Seq<char>> {
        entries_map(self.ring_seq())
    }

    /// The registered node identifiers, in lexicographic order.
    pub closed spec fn ids(&self) -> Seq<Seq<char>> {
        nids(self.nodes@)
    }

    /// The number of virtual nodes placed per node.
    pub closed spec fn spec_vnode_count(&self) -> nat {
        self.vnode_count as nat
    }

    #[verifier::type_invariant]
    spec fn wf(&self) -> bool {
        &&& entries_sorted(self.ring_seq())
        &&& forall|i: int|
            0 <= i < self.ring_seq().len() ==> self.ids().contains(#[trigger] self.ring_seq()[i].1)
        &&& ids_sorted(self.ids())
    }

    /// An empty ring with the given virtual-node count.
    pub fn new(vnode_count: usize) -> (r: Self)
        ensures
            r.ring_seq() == Seq::<(u64, Seq<char>)>::empty(),
            r.ids() == Seq::<Seq<char>>::empty(),
            r.spec_vnode_count() == vnode_count as nat,
    {
        let r = HashRing { ring: Vec::new(), vnode_count, nodes: Vec::new() };
        proof {
            assert(r.ring_seq() =~= Seq::<(u64, Seq<char>)>::empty());
            assert(r.ids() =~= Seq::<Seq<char>>::empty());
        }
        r
    }

    /// All registered node identifiers, in strictly increasing lexicographic
    /// order (so no identifier appears twice).
    pub fn get_all_node_ids(&self) -> (r: Vec<String>)
        ensures
            r.deep_view() == self.ids(),
            ids_sorted(self.ids()),
    {
        proof {
            use_type_invariant(self);
        }
        let mut r: Vec<String> = Vec::new();
        let mut i: usize = 0;
        while i < self.nodes.len()
            invariant
                i <= self.nodes@.len(),
                r@.len() == i,
                forall|k: int| 0 <= k < i ==> r@[k]@ == self.ids()[k],
            decreases self.nodes@.len() - i,
        {
            r.push(self.nodes[i].id.clone());
            i = i + 1;
        }
        proof {
            assert(forall|k: int|
                0 <= k < r@.len() ==> r.deep_view()[k] == #[trigger] r@[k]@);
            assert(r.deep_view() =~= self.ids());
        }
        r
    }

    fn node_index_for(&self, idc: &Vec<char>) -> (r: Option<usize>)
        ensures
            match r {
                Some(i) => i < self.ids().len() && self.ids()[i as int] == idc@ && forall|k: int|
                    0 <= k < i ==> self.ids()[k] != idc@,
                None => !self.ids().contains(idc@),
            },
    {
        let mut i: usize = 0;
        while i < self.nodes.len()
            invariant
                i <= self.nodes@.len(),
                forall|j: int| 0 <= j < i ==> self.ids()[j] != idc@,
            decreases self.nodes@.len() - i,
        {
            let nc = str_chars(self.nodes[i].id.as_str());
            if chars_eq(&nc, idc) {
                return Some(i);
            }
            i = i + 1;
        }
        proof {
            if self.ids().contains(idc@) {
                let j = choose|j: int| 0 <= j < self.ids().len() && self.ids()[j] == idc@;
                assert(self.ids()[j] != idc@);
            }
        }
        None
    }

    /// The node registered under an identifier, if any.
    pub fn get_node_by_id(&self, id: &str) -> (r: Option<&Node>)
        ensures
            match r {
                Some(node) => node.id@ == id@ && self.ids().contains(id@),
                None => !self.ids().contains(id@),
            },
    {
        let idc = str_chars(id);
        match self.node_index_for(&idc) {
            Some(i) => {
                proof {
                    assert(self.ids()[i as int] == self.nodes@[i as int].id@);
                }
                Some(&self.nodes[i])
            },
            None => None,
        }
    }

    fn succ_index(&self, h: u64) -> (r: Option<usize>)
        ensures
            match r {
                Some(i) => i < self.ring_seq().len() && succ_node(self.ring_seq(), h) == Some(
                    self.ring_seq()[i as int].1,
                ),
                None => succ_node(self.ring_seq(), h) is None,
            },
    {
        let ghost rs = self.ring_seq();
        let mut i: usize = 0;
        proof {
            assert(rs.skip(0) =~= rs);
        }
        while i < self.ring.len()
            invariant
                i <= rs.len(),
                rs == self.ring_seq(),
                rs.len() == self.ring@.len(),
                forall|k: int| 0 <= k < rs.len() ==> rs[k] == (self.ring@[k].0, self.ring@[k].1@),
                succ_node(rs, h) == succ_node(rs.skip(i as int), h),
            decreases rs.len() - i,
        {
            if self.ring[i].0 >= h {
                proof {
                    assert(rs.skip(i as int)[0] == rs[i as int]);
                }
                return Some(i);
            }
            proof {
                assert(rs.skip(i as int).drop_first() =~= rs.skip(i + 1));
            }
            i = i + 1;
        }
        proof {
            assert(rs.skip(rs.len() as int) =~= Seq::<(u64, Seq<char>)>::empty());
        }
        None
    }

    /// The node owning a key: the successor of the key's position, wrapping
    /// around; `None` exactly when the ring is empty.
    pub fn get_node(&self, key: &str) -> (r: Option<&Node>)
        ensures
            r is Some <==> self.ring_seq().len() > 0,
            r matches Some(node) ==> spec_locate(self.ring_seq(), position_of(key@)) == Some(
                node.id@,
            ),
    {
        let h = crate::ring::get_node_for_key(key);
        self.get_node_at(h)
    }

    /// The node owning a position: as `get_node`, for a precomputed position.
    pub fn get_node_at(&self, h: u64) -> (r: Option<&Node>)
        ensures
            r is Some <==> self.ring_seq().len() > 0,
            r matches Some(node) ==> spec_locate(self.ring_seq(), h) == Some(node.id@),
    {
        proof {
            use_type_invariant(self);
        }
        let ghost rs = self.ring_seq();
        if self.ring.len() == 0 {
            return None;
        }
        let owner_index: usize = match self.succ_index(h) {
            Some(i) => i,
            None => 0,
        };
        let ghost owner_id = rs[owner_index as int].1;
        proof {
            assert(spec_locate(rs, h) == Some(owner_id));
            assert(self.ids().contains(owner_id));
        }
        let target = str_chars(self.ring[owner_index].1.as_str());
        match self.node_index_for(&target) {
            Some(j) => {
                proof {
                    assert(self.ids()[j as int] == self.nodes@[j as int].id@);
                }
                Some(&self.nodes[j])
            },
            None => {
                proof {
                    assert(false);
                }
                None
            },
        }
    }

    /// Registers a node, replacing its engine handle if it is already
    /// present, and places its virtual nodes in the ring, last write winning.
    pub fn add_node(&mut self, node_id: &str, db: sled::Db)
        ensures
            final(self).ring_map() == add_vnodes(
                old(self).ring_map(),
                node_id@,
                old(self).spec_vnode_count(),
            ),
            final(self).ids() == insert_id(old(self).ids(), node_id@),
            final(self).spec_vnode_count() == old(self).spec_vnode_count(),
            old(self).spec_vnode_count() > 0 ==> final(self).ring_seq().len() > 0,
    {
        proof {
            use_type_invariant(&*self);
        }
        let ghost ids0 = self.ids();
        let ghost rs0 = self.ring_seq();
        let ghost em0 = self.ring_map();
        let idc = str_chars(node_id);
        let mut ring: Vec<(u64, String)> = Vec::new();
        core::mem::swap(&mut ring, &mut self.ring);
        let mut nodes: Vec<Node> = Vec::new();
        core::mem::swap(&mut nodes, &mut self.nodes);

        // registry: sorted insert, or replacement of the engine handle
        let i = find_insert_index(&nodes, &idc);
        let ghost new_ids: Seq<Seq<char>>;
        proof {
            lemma_insert_id_at(ids0, node_id@, i as int);
        }
        let present = if i < nodes.len() {
            let nc = str_chars(nodes[i].id.as_str());
            chars_eq(&nc, &idc)
        } else {
            false
        };
        if present {
            let _ = nodes.remove(i);
            nodes.insert(i, Node { id: node_id.to_owned(), db });
            proof {
                assert(nids(nodes@) =~= ids0);
                new_ids = ids0;
            }
        } else {
            nodes.insert(i, Node { id: node_id.to_owned(), db });
            proof {
                assert(nids(nodes@) =~= ids0.take(i as int) + seq![node_id@] + ids0.skip(
                    i as int,
                ));
                new_ids = nids(nodes@);
                let ii = i as int;
                assert(forall|k: int| 0 <= k < ii ==> new_ids[k] == ids0[k]);
                assert(new_ids[ii] == node_id@);
                assert(forall|k: int| ii < k < new_ids.len() ==> new_ids[k] == ids0[k - 1]);
                if ii < ids0.len() {
                    assert(!lex_lt(ids0[ii], node_id@));
                    assert(ids0[ii] != node_id@);
                    lemma_lex_lt_total(ids0[ii], node_id@);
                    assert(lex_lt(node_id@, ids0[ii]));
                }
                assert forall|a: int, b: int|
                    0 <= a < b < new_ids.len() implies lex_lt(new_ids[a], new_ids[b]) by {
                    if b < ii {
                    } else if b == ii {
                        assert(lex_lt(ids0[a], node_id@));
                    } else if a == ii {
                        if b - 1 > ii {
                            lemma_lex_lt_transitive(node_id@, ids0[ii], ids0[b - 1]);
                        }
                    } else if a < ii {
                        assert(new_ids[a] == ids0[a] && new_ids[b] == ids0[b - 1]);
                    } else {
                        assert(new_ids[a] == ids0[a - 1] && new_ids[b] == ids0[b - 1]);
                    }
                }
            }
        }
        proof {
            assert(ids_sorted(new_ids));
            assert(nids(nodes@) == new_ids);
            assert(new_ids == insert_id(ids0, node_id@));
            assert(new_ids.contains(node_id@)) by {
                if present || (i < ids0.len() && ids0[i as int] == node_id@) {
                    assert(new_ids[i as int] == node_id@);
                } else {
                    assert(new_ids[i as int] == node_id@);
                }
            }
            assert forall|x: Seq<char>| ids0.contains(x) implies new_ids.contains(x) by {
                if !present {
                    let k = choose|k: int| 0 <= k < ids0.len() && ids0[k] == x;
                    if k < i {
                        assert(new_ids[k] == x);
                    } else {
                        assert(new_ids[k + 1] == x);
                    }
                }
            }
        }

        // ring: place the virtual nodes, in order
        let mut vi: usize = 0;
        while vi < self.vnode_count
            invariant
                vi <= self.vnode_count,
                idc@ == node_id@,
                entries_sorted(rv(ring@)),
                entries_map(rv(ring@)) == add_vnodes(em0, node_id@, vi as nat),
                forall|k: int|
                    0 <= k < rv(ring@).len() ==> (#[trigger] rv(ring@)[k].1 == node_id@ || exists|j: int|
                        0 <= j < rs0.len() && rs0[j].1 == rv(ring@)[k].1),
                vi > 0 ==> ring@.len() > 0,
                ring@.len() >= rs0.len() || vi > 0,
                vi == 0 ==> rv(ring@) == rs0,
            decreases self.vnode_count - vi,
        {
            let mut kc: Vec<char> = Vec::new();
            append_chars(&mut kc, &idc);
            kc.push('-');
            push_dec_u64(&mut kc, vi as u64);
            proof {
                assert(idc@ == node_id@);
                assert(kc@ =~= idc@ + seq!['-'] + dec_chars((vi as u64) as nat));
                assert((vi as u64) as nat == vi as nat);
                assert(kc@ =~= vnode_key(node_id@, vi as nat));
            }
            let pos = position_of_chars(&kc);
            ring_insert(&mut ring, pos, node_id);
            vi = vi + 1;
        }

        // restore, registry first so every ring entry's owner is registered
        self.nodes = nodes;
        proof {
            assert(self.ring_seq() =~= Seq::<(u64, Seq<char>)>::empty());
            assert forall|k: int|
                0 <= k < rv(ring@).len() implies new_ids.contains(#[trigger] rv(ring@)[k].1) by {
                if rv(ring@)[k].1 != node_id@ {
                    let j = choose|j: int| 0 <= j < rs0.len() && rs0[j].1 == rv(ring@)[k].1;
                    assert(ids0.contains(rs0[j].1));
                }
            }
        }
        self.ring = ring;
    }

    /// Deregisters a node and deletes every ring entry it owns; removing an
    /// absent node changes nothing.
    pub fn remove_node(&mut self, node_id: &str)
        ensures
            final(self).ring_seq() == old(self).ring_seq().filter(other_owner(node_id@)),
            final(self).ids() == old(self).ids().filter(other_id(node_id@)),
            final(self).spec_vnode_count() == old(self).spec_vnode_count(),
    {
        proof {
            use_type_invariant(&*self);
        }
        let ghost ids0 = self.ids();
        let ghost rs0 = self.ring_seq();
        let idc = str_chars(node_id);
        let mut ring: Vec<(u64, String)> = Vec::new();
        core::mem::swap(&mut ring, &mut self.ring);
        let mut nodes: Vec<Node> = Vec::new();
        core::mem::swap(&mut nodes, &mut self.nodes);

        // registry: keep every node whose identifier differs
        let ghost orig = nodes@;
        let mut new_nodes: Vec<Node> = Vec::new();
        let ghost mut i: int = 0;
        proof {
            reveal(Seq::filter);
            assert(nodes@ =~= orig.skip(0));
            assert(nids(orig.take(0)).filter(other_id(node_id@)) =~= nids(new_nodes@));
        }
        while nodes.len() > 0
            invariant
                idc@ == node_id@,
                0 <= i <= orig.len(),
                nodes@ =~= orig.skip(i),
                nids(new_nodes@) == nids(orig.take(i)).filter(other_id(node_id@)),
            decreases nodes@.len(),
        {
            proof {
                assert(orig.skip(i).len() > 0);
            }
            let node = nodes.remove(0);
            proof {
                assert(orig.skip(i)[0] == orig[i]);
                assert(node == orig[i]);
                assert(nodes@ =~= orig.skip(i + 1));
            }
            let nc = str_chars(node.id.as_str());
            let keep = !chars_eq(&nc, &idc);
            if keep {
                new_nodes.push(node);
            }
            proof {
                reveal(Seq::filter);
                assert(nids(orig.take(i + 1)).drop_last() =~= nids(orig.take(i)));
                assert(nids(orig.take(i + 1)).last() == orig[i].id@);
                assert(nids(new_nodes@) =~= nids(orig.take(i + 1)).filter(other_id(node_id@)));
                i = i + 1;
            }
        }
        proof {
            assert(orig.take(orig.len() as int) =~= orig);
            assert(nids(orig) == ids0);
        }

        // ring: keep every entry owned by another node
        let mut new_ring: Vec<(u64, String)> = Vec::new();
        let mut j: usize = 0;
        proof {
            reveal(Seq::filter);
            assert(rv(ring@) == rs0);
            assert(rv(ring@.take(0)) =~= Seq::<(u64, Seq<char>)>::empty());
            assert(rv(ring@.take(0)).filter(other_owner(node_id@)) =~= rv(new_ring@));
        }
        while j < ring.len()
            invariant
                idc@ == node_id@,
                j <= ring@.len(),
                rv(ring@) == rs0,
                rv(new_ring@) == rv(ring@.take(j as int)).filter(other_owner(node_id@)),
            decreases ring@.len() - j,
        {
            let nc = str_chars(ring[j].1.as_str());
            let keep = !chars_eq(&nc, &idc);
            if keep {
                let s = ring[j].1.clone();
                new_ring.push((ring[j].0, s));
            }
            proof {
                reveal(Seq::filter);
                assert(rv(ring@.take(j + 1)).drop_last() =~= rv(ring@.take(j as int)));
                assert(rv(ring@.take(j + 1)).last() == (ring@[j as int].0, ring@[j as int].1@));
                assert(rv(new_ring@) =~= rv(ring@.take(j + 1)).filter(other_owner(node_id@)));
            }
            j = j + 1;
        }
        proof {
            assert(ring@.take(ring@.len() as int) =~= ring@);
            assert(rv(new_ring@) == rs0.filter(other_owner(node_id@)));
        }

        // restore; well-formedness follows because filtering keeps order
        proof {
            lemma_filter_ids_props(ids0, other_id(node_id@));
            lemma_filter_ring_props(rs0, other_owner(node_id@));
        }
        self.nodes = new_nodes;
        proof {
            assert(self.ring_seq() =~= Seq::<(u64, Seq<char>)>::empty());
            let new_ids = ids0.filter(other_id(node_id@));
            let new_rs = rs0.filter(other_owner(node_id@));
            assert forall|k: int|
                0 <= k < new_rs.len() implies new_ids.contains(#[trigger] new_rs[k].1) by {
                rs0.lemma_filter_pred(other_owner(node_id@), k);
                assert(rs0.contains(new_rs[k]));
                let w = choose|w: int| 0 <= w < rs0.len() && rs0[w] == new_rs[k];
                assert(ids0.contains(rs0[w].1));
                let z = choose|z: int| 0 <= z < ids0.len() && ids0[z] == rs0[w].1;
                ids0.lemma_filter_contains(other_id(node_id@), z);
            }
        }
        self.ring = new_ring;
    }

    /// The identifiers of the key's replica nodes: the next two distinct
    /// identifiers after the leader's, cyclically in lexicographic order;
    /// one identifier with two nodes, none with fewer or on an empty ring.
    pub fn get_follower_node_ids(&self, key: &str) -> (r: Vec<String>)
        ensures
            match spec_locate(self.ring_seq(), position_of(key@)) {
                None => r.deep_view() == Seq::<Seq<char>>::empty(),
                Some(leader) => r.deep_view() == spec_followers(self.ids(), leader),
            },
            r@.len() <= 2,
            self.ids().len() >= 3 && self.ring_seq().len() > 0 ==> r@.len() == 2,
            forall|a: int|
                0 <= a < r.deep_view().len() ==> self.ids().contains(#[trigger] r.deep_view()[a]),
            forall|a: int, b: int|
                0 <= a < b < r.deep_view().len() ==> r.deep_view()[a] != r.deep_view()[b],
            (match spec_locate(self.ring_seq(), position_of(key@)) {
                Some(leader) => forall|a: int|
                    0 <= a < r.deep_view().len() ==> r.deep_view()[a] != leader,
                None => true,
            }),
    {
        proof {
            use_type_invariant(self);
        }
        let ghost rs = self.ring_seq();
        let ghost h = position_of(key@);
        let leaderc = match self.get_node(key) {
            Some(node) => str_chars(node.id.as_str()),
            None => {
                let r: Vec<String> = Vec::new();
                proof {
                    assert(r.deep_view() =~= Seq::<Seq<char>>::empty());
                }
                return r;
            },
        };
        let ghost leader = leaderc@;
        proof {
            lemma_locate_in_ring(rs, h);
            let w = choose|w: int| 0 <= w < rs.len() && rs[w].1 == leader;
            assert(self.ids().contains(leader));
        }
        let idx = match self.node_index_for(&leaderc) {
            Some(i) => i,
            None => {
                proof {
                    assert(false);
                }
                return Vec::new();
            },
        };
        proof {
            lemma_index_of_id_at(self.ids(), leader, idx as int);
        }
        let n = self.nodes.len();
        let ghost ni = n as int;
        let mut r: Vec<String> = Vec::new();
        if n >= 3 {
            let j1 = if idx + 1 >= n {
                idx + 1 - n
            } else {
                idx + 1
            };
            let j2 = if j1 + 1 >= n {
                j1 + 1 - n
            } else {
                j1 + 1
            };
            proof {
                lemma_wrap_is_mod(idx as int + 1, ni);
                lemma_wrap_is_mod(idx as int + 2, ni);
                assert(j1 == (idx as int + 1) % ni);
                if j1 + 1 == n {
                    assert(idx as int + 2 == ni || idx as int + 2 == 2 * ni);
                }
                assert(j2 == (idx as int + 2) % ni);
            }
            r.push(self.nodes[j1].id.clone());
            r.push(self.nodes[j2].id.clone());
            proof {
                assert(j1 != idx && j2 != idx && j1 != j2);
                lemma_sorted_ids_distinct(self.ids(), j1 as int, j2 as int);
                lemma_sorted_ids_distinct(self.ids(), idx as int, j1 as int);
                lemma_sorted_ids_distinct(self.ids(), idx as int, j2 as int);
                assert(self.ids().contains(self.ids()[j1 as int]));
                assert(self.ids().contains(self.ids()[j2 as int]));
                assert(r.deep_view() =~= spec_followers(self.ids(), leader));
            }
        } else if n == 2 {
            let j1 = if idx + 1 >= 2 {
                idx + 1 - 2
            } else {
                idx + 1
            };
            proof {
                lemma_wrap_is_mod(idx as int + 1, 2);
                assert(j1 == (idx as int + 1) % 2);
            }
            r.push(self.nodes[j1].id.clone());
            proof {
                assert(j1 != idx);
                lemma_sorted_ids_distinct(self.ids(), idx as int, j1 as int);
                assert(self.ids().contains(self.ids()[j1 as int]));
                assert(r.deep_view() =~= spec_followers(self.ids(), leader));
            }
        } else {
            proof {
                assert(r.deep_view() =~= spec_followers(self.ids(), leader));
            }
        }
        r
    }
}

// --- the laws of the lookup and of replica selection ---

/// Ring determinism: the lookup is a function of the ring state and the key's
/// position alone, so repeated lookups against the same state agree.
pub proof fn lemma_locate_deterministic(
    r1: Seq<(u64, Seq<char>)>,
    r2: Seq<(u64, Seq<char>)>,
    h1: u64,
    h2: u64,
)
    requires
        r1 == r2,
        h1 == h2,
    ensures
        spec_locate(r1, h1) == spec_locate(r2, h2),
{
}

/// Ring coverage: the lookup returns an owner for every key on a nonempty
/// ring, and nothing on an empty one.
pub proof fn lemma_locate_coverage(r: Seq<(u64, Seq<char>)>, h: u64)
    ensures
        (spec_locate(r, h) is Some) <==> r.len() > 0,
{
}

/// Wraparound: a position after every ring entry resolves to the node owning
/// the smallest ring position.
pub proof fn lemma_locate_wraparound(r: Seq<(u64, Seq<char>)>, h: u64)
    requires
        r.len() > 0,
        forall|i: int| 0 <= i < r.len() ==> r[i].0 < h,
    ensures
        spec_locate(r, h) == Some(r[0].1),
{
    lemma_succ_none(r, h);
}

/// Follower distinctness: with at least three registered nodes, the replica
/// set holds exactly two identifiers, both different from the leader's and
/// from each other.
pub proof fn lemma_followers_distinct(ids: Seq<Seq<char>>, leader: Seq<char>)
    requires
        ids_sorted(ids),
        ids.contains(leader),
        ids.len() >= 3,
    ensures
        spec_followers(ids, leader).len() == 2,
        spec_followers(ids, leader)[0] != leader,
        spec_followers(ids, leader)[1] != leader,
        spec_followers(ids, leader)[0] != spec_followers(ids, leader)[1],
        ids.contains(spec_followers(ids, leader)[0]),
        ids.contains(spec_followers(ids, leader)[1]),
{
    let n = ids.len() as int;
    lemma_index_of_id_contains(ids, leader);
    let i = index_of_id(ids, leader);
    lemma_wrap_is_mod(i + 1, n);
    lemma_wrap_is_mod(i + 2, n);
    let j1 = (i + 1) % n;
    let j2 = (i + 2) % n;
    assert(j1 == if i + 1 < n { i + 1 } else { i + 1 - n });
    assert(j2 == if i + 2 < n { i + 2 } else { i + 2 - n });
    assert(j1 != i && j2 != i && j1 != j2);
    lemma_sorted_ids_distinct(ids, i, j1);
    lemma_sorted_ids_distinct(ids, i, j2);
    lemma_sorted_ids_distinct(ids, j1, j2);
    assert(ids.contains(ids[j1]));
    assert(ids.contains(ids[j2]));
}

proof fn lemma_succ_none(r: Seq<(u64, Seq<char>)>, h: u64)
    requires
        forall|i: int| 0 <= i < r.len() ==> r[i].0 < h,
    ensures
        succ_node(r, h) is None,
    decreases r.len(),
{
    if r.len() > 0 {
        assert(forall|i: int|
            0 <= i < r.drop_first().len() ==> #[trigger] r.drop_first()[i].0 == r[i + 1].0);
        lemma_succ_none(r.drop_first(), h);
    }
}

proof fn lemma_succ_in_ring(r: Seq<(u64, Seq<char>)>, h: u64)
    ensures
        succ_node(r, h) matches Some(x) ==> exists|i: int| 0 <= i < r.len() && r[i].1 == x,
    decreases r.len(),
{
    if r.len() > 0 && r[0].0 < h {
        lemma_succ_in_ring(r.drop_first(), h);
        match succ_node(r.drop_first(), h) {
            Some(x) => {
                let i = choose|i: int|
                    0 <= i < r.drop_first().len() && r.drop_first()[i].1 == x;
                assert(r[i + 1].1 == x);
            },
            None => {},
        }
    }
}

/// Whatever the lookup returns names some ring entry's owner.
pub proof fn lemma_locate_in_ring(r: Seq<(u64, Seq<char>)>, h: u64)
    ensures
        spec_locate(r, h) matches Some(x) ==> exists|i: int| 0 <= i < r.len() && r[i].1 == x,
{
    lemma_succ_in_ring(r, h);
    if succ_node(r, h) is None && r.len() > 0 {
        assert(r[0].1 == r[0].1);
    }
}

proof fn lemma_index_of_id_contains(ids: Seq<Seq<char>>, id: Seq<char>)
    requires
        ids.contains(id),
    ensures
        0 <= index_of_id(ids, id) < ids.len(),
        ids[index_of_id(ids, id)] == id,
    decreases ids.len(),
{
    if ids.len() > 0 && ids[0] != id {
        let k = choose|k: int| 0 <= k < ids.len() && ids[k] == id;
        assert(ids.drop_first()[k - 1] == id);
        assert(ids.drop_first().contains(ids.drop_first()[k - 1]));
        lemma_index_of_id_contains(ids.drop_first(), id);
    }
}

proof fn lemma_index_of_id_at(ids: Seq<Seq<char>>, id: Seq<char>, i: int)
    requires
        0 <= i < ids.len(),
        ids[i] == id,
        forall|k: int| 0 <= k < i ==> ids[k] != id,
    ensures
        index_of_id(ids, id) == i,
    decreases i,
{
    if i > 0 {
        let dl = ids.drop_first();
        assert(dl[i - 1] == id);
        assert(forall|k: int| 0 <= k < i - 1 ==> #[trigger] dl[k] == ids[k + 1]);
        lemma_index_of_id_at(dl, id, i - 1);
    }
}

pub(crate) proof fn lemma_sorted_ids_distinct(ids: Seq<Seq<char>>, a: int, b: int)
    requires
        ids_sorted(ids),
        0 <= a < ids.len(),
        0 <= b < ids.len(),
        a != b,
    ensures
        ids[a] != ids[b],
{
    if ids[a] == ids[b] {
        if a < b {
            assert(lex_lt(ids[a], ids[b]));
        } else {
            assert(lex_lt(ids[b], ids[a]));
        }
        lemma_lex_lt_irreflexive(ids[a]);
    }
}

proof fn lemma_wrap_is_mod(x: int, n: int)
    requires
        0 < n,
        0 <= x < 2 * n,
    ensures
        x % n == if x < n { x } else { x - n },
{
    if x < n {
        vstd::arithmetic::div_mod::lemma_fundamental_div_mod_converse(x, n, 0, x);
    } else {
        vstd::arithmetic::div_mod::lemma_fundamental_div_mod_converse(x, n, 1, x - n);
    }
}

/// Holds of a ring entry owned by a node other than `id`.
pub open spec fn other_owner(id: Seq<char>) -> spec_fn((u64, Seq<char>)) -> bool {
    |e: (u64, Seq<char>)| e.1 != id
}

/// Holds of an identifier other than `id`.
pub open spec fn other_id(id: Seq<char>) -> spec_fn(Seq<char>) -> bool {
    |x: Seq<char>| x != id
}

/// Filtering a sorted identifier list keeps it sorted and draws only from it.
proof fn lemma_filter_ids_props(s: Seq<Seq<char>>, pred: spec_fn(Seq<char>) -> bool)
    requires
        ids_sorted(s),
    ensures
        ids_sorted(s.filter(pred)),
        forall|i: int| 0 <= i < s.filter(pred).len() ==> s.contains(#[trigger] s.filter(pred)[i]),
    decreases s.len(),
{
    reveal(Seq::filter);
    if s.len() > 0 {
        let dl = s.drop_last();
        assert(forall|i: int| 0 <= i < dl.len() ==> dl[i] == s[i]);
        assert(ids_sorted(dl));
        lemma_filter_ids_props(dl, pred);
        let f = s.filter(pred);
        let fd = dl.filter(pred);
        assert forall|i: int| 0 <= i < fd.len() implies s.contains(#[trigger] fd[i]) by {
            assert(dl.contains(fd[i]));
            let k = choose|k: int| 0 <= k < dl.len() && dl[k] == fd[i];
            assert(s[k] == fd[i]);
        }
        if pred(s.last()) {
            assert(f == fd.push(s.last()));
            assert forall|i: int, j: int|
                0 <= i < j < f.len() implies lex_lt(f[i], f[j]) by {
                if j < f.len() - 1 {
                    assert(f[i] == fd[i] && f[j] == fd[j]);
                } else {
                    assert(f[j] == s.last());
                    assert(f[i] == fd[i]);
                    assert(dl.contains(fd[i]));
                    let k = choose|k: int| 0 <= k < dl.len() && dl[k] == fd[i];
                    assert(lex_lt(s[k], s[s.len() - 1]));
                }
            }
            assert forall|i: int| 0 <= i < f.len() implies s.contains(#[trigger] f[i]) by {
                if i < f.len() - 1 {
                    assert(f[i] == fd[i]);
                } else {
                    assert(f[i] == s[s.len() - 1]);
                }
            }
        } else {
            assert(f == fd);
        }
    }
}

/// Filtering a sorted ring keeps it sorted and draws only from it.
proof fn lemma_filter_ring_props(s: Seq<(u64, Seq<char>)>, pred: spec_fn((u64, Seq<char>)) -> bool)
    requires
        entries_sorted(s),
    ensures
        entries_sorted(s.filter(pred)),
        forall|i: int| 0 <= i < s.filter(pred).len() ==> s.contains(#[trigger] s.filter(pred)[i]),
    decreases s.len(),
{
    reveal(Seq::filter);
    if s.len() > 0 {
        let dl = s.drop_last();
        assert(forall|i: int| 0 <= i < dl.len() ==> dl[i] == s[i]);
        assert(entries_sorted(dl));
        lemma_filter_ring_props(dl, pred);
        let f = s.filter(pred);
        let fd = dl.filter(pred);
        assert forall|i: int| 0 <= i < fd.len() implies s.contains(#[trigger] fd[i]) by {
            assert(dl.contains(fd[i]));
            let k = choose|k: int| 0 <= k < dl.len() && dl[k] == fd[i];
            assert(s[k] == fd[i]);
        }
        if pred(s.last()) {
            assert(f == fd.push(s.last()));
            assert forall|i: int, j: int|
                0 <= i < j < f.len() implies f[i].0 < f[j].0 by {
                if j < f.len() - 1 {
                    assert(f[i] == fd[i] && f[j] == fd[j]);
                } else {
                    assert(f[j] == s.last());
                    assert(f[i] == fd[i]);
                    assert(dl.contains(fd[i]));
                    let k = choose|k: int| 0 <= k < dl.len() && dl[k] == fd[i];
                    assert(s[k].0 < s[s.len() - 1].0);
                }
            }
            assert forall|i: int| 0 <= i < f.len() implies s.contains(#[trigger] f[i]) by {
                if i < f.len() - 1 {
                    assert(f[i] == fd[i]);
                } else {
                    assert(f[i] == s[s.len() - 1]);
                }
            }
        } else {
            assert(f == fd);
        }
    }
}

/// Finds where an identifier belongs in the sorted registry: the index of the
/// first entry not below it.
fn find_insert_index(nodes: &Vec<Node>, idc: &Vec<char>) -> (r: usize)
    ensures
        r <= nodes@.len(),
        forall|k: int| 0 <= k < r ==> lex_lt(#[trigger] nids(nodes@)[k], idc@),
        r < nodes@.len() ==> !lex_lt(nids(nodes@)[r as int], idc@),
{
    let mut i: usize = 0;
    while i < nodes.len()
        invariant
            i <= nodes@.len(),
            forall|k: int| 0 <= k < i ==> lex_lt(#[trigger] nids(nodes@)[k], idc@),
        decreases nodes@.len() - i,
    {
        let nc = str_chars(nodes[i].id.as_str());
        if !chars_lt(&nc, idc) {
            return i;
        }
        i = i + 1;
    }
    i
}

/// Finds where a position belongs in the sorted ring: the index of the first
/// entry at or after it.
fn ring_find_index(ring: &Vec<(u64, String)>, pos: u64) -> (r: usize)
    ensures
        r <= ring@.len(),
        forall|k: int| 0 <= k < r ==> rv(ring@)[k].0 < pos,
        r < ring@.len() ==> rv(ring@)[r as int].0 >= pos,
{
    let mut i: usize = 0;
    while i < ring.len()
        invariant
            i <= ring@.len(),
            forall|k: int| 0 <= k < i ==> rv(ring@)[k].0 < pos,
        decreases ring@.len() - i,
    {
        if ring[i].0 >= pos {
            return i;
        }
        i = i + 1;
    }
    i
}

/// Inserts a position into a sorted ring vector, last write winning on an
/// equal position.
fn ring_insert(ring: &mut Vec<(u64, String)>, pos: u64, id: &str)
    requires
        entries_sorted(rv(old(ring)@)),
    ensures
        entries_sorted(rv(final(ring)@)),
        entries_map(rv(final(ring)@)) == entries_map(rv(old(ring)@)).insert(pos, id@),
        forall|k: int|
            0 <= k < rv(final(ring)@).len() ==> (#[trigger] rv(final(ring)@)[k].1 == id@
                || exists|j: int|
                0 <= j < rv(old(ring)@).len() && rv(old(ring)@)[j].1 == rv(final(ring)@)[k].1),
        final(ring)@.len() > 0,
        final(ring)@.len() >= old(ring)@.len(),
{
    let ghost v0 = rv(old(ring)@);
    let i = ring_find_index(ring, pos);
    let replace = i < ring.len() && ring[i].0 == pos;
    if replace {
        let _ = ring.remove(i);
    }
    ring.insert(i, (pos, id.to_owned()));
    proof {
        let v1 = rv(ring@);
        let ii = i as int;
        if replace {
            assert(forall|k: int| 0 <= k < v1.len() && k != ii ==> v1[k] == v0[k]);
        } else {
            assert(forall|k: int| 0 <= k < ii ==> v1[k] == v0[k]);
            assert(forall|k: int| ii < k < v1.len() ==> v1[k] == v0[k - 1]);
        }
        assert(v1[ii] == (pos, id@));
        assert(entries_sorted(v1)) by {
            if replace {
            } else {
                assert(forall|k: int| ii < k < v1.len() ==> v1[k].0 == v0[k - 1].0 && v0[k - 1].0 >= pos);
            }
        }
        lemma_entries_map_unique(v0);
        lemma_entries_map_unique(v1);
        let m0 = entries_map(v0);
        let m1 = entries_map(v1);
        assert forall|p: u64| #[trigger] m1.contains_key(p) implies m0.insert(pos, id@).contains_key(
            p,
        ) by {
            let k = choose|k: int| 0 <= k < v1.len() && v1[k].0 == p;
            if k != ii {
                if replace {
                    assert(v0[k].0 == p);
                } else if k < ii {
                    assert(v0[k].0 == p);
                } else {
                    assert(v0[k - 1].0 == p);
                }
            }
        }
        assert forall|p: u64| #[trigger] m0.insert(pos, id@).contains_key(p) implies m1.contains_key(
            p,
        ) by {
            if p == pos {
                assert(v1[ii].0 == p);
            } else {
                let k = choose|k: int| 0 <= k < v0.len() && v0[k].0 == p;
                if replace {
                    assert(v0[ii].0 == pos);
                    assert(v1[k] == v0[k]);
                } else if k < ii {
                    assert(v1[k] == v0[k]);
                } else {
                    assert(v1[k + 1] == v0[k]);
                }
            }
        }
        assert forall|p: u64| m1.contains_key(p) implies m1[p] == m0.insert(pos, id@)[p] by {
            if p == pos {
                assert(m1[p] == v1[ii].1);
            } else {
                let k = choose|k: int| 0 <= k < v1.len() && v1[k].0 == p;
                assert(k != ii);
                assert(m1[p] == v1[k].1);
                if replace {
                    assert(v0[k] == v1[k]);
                    assert(m0[p] == v0[k].1);
                } else if k < ii {
                    assert(m0[p] == v0[k].1);
                } else {
                    assert(m0[p] == v0[k - 1].1);
                }
            }
        }
        assert(m1 =~= m0.insert(pos, id@));
        assert forall|k: int|
            0 <= k < v1.len() && v1[k].1 != id@ implies exists|j: int|
            0 <= j < v0.len() && v0[j].1 == v1[k].1 by {
            if replace {
                assert(v0[k].1 == v1[k].1);
            } else if k < ii {
                assert(v0[k].1 == v1[k].1);
            } else if k > ii {
                assert(v0[k - 1].1 == v1[k].1);
            }
        }
    }
}

// --- supporting lemmas ---

proof fn lemma_entries_map_unique(r: Seq<(u64, Seq<char>)>)
    requires
        forall|i: int, j: int| 0 <= i < j < r.len() ==> r[i].0 != r[j].0,
    ensures
        forall|p: u64|
            #[trigger] entries_map(r).contains_key(p) <==> exists|i: int|
                0 <= i < r.len() && r[i].0 == p,
        forall|i: int|
            0 <= i < r.len() ==> entries_map(r).contains_key(#[trigger] r[i].0) && entries_map(r)[r[i].0]
                == r[i].1,
    decreases r.len(),
{
    if r.len() > 0 {
        let dl = r.drop_last();
        assert(forall|i: int| 0 <= i < dl.len() ==> dl[i] == r[i]);
        lemma_entries_map_unique(dl);
        assert forall|i: int|
            0 <= i < r.len() implies entries_map(r).contains_key(#[trigger] r[i].0)
            && entries_map(r)[r[i].0] == r[i].1 by {
            if i < r.len() - 1 {
                assert(r[i].0 != r.last().0);
                assert(entries_map(dl).contains_key(dl[i].0) && entries_map(dl)[dl[i].0]
                    == dl[i].1);
            }
        }
        assert forall|p: u64| #[trigger] entries_map(r).contains_key(p) implies exists|i: int|
            0 <= i < r.len() && r[i].0 == p by {
            if p != r.last().0 {
                assert(entries_map(dl).contains_key(p));
                assert(exists|i: int| 0 <= i < dl.len() && dl[i].0 == p);
                let i = choose|i: int| 0 <= i < dl.len() && dl[i].0 == p;
                assert(r[i].0 == p);
            } else {
                assert(r[r.len() - 1].0 == p);
            }
        }
    }
}

proof fn lemma_insert_id_at(ids: Seq<Seq<char>>, id: Seq<char>, i: int)
    requires
        0 <= i <= ids.len(),
        forall|k: int| 0 <= k < i ==> lex_lt(#[trigger] ids[k], id),
        i < ids.len() ==> !lex_lt(ids[i], id),
    ensures
        insert_id(ids, id) == if i < ids.len() && ids[i] == id {
            ids
        } else {
            ids.take(i) + seq![id] + ids.skip(i)
        },
    decreases i,
{
    if i == 0 {
        if ids.len() == 0 {
            assert(insert_id(ids, id) =~= ids.take(0) + seq![id] + ids.skip(0));
        } else if ids[0] == id {
            lemma_lex_lt_irreflexive(id);
        } else {
            assert(insert_id(ids, id) =~= ids.take(0) + seq![id] + ids.skip(0));
        }
    } else {
        let dl = ids.drop_first();
        assert(lex_lt(ids[0], id));
        assert(forall|k: int| 0 <= k < i - 1 ==> lex_lt(#[trigger] dl[k], id));
        lemma_insert_id_at(dl, id, i - 1);
        if i < ids.len() && ids[i] == id {
            assert(dl[i - 1] == id);
            assert(insert_id(ids, id) == seq![ids[0]] + dl);
            assert(seq![ids[0]] + dl =~= ids);
        } else {
            assert(insert_id(ids, id) == seq![ids[0]] + (dl.take(i - 1) + seq![id] + dl.skip(
                i - 1,
            )));
            assert(seq![ids[0]] + (dl.take(i - 1) + seq![id] + dl.skip(i - 1)) =~= ids.take(i)
                + seq![id] + ids.skip(i));
        }
    }
}

} // verus!
