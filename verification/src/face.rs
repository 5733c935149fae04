//! What the routing tables keep per face: the expression ids each side
//! declared and the key expression interests the remote side expressed.

use std::collections::HashMap;
use vstd::prelude::*;
use vstd::std_specs::iter::IteratorSpec;
use crate::context::{ExprId, InterestId, Mapping};
use crate::resource::matches_key;
use crate::tree::{lemma_attached_in_range, Tables};

verus! {

/// Per-face declarations.
pub struct FaceState {
    pub id: usize,
    /// Expression ids this side declared to the face.
    pub local_mappings: HashMap<ExprId, usize>,
    /// Expression ids the face declared to this side.
    pub remote_mappings: HashMap<ExprId, usize>,
    /// Interests the face expressed: in one resource, or in all (`None`).
    pub remote_key_interests: HashMap<InterestId, Option<usize>>,
}

/// `id` is declared by neither side of `face`.
pub open spec fn id_free(face: &FaceState, id: ExprId) -> bool {
    !face.local_mappings@.contains_key(id) && !face.remote_mappings@.contains_key(id)
}

/// Some non-zero expression id is still free on `face`.
pub open spec fn has_free_id(face: &FaceState) -> bool {
    exists|id: ExprId| 1 <= id && #[trigger] id_free(face, id)
}

/// The least free non-zero expression id of `face`.
pub open spec fn next_free_id(face: &FaceState, id: ExprId) -> bool {
    &&& 1 <= id
    &&& id_free(face, id)
    &&& forall|j: ExprId| 1 <= j < id ==> !id_free(face, j)
}

/// The resource that `id` names on `face`: ids the face declared (the
/// sender's mapping) are looked up among the remote mappings, ids this side
/// declared (the receiver's) among the local ones.
pub open spec fn mapped(face: &FaceState, id: ExprId, mapping: Mapping) -> Option<usize> {
    match mapping {
        Mapping::Sender => if face.remote_mappings@.contains_key(id) {
            Some(face.remote_mappings@[id])
        } else {
            None
        },
        Mapping::Receiver => if face.local_mappings@.contains_key(id) {
            Some(face.local_mappings@[id])
        } else {
            None
        },
    }
}

/// What an interest entry says of resource `p`: interested in everything,
/// or in a resource among whose matches one has the key of `p`.
pub open spec fn interest_hits<H, X>(t: &Tables<H, X>, v: Option<usize>, p: int) -> bool {
    match v {
        None => true,
        Some(r) => matches_key(t, r as int, p),
    }
}

/// Some interest of `face` covers resource `p`.
pub open spec fn interested_in<H, X>(t: &Tables<H, X>, face: &FaceState, p: int) -> bool {
    exists|v: Option<usize>| #[trigger] face.remote_key_interests@.values().contains(v) && interest_hits(t, v, p)
}

/// Every resource that `face` refers to is attached; those it expressed an
/// interest in have a routing context.
pub open spec fn face_ok<H, X>(t: &Tables<H, X>, face: &FaceState) -> bool {
    &&& forall|id: ExprId| #[trigger] face.local_mappings@.contains_key(id) ==> t.attached(face.local_mappings@[id] as int)
    &&& forall|id: ExprId| #[trigger] face.remote_mappings@.contains_key(id) ==> t.attached(face.remote_mappings@[id] as int)
    &&& forall|i: InterestId| #[trigger] face.remote_key_interests@.contains_key(i)
        ==> match face.remote_key_interests@[i] {
            Some(r) => t.attached(r as int) && t.has_context(r as int),
            None => true,
        }
}

impl FaceState {
    /// A face with nothing declared.
    pub fn new(id: usize) -> (f: FaceState)
        ensures
            f.id == id,
            f.local_mappings@ == Map::<ExprId, usize>::empty(),
            f.remote_mappings@ == Map::<ExprId, usize>::empty(),
            f.remote_key_interests@ == Map::<InterestId, Option<usize>>::empty(),
    {
        FaceState {
            id,
            local_mappings: HashMap::new(),
            remote_mappings: HashMap::new(),
            remote_key_interests: HashMap::new(),
        }
    }

    /// The resource an id names: ids the face declared name remote
    /// mappings, ids this side declared name local ones.
    pub fn get_mapping(&self, prefixid: ExprId, mapping: Mapping) -> (r: Option<usize>)
        ensures
            r == mapped(self, prefixid, mapping),
    {
        broadcast use vstd::std_specs::hash::group_hash_axioms;

        let m = match mapping {
            Mapping::Sender => &self.remote_mappings,
            Mapping::Receiver => &self.local_mappings,
        };
        match m.get(&prefixid) {
            Some(r) => Some(*r),
            None => None,
        }
    }

    /// The least non-zero expression id that neither side declared.
    pub fn get_next_local_id(&self) -> (id: ExprId)
        requires
            has_free_id(self),
        ensures
            next_free_id(self, id),
    {
        broadcast use vstd::std_specs::hash::group_hash_axioms;

        let ghost witness = choose|id: ExprId| 1 <= id && #[trigger] id_free(self, id);
        let mut id: ExprId = 1;
        while self.local_mappings.contains_key(&id) || self.remote_mappings.contains_key(&id)
            invariant
                1 <= id <= witness,
                1 <= witness,
                id_free(self, witness),
                forall|j: ExprId| 1 <= j < id ==> !id_free(self, j),
            decreases witness - id,
        {
            id = id + 1;
        }
        id
    }

    /// Whether some interest of the face covers resource `p`.
    pub fn is_interested<H, X>(&self, tables: &Tables<H, X>, p: usize) -> (r: bool)
        requires
            tables.wf(),
            face_ok(tables, self),
            (p as int) < tables.len(),
        ensures
            r == interested_in(tables, self, p as int),
    {
        broadcast use vstd::std_specs::hash::group_hash_axioms;

        let mut found = false;
        let vals = self.remote_key_interests.values();
        let ghost full = vals.remaining();
        for v in it: vals
            invariant
                tables.wf(),
                face_ok(tables, self),
                (p as int) < tables.len(),
                it.seq() == full,
                full.unref().to_set() == self.remote_key_interests@.values(),
                found == exists|k: int| 0 <= k < it.index() && interest_hits(tables, *full[k], p as int),
        {
            proof {
                let i = it.index();
                assert(it.seq()[i] == v);
                assert(it.seq().unref()[i] == *v);
                assert(it.seq().unref().to_set().contains(*v));
                assert(self.remote_key_interests@.values().contains(*v));
                if let Some(r) = *v {
                    let key = choose|key: InterestId| #[trigger] self.remote_key_interests@.contains_key(key)
                        && self.remote_key_interests@[key] == *v;
                    lemma_attached_in_range(tables, r as int);
                }
            }
            let hit = match v {
                None => true,
                Some(r) => crate::tree::Resource::<H, X>::matches(tables, *r, p),
            };
            found = found || hit;
        }
        proof {
            let sq = full.unref();
            if found {
                let k = choose|k: int| 0 <= k < full.len() && interest_hits(tables, *full[k], p as int);
                assert(sq[k] == *full[k]);
                assert(sq.to_set().contains(sq[k]));
            } else {
                assert forall|v: Option<usize>| #[trigger] self.remote_key_interests@.values().contains(v)
                    implies !interest_hits(tables, v, p as int) by {
                    assert(sq.to_set().contains(v));
                    let k = choose|k: int| 0 <= k < sq.len() && sq[k] == v;
                    assert(*full[k] == sq[k]);
                }
            }
        }
        found
    }
}

} // verus!
