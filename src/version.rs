//! The version vector: the highest sequence number seen from each replica.

use std::collections::HashMap;
use vstd::prelude::*;
use crate::id::Id;

verus! {

broadcast use vstd::std_specs::hash::group_hash_axioms;

/// Maps a replica to the highest sequence number known to come from it.
#[derive(Debug, Clone, PartialEq)]
pub struct Global {
    pub state: HashMap<u16, u32>,
}

impl View for Global {
    type V = Map<u16, u32>;

    open spec fn view(&self) -> Map<u16, u32> {
        self.state@
    }
}

/// The version vector after folding in identifier `id`: the entry of its
/// replica becomes the larger of the old entry (absent counts as 0) and
/// `id.value`.
pub open spec fn version_update(m: Map<u16, u32>, id: Id) -> Map<u16, u32> {
    if m.contains_key(id.replica_id) && m[id.replica_id] > id.value {
        m
    } else {
        m.insert(id.replica_id, id.value)
    }
}

impl Global {
    pub fn new() -> (r: Global)
        ensures
            r@ == Map::<u16, u32>::empty(),
    {
        Global { state: HashMap::new() }
    }

    /// Folds identifier `id` into the vector.
    pub fn update(&mut self, id: Id)
        ensures
            final(self)@ == version_update(old(self)@, id),
    {
        let current: Option<&u32> = self.state.get(&id.replica_id);
        match current {
            Some(c) => {
                if id.value > *c {
                    self.state.insert(id.replica_id, id.value);
                } else {
                    proof {
                        assert(version_update(self@, id) == self@);
                    }
                }
            },
            None => {
                self.state.insert(id.replica_id, id.value);
            },
        }
    }

    /// A copy of the vector, as stamped on an outgoing operation.
    pub fn snapshot(&self) -> (r: Global)
        ensures
            r@ == self@,
    {
        Global { state: self.state.clone() }
    }

    /// The highest sequence number seen from `replica_id`, if any.
    pub fn get(&self, replica_id: u16) -> (r: Option<u32>)
        ensures
            r == (if self@.contains_key(replica_id) {
                Some(self@[replica_id])
            } else {
                None::<u32>
            }),
    {
        match self.state.get(&replica_id) {
            Some(v) => Some(*v),
            None => None,
        }
    }
}

/// Folding an identifier in never lowers an entry and never drops a key.
pub proof fn lemma_version_update_monotone(m: Map<u16, u32>, id: Id, r: u16)
    requires
        m.contains_key(r),
    ensures
        version_update(m, id).contains_key(r),
        version_update(m, id)[r] >= m[r],
{
}

} // verus!
