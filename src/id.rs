//! Operation identifiers and their total order.

use vstd::prelude::*;

verus! {

/// A globally unique operation identifier: the replica that issued the
/// operation and that replica's sequence number for it.
///
/// Identifiers are ordered by `value` first and `replica_id` second; the
/// field order makes the derived `Ord` agree with [`Id::precedes`].
#[derive(Debug, Clone, Copy, PartialEq, Eq, Structural, Hash, PartialOrd, Ord)]
pub struct Id {
    pub value: u32,
    pub replica_id: u16,
}

/// The total order on identifiers: by sequence number, then by replica.
pub open spec fn id_lt(a: Id, b: Id) -> bool {
    a.value < b.value || (a.value == b.value && a.replica_id < b.replica_id)
}

impl Id {
    pub fn new(replica_id: u16, value: u32) -> (r: Id)
        ensures
            r.replica_id == replica_id,
            r.value == value,
    {
        Id { value, replica_id }
    }

    /// Compares by sequence number, then by replica.
    pub fn compare(&self, other: &Id) -> (r: core::cmp::Ordering)
        ensures
            (r == core::cmp::Ordering::Less) == id_lt(*self, *other),
            (r == core::cmp::Ordering::Equal) == (*self == *other),
            (r == core::cmp::Ordering::Greater) == id_lt(*other, *self),
    {
        if self.value < other.value {
            core::cmp::Ordering::Less
        } else if self.value > other.value {
            core::cmp::Ordering::Greater
        } else if self.replica_id < other.replica_id {
            core::cmp::Ordering::Less
        } else if self.replica_id > other.replica_id {
            core::cmp::Ordering::Greater
        } else {
            core::cmp::Ordering::Equal
        }
    }

    /// Whether `self` comes strictly before `other`.
    pub fn precedes(&self, other: &Id) -> (r: bool)
        ensures
            r == id_lt(*self, *other),
    {
        self.value < other.value || (self.value == other.value && self.replica_id < other.replica_id)
    }
}

/// The identifier order is a strict total order: irreflexive, transitive,
/// and any two distinct identifiers are comparable one way or the other.
pub proof fn lemma_id_order_total(a: Id, b: Id, c: Id)
    ensures
        !id_lt(a, a),
        id_lt(a, b) && id_lt(b, c) ==> id_lt(a, c),
        id_lt(a, b) ==> !id_lt(b, a),
        a != b ==> (id_lt(a, b) || id_lt(b, a)),
{
}

} // verus!
