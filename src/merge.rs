//! The remote merge engine: integrating operations from other replicas,
//! holding back those whose dependency has not arrived yet.

use vstd::prelude::*;
use crate::buffer::{Buffer, Op, ReplicaState, anchor_issued, core_wf, op_ready, state_wf};
use crate::id::Id;
use crate::sequence::{
    Node, has_id, hide_spec, insert_spec, lemma_hide_anchors, lemma_hide_at, lemma_hide_ids,
    lemma_insert_anchors, lemma_insert_ids, unique_ids,
};
use crate::version::version_update;

verus! {

/// What became of a remote operation.
#[derive(Debug, Clone, Copy, PartialEq, Eq, Structural)]
pub enum Integration {
    /// Integrated at once (and any held-back operation it unblocked).
    Integrated,
    /// Held back until the node it depends on arrives.
    Buffered,
    /// Already integrated or already held back; dropped.
    Duplicate,
    /// Dropped: an insert without a character, or an operation that claims
    /// to come from this replica, or names one of its identifiers, when this
    /// replica never issued it.
    Malformed,
}

/// The node that an insert operation creates.
pub open spec fn op_node(op: Op) -> Node {
    Node {
        insertion_id: op.id,
        relative_to_id: op.relative_id,
        text: op.text->0,
        visible: true,
    }
}

/// The node sequence after the effect of `op`.
pub open spec fn op_effect(nodes: Seq<Node>, op: Op) -> Seq<Node> {
    if op.is_delete {
        match op.relative_id {
            Some(t) => hide_spec(nodes, t),
            None => nodes,
        }
    } else if op.text is Some {
        insert_spec(nodes, op_node(op))
    } else {
        nodes
    }
}

/// The state after integrating `op` whose dependency is present; an
/// operation already integrated changes nothing.
pub open spec fn apply_op_spec(s: ReplicaState, op: Op) -> ReplicaState {
    if s.integrated.contains(op.id) {
        s
    } else {
        ReplicaState {
            nodes: op_effect(s.nodes, op),
            version: version_update(s.version, op.id),
            integrated: s.integrated.push(op.id),
            ..s
        }
    }
}

/// The first held-back operation, at `k` or later, whose dependency is
/// present (the queue's length if there is none).
pub open spec fn first_ready(nodes: Seq<Node>, queue: Seq<Op>, k: int) -> int
    decreases queue.len() - k,
{
    if 0 <= k < queue.len() && !op_ready(nodes, queue[k]) {
        first_ready(nodes, queue, k + 1)
    } else {
        k
    }
}

/// Integrates held-back operations, the first ready one each time, until
/// none is ready.
pub open spec fn drain_spec(s: ReplicaState) -> ReplicaState
    decreases s.holdback_queue.len(),
{
    let k = first_ready(s.nodes, s.holdback_queue, 0);
    if 0 <= k < s.holdback_queue.len() {
        drain_spec(
            apply_op_spec(
                ReplicaState { holdback_queue: s.holdback_queue.remove(k), ..s },
                s.holdback_queue[k],
            ),
        )
    } else {
        s
    }
}

/// `id` has been integrated or is held back.
pub open spec fn seen(s: ReplicaState, id: Id) -> bool {
    s.integrated.contains(id) || exists|k: int|
        0 <= k < s.holdback_queue.len() && (#[trigger] s.holdback_queue[k]).id == id
}

/// `op` cannot be integrated ever: an insert without a character, or it
/// claims this replica's identifier or names one this replica has not
/// issued.
pub open spec fn malformed(s: ReplicaState, op: Op) -> bool {
    ||| (!op.is_delete && op.text is None)
    ||| op.id.replica_id == s.replica_id
    ||| !anchor_issued(s, op.relative_id)
}

/// The state after receiving remote operation `op`, and what became of it.
pub open spec fn receive_spec(s: ReplicaState, op: Op) -> (ReplicaState, Integration) {
    if seen(s, op.id) {
        (s, Integration::Duplicate)
    } else if malformed(s, op) {
        (s, Integration::Malformed)
    } else if op_ready(s.nodes, op) {
        (drain_spec(apply_op_spec(s, op)), Integration::Integrated)
    } else {
        (ReplicaState { holdback_queue: s.holdback_queue.push(op), ..s }, Integration::Buffered)
    }
}

/// The conditions under which an operation may be applied while keeping the
/// core invariants.
pub open spec fn applicable(s: ReplicaState, op: Op) -> bool {
    &&& op_ready(s.nodes, op)
    &&& op.id.replica_id != s.replica_id
    &&& anchor_issued(s, op.relative_id)
}

pub proof fn lemma_apply_op_wf(s: ReplicaState, op: Op)
    requires
        core_wf(s),
        applicable(s, op),
    ensures
        core_wf(apply_op_spec(s, op)),
        apply_op_spec(s, op).holdback_queue == s.holdback_queue,
        apply_op_spec(s, op).integrated.contains(op.id),
        forall|a: Id| has_id(s.nodes, a) ==> #[trigger] has_id(apply_op_spec(s, op).nodes, a),
{
    if s.integrated.contains(op.id) {
        return;
    }
    let t = apply_op_spec(s, op);
    assert(t.integrated[t.integrated.len() - 1] == op.id);
    if op.is_delete {
        match op.relative_id {
            Some(x) => {
                lemma_hide_ids(s.nodes, x);
                lemma_hide_anchors(s.nodes, x);
            },
            None => {},
        }
    } else if op.text is Some {
        let n = op_node(op);
        if has_id(s.nodes, op.id) {
            let i = choose|i: int| 0 <= i < s.nodes.len() && #[trigger] s.nodes[i].insertion_id == op.id;
            assert(s.integrated.contains(s.nodes[i].insertion_id));
        }
        let p = crate::sequence::insert_index(s.nodes, n);
        crate::sequence::lemma_insert_index_bounds(s.nodes, n);
        lemma_insert_ids(s.nodes, p, n);
        lemma_insert_anchors(s.nodes, p, n);
    }
    assert forall|i: int| 0 <= i < t.nodes.len() implies t.integrated.contains(
        #[trigger] t.nodes[i].insertion_id,
    ) by {
        let a = t.nodes[i].insertion_id;
        assert(has_id(t.nodes, a));
        if a == op.id {
        } else {
            assert(has_id(s.nodes, a));
            let j = choose|j: int| 0 <= j < s.nodes.len() && #[trigger] s.nodes[j].insertion_id == a;
            assert(s.integrated.contains(s.nodes[j].insertion_id));
            let k = choose|k: int| 0 <= k < s.integrated.len() && s.integrated[k] == a;
            assert(t.integrated[k] == a);
        }
    }
    assert forall|k: int|
        0 <= k < t.integrated.len() && (#[trigger] t.integrated[k]).replica_id
            == t.replica_id implies t.integrated[k].value <= t.sequence by {
        if k < s.integrated.len() {
            assert(t.integrated[k] == s.integrated[k]);
        }
    }
}

/// The scan for a ready operation passes only operations that are not
/// ready, and stops at one that is (or at the end).
pub proof fn lemma_first_ready(nodes: Seq<Node>, queue: Seq<Op>, k: int)
    requires
        0 <= k <= queue.len(),
    ensures
        k <= first_ready(nodes, queue, k) <= queue.len(),
        forall|j: int| k <= j < first_ready(nodes, queue, k) ==> !op_ready(nodes, #[trigger] queue[j]),
        first_ready(nodes, queue, k) < queue.len() ==> op_ready(
            nodes,
            queue[first_ready(nodes, queue, k)],
        ),
    decreases queue.len() - k,
{
    if k < queue.len() && !op_ready(nodes, queue[k]) {
        lemma_first_ready(nodes, queue, k + 1);
    }
}

impl Buffer {
    fn has_integrated(&self, id: Id) -> (r: bool)
        ensures
            r == self.integrated@.contains(id),
    {
        let mut i: usize = 0;
        while i < self.integrated.len()
            invariant
                i <= self.integrated.len(),
                forall|j: int| 0 <= j < i ==> self.integrated@[j] != id,
            decreases self.integrated.len() - i,
        {
            if self.integrated[i] == id {
                return true;
            }
            i += 1;
        }
        false
    }

    fn held_back(&self, id: Id) -> (r: bool)
        ensures
            r == exists|k: int|
                0 <= k < self.holdback_queue@.len() && (#[trigger] self.holdback_queue@[k]).id
                    == id,
    {
        let mut i: usize = 0;
        while i < self.holdback_queue.len()
            invariant
                i <= self.holdback_queue.len(),
                forall|j: int| 0 <= j < i ==> (#[trigger] self.holdback_queue@[j]).id != id,
            decreases self.holdback_queue.len() - i,
        {
            if self.holdback_queue[i].id == id {
                return true;
            }
            i += 1;
        }
        false
    }

    fn is_ready(&self, op: &Op) -> (r: bool)
        requires
            unique_ids(self.nodes@),
        ensures
            r == op_ready(self.nodes@, *op),
    {
        match op.relative_id {
            None => true,
            Some(a) => self.find_index(a).is_some(),
        }
    }

    fn first_ready_index(&self) -> (r: usize)
        requires
            unique_ids(self.nodes@),
        ensures
            r == first_ready(self.nodes@, self.holdback_queue@, 0),
    {
        let mut i: usize = 0;
        while i < self.holdback_queue.len()
            invariant
                i <= self.holdback_queue.len(),
                unique_ids(self.nodes@),
                first_ready(self.nodes@, self.holdback_queue@, i as int) == first_ready(
                    self.nodes@,
                    self.holdback_queue@,
                    0,
                ),
            decreases self.holdback_queue.len() - i,
        {
            if self.is_ready(&self.holdback_queue[i]) {
                return i;
            }
            i += 1;
        }
        i
    }

    /// Applies an operation whose dependency is present.
    fn integrate_ready(&mut self, op: Op)
        requires
            core_wf(old(self)@),
            applicable(old(self)@, op),
        ensures
            final(self)@ == apply_op_spec(old(self)@, op),
    {
        if self.has_integrated(op.id) {
            return ;
        }
        let ghost s0 = self@;
        if op.is_delete {
            match op.relative_id {
                Some(t) => {
                    match self.find_index(t) {
                        Some(i) => {
                            let node = self.nodes[i];
                            proof {
                                lemma_hide_at(self.nodes@, i as int);
                            }
                            self.nodes.set(i, Node { visible: false, ..node });
                        },
                        None => {},
                    }
                },
                None => {},
            }
        } else {
            match op.text {
                Some(c) => {
                    proof {
                        if has_id(s0.nodes, op.id) {
                            let i = choose|i: int|
                                0 <= i < s0.nodes.len() && #[trigger] s0.nodes[i].insertion_id
                                    == op.id;
                            assert(s0.integrated.contains(s0.nodes[i].insertion_id));
                        }
                    }
                    self.insert_node(
                        Node { insertion_id: op.id, relative_to_id: op.relative_id, text: c, visible: true },
                    );
                },
                None => {},
            }
        }
        self.version.update(op.id);
        self.integrated.push(op.id);
    }

    /// Integrates held-back operations until none is ready.
    fn drain_holdback(&mut self)
        requires
            core_wf(old(self)@),
        ensures
            final(self)@ == drain_spec(old(self)@),
            state_wf(final(self)@),
    {
        loop
            invariant_except_break
                core_wf(self@),
                drain_spec(self@) == drain_spec(old(self)@),
            ensures
                self@ == drain_spec(old(self)@),
                state_wf(self@),
            decreases self.holdback_queue.len(),
        {
            let k = self.first_ready_index();
            proof {
                lemma_first_ready(self.nodes@, self.holdback_queue@, 0);
            }
            if k == self.holdback_queue.len() {
                proof {
                    assert forall|j: int| 0 <= j < self.holdback_queue@.len() implies !op_ready(
                        self.nodes@,
                        #[trigger] self.holdback_queue@[j],
                    ) by {}
                }
                break ;
            }
            let ghost s = self@;
            let op = self.holdback_queue.remove(k);
            proof {
                let r = self@;
                assert forall|j: int| 0 <= j < r.holdback_queue.len() implies (
                #[trigger] r.holdback_queue[j]).id.replica_id != r.replica_id && anchor_issued(
                    r,
                    r.holdback_queue[j].relative_id,
                ) by {
                    if j < k {
                        assert(r.holdback_queue[j] == s.holdback_queue[j]);
                    } else {
                        assert(r.holdback_queue[j] == s.holdback_queue[j + 1]);
                    }
                }
                assert(s.holdback_queue[k as int].id.replica_id != s.replica_id);
                assert(anchor_issued(s, s.holdback_queue[k as int].relative_id));
                lemma_apply_op_wf(r, op);
            }
            self.integrate_ready(op);
        }
    }

    /// Receives an operation from another replica: drops it if it was seen
    /// before or can never apply, holds it back if the node it depends on
    /// is missing, and otherwise integrates it together with every held-back
    /// operation it unblocks.
    pub fn integrate_remote(&mut self, op: Op) -> (r: Integration)
        requires
            old(self).wf(),
        ensures
            final(self).wf(),
            (final(self)@, r) == receive_spec(old(self)@, op),
    {
        if self.has_integrated(op.id) || self.held_back(op.id) {
            return Integration::Duplicate;
        }
        let bad_anchor = match op.relative_id {
            Some(a) => a.replica_id == self.replica_id && a.value > self.sequence,
            None => false,
        };
        if (!op.is_delete && op.text.is_none()) || op.id.replica_id == self.replica_id
            || bad_anchor {
            return Integration::Malformed;
        }
        if self.is_ready(&op) {
            proof {
                lemma_apply_op_wf(self@, op);
            }
            self.integrate_ready(op);
            self.drain_holdback();
            Integration::Integrated
        } else {
            let ghost s0 = self@;
            self.holdback_queue.push(op);
            proof {
                let s = self@;
                assert forall|j: int| 0 <= j < s.holdback_queue.len() implies !op_ready(
                    s.nodes,
                    #[trigger] s.holdback_queue[j],
                ) && s.holdback_queue[j].id.replica_id != s.replica_id && anchor_issued(
                    s,
                    s.holdback_queue[j].relative_id,
                ) by {
                    if j < s0.holdback_queue.len() {
                        assert(s.holdback_queue[j] == s0.holdback_queue[j]);
                    }
                }
            }
            Integration::Buffered
        }
    }
}

} // verus!
