//! The replica's buffer: node sequence, local sequence counter, version
//! vector, holdback queue of remote operations, and the local edits.

use vstd::prelude::*;
use crate::id::Id;
use crate::sequence::{
    Node, anchor_for, anchors_present, delete_target, has_id, hide_spec, index_of, insert_index,
    insert_spec, lemma_hide_anchors, lemma_hide_at, lemma_hide_ids, lemma_hide_visible_text,
    lemma_index_of, lemma_insert_anchors, lemma_insert_ids, lemma_insert_index_bounds,
    lemma_insert_visible_text_len, lemma_visible_before_full, lemma_visible_before_step,
    lemma_visible_index, lemma_visible_index_exists, skip_from, start_of, unique_ids,
    visible_before, visible_index, visible_text,
};
use crate::text::push_char;
use crate::version::{Global, version_update};

verus! {

/// An operation as exchanged between replicas. An insert carries its
/// character in `text` and names in `relative_id` the node it follows
/// (`None`: the start of the document); a delete has `is_delete` set and
/// names in `relative_id` the node it tombstones (`None`: nothing).
#[derive(Debug, Clone)]
pub struct Op {
    pub id: Id,
    pub relative_id: Option<Id>,
    pub text: Option<char>,
    pub version: Global,
    pub is_delete: bool,
}

/// The abstract state of a buffer.
pub struct ReplicaState {
    pub replica_id: u16,
    pub sequence: u32,
    pub nodes: Seq<Node>,
    pub version: Map<u16, u32>,
    pub holdback_queue: Seq<Op>,
    pub integrated: Seq<Id>,
}

/// One replica's copy of the document.
pub struct Buffer {
    pub replica_id: u16,
    pub sequence: u32,
    pub nodes: Vec<Node>,
    pub version: Global,
    pub holdback_queue: Vec<Op>,
    /// Identifiers of every operation integrated so far, local or remote.
    pub integrated: Vec<Id>,
}

impl View for Buffer {
    type V = ReplicaState;

    open spec fn view(&self) -> ReplicaState {
        ReplicaState {
            replica_id: self.replica_id,
            sequence: self.sequence,
            nodes: self.nodes@,
            version: self.version@,
            holdback_queue: self.holdback_queue@,
            integrated: self.integrated@,
        }
    }
}

/// `a` does not name an operation of this replica that it has not issued.
pub open spec fn anchor_issued(s: ReplicaState, a: Option<Id>) -> bool {
    match a {
        Some(x) => x.replica_id == s.replica_id ==> x.value <= s.sequence,
        None => true,
    }
}

/// The dependency of `op` is present: its anchor (or delete target), if
/// any, is a node of the sequence.
pub open spec fn op_ready(nodes: Seq<Node>, op: Op) -> bool {
    match op.relative_id {
        None => true,
        Some(a) => has_id(nodes, a),
    }
}

/// The invariants that hold between any two steps, also while the holdback
/// queue is being drained.
pub open spec fn core_wf(s: ReplicaState) -> bool {
    &&& unique_ids(s.nodes)
    &&& anchors_present(s.nodes)
    &&& forall|i: int|
        0 <= i < s.nodes.len() ==> s.integrated.contains(#[trigger] s.nodes[i].insertion_id)
    &&& forall|k: int|
        0 <= k < s.integrated.len() && (#[trigger] s.integrated[k]).replica_id == s.replica_id
            ==> s.integrated[k].value <= s.sequence
    &&& forall|k: int|
        0 <= k < s.holdback_queue.len() ==> (#[trigger] s.holdback_queue[k]).id.replica_id
            != s.replica_id && anchor_issued(s, s.holdback_queue[k].relative_id)
    &&& s.version.contains_key(s.replica_id) ==> s.version[s.replica_id] == s.sequence
    &&& s.sequence > 0 ==> s.version.contains_key(s.replica_id)
}

/// The buffer invariant: the core invariants, and no held-back operation
/// could be integrated already.
pub open spec fn state_wf(s: ReplicaState) -> bool {
    &&& core_wf(s)
    &&& forall|k: int|
        0 <= k < s.holdback_queue.len() ==> !op_ready(s.nodes, #[trigger] s.holdback_queue[k])
}

/// The identifier of this replica's next operation.
pub open spec fn next_id(s: ReplicaState) -> Id {
    Id { value: (s.sequence + 1) as u32, replica_id: s.replica_id }
}

/// The state after typing `c` at visible position `pos`.
pub open spec fn local_insert_spec(s: ReplicaState, pos: int, c: char) -> ReplicaState {
    let id = next_id(s);
    let node = Node {
        insertion_id: id,
        relative_to_id: anchor_for(s.nodes, pos),
        text: c,
        visible: true,
    };
    ReplicaState {
        sequence: id.value,
        nodes: insert_spec(s.nodes, node),
        version: version_update(s.version, id),
        integrated: s.integrated.push(id),
        ..s
    }
}

/// The state after deleting the character at visible position `pos`. Past
/// the end nothing is tombstoned, yet an identifier is still used up.
pub open spec fn local_delete_spec(s: ReplicaState, pos: int) -> ReplicaState {
    let id = next_id(s);
    ReplicaState {
        sequence: id.value,
        nodes: match delete_target(s.nodes, pos) {
            Some(t) => hide_spec(s.nodes, t),
            None => s.nodes,
        },
        version: version_update(s.version, id),
        integrated: s.integrated.push(id),
        ..s
    }
}

/// A fresh buffer of replica `replica_id`.
pub open spec fn fresh_state(replica_id: u16) -> ReplicaState {
    ReplicaState {
        replica_id,
        sequence: 0,
        nodes: Seq::empty(),
        version: Map::empty(),
        holdback_queue: Seq::empty(),
        integrated: Seq::empty(),
    }
}

fn same_anchor(a: Option<Id>, b: Option<Id>) -> (r: bool)
    ensures
        r == (a == b),
{
    match (a, b) {
        (None, None) => true,
        (Some(x), Some(y)) => x == y,
        _ => false,
    }
}

impl Buffer {
    pub open spec fn wf(&self) -> bool {
        state_wf(self@)
    }

    pub fn new(replica_id: u16) -> (r: Buffer)
        ensures
            r@ == fresh_state(replica_id),
            r.wf(),
    {
        Buffer {
            replica_id,
            sequence: 0,
            nodes: Vec::new(),
            version: Global::new(),
            holdback_queue: Vec::new(),
            integrated: Vec::new(),
        }
    }

    /// The document text: the visible characters, in order.
    pub fn render(&self) -> (r: String)
        ensures
            r@ == visible_text(self.nodes@),
    {
        let mut out = String::new();
        let mut i: usize = 0;
        while i < self.nodes.len()
            invariant
                i <= self.nodes.len(),
                out@ == visible_text(self.nodes@.take(i as int)),
            decreases self.nodes.len() - i,
        {
            proof {
                assert(self.nodes@.take(i + 1).drop_last() =~= self.nodes@.take(i as int));
            }
            if self.nodes[i].visible {
                push_char(&mut out, self.nodes[i].text);
            }
            i += 1;
        }
        proof {
            assert(self.nodes@.take(self.nodes.len() as int) =~= self.nodes@);
        }
        out
    }

    /// The number of visible characters.
    pub fn visible_len(&self) -> (r: usize)
        ensures
            r == visible_text(self.nodes@).len(),
    {
        let mut count: usize = 0;
        let mut i: usize = 0;
        while i < self.nodes.len()
            invariant
                i <= self.nodes.len(),
                count == visible_before(self.nodes@, i as int),
                count <= i,
            decreases self.nodes.len() - i,
        {
            proof {
                lemma_visible_before_step(self.nodes@, i as int);
            }
            if self.nodes[i].visible {
                count += 1;
            }
            i += 1;
        }
        proof {
            lemma_visible_before_full(self.nodes@);
        }
        count
    }

    /// The number of remote operations waiting for their dependency.
    pub fn pending_operation_count(&self) -> (r: usize)
        ensures
            r == self.holdback_queue@.len(),
    {
        self.holdback_queue.len()
    }

    pub(crate) fn find_index(&self, id: Id) -> (r: Option<usize>)
        requires
            unique_ids(self.nodes@),
        ensures
            match r {
                Some(i) => i < self.nodes.len() && self.nodes@[i as int].insertion_id == id
                    && has_id(self.nodes@, id) && index_of(self.nodes@, id) == i,
                None => !has_id(self.nodes@, id),
            },
    {
        let mut i: usize = 0;
        while i < self.nodes.len()
            invariant
                i <= self.nodes.len(),
                unique_ids(self.nodes@),
                forall|j: int| 0 <= j < i ==> (#[trigger] self.nodes@[j]).insertion_id != id,
            decreases self.nodes.len() - i,
        {
            if self.nodes[i].insertion_id == id {
                proof {
                    lemma_index_of(self.nodes@, i as int);
                }
                return Some(i);
            }
            i += 1;
        }
        None
    }

    fn find_visible_insertion_point(&self, visible_pos: usize) -> (r: Option<Id>)
        ensures
            r == anchor_for(self.nodes@, visible_pos as int),
    {
        if visible_pos == 0 {
            return None;
        }
        let mut count: usize = 0;
        let mut i: usize = 0;
        while i < self.nodes.len()
            invariant
                i <= self.nodes.len(),
                count == visible_before(self.nodes@, i as int),
                count < visible_pos,
            decreases self.nodes.len() - i,
        {
            proof {
                lemma_visible_before_step(self.nodes@, i as int);
            }
            let node = self.nodes[i];
            if node.visible {
                count += 1;
                if count == visible_pos {
                    proof {
                        lemma_visible_index(self.nodes@, i as int);
                    }
                    return Some(node.insertion_id);
                }
            }
            i += 1;
        }
        proof {
            lemma_visible_before_full(self.nodes@);
        }
        None
    }

    /// The position of the node holding the character at visible position
    /// `visible_pos`, if there is one.
    fn find_visible_node(&self, visible_pos: usize) -> (r: Option<usize>)
        ensures
            match r {
                Some(i) => i < self.nodes.len() && delete_target(self.nodes@, visible_pos as int)
                    == Some(self.nodes@[i as int].insertion_id) && self.nodes@[i as int].visible
                    && visible_before(self.nodes@, i as int) == visible_pos,
                None => delete_target(self.nodes@, visible_pos as int) is None,
            },
    {
        let mut count: usize = 0;
        let mut i: usize = 0;
        while i < self.nodes.len()
            invariant
                i <= self.nodes.len(),
                count == visible_before(self.nodes@, i as int),
                count <= visible_pos,
            decreases self.nodes.len() - i,
        {
            proof {
                lemma_visible_before_step(self.nodes@, i as int);
            }
            if self.nodes[i].visible {
                if count == visible_pos {
                    proof {
                        lemma_visible_index(self.nodes@, i as int);
                    }
                    return Some(i);
                }
                count += 1;
            }
            i += 1;
        }
        proof {
            lemma_visible_before_full(self.nodes@);
        }
        None
    }

    /// Places `node` just after its anchor, past the contiguous siblings
    /// (same anchor) with smaller identifiers.
    pub(crate) fn insert_node(&mut self, node: Node)
        requires
            unique_ids(old(self).nodes@),
            !has_id(old(self).nodes@, node.insertion_id),
            node.relative_to_id is Some ==> has_id(old(self).nodes@, node.relative_to_id->0),
        ensures
            final(self).nodes@ == insert_spec(old(self).nodes@, node),
            unique_ids(final(self).nodes@),
            forall|a: Id| #[trigger]
                has_id(final(self).nodes@, a) <==> (has_id(old(self).nodes@, a) || a
                    == node.insertion_id),
            final(self).replica_id == old(self).replica_id,
            final(self).sequence == old(self).sequence,
            final(self).version == old(self).version,
            final(self).holdback_queue == old(self).holdback_queue,
            final(self).integrated == old(self).integrated,
            node.visible ==> visible_text(final(self).nodes@).len() == visible_text(
                old(self).nodes@,
            ).len() + 1,
    {
        let anchor = node.relative_to_id;
        let mut index: usize = match anchor {
            None => 0,
            Some(rel) => match self.find_index(rel) {
                Some(idx) => idx + 1,
                None => self.nodes.len(),
            },
        };
        let ghost start = index as int;
        assert(start == start_of(self.nodes@, anchor));
        while index < self.nodes.len()
            invariant_except_break
                index <= self.nodes.len(),
                skip_from(self.nodes@, anchor, node.insertion_id, index as int) == skip_from(
                    self.nodes@,
                    anchor,
                    node.insertion_id,
                    start,
                ),
            ensures
                index <= self.nodes.len(),
                index == skip_from(self.nodes@, anchor, node.insertion_id, start),
            decreases self.nodes.len() - index,
        {
            let curr = self.nodes[index];
            if same_anchor(curr.relative_to_id, anchor) && curr.insertion_id.precedes(
                &node.insertion_id,
            ) {
                index += 1;
            } else {
                break ;
            }
        }
        proof {
            lemma_insert_ids(self.nodes@, index as int, node);
            if node.visible {
                lemma_insert_visible_text_len(self.nodes@, index as int, node);
            }
        }
        self.nodes.insert(index, node);
    }

    /// Types character `text` at visible position `pos` and returns the
    /// operation to broadcast. Position 0, and a position past the end,
    /// anchor the character at the start of the document.
    pub fn apply_local_insert(&mut self, pos: usize, text: char) -> (r: Op)
        requires
            old(self).wf(),
            old(self).sequence < u32::MAX,
        ensures
            final(self).wf(),
            final(self)@ == local_insert_spec(old(self)@, pos as int, text),
            r.id == next_id(old(self)@),
            r.relative_id == anchor_for(old(self).nodes@, pos as int),
            r.text == Some(text),
            r.version@ == final(self).version@,
            !r.is_delete,
            !has_id(old(self).nodes@, r.id),
            visible_text(final(self).nodes@).len() == visible_text(old(self).nodes@).len() + 1,
    {
        let ghost s0 = self@;
        let id = Id { value: self.sequence + 1, replica_id: self.replica_id };
        let relative_id = self.find_visible_insertion_point(pos);
        let node = Node { insertion_id: id, relative_to_id: relative_id, text, visible: true };
        proof {
            if pos != 0 && pos <= visible_text(s0.nodes).len() {
                lemma_visible_index_exists(s0.nodes, pos - 1);
                let i = visible_index(s0.nodes, pos - 1);
                assert(s0.nodes[i].insertion_id == relative_id->0);
            }
            if has_id(s0.nodes, id) {
                let i = choose|i: int|
                    0 <= i < s0.nodes.len() && #[trigger] s0.nodes[i].insertion_id == id;
                assert(s0.integrated.contains(s0.nodes[i].insertion_id));
                let k = choose|k: int| 0 <= k < s0.integrated.len() && s0.integrated[k] == id;
                assert(s0.integrated[k].replica_id == s0.replica_id);
            }
        }
        proof {
            lemma_insert_index_bounds(s0.nodes, node);
            lemma_insert_anchors(s0.nodes, insert_index(s0.nodes, node), node);
        }
        self.insert_node(node);
        self.sequence = self.sequence + 1;
        self.version.update(id);
        self.integrated.push(id);
        proof {
            let s = self@;
            assert(s == local_insert_spec(s0, pos as int, text));
            assert forall|i: int| 0 <= i < s.nodes.len() implies s.integrated.contains(
                #[trigger] s.nodes[i].insertion_id,
            ) by {
                let a = s.nodes[i].insertion_id;
                assert(has_id(s.nodes, a));
                if a == id {
                    assert(s.integrated[s.integrated.len() - 1] == a);
                } else {
                    let j = choose|j: int| 0 <= j < s0.nodes.len() && #[trigger] s0.nodes[j].insertion_id == a;
                    assert(s0.integrated.contains(s0.nodes[j].insertion_id));
                    let k = choose|k: int| 0 <= k < s0.integrated.len() && s0.integrated[k] == a;
                    assert(s.integrated[k] == a);
                }
            }
            assert forall|k: int| 0 <= k < s.holdback_queue.len() implies !op_ready(
                s.nodes,
                #[trigger] s.holdback_queue[k],
            ) by {
                assert(!op_ready(s0.nodes, s0.holdback_queue[k]));
                assert(anchor_issued(s0, s0.holdback_queue[k].relative_id));
            }
            assert forall|k: int|
                0 <= k < s.holdback_queue.len() implies (#[trigger] s.holdback_queue[k]).id.replica_id
                != s.replica_id && anchor_issued(s, s.holdback_queue[k].relative_id) by {
                assert(anchor_issued(s0, s0.holdback_queue[k].relative_id));
            }
            assert forall|k: int|
                0 <= k < s.integrated.len() && (#[trigger] s.integrated[k]).replica_id
                    == s.replica_id implies s.integrated[k].value <= s.sequence by {
                if k < s0.integrated.len() {
                    assert(s.integrated[k] == s0.integrated[k]);
                }
            }
        }
        Op {
            id,
            relative_id,
            text: Some(text),
            version: self.version.snapshot(),
            is_delete: false,
        }
    }

    /// Deletes the character at visible position `pos` and returns the
    /// operation to broadcast. Past the end nothing is tombstoned and the
    /// operation names no target, but an identifier is still used up.
    pub fn apply_local_delete(&mut self, pos: usize) -> (r: Op)
        requires
            old(self).wf(),
            old(self).sequence < u32::MAX,
        ensures
            final(self).wf(),
            final(self)@ == local_delete_spec(old(self)@, pos as int),
            r.id == next_id(old(self)@),
            r.relative_id == delete_target(old(self).nodes@, pos as int),
            r.text is None,
            r.version@ == final(self).version@,
            r.is_delete,
            pos < visible_text(old(self).nodes@).len() ==> visible_text(final(self).nodes@)
                == visible_text(old(self).nodes@).remove(pos as int),
            pos >= visible_text(old(self).nodes@).len() ==> final(self).nodes@ == old(
                self,
            ).nodes@,
    {
        let ghost s0 = self@;
        let found = self.find_visible_node(pos);
        let target_id = match found {
            Some(i) => {
                let node = self.nodes[i];
                proof {
                    lemma_hide_at(self.nodes@, i as int);
                    lemma_visible_index(self.nodes@, i as int);
                    lemma_hide_visible_text(self.nodes@, i as int);
                }
                self.nodes.set(i, Node { visible: false, ..node });
                Some(node.insertion_id)
            },
            None => None,
        };
        let id = Id { value: self.sequence + 1, replica_id: self.replica_id };
        self.sequence = self.sequence + 1;
        self.version.update(id);
        self.integrated.push(id);
        proof {
            let s = self@;
            lemma_hide_ids(s0.nodes, target_id->0);
            lemma_hide_anchors(s0.nodes, target_id->0);
            assert(s == local_delete_spec(s0, pos as int));
            assert forall|i: int| 0 <= i < s.nodes.len() implies s.integrated.contains(
                #[trigger] s.nodes[i].insertion_id,
            ) by {
                let a = s.nodes[i].insertion_id;
                assert(s0.nodes[i].insertion_id == a);
                assert(s0.integrated.contains(s0.nodes[i].insertion_id));
                let k = choose|k: int| 0 <= k < s0.integrated.len() && s0.integrated[k] == a;
                assert(s.integrated[k] == a);
            }
            assert forall|k: int| 0 <= k < s.holdback_queue.len() implies !op_ready(
                s.nodes,
                #[trigger] s.holdback_queue[k],
            ) by {
                assert(!op_ready(s0.nodes, s0.holdback_queue[k]));
            }
            assert forall|k: int|
                0 <= k < s.holdback_queue.len() implies (#[trigger] s.holdback_queue[k]).id.replica_id
                != s.replica_id && anchor_issued(s, s.holdback_queue[k].relative_id) by {
                assert(anchor_issued(s0, s0.holdback_queue[k].relative_id));
            }
            assert forall|k: int|
                0 <= k < s.integrated.len() && (#[trigger] s.integrated[k]).replica_id
                    == s.replica_id implies s.integrated[k].value <= s.sequence by {
                if k < s0.integrated.len() {
                    assert(s.integrated[k] == s0.integrated[k]);
                }
            }
        }
        Op { id, relative_id: target_id, text: None, version: self.version.snapshot(), is_delete: true }
    }
}

} // verus!
