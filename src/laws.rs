//! Properties of the replicated buffer that relate several operations.

use vstd::prelude::*;
use crate::buffer::{
    Op, ReplicaState, core_wf, fresh_state, local_delete_spec, local_insert_spec, op_ready,
};
use crate::id::{Id, id_lt};
use crate::merge::{
    Integration, applicable, apply_op_spec, drain_spec, first_ready, lemma_apply_op_wf, op_effect,
    op_node,
    receive_spec, seen,
};
use crate::sequence::{
    Node, has_id, hide_spec, index_of, insert_index, insert_spec, lemma_hide_at, lemma_hide_ids,
    lemma_index_of, lemma_insert_ids, lemma_hide_visible_text, lemma_insert_index_bounds, lemma_insert_index_frame,
    lemma_skip_from_insert, lemma_skip_from_mono, lemma_skip_from_shift, lemma_start_of_insert,
    lemma_start_of_insert_before, start_of,
    unique_ids, visible_before, visible_text,
};
use crate::version::version_update;

verus! {

proof fn lemma_inserts_commute_ordered(nodes: Seq<Node>, a: Node, b: Node)
    requires
        unique_ids(nodes),
        a.relative_to_id == b.relative_to_id,
        id_lt(a.insertion_id, b.insertion_id),
        !has_id(nodes, a.insertion_id),
        !has_id(nodes, b.insertion_id),
        a.relative_to_id is Some ==> has_id(nodes, a.relative_to_id->0),
    ensures
        insert_spec(insert_spec(nodes, a), b) == insert_spec(insert_spec(nodes, b), a),
        insert_spec(insert_spec(nodes, a), b) == nodes.insert(insert_index(nodes, a), a).insert(
            insert_index(nodes, b) + 1,
            b,
        ),
        insert_index(nodes, a) <= insert_index(nodes, b),
{
    let anchor = a.relative_to_id;
    let st = start_of(nodes, anchor);
    let pa = insert_index(nodes, a);
    let pb = insert_index(nodes, b);
    lemma_insert_index_bounds(nodes, a);
    lemma_insert_index_bounds(nodes, b);
    lemma_skip_from_mono(nodes, anchor, a.insertion_id, b.insertion_id, st);
    // a first, then b
    let t1 = nodes.insert(pa, a);
    lemma_start_of_insert(nodes, pa, a, anchor);
    lemma_skip_from_insert(nodes, pa, a, anchor, b.insertion_id, st);
    assert(insert_index(t1, b) == pb + 1);
    // b first, then a
    let t2 = nodes.insert(pb, b);
    lemma_start_of_insert(nodes, pb, b, anchor);
    lemma_skip_from_insert(nodes, pb, b, anchor, a.insertion_id, st);
    assert(insert_index(t2, a) == pa);
    assert(t1.insert(pb + 1, b) =~= t2.insert(pa, a));
}

proof fn lemma_inserts_commute_apart(nodes: Seq<Node>, a: Node, b: Node)
    requires
        unique_ids(nodes),
        a.insertion_id != b.insertion_id,
        !has_id(nodes, a.insertion_id),
        !has_id(nodes, b.insertion_id),
        a.relative_to_id is Some ==> has_id(nodes, a.relative_to_id->0),
        b.relative_to_id is Some ==> has_id(nodes, b.relative_to_id->0),
        insert_index(nodes, a) < start_of(nodes, b.relative_to_id),
    ensures
        insert_spec(insert_spec(nodes, a), b) == insert_spec(insert_spec(nodes, b), a),
{
    let pa = insert_index(nodes, a);
    let pb = insert_index(nodes, b);
    let sb = start_of(nodes, b.relative_to_id);
    lemma_insert_index_bounds(nodes, a);
    lemma_insert_index_bounds(nodes, b);
    // a first: b's anchor and scan move one place on
    let t1 = nodes.insert(pa, a);
    lemma_start_of_insert_before(nodes, pa, a, b.relative_to_id);
    lemma_skip_from_shift(nodes, pa, a, b.relative_to_id, b.insertion_id, sb);
    assert(insert_index(t1, b) == pb + 1);
    // b first: a's scan ends before b
    let t2 = nodes.insert(pb, b);
    lemma_start_of_insert(nodes, pb, b, a.relative_to_id);
    lemma_skip_from_insert(
        nodes,
        pb,
        b,
        a.relative_to_id,
        a.insertion_id,
        start_of(nodes, a.relative_to_id),
    );
    assert(insert_index(t2, a) == pa);
    assert(t1.insert(pb + 1, b) =~= t2.insert(pa, a));
}

/// Two concurrent inserts commute when they share an anchor, or when one of
/// them lands before the place where the other's scan starts.
pub proof fn lemma_inserts_commute(nodes: Seq<Node>, a: Node, b: Node)
    requires
        unique_ids(nodes),
        a.insertion_id != b.insertion_id,
        !has_id(nodes, a.insertion_id),
        !has_id(nodes, b.insertion_id),
        a.relative_to_id is Some ==> has_id(nodes, a.relative_to_id->0),
        b.relative_to_id is Some ==> has_id(nodes, b.relative_to_id->0),
        a.relative_to_id == b.relative_to_id || insert_index(nodes, a) < start_of(
            nodes,
            b.relative_to_id,
        ) || insert_index(nodes, b) < start_of(nodes, a.relative_to_id),
    ensures
        insert_spec(insert_spec(nodes, a), b) == insert_spec(insert_spec(nodes, b), a),
{
    if a.relative_to_id == b.relative_to_id {
        lemma_concurrent_inserts_commute(nodes, a, b);
    } else if insert_index(nodes, a) < start_of(nodes, b.relative_to_id) {
        lemma_inserts_commute_apart(nodes, a, b);
    } else {
        lemma_inserts_commute_apart(nodes, b, a);
    }
}

/// Two replicas that insert different characters concurrently after the
/// same anchor, and then integrate each other's insert, end with the same
/// sequence whichever integrated first; in it the two nodes stand in
/// ascending identifier order.
pub proof fn lemma_concurrent_inserts_commute(nodes: Seq<Node>, a: Node, b: Node)
    requires
        unique_ids(nodes),
        a.relative_to_id == b.relative_to_id,
        a.insertion_id != b.insertion_id,
        !has_id(nodes, a.insertion_id),
        !has_id(nodes, b.insertion_id),
        a.relative_to_id is Some ==> has_id(nodes, a.relative_to_id->0),
    ensures
        insert_spec(insert_spec(nodes, a), b) == insert_spec(insert_spec(nodes, b), a),
        unique_ids(insert_spec(insert_spec(nodes, a), b)),
        id_lt(a.insertion_id, b.insertion_id) <==> index_of(
            insert_spec(insert_spec(nodes, a), b),
            a.insertion_id,
        ) < index_of(insert_spec(insert_spec(nodes, a), b), b.insertion_id),
{
    let (lo, hi) = if id_lt(a.insertion_id, b.insertion_id) {
        (a, b)
    } else {
        (b, a)
    };
    lemma_inserts_commute_ordered(nodes, lo, hi);
    let pl = insert_index(nodes, lo);
    let ph = insert_index(nodes, hi);
    lemma_insert_index_bounds(nodes, lo);
    lemma_insert_index_bounds(nodes, hi);
    let t = nodes.insert(pl, lo);
    let u = t.insert(ph + 1, hi);
    lemma_insert_ids(nodes, pl, lo);
    assert(!has_id(t, hi.insertion_id));
    lemma_insert_ids(t, ph + 1, hi);
    assert(u[pl] == lo);
    assert(u[ph + 1] == hi);
    lemma_index_of(u, pl);
    lemma_index_of(u, ph + 1);
}

/// Tombstoning is idempotent and commutes: two replicas that delete the
/// same character concurrently converge, with exactly that one node
/// tombstoned and the character counted once as absent.
pub proof fn lemma_concurrent_deletes(nodes: Seq<Node>, i: int, y: Id)
    requires
        unique_ids(nodes),
        0 <= i < nodes.len(),
        nodes[i].visible,
    ensures
        hide_spec(hide_spec(nodes, nodes[i].insertion_id), nodes[i].insertion_id) == hide_spec(
            nodes,
            nodes[i].insertion_id,
        ),
        hide_spec(hide_spec(nodes, nodes[i].insertion_id), y) == hide_spec(
            hide_spec(nodes, y),
            nodes[i].insertion_id,
        ),
        hide_spec(nodes, nodes[i].insertion_id) == nodes.update(
            i,
            Node { visible: false, ..nodes[i] },
        ),
        visible_text(hide_spec(nodes, nodes[i].insertion_id)) == visible_text(nodes).remove(
            visible_before(nodes, i),
        ),
{
    let x = nodes[i].insertion_id;
    assert(hide_spec(hide_spec(nodes, x), x) =~= hide_spec(nodes, x));
    assert(hide_spec(hide_spec(nodes, x), y) =~= hide_spec(hide_spec(nodes, y), x));
    lemma_hide_at(nodes, i);
    lemma_hide_visible_text(nodes, i);
}

/// Inserting one node and tombstoning another commute.
pub proof fn lemma_insert_hide_commute(nodes: Seq<Node>, n: Node, x: Id)
    requires
        unique_ids(nodes),
        !has_id(nodes, n.insertion_id),
        n.insertion_id != x,
    ensures
        hide_spec(insert_spec(nodes, n), x) == insert_spec(hide_spec(nodes, x), n),
{
    lemma_hide_ids(nodes, x);
    lemma_insert_index_frame(nodes, hide_spec(nodes, x), n);
    lemma_insert_index_bounds(nodes, n);
    let p = insert_index(nodes, n);
    assert(hide_spec(nodes.insert(p, n), x) =~= hide_spec(nodes, x).insert(p, n));
}

/// Folding two identifiers into a version vector gives the same vector in
/// either order.
pub proof fn lemma_version_update_commute(m: Map<u16, u32>, a: Id, b: Id)
    ensures
        version_update(version_update(m, a), b) == version_update(version_update(m, b), a),
{
    let l = version_update(version_update(m, a), b);
    let r = version_update(version_update(m, b), a);
    assert(l =~= r);
}

/// The effects of two concurrent operations on the node sequence commute,
/// provided one of them is a delete, or both are inserts after the same
/// anchor, or one insert lands before the place where the other's scan
/// starts.
pub proof fn lemma_effects_commute(nodes: Seq<Node>, a: Op, b: Op)
    requires
        unique_ids(nodes),
        a.id != b.id,
        !has_id(nodes, a.id),
        !has_id(nodes, b.id),
        op_ready(nodes, a),
        op_ready(nodes, b),
        a.is_delete || b.is_delete || a.relative_id == b.relative_id || insert_index(
            nodes,
            op_node(a),
        ) < start_of(nodes, b.relative_id) || insert_index(nodes, op_node(b)) < start_of(
            nodes,
            a.relative_id,
        ),
    ensures
        op_effect(op_effect(nodes, a), b) == op_effect(op_effect(nodes, b), a),
{
    let a_ins = !a.is_delete && a.text is Some;
    let b_ins = !b.is_delete && b.text is Some;
    if a.is_delete && b.is_delete {
        match (a.relative_id, b.relative_id) {
            (Some(x), Some(y)) => {
                assert(hide_spec(hide_spec(nodes, x), y) =~= hide_spec(hide_spec(nodes, y), x));
            },
            _ => {},
        }
    } else if a.is_delete && b_ins {
        match a.relative_id {
            Some(x) => {
                assert(x != b.id);
                lemma_insert_hide_commute(nodes, op_node(b), x);
            },
            None => {},
        }
    } else if b.is_delete && a_ins {
        match b.relative_id {
            Some(x) => {
                assert(x != a.id);
                lemma_insert_hide_commute(nodes, op_node(a), x);
            },
            None => {},
        }
    } else if a_ins && b_ins {
        lemma_inserts_commute(nodes, op_node(a), op_node(b));
    }
}

/// Two operations that are concurrent (both ready, neither integrated,
/// different identifiers) give the same sequence and the same version
/// vector whichever is integrated first, provided one of them is a delete,
/// or both are inserts after the same anchor, or one insert lands before the
/// place where the other's scan starts.
pub proof fn lemma_concurrent_ops_converge(s: ReplicaState, a: Op, b: Op)
    requires
        core_wf(s),
        applicable(s, a),
        applicable(s, b),
        a.id != b.id,
        !s.integrated.contains(a.id),
        !s.integrated.contains(b.id),
        a.is_delete || b.is_delete || a.relative_id == b.relative_id || insert_index(
            s.nodes,
            op_node(a),
        ) < start_of(s.nodes, b.relative_id) || insert_index(s.nodes, op_node(b)) < start_of(
            s.nodes,
            a.relative_id,
        ),
    ensures
        apply_op_spec(apply_op_spec(s, a), b).nodes == apply_op_spec(apply_op_spec(s, b), a).nodes,
        visible_text(apply_op_spec(apply_op_spec(s, a), b).nodes) == visible_text(
            apply_op_spec(apply_op_spec(s, b), a).nodes,
        ),
        apply_op_spec(apply_op_spec(s, a), b).version == apply_op_spec(
            apply_op_spec(s, b),
            a,
        ).version,
{
    lemma_apply_op_wf(s, a);
    lemma_apply_op_wf(s, b);
    let sa = apply_op_spec(s, a);
    let sb = apply_op_spec(s, b);
    assert(!sa.integrated.contains(b.id)) by {
        if sa.integrated.contains(b.id) {
            let k = choose|k: int| 0 <= k < sa.integrated.len() && sa.integrated[k] == b.id;
            if k < s.integrated.len() {
                assert(s.integrated[k] == b.id);
            }
        }
    }
    assert(!sb.integrated.contains(a.id)) by {
        if sb.integrated.contains(a.id) {
            let k = choose|k: int| 0 <= k < sb.integrated.len() && sb.integrated[k] == a.id;
            if k < s.integrated.len() {
                assert(s.integrated[k] == a.id);
            }
        }
    }
    lemma_version_update_commute(s.version, a.id, b.id);
    let nodes = s.nodes;
    assert(!has_id(nodes, a.id)) by {
        if has_id(nodes, a.id) {
            let i = choose|i: int| 0 <= i < nodes.len() && #[trigger] nodes[i].insertion_id == a.id;
            assert(s.integrated.contains(nodes[i].insertion_id));
        }
    }
    assert(!has_id(nodes, b.id)) by {
        if has_id(nodes, b.id) {
            let i = choose|i: int| 0 <= i < nodes.len() && #[trigger] nodes[i].insertion_id == b.id;
            assert(s.integrated.contains(nodes[i].insertion_id));
        }
    }
    lemma_effects_commute(nodes, a, b);
}

proof fn lemma_drain_keeps_integrated(s: ReplicaState, x: Id)
    requires
        s.integrated.contains(x),
    ensures
        drain_spec(s).integrated.contains(x),
    decreases s.holdback_queue.len(),
{
    let k = first_ready(s.nodes, s.holdback_queue, 0);
    if 0 <= k < s.holdback_queue.len() {
        let r = ReplicaState { holdback_queue: s.holdback_queue.remove(k), ..s };
        let t = apply_op_spec(r, s.holdback_queue[k]);
        if !r.integrated.contains(s.holdback_queue[k].id) {
            let j = choose|j: int| 0 <= j < s.integrated.len() && s.integrated[j] == x;
            assert(t.integrated[j] == x);
        }
        lemma_drain_keeps_integrated(t, x);
    }
}

/// Receiving an operation a second time changes nothing: the state after
/// the second delivery is the state after the first.
pub proof fn lemma_receive_idempotent(s: ReplicaState, op: Op)
    ensures
        receive_spec(receive_spec(s, op).0, op).0 == receive_spec(s, op).0,
        receive_spec(s, op).1 != Integration::Malformed ==> receive_spec(
            receive_spec(s, op).0,
            op,
        ).1 == Integration::Duplicate,
{
    let (t, res) = receive_spec(s, op);
    if res == Integration::Integrated {
        let a = apply_op_spec(s, op);
        assert(a.integrated[a.integrated.len() - 1] == op.id);
        lemma_drain_keeps_integrated(a, op.id);
        assert(seen(t, op.id));
    } else if res == Integration::Buffered {
        assert(t.holdback_queue[t.holdback_queue.len() - 1] == op);
        assert(seen(t, op.id));
    }
}

/// A local edit, for reasoning about runs of them.
pub enum LocalEdit {
    Insert { pos: usize, c: char },
    Delete { pos: usize },
}

/// The state after a run of local edits.
pub open spec fn run_local(s: ReplicaState, edits: Seq<LocalEdit>) -> ReplicaState
    decreases edits.len(),
{
    if edits.len() == 0 {
        s
    } else {
        let prev = run_local(s, edits.drop_last());
        match edits.last() {
            LocalEdit::Insert { pos, c } => local_insert_spec(prev, pos as int, c),
            LocalEdit::Delete { pos } => local_delete_spec(prev, pos as int),
        }
    }
}

/// After `n` local operations on a fresh buffer of replica `r`, the version
/// vector holds `n` for `r` (no entry when `n` is 0), and `n` is also the
/// local sequence counter.
pub proof fn lemma_version_counts_local_ops(r: u16, edits: Seq<LocalEdit>)
    requires
        edits.len() <= u32::MAX,
    ensures
        run_local(fresh_state(r), edits).sequence == edits.len(),
        run_local(fresh_state(r), edits).replica_id == r,
        edits.len() > 0 ==> run_local(fresh_state(r), edits).version.contains_key(r)
            && run_local(fresh_state(r), edits).version[r] == edits.len(),
        edits.len() == 0 ==> !run_local(fresh_state(r), edits).version.contains_key(r),
    decreases edits.len(),
{
    if edits.len() > 0 {
        lemma_version_counts_local_ops(r, edits.drop_last());
    }
}

} // verus!
