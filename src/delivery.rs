//! Convergence under causal buffering: whatever order operations are
//! delivered in, the holdback queue integrates them in an order where each
//! finds its dependency, so replicas that received the same operations
//! converge.

use vstd::prelude::*;
use vstd::multiset::Multiset;
use crate::buffer::{Op, ReplicaState, core_wf, op_ready};
use crate::convergence::{
    effect_seq, fresh_run, lemma_runs_converge, ready_run, shared_insert_anchor,
};
use crate::id::Id;
use crate::merge::{
    apply_op_spec, drain_spec, first_ready, lemma_first_ready, malformed, op_effect, receive_spec,
    seen,
};
use crate::sequence::{Node, has_id, visible_text};

verus! {

broadcast use vstd::multiset::group_multiset_axioms;

/// The operations that draining integrates, in order.
pub open spec fn drain_order(s: ReplicaState) -> Seq<Op>
    decreases s.holdback_queue.len(),
{
    let k = first_ready(s.nodes, s.holdback_queue, 0);
    if 0 <= k < s.holdback_queue.len() {
        seq![s.holdback_queue[k]] + drain_order(
            apply_op_spec(
                ReplicaState { holdback_queue: s.holdback_queue.remove(k), ..s },
                s.holdback_queue[k],
            ),
        )
    } else {
        Seq::empty()
    }
}

/// No held-back operation has been integrated, and their identifiers are
/// pairwise different.
pub open spec fn queue_fresh(s: ReplicaState) -> bool {
    &&& forall|k: int|
        0 <= k < s.holdback_queue.len() ==> !s.integrated.contains(
            (#[trigger] s.holdback_queue[k]).id,
        )
    &&& forall|i: int, j: int|
        0 <= i < s.holdback_queue.len() && 0 <= j < s.holdback_queue.len() && i != j ==> (
        #[trigger] s.holdback_queue[i]).id != (#[trigger] s.holdback_queue[j]).id
}

proof fn lemma_effect_seq_single(nodes: Seq<Node>, x: Op)
    ensures
        effect_seq(nodes, seq![x]) == op_effect(nodes, x),
{
    assert(seq![x].drop_last() =~= Seq::<Op>::empty());
    assert(effect_seq(nodes, Seq::<Op>::empty()) == nodes);
    assert(seq![x].last() == x);
}

proof fn lemma_effect_seq_concat(nodes: Seq<Node>, p: Seq<Op>, q: Seq<Op>)
    ensures
        effect_seq(nodes, p + q) == effect_seq(effect_seq(nodes, p), q),
    decreases q.len(),
{
    if q.len() == 0 {
        assert(p + q =~= p);
    } else {
        lemma_effect_seq_concat(nodes, p, q.drop_last());
        assert((p + q).drop_last() =~= p + q.drop_last());
        assert((p + q).last() == q.last());
    }
}

/// A causal run followed by a run that is causal from where the first
/// ended is causal.
proof fn lemma_ready_run_concat(nodes: Seq<Node>, p: Seq<Op>, q: Seq<Op>)
    requires
        ready_run(nodes, p),
        ready_run(effect_seq(nodes, p), q),
    ensures
        ready_run(nodes, p + q),
{
    let r = p + q;
    assert forall|i: int| 0 <= i < r.len() implies op_ready(
        effect_seq(nodes, r.take(i)),
        #[trigger] r[i],
    ) by {
        if i < p.len() {
            assert(r.take(i) =~= p.take(i));
            assert(op_ready(effect_seq(nodes, p.take(i)), p[i]));
        } else {
            let j = i - p.len();
            assert(r.take(i) =~= p + q.take(j));
            lemma_effect_seq_concat(nodes, p, q.take(j));
            assert(op_ready(effect_seq(effect_seq(nodes, p), q.take(j)), q[j]));
        }
    }
}

/// Draining integrates, in a causal order, operations that together with
/// what stays held back make up the old queue.
proof fn lemma_drain_run(s: ReplicaState)
    requires
        queue_fresh(s),
    ensures
        drain_spec(s).nodes == effect_seq(s.nodes, drain_order(s)),
        ready_run(s.nodes, drain_order(s)),
        drain_order(s).to_multiset().add(drain_spec(s).holdback_queue.to_multiset())
            == s.holdback_queue.to_multiset(),
        drain_spec(s).replica_id == s.replica_id,
        drain_spec(s).sequence == s.sequence,
        queue_fresh(drain_spec(s)),
        forall|y: Id| #[trigger]
            drain_spec(s).integrated.contains(y) ==> s.integrated.contains(y) || exists|k: int|
                0 <= k < s.holdback_queue.len() && (#[trigger] s.holdback_queue[k]).id == y,
    decreases s.holdback_queue.len(),
{
    broadcast use vstd::seq_lib::group_to_multiset_ensures;

    let q = s.holdback_queue;
    let k = first_ready(s.nodes, q, 0);
    lemma_first_ready(s.nodes, q, 0);
    if 0 <= k < q.len() {
        let x = q[k];
        let s1 = ReplicaState { holdback_queue: q.remove(k), ..s };
        let t = apply_op_spec(s1, x);
        assert(!s.integrated.contains(q[k].id));
        assert(t.nodes == op_effect(s.nodes, x));
        assert(t.integrated == s.integrated.push(x.id));
        assert(queue_fresh(t)) by {
            assert forall|j: int| 0 <= j < t.holdback_queue.len() implies !t.integrated.contains(
                (#[trigger] t.holdback_queue[j]).id,
            ) by {
                let oj = if j < k {
                    j
                } else {
                    j + 1
                };
                assert(t.holdback_queue[j] == q[oj]);
                assert(!s.integrated.contains(q[oj].id));
                assert(q[oj].id != q[k].id);
                if t.integrated.contains(q[oj].id) {
                    let m = choose|m: int|
                        0 <= m < t.integrated.len() && t.integrated[m] == q[oj].id;
                    if m < s.integrated.len() {
                        assert(s.integrated[m] == q[oj].id);
                    }
                }
            }
            assert forall|i: int, j: int|
                0 <= i < t.holdback_queue.len() && 0 <= j < t.holdback_queue.len() && i
                    != j implies (#[trigger] t.holdback_queue[i]).id != (
            #[trigger] t.holdback_queue[j]).id by {
                let oi = if i < k {
                    i
                } else {
                    i + 1
                };
                let oj = if j < k {
                    j
                } else {
                    j + 1
                };
                assert(q[oi].id != q[oj].id);
            }
        }
        lemma_drain_run(t);
        let d = drain_order(t);
        assert(drain_order(s) == seq![x] + d);
        lemma_effect_seq_concat(s.nodes, seq![x], d);
        lemma_effect_seq_single(s.nodes, x);
        assert(ready_run(s.nodes, seq![x])) by {
            assert(seq![x].take(0) =~= Seq::<Op>::empty());
            assert(op_ready(effect_seq(s.nodes, seq![x].take(0)), seq![x][0]));
        }
        lemma_ready_run_concat(s.nodes, seq![x], d);
        // multisets
        assert(seq![x].to_multiset() =~= Multiset::singleton(x)) by {
            vstd::seq_lib::to_multiset_build(Seq::<Op>::empty(), x);
            assert(Seq::<Op>::empty().push(x) =~= seq![x]);
            assert(Seq::<Op>::empty().to_multiset() =~= Multiset::<Op>::empty());
        }
        vstd::seq_lib::lemma_multiset_commutative(seq![x], d);
        vstd::seq_lib::to_multiset_remove(q, k);
        assert(q.to_multiset().count(x) > 0) by {
            assert(q.contains(x));
        }
        let qf = drain_spec(t).holdback_queue.to_multiset();
        assert(d.to_multiset().add(qf) == t.holdback_queue.to_multiset());
        assert(t.holdback_queue == q.remove(k));
        assert(q.remove(k).to_multiset() == q.to_multiset().remove(x));
        assert(Multiset::singleton(x).add(q.to_multiset().remove(x)) =~= q.to_multiset());
        assert((seq![x] + d).to_multiset() == Multiset::singleton(x).add(d.to_multiset()));
        assert(Multiset::singleton(x).add(d.to_multiset()).add(qf) =~= Multiset::singleton(x).add(
            d.to_multiset().add(qf),
        ));
        // integrated
        assert forall|y: Id| #[trigger] drain_spec(s).integrated.contains(y) implies s.integrated.contains(y)
            || exists|j: int| 0 <= j < q.len() && (#[trigger] q[j]).id == y by {
            assert(drain_spec(s) == drain_spec(t));
            if t.integrated.contains(y) {
                let m = choose|m: int| 0 <= m < t.integrated.len() && t.integrated[m] == y;
                if m == s.integrated.len() {
                    assert(q[k].id == y);
                } else {
                    assert(s.integrated[m] == y);
                }
            } else {
                let j = choose|j: int|
                    0 <= j < t.holdback_queue.len() && (#[trigger] t.holdback_queue[j]).id == y;
                let oj = if j < k {
                    j
                } else {
                    j + 1
                };
                assert(q[oj].id == y);
            }
        }
    } else {
        assert(drain_order(s) =~= Seq::<Op>::empty());
        assert(Seq::<Op>::empty().to_multiset() =~= Multiset::<Op>::empty());
    }
}

/// The state after receiving `ops`, in order.
pub open spec fn receive_run(s: ReplicaState, ops: Seq<Op>) -> ReplicaState
    decreases ops.len(),
{
    if ops.len() == 0 {
        s
    } else {
        receive_spec(receive_run(s, ops.drop_last()), ops.last()).0
    }
}

/// The operations that receiving `ops` integrates, in the order in which
/// they are integrated.
pub open spec fn receive_order(s: ReplicaState, ops: Seq<Op>) -> Seq<Op>
    decreases ops.len(),
{
    if ops.len() == 0 {
        Seq::empty()
    } else {
        let t = receive_run(s, ops.drop_last());
        let x = ops.last();
        let prev = receive_order(s, ops.drop_last());
        if !seen(t, x.id) && !malformed(t, x) && op_ready(t.nodes, x) {
            prev + seq![x] + drain_order(apply_op_spec(t, x))
        } else {
            prev
        }
    }
}

/// The identifiers of `ops` are pairwise different and `s` has integrated
/// none of them.
pub open spec fn fresh_deliveries(s: ReplicaState, ops: Seq<Op>) -> bool {
    &&& forall|i: int| 0 <= i < ops.len() ==> !s.integrated.contains((#[trigger] ops[i]).id)
    &&& forall|i: int, j: int|
        0 <= i < ops.len() && 0 <= j < ops.len() && i != j ==> (#[trigger] ops[i]).id != (
        #[trigger] ops[j]).id
    &&& forall|i: int| 0 <= i < ops.len() ==> !malformed(s, #[trigger] ops[i])
}

proof fn lemma_in_multiset<A>(a: Seq<A>, b: Seq<A>, m: Multiset<A>, x: A)
    requires
        a.to_multiset().add(m) == b.to_multiset(),
        a.contains(x),
    ensures
        b.contains(x),
{
    vstd::seq_lib::to_multiset_contains(a, x);
    vstd::seq_lib::to_multiset_contains(b, x);
}

/// Receiving a run of fresh operations, starting with an empty holdback
/// queue, integrates some of them in a causal order and holds back the rest.
proof fn lemma_receive_run(s: ReplicaState, ops: Seq<Op>)
    requires
        s.holdback_queue.len() == 0,
        fresh_deliveries(s, ops),
    ensures
        receive_run(s, ops).nodes == effect_seq(s.nodes, receive_order(s, ops)),
        ready_run(s.nodes, receive_order(s, ops)),
        receive_order(s, ops).to_multiset().add(receive_run(s, ops).holdback_queue.to_multiset())
            == ops.to_multiset(),
        receive_run(s, ops).replica_id == s.replica_id,
        receive_run(s, ops).sequence == s.sequence,
        queue_fresh(receive_run(s, ops)),
        forall|y: Id| #[trigger]
            receive_run(s, ops).integrated.contains(y) ==> s.integrated.contains(y) || exists|
                i: int,
            |
                0 <= i < ops.len() && (#[trigger] ops[i]).id == y,
    decreases ops.len(),
{
    broadcast use vstd::seq_lib::group_to_multiset_ensures;

    if ops.len() == 0 {
        assert(Seq::<Op>::empty().to_multiset() =~= Multiset::<Op>::empty());
        assert(s.holdback_queue =~= Seq::<Op>::empty());
        return;
    }
    let p = ops.drop_last();
    let x = ops.last();
    let n = ops.len() - 1;
    assert(fresh_deliveries(s, p)) by {
        assert forall|i: int, j: int|
            0 <= i < p.len() && 0 <= j < p.len() && i != j implies (#[trigger] p[i]).id != (
        #[trigger] p[j]).id by {
            assert(ops[i].id != ops[j].id);
        }
        assert forall|i: int| 0 <= i < p.len() implies !s.integrated.contains(
            (#[trigger] p[i]).id,
        ) by {
            assert(!s.integrated.contains(ops[i].id));
        }
        assert forall|i: int| 0 <= i < p.len() implies !malformed(s, #[trigger] p[i]) by {
            assert(!malformed(s, ops[i]));
        }
    }
    lemma_receive_run(s, p);
    let t = receive_run(s, p);
    let r = receive_order(s, p);
    assert(ops == p.push(x));
    vstd::seq_lib::to_multiset_build(p, x);
    assert(!s.integrated.contains(ops[n].id));
    assert(!malformed(s, ops[n]));
    // x is new to t
    assert(!t.integrated.contains(x.id)) by {
        if t.integrated.contains(x.id) {
            let i = choose|i: int| 0 <= i < p.len() && (#[trigger] p[i]).id == x.id;
            assert(ops[i].id != ops[n].id);
        }
    }
    assert forall|k: int| 0 <= k < t.holdback_queue.len() implies (
    #[trigger] t.holdback_queue[k]).id != x.id by {
        let y = t.holdback_queue[k];
        assert(t.holdback_queue.contains(y));
        assert(t.holdback_queue.to_multiset().add(r.to_multiset()) =~= r.to_multiset().add(
            t.holdback_queue.to_multiset(),
        ));
        lemma_in_multiset(t.holdback_queue, p, r.to_multiset(), y);
        let i = choose|i: int| 0 <= i < p.len() && p[i] == y;
        assert(ops[i].id != ops[n].id);
    }
    assert(!seen(t, x.id));
    assert(!malformed(t, x));
    if op_ready(t.nodes, x) {
        let u = apply_op_spec(t, x);
        assert(u.nodes == op_effect(t.nodes, x));
        assert(u.integrated == t.integrated.push(x.id));
        assert(queue_fresh(u)) by {
            assert forall|k: int| 0 <= k < u.holdback_queue.len() implies !u.integrated.contains(
                (#[trigger] u.holdback_queue[k]).id,
            ) by {
                assert(t.holdback_queue[k].id != x.id);
                assert(!t.integrated.contains(t.holdback_queue[k].id));
                if u.integrated.contains(u.holdback_queue[k].id) {
                    let m = choose|m: int|
                        0 <= m < u.integrated.len() && u.integrated[m] == u.holdback_queue[k].id;
                    if m < t.integrated.len() {
                        assert(t.integrated[m] == u.holdback_queue[k].id);
                    }
                }
            }
        }
        lemma_drain_run(u);
        let d = drain_order(u);
        assert(receive_order(s, ops) == r + seq![x] + d);
        assert(receive_run(s, ops) == drain_spec(u));
        lemma_effect_seq_concat(s.nodes, r + seq![x], d);
        lemma_effect_seq_concat(s.nodes, r, seq![x]);
        lemma_effect_seq_single(t.nodes, x);
        assert(ready_run(t.nodes, seq![x])) by {
            assert(seq![x].take(0) =~= Seq::<Op>::empty());
            assert(op_ready(effect_seq(t.nodes, seq![x].take(0)), seq![x][0]));
        }
        lemma_ready_run_concat(s.nodes, r, seq![x]);
        lemma_ready_run_concat(s.nodes, r + seq![x], d);
        // multisets
        let qf = drain_spec(u).holdback_queue.to_multiset();
        assert(seq![x].to_multiset() =~= Multiset::singleton(x)) by {
            vstd::seq_lib::to_multiset_build(Seq::<Op>::empty(), x);
            assert(Seq::<Op>::empty().push(x) =~= seq![x]);
            assert(Seq::<Op>::empty().to_multiset() =~= Multiset::<Op>::empty());
        }
        vstd::seq_lib::lemma_multiset_commutative(r, seq![x]);
        vstd::seq_lib::lemma_multiset_commutative(r + seq![x], d);
        assert(d.to_multiset().add(qf) == t.holdback_queue.to_multiset());
        assert(r.to_multiset().add(t.holdback_queue.to_multiset()) == p.to_multiset());
        assert((r + seq![x] + d).to_multiset().add(qf) =~= ops.to_multiset());
        // integrated
        assert forall|y: Id| #[trigger] receive_run(s, ops).integrated.contains(y) implies s.integrated.contains(
            y,
        ) || exists|i: int| 0 <= i < ops.len() && (#[trigger] ops[i]).id == y by {
            if u.integrated.contains(y) {
                let m = choose|m: int| 0 <= m < u.integrated.len() && u.integrated[m] == y;
                if m == t.integrated.len() {
                    assert(ops[n].id == y);
                } else {
                    assert(t.integrated[m] == y);
                    assert(t.integrated.contains(y));
                    if !s.integrated.contains(y) {
                        let i = choose|i: int| 0 <= i < p.len() && (#[trigger] p[i]).id == y;
                        assert(ops[i].id == y);
                    }
                }
            } else {
                let k = choose|k: int|
                    0 <= k < u.holdback_queue.len() && (#[trigger] u.holdback_queue[k]).id == y;
                let z = t.holdback_queue[k];
                assert(t.holdback_queue.contains(z));
                assert(t.holdback_queue.to_multiset().add(r.to_multiset()) =~= r.to_multiset().add(
                    t.holdback_queue.to_multiset(),
                ));
                lemma_in_multiset(t.holdback_queue, p, r.to_multiset(), z);
                let i = choose|i: int| 0 <= i < p.len() && p[i] == z;
                assert(ops[i].id == y);
            }
        }
    } else {
        let t2 = receive_run(s, ops);
        assert(t2 == ReplicaState { holdback_queue: t.holdback_queue.push(x), ..t });
        assert(receive_order(s, ops) == r);
        vstd::seq_lib::to_multiset_build(t.holdback_queue, x);
        assert(r.to_multiset().add(t2.holdback_queue.to_multiset()) =~= ops.to_multiset());
        assert(queue_fresh(t2)) by {
            assert forall|k: int| 0 <= k < t2.holdback_queue.len() implies !t2.integrated.contains(
                (#[trigger] t2.holdback_queue[k]).id,
            ) by {
                if k < t.holdback_queue.len() {
                    assert(t2.holdback_queue[k] == t.holdback_queue[k]);
                }
            }
            assert forall|i: int, j: int|
                0 <= i < t2.holdback_queue.len() && 0 <= j < t2.holdback_queue.len() && i
                    != j implies (#[trigger] t2.holdback_queue[i]).id != (
            #[trigger] t2.holdback_queue[j]).id by {
                if i < t.holdback_queue.len() && j < t.holdback_queue.len() {
                    assert(t.holdback_queue[i].id != t.holdback_queue[j].id);
                } else if i < t.holdback_queue.len() {
                    assert(t.holdback_queue[i].id != x.id);
                } else if j < t.holdback_queue.len() {
                    assert(t.holdback_queue[j].id != x.id);
                }
            }
        }
        assert forall|y: Id| #[trigger] t2.integrated.contains(y) implies s.integrated.contains(y)
            || exists|i: int| 0 <= i < ops.len() && (#[trigger] ops[i]).id == y by {
            if !s.integrated.contains(y) {
                let i = choose|i: int| 0 <= i < p.len() && (#[trigger] p[i]).id == y;
                assert(ops[i].id == y);
            }
        }
    }
}

/// A reordering of a run keeps its identifiers fresh and pairwise
/// different, and keeps its inserts on one anchor.
proof fn lemma_permutation_keeps_run(nodes: Seq<Node>, a: Seq<Op>, b: Seq<Op>)
    requires
        a.to_multiset() == b.to_multiset(),
        fresh_run(nodes, a),
        shared_insert_anchor(a),
    ensures
        fresh_run(nodes, b),
        shared_insert_anchor(b),
{
    broadcast use vstd::seq_lib::group_to_multiset_ensures;

    assert(a.no_duplicates()) by {
        assert forall|i: int, j: int| 0 <= i < a.len() && 0 <= j < a.len() && i != j implies a[i]
            != a[j] by {
            assert(a[i].id != a[j].id);
        }
    }
    a.lemma_multiset_has_no_duplicates();
    b.lemma_multiset_has_no_duplicates_conv();
    assert forall|i: int| 0 <= i < b.len() implies exists|k: int| 0 <= k < a.len() && a[k] == #[trigger] b[i] by {
        assert(b.contains(b[i]));
        vstd::seq_lib::to_multiset_contains(b, b[i]);
        vstd::seq_lib::to_multiset_contains(a, b[i]);
    }
    assert forall|i: int, j: int|
        0 <= i < b.len() && 0 <= j < b.len() && i != j implies (#[trigger] b[i]).id != (
    #[trigger] b[j]).id by {
        let ki = choose|k: int| 0 <= k < a.len() && a[k] == b[i];
        let kj = choose|k: int| 0 <= k < a.len() && a[k] == b[j];
        assert(b[i] != b[j]);
        assert(a[ki].id != a[kj].id);
    }
    assert forall|i: int| 0 <= i < b.len() implies !has_id(nodes, (#[trigger] b[i]).id) by {
        let ki = choose|k: int| 0 <= k < a.len() && a[k] == b[i];
        assert(!has_id(nodes, a[ki].id));
    }
    assert forall|i: int, j: int| 0 <= i < b.len() && 0 <= j < b.len() implies (
    #[trigger] b[i]).is_delete || (#[trigger] b[j]).is_delete || b[i].relative_id
        == b[j].relative_id by {
        let ki = choose|k: int| 0 <= k < a.len() && a[k] == b[i];
        let kj = choose|k: int| 0 <= k < a.len() && a[k] == b[j];
        assert(a[ki].is_delete || a[kj].is_delete || a[ki].relative_id == a[kj].relative_id);
    }
}

/// Two replicas with equal node sequences and empty holdback queues
/// receive the same operations, in any two delivery orders. Once neither
/// holds any of them back, both have equal node sequences and render the
/// same text. The operations have distinct identifiers that neither replica
/// has integrated, neither replica finds any of them malformed, and any two
/// of their inserts share an anchor.
pub proof fn lemma_deliveries_converge(
    s1: ReplicaState,
    s2: ReplicaState,
    d1: Seq<Op>,
    d2: Seq<Op>,
)
    requires
        core_wf(s1),
        core_wf(s2),
        s1.nodes == s2.nodes,
        s1.holdback_queue.len() == 0,
        s2.holdback_queue.len() == 0,
        fresh_deliveries(s1, d1),
        fresh_deliveries(s2, d2),
        shared_insert_anchor(d1),
        d1.to_multiset() == d2.to_multiset(),
        receive_run(s1, d1).holdback_queue.len() == 0,
        receive_run(s2, d2).holdback_queue.len() == 0,
    ensures
        receive_run(s1, d1).nodes == receive_run(s2, d2).nodes,
        visible_text(receive_run(s1, d1).nodes) == visible_text(receive_run(s2, d2).nodes),
{
    broadcast use vstd::seq_lib::group_to_multiset_ensures;

    lemma_receive_run(s1, d1);
    lemma_receive_run(s2, d2);
    let r1 = receive_order(s1, d1);
    let r2 = receive_order(s2, d2);
    assert(receive_run(s1, d1).holdback_queue =~= Seq::<Op>::empty());
    assert(receive_run(s2, d2).holdback_queue =~= Seq::<Op>::empty());
    assert(Seq::<Op>::empty().to_multiset() =~= Multiset::<Op>::empty());
    assert(r1.to_multiset() =~= d1.to_multiset());
    assert(r2.to_multiset() =~= d2.to_multiset());
    assert(fresh_run(s1.nodes, d1)) by {
        assert forall|i: int| 0 <= i < d1.len() implies !has_id(s1.nodes, (#[trigger] d1[i]).id) by {
            assert(!s1.integrated.contains(d1[i].id));
            if has_id(s1.nodes, d1[i].id) {
                let k = choose|k: int|
                    0 <= k < s1.nodes.len() && #[trigger] s1.nodes[k].insertion_id == d1[i].id;
                assert(s1.integrated.contains(s1.nodes[k].insertion_id));
            }
        }
    }
    lemma_permutation_keeps_run(s1.nodes, d1, r1);
    lemma_permutation_keeps_run(s1.nodes, d1, r2);
    lemma_runs_converge(s1.nodes, r1, r2);
}

} // verus!
