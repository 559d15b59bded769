//! Convergence of replicas that integrate the same operations in different
//! orders.

use vstd::prelude::*;
use crate::buffer::{Op, ReplicaState, core_wf, op_ready};
use crate::id::Id;
use crate::laws::lemma_effects_commute;
use crate::merge::{apply_op_spec, op_effect, op_node};
use crate::sequence::{
    Node, has_id, insert_index, lemma_hide_ids, lemma_insert_ids, lemma_insert_index_bounds,
    unique_ids, visible_text,
};

verus! {

/// The node sequence after the effects of `ops`, in order.
pub open spec fn effect_seq(nodes: Seq<Node>, ops: Seq<Op>) -> Seq<Node>
    decreases ops.len(),
{
    if ops.len() == 0 {
        nodes
    } else {
        op_effect(effect_seq(nodes, ops.drop_last()), ops.last())
    }
}

/// Each operation of `ops` finds its dependency present when its turn
/// comes: the order is one that causal delivery allows.
pub open spec fn ready_run(nodes: Seq<Node>, ops: Seq<Op>) -> bool {
    forall|i: int| 0 <= i < ops.len() ==> op_ready(effect_seq(nodes, ops.take(i)), #[trigger] ops[i])
}

/// The identifiers of `ops` are pairwise different and none is a node yet.
pub open spec fn fresh_run(nodes: Seq<Node>, ops: Seq<Op>) -> bool {
    &&& forall|i: int| 0 <= i < ops.len() ==> !has_id(nodes, (#[trigger] ops[i]).id)
    &&& forall|i: int, j: int|
        0 <= i < ops.len() && 0 <= j < ops.len() && i != j ==> (#[trigger] ops[i]).id != (
        #[trigger] ops[j]).id
}

/// Any two inserts among `ops` name the same anchor.
pub open spec fn shared_insert_anchor(ops: Seq<Op>) -> bool {
    forall|i: int, j: int|
        0 <= i < ops.len() && 0 <= j < ops.len() ==> (#[trigger] ops[i]).is_delete || (
        #[trigger] ops[j]).is_delete || ops[i].relative_id == ops[j].relative_id
}

proof fn lemma_effect_ids(nodes: Seq<Node>, op: Op)
    requires
        unique_ids(nodes),
        !has_id(nodes, op.id),
    ensures
        unique_ids(op_effect(nodes, op)),
        forall|a: Id| #[trigger]
            has_id(op_effect(nodes, op), a) ==> has_id(nodes, a) || a == op.id,
        forall|a: Id| has_id(nodes, a) ==> #[trigger] has_id(op_effect(nodes, op), a),
{
    if op.is_delete {
        match op.relative_id {
            Some(t) => lemma_hide_ids(nodes, t),
            None => {},
        }
    } else if op.text is Some {
        lemma_insert_index_bounds(nodes, op_node(op));
        lemma_insert_ids(nodes, insert_index(nodes, op_node(op)), op_node(op));
    }
}

proof fn lemma_effect_seq_ids(nodes: Seq<Node>, ops: Seq<Op>)
    requires
        unique_ids(nodes),
        fresh_run(nodes, ops),
    ensures
        unique_ids(effect_seq(nodes, ops)),
        forall|a: Id| #[trigger]
            has_id(effect_seq(nodes, ops), a) ==> has_id(nodes, a) || exists|i: int|
                0 <= i < ops.len() && (#[trigger] ops[i]).id == a,
    decreases ops.len(),
{
    if ops.len() > 0 {
        let p = ops.drop_last();
        let x = ops.last();
        assert(fresh_run(nodes, p)) by {
            assert forall|i: int, j: int|
                0 <= i < p.len() && 0 <= j < p.len() && i != j implies (#[trigger] p[i]).id != (
            #[trigger] p[j]).id by {
                assert(ops[i].id != ops[j].id);
            }
            assert forall|i: int| 0 <= i < p.len() implies !has_id(nodes, (#[trigger] p[i]).id) by {
                assert(!has_id(nodes, ops[i].id));
            }
        }
        lemma_effect_seq_ids(nodes, p);
        let e = effect_seq(nodes, p);
        assert(!has_id(e, x.id)) by {
            if has_id(e, x.id) {
                assert(!has_id(nodes, ops[ops.len() - 1].id));
                let i = choose|i: int| 0 <= i < p.len() && (#[trigger] p[i]).id == x.id;
                assert(ops[i].id != ops[ops.len() - 1].id);
            }
        }
        lemma_effect_ids(e, x);
        assert forall|a: Id| #[trigger] has_id(effect_seq(nodes, ops), a) implies has_id(nodes, a)
            || exists|i: int| 0 <= i < ops.len() && (#[trigger] ops[i]).id == a by {
            if has_id(e, a) {
                if !has_id(nodes, a) {
                    let i = choose|i: int| 0 <= i < p.len() && (#[trigger] p[i]).id == a;
                    assert(ops[i].id == a);
                }
            } else {
                assert(ops[ops.len() - 1].id == a);
            }
        }
    }
}

proof fn lemma_effect_seq_append(nodes: Seq<Node>, p: Seq<Op>, q: Seq<Op>)
    ensures
        effect_seq(nodes, p + q) == effect_seq(effect_seq(nodes, p), q),
    decreases q.len(),
{
    if q.len() == 0 {
        assert(p + q =~= p);
    } else {
        lemma_effect_seq_append(nodes, p, q.drop_last());
        assert((p + q).drop_last() =~= p + q.drop_last());
        assert((p + q).last() == q.last());
    }
}

proof fn lemma_effect_seq_pair(nodes: Seq<Node>, a: Op, b: Op)
    ensures
        effect_seq(nodes, seq![a, b]) == op_effect(op_effect(nodes, a), b),
{
    assert(seq![a, b].drop_last() =~= seq![a]);
    assert(seq![a].drop_last() =~= Seq::<Op>::empty());
    assert(effect_seq(nodes, Seq::<Op>::empty()) == nodes);
    assert(effect_seq(nodes, seq![a]) == op_effect(nodes, a));
    assert(seq![a, b].last() == b);
}

proof fn lemma_fresh_run_take(nodes: Seq<Node>, r: Seq<Op>, n: int)
    requires
        fresh_run(nodes, r),
        0 <= n <= r.len(),
    ensures
        fresh_run(nodes, r.take(n)),
{
    let t = r.take(n);
    assert forall|i: int, j: int|
        0 <= i < t.len() && 0 <= j < t.len() && i != j implies (#[trigger] t[i]).id != (
    #[trigger] t[j]).id by {
        assert(r[i].id != r[j].id);
    }
    assert forall|i: int| 0 <= i < t.len() implies !has_id(nodes, (#[trigger] t[i]).id) by {
        assert(!has_id(nodes, r[i].id));
    }
}

spec fn swap_next(r: Seq<Op>, k: int) -> Seq<Op> {
    r.update(k, r[k + 1]).update(k + 1, r[k])
}

proof fn lemma_swap_fresh(nodes: Seq<Node>, r: Seq<Op>, k: int)
    requires
        fresh_run(nodes, r),
        shared_insert_anchor(r),
        0 <= k < r.len() - 1,
    ensures
        fresh_run(nodes, swap_next(r, k)),
        shared_insert_anchor(swap_next(r, k)),
{
    let r2 = swap_next(r, k);
    assert forall|i: int, j: int|
        0 <= i < r2.len() && 0 <= j < r2.len() && i != j implies (#[trigger] r2[i]).id != (
    #[trigger] r2[j]).id by {
        let oi = if i == k {
            k + 1
        } else if i == k + 1 {
            k
        } else {
            i
        };
        let oj = if j == k {
            k + 1
        } else if j == k + 1 {
            k
        } else {
            j
        };
        assert(r[oi].id != r[oj].id);
    }
    assert forall|i: int| 0 <= i < r2.len() implies !has_id(nodes, (#[trigger] r2[i]).id) by {
        let oi = if i == k {
            k + 1
        } else if i == k + 1 {
            k
        } else {
            i
        };
        assert(!has_id(nodes, r[oi].id));
    }
    assert forall|i: int, j: int| 0 <= i < r2.len() && 0 <= j < r2.len() implies (
    #[trigger] r2[i]).is_delete || (#[trigger] r2[j]).is_delete || r2[i].relative_id
        == r2[j].relative_id by {
        let oi = if i == k {
            k + 1
        } else if i == k + 1 {
            k
        } else {
            i
        };
        let oj = if j == k {
            k + 1
        } else if j == k + 1 {
            k
        } else {
            j
        };
        assert(r[oi].is_delete || r[oj].is_delete || r[oi].relative_id == r[oj].relative_id);
    }
}

/// At the swapped pair: both orders are causal and give the same sequence.
#[verifier::rlimit(50)]
proof fn lemma_swap_core(nodes: Seq<Node>, r: Seq<Op>, k: int)
    requires
        unique_ids(nodes),
        fresh_run(nodes, r),
        shared_insert_anchor(r),
        ready_run(nodes, r),
        0 <= k < r.len() - 1,
        r[k + 1].relative_id != Some(r[k].id),
    ensures
        op_ready(effect_seq(nodes, r.take(k)), r[k + 1]),
        op_ready(op_effect(effect_seq(nodes, r.take(k)), r[k + 1]), r[k]),
        effect_seq(nodes, swap_next(r, k).take(k + 2)) == effect_seq(nodes, r.take(k + 2)),
{
    let x = r[k];
    let y = r[k + 1];
    let pre = r.take(k);
    let e = effect_seq(nodes, pre);
    lemma_fresh_run_take(nodes, r, k);
    lemma_effect_seq_ids(nodes, pre);
    assert(!has_id(e, x.id)) by {
        assert(!has_id(nodes, r[k].id));
        if has_id(e, x.id) {
            let i = choose|i: int| 0 <= i < pre.len() && (#[trigger] pre[i]).id == x.id;
            assert(r[i].id != r[k].id);
        }
    }
    assert(!has_id(e, y.id)) by {
        assert(!has_id(nodes, r[k + 1].id));
        if has_id(e, y.id) {
            let i = choose|i: int| 0 <= i < pre.len() && (#[trigger] pre[i]).id == y.id;
            assert(r[i].id != r[k + 1].id);
        }
    }
    assert(op_ready(e, x));
    lemma_effect_ids(e, x);
    lemma_effect_ids(e, y);
    assert(r.take(k + 1).drop_last() =~= pre);
    assert(op_ready(effect_seq(nodes, r.take(k + 1)), r[k + 1]));
    assert(op_ready(op_effect(e, x), y));
    assert(op_ready(e, y));
    assert(op_ready(op_effect(e, y), x));
    assert(x.id != y.id) by {
        assert(r[k].id != r[k + 1].id);
    }
    assert(x.is_delete || y.is_delete || x.relative_id == y.relative_id) by {
        assert(r[k].is_delete || r[k + 1].is_delete || r[k].relative_id == r[k + 1].relative_id);
    }
    lemma_effects_commute(e, x, y);
    let r2 = swap_next(r, k);
    assert(r.take(k + 2) =~= pre + seq![x, y]);
    assert(r2.take(k + 2) =~= pre + seq![y, x]);
    lemma_effect_seq_append(nodes, pre, seq![x, y]);
    lemma_effect_seq_append(nodes, pre, seq![y, x]);
    lemma_effect_seq_pair(e, x, y);
    lemma_effect_seq_pair(e, y, x);
}

/// Swapping two neighbours, the second of which does not depend on the
/// first, keeps the run causal and its result unchanged.
proof fn lemma_swap_step(nodes: Seq<Node>, r: Seq<Op>, k: int)
    requires
        unique_ids(nodes),
        fresh_run(nodes, r),
        shared_insert_anchor(r),
        ready_run(nodes, r),
        0 <= k < r.len() - 1,
        r[k + 1].relative_id != Some(r[k].id),
    ensures
        effect_seq(nodes, swap_next(r, k)) == effect_seq(nodes, r),
        ready_run(nodes, swap_next(r, k)),
        fresh_run(nodes, swap_next(r, k)),
        shared_insert_anchor(swap_next(r, k)),
{
    let r2 = swap_next(r, k);
    lemma_swap_fresh(nodes, r, k);
    lemma_swap_core(nodes, r, k);
    assert forall|i: int| k + 2 <= i <= r.len() implies effect_seq(nodes, #[trigger] r2.take(i))
        == effect_seq(nodes, r.take(i)) by {
        let rest = r.subrange(k + 2, i);
        assert(r.take(i) =~= r.take(k + 2) + rest);
        assert(r2.take(i) =~= r2.take(k + 2) + rest);
        lemma_effect_seq_append(nodes, r.take(k + 2), rest);
        lemma_effect_seq_append(nodes, r2.take(k + 2), rest);
    }
    assert(r.take(r.len() as int) =~= r);
    assert(r2.take(r2.len() as int) =~= r2);
    assert(r2.take(k) =~= r.take(k));
    assert(r2.take(k + 1) =~= r.take(k).push(r[k + 1]));
    assert(r.take(k).push(r[k + 1]).drop_last() =~= r.take(k));
    assert forall|i: int| 0 <= i < r2.len() implies op_ready(
        effect_seq(nodes, r2.take(i)),
        #[trigger] r2[i],
    ) by {
        if i < k {
            assert(r2.take(i) =~= r.take(i));
            assert(op_ready(effect_seq(nodes, r.take(i)), r[i]));
        } else if i == k {
        } else if i == k + 1 {
        } else {
            assert(op_ready(effect_seq(nodes, r.take(i)), r[i]));
        }
    }
}

/// Moving an operation that no later operation depends on to the end keeps
/// the run causal and its result unchanged.
proof fn lemma_move_to_end(nodes: Seq<Node>, r: Seq<Op>, k: int)
    requires
        unique_ids(nodes),
        fresh_run(nodes, r),
        shared_insert_anchor(r),
        ready_run(nodes, r),
        0 <= k < r.len(),
        forall|j: int| k < j < r.len() ==> (#[trigger] r[j]).relative_id != Some(r[k].id),
    ensures
        effect_seq(nodes, r.remove(k).push(r[k])) == effect_seq(nodes, r),
        ready_run(nodes, r.remove(k).push(r[k])),
    decreases r.len() - k,
{
    if k == r.len() - 1 {
        assert(r.remove(k).push(r[k]) =~= r);
    } else {
        assert(r[k + 1].relative_id != Some(r[k].id));
        lemma_swap_step(nodes, r, k);
        let r2 = swap_next(r, k);
        assert forall|j: int| k + 1 < j < r2.len() implies (#[trigger] r2[j]).relative_id != Some(
            r2[k + 1].id,
        ) by {
            assert(r[j].relative_id != Some(r[k].id));
        }
        lemma_move_to_end(nodes, r2, k + 1);
        assert(r2.remove(k + 1).push(r2[k + 1]) =~= r.remove(k).push(r[k]));
    }
}

proof fn lemma_ready_run_take(nodes: Seq<Node>, r: Seq<Op>, n: int)
    requires
        ready_run(nodes, r),
        0 <= n <= r.len(),
    ensures
        ready_run(nodes, r.take(n)),
{
    assert forall|i: int| 0 <= i < r.take(n).len() implies op_ready(
        effect_seq(nodes, r.take(n).take(i)),
        #[trigger] r.take(n)[i],
    ) by {
        assert(r.take(n).take(i) =~= r.take(i));
        assert(op_ready(effect_seq(nodes, r.take(i)), r[i]));
    }
}

proof fn lemma_remove_keeps_run(nodes: Seq<Node>, a: Seq<Op>, k: int)
    requires
        fresh_run(nodes, a),
        shared_insert_anchor(a),
        0 <= k < a.len(),
    ensures
        fresh_run(nodes, a.remove(k)),
        shared_insert_anchor(a.remove(k)),
{
    let a1 = a.remove(k);
    assert(fresh_run(nodes, a1)) by {
        assert forall|i: int, j: int|
            0 <= i < a1.len() && 0 <= j < a1.len() && i != j implies (#[trigger] a1[i]).id != (
        #[trigger] a1[j]).id by {
            let oi = if i < k {
                i
            } else {
                i + 1
            };
            let oj = if j < k {
                j
            } else {
                j + 1
            };
            assert(a[oi].id != a[oj].id);
        }
        assert forall|i: int| 0 <= i < a1.len() implies !has_id(nodes, (#[trigger] a1[i]).id) by {
            let oi = if i < k {
                i
            } else {
                i + 1
            };
            assert(!has_id(nodes, a[oi].id));
        }
    }
    assert(shared_insert_anchor(a1)) by {
        assert forall|i: int, j: int| 0 <= i < a1.len() && 0 <= j < a1.len() implies (
        #[trigger] a1[i]).is_delete || (#[trigger] a1[j]).is_delete || a1[i].relative_id
            == a1[j].relative_id by {
            let oi = if i < k {
                i
            } else {
                i + 1
            };
            let oj = if j < k {
                j
            } else {
                j + 1
            };
            assert(a[oi].is_delete || a[oj].is_delete || a[oi].relative_id == a[oj].relative_id);
        }
    }
}

/// Two replicas whose node sequences start equal, and that integrate the
/// same operations each when its dependency is present, but in any two
/// orders, end with the same sequence and so render the same text. The
/// operations have distinct identifiers not yet integrated, and any two of
/// their inserts share an anchor.
pub proof fn lemma_runs_converge(nodes: Seq<Node>, a: Seq<Op>, b: Seq<Op>)
    requires
        unique_ids(nodes),
        fresh_run(nodes, a),
        fresh_run(nodes, b),
        shared_insert_anchor(a),
        ready_run(nodes, a),
        ready_run(nodes, b),
        a.to_multiset() == b.to_multiset(),
    ensures
        effect_seq(nodes, a) == effect_seq(nodes, b),
        visible_text(effect_seq(nodes, a)) == visible_text(effect_seq(nodes, b)),
    decreases a.len(),
{
    vstd::seq_lib::to_multiset_len(a);
    vstd::seq_lib::to_multiset_len(b);
    if a.len() == 0 {
        return;
    }
    let n = b.len() - 1;
    let x = b[n];
    assert(b[n] == x);
    assert(b.contains(x));
    vstd::seq_lib::to_multiset_contains(b, x);
    vstd::seq_lib::to_multiset_contains(a, x);
    assert(a.contains(x));
    let k = choose|k: int| 0 <= k < a.len() && a[k] == x;
    assert forall|j: int| k < j < a.len() implies (#[trigger] a[j]).relative_id != Some(a[k].id) by {
        if a[j].relative_id == Some(x.id) {
            assert(a.contains(a[j]));
            vstd::seq_lib::to_multiset_contains(a, a[j]);
            vstd::seq_lib::to_multiset_contains(b, a[j]);
            assert(b.contains(a[j]));
            let m = choose|m: int| 0 <= m < b.len() && b[m] == a[j];
            assert(a[j].id != a[k].id);
            assert(m != n);
            assert(op_ready(effect_seq(nodes, b.take(m)), b[m]));
            lemma_fresh_run_take(nodes, b, m);
            lemma_effect_seq_ids(nodes, b.take(m));
            assert(has_id(effect_seq(nodes, b.take(m)), x.id));
            assert(!has_id(nodes, b[n].id));
            if !has_id(nodes, x.id) {
                let i = choose|i: int| 0 <= i < b.take(m).len() && (#[trigger] b.take(m)[i]).id == x.id;
                assert(b[i].id != b[n].id);
            }
        }
    }
    lemma_move_to_end(nodes, a, k);
    let a1 = a.remove(k);
    let b1 = b.drop_last();
    assert(a1.push(x).take(a1.len() as int) =~= a1);
    lemma_ready_run_take(nodes, a1.push(x), a1.len() as int);
    assert(b.take(n) =~= b1);
    lemma_ready_run_take(nodes, b, n);
    lemma_fresh_run_take(nodes, b, n);
    lemma_remove_keeps_run(nodes, a, k);
    assert(b1.push(x) =~= b);
    vstd::seq_lib::to_multiset_remove(a, k);
    vstd::seq_lib::to_multiset_build(b1, x);
    assert(a1.to_multiset() == a.to_multiset().remove(x));
    assert(b.to_multiset() == b1.to_multiset().insert(x));
    assert(b1.to_multiset() =~= b.to_multiset().remove(x));
    lemma_runs_converge(nodes, a1, b1);
    assert(a1.push(x).drop_last() =~= a1);
}

/// The replica state after integrating `ops`, in order.
pub open spec fn apply_seq(s: ReplicaState, ops: Seq<Op>) -> ReplicaState
    decreases ops.len(),
{
    if ops.len() == 0 {
        s
    } else {
        apply_op_spec(apply_seq(s, ops.drop_last()), ops.last())
    }
}

proof fn lemma_apply_seq_effects(s: ReplicaState, ops: Seq<Op>)
    requires
        forall|i: int| 0 <= i < ops.len() ==> !s.integrated.contains((#[trigger] ops[i]).id),
        forall|i: int, j: int|
            0 <= i < ops.len() && 0 <= j < ops.len() && i != j ==> (#[trigger] ops[i]).id != (
            #[trigger] ops[j]).id,
    ensures
        apply_seq(s, ops).nodes == effect_seq(s.nodes, ops),
        forall|x: Id|
            #[trigger] apply_seq(s, ops).integrated.contains(x) ==> s.integrated.contains(x)
                || exists|i: int| 0 <= i < ops.len() && (#[trigger] ops[i]).id == x,
    decreases ops.len(),
{
    if ops.len() > 0 {
        let p = ops.drop_last();
        let last = ops.last();
        assert forall|i: int, j: int|
            0 <= i < p.len() && 0 <= j < p.len() && i != j implies (#[trigger] p[i]).id != (
        #[trigger] p[j]).id by {
            assert(ops[i].id != ops[j].id);
        }
        assert forall|i: int| 0 <= i < p.len() implies !s.integrated.contains(
            (#[trigger] p[i]).id,
        ) by {
            assert(!s.integrated.contains(ops[i].id));
        }
        lemma_apply_seq_effects(s, p);
        let t = apply_seq(s, p);
        assert(!t.integrated.contains(last.id)) by {
            assert(!s.integrated.contains(ops[ops.len() - 1].id));
            if t.integrated.contains(last.id) {
                let i = choose|i: int| 0 <= i < p.len() && (#[trigger] p[i]).id == last.id;
                assert(ops[i].id != ops[ops.len() - 1].id);
            }
        }
        let u = apply_seq(s, ops);
        assert forall|x: Id| #[trigger] u.integrated.contains(x) implies s.integrated.contains(x)
            || exists|i: int| 0 <= i < ops.len() && (#[trigger] ops[i]).id == x by {
            let k = choose|k: int| 0 <= k < u.integrated.len() && u.integrated[k] == x;
            if k < t.integrated.len() {
                assert(t.integrated.contains(x));
                if !s.integrated.contains(x) {
                    let i = choose|i: int| 0 <= i < p.len() && (#[trigger] p[i]).id == x;
                    assert(ops[i].id == x);
                }
            } else {
                assert(ops[ops.len() - 1].id == x);
            }
        }
    }
}

/// Two replicas whose node sequences are equal, and that integrate the same
/// remote operations each once its dependency is present, in any two
/// orders, end with equal node sequences and render the same text. The
/// operations have distinct identifiers that neither replica has
/// integrated, and any two of their inserts share an anchor.
pub proof fn lemma_replicas_converge(s1: ReplicaState, s2: ReplicaState, a: Seq<Op>, b: Seq<Op>)
    requires
        core_wf(s1),
        core_wf(s2),
        s1.nodes == s2.nodes,
        forall|i: int| 0 <= i < a.len() ==> !s1.integrated.contains((#[trigger] a[i]).id),
        forall|i: int| 0 <= i < b.len() ==> !s2.integrated.contains((#[trigger] b[i]).id),
        forall|i: int, j: int|
            0 <= i < a.len() && 0 <= j < a.len() && i != j ==> (#[trigger] a[i]).id != (
            #[trigger] a[j]).id,
        forall|i: int, j: int|
            0 <= i < b.len() && 0 <= j < b.len() && i != j ==> (#[trigger] b[i]).id != (
            #[trigger] b[j]).id,
        shared_insert_anchor(a),
        ready_run(s1.nodes, a),
        ready_run(s2.nodes, b),
        a.to_multiset() == b.to_multiset(),
    ensures
        apply_seq(s1, a).nodes == apply_seq(s2, b).nodes,
        visible_text(apply_seq(s1, a).nodes) == visible_text(apply_seq(s2, b).nodes),
{
    lemma_apply_seq_effects(s1, a);
    lemma_apply_seq_effects(s2, b);
    assert forall|i: int| 0 <= i < a.len() implies !has_id(s1.nodes, (#[trigger] a[i]).id) by {
        if has_id(s1.nodes, a[i].id) {
            let k = choose|k: int|
                0 <= k < s1.nodes.len() && #[trigger] s1.nodes[k].insertion_id == a[i].id;
            assert(s1.integrated.contains(s1.nodes[k].insertion_id));
        }
    }
    assert forall|i: int| 0 <= i < b.len() implies !has_id(s2.nodes, (#[trigger] b[i]).id) by {
        if has_id(s2.nodes, b[i].id) {
            let k = choose|k: int|
                0 <= k < s2.nodes.len() && #[trigger] s2.nodes[k].insertion_id == b[i].id;
            assert(s2.integrated.contains(s2.nodes[k].insertion_id));
        }
    }
    lemma_runs_converge(s1.nodes, a, b);
}

} // verus!
