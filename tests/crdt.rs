use editor::backend::{CrdtBackend, Intent, MockBackend};
use editor::buffer::{Buffer, Op};
use editor::id::Id;
use editor::merge::Integration;
use editor::version::Global;

fn insert_op(replica: u16, value: u32, anchor: Option<Id>, c: char) -> Op {
    Op {
        id: Id::new(replica, value),
        relative_id: anchor,
        text: Some(c),
        version: Global::new(),
        is_delete: false,
    }
}

fn delete_op(replica: u16, value: u32, target: Option<Id>) -> Op {
    Op {
        id: Id::new(replica, value),
        relative_id: target,
        text: None,
        version: Global::new(),
        is_delete: true,
    }
}

fn buffer_with(replica: u16, text: &str) -> Buffer {
    let mut b = Buffer::new(replica);
    for (i, c) in text.chars().enumerate() {
        b.apply_local_insert(i, c);
    }
    b
}

#[test]
fn insert_hello_into_empty_document() {
    let mut backend = CrdtBackend::new(1);
    let out = backend.apply_intent(Intent::InsertAt { pos: 0, text: "hello".to_string() });
    assert_eq!(out, "hello");
    assert_eq!(backend.render_text(), "hello");
}

#[test]
fn delete_middle_range() {
    let mut backend = CrdtBackend::new(1);
    backend.apply_intent(Intent::InsertAt { pos: 0, text: "abcd".to_string() });
    let out = backend.apply_intent(Intent::DeleteRange { start: 1, end: 3 });
    assert_eq!(out, "ad");
}

#[test]
fn out_of_order_delivery_is_held_back() {
    let mut a = Buffer::new(1);
    let op1 = a.apply_local_insert(0, 'a');
    let op2 = a.apply_local_insert(1, 'b');
    assert_eq!(op1.relative_id, None);
    assert_eq!(op2.relative_id, Some(Id::new(1, 1)));

    let mut b = Buffer::new(2);
    assert_eq!(b.integrate_remote(op2), Integration::Buffered);
    assert_eq!(b.pending_operation_count(), 1);
    assert_eq!(b.render(), "");
    assert_eq!(b.integrate_remote(op1), Integration::Integrated);
    assert_eq!(b.pending_operation_count(), 0);
    assert_eq!(b.render(), "ab");
    assert_eq!(a.render(), "ab");
}

#[test]
fn replace_all_leaves_tombstones() {
    let mut backend = CrdtBackend::new(1);
    backend.apply_intent(Intent::InsertAt { pos: 0, text: "abc".to_string() });
    let out = backend.apply_intent(Intent::ReplaceAll { text: "x".to_string() });
    assert_eq!(out, "x");

    let mut b = buffer_with(1, "abc");
    for _ in 0..3 {
        b.apply_local_delete(0);
    }
    b.apply_local_insert(0, 'x');
    assert_eq!(b.render(), "x");
    assert_eq!(b.nodes.len(), 4);
    let hidden: Vec<char> = b.nodes.iter().filter(|n| !n.visible).map(|n| n.text).collect();
    assert_eq!(hidden, vec!['a', 'b', 'c']);
}

#[test]
fn duplicate_delivery_changes_nothing() {
    let mut a = Buffer::new(1);
    let op = a.apply_local_insert(0, 'q');
    let mut b = Buffer::new(2);
    assert_eq!(b.integrate_remote(op.clone()), Integration::Integrated);
    let nodes_before = b.nodes.clone();
    let version_before = b.version.state.clone();
    assert_eq!(b.integrate_remote(op.clone()), Integration::Duplicate);
    assert_eq!(b.nodes, nodes_before);
    assert_eq!(b.version.state, version_before);
    assert_eq!(b.render(), "q");
}

#[test]
fn duplicate_of_held_back_op_is_dropped() {
    let mut b = Buffer::new(2);
    let orphan = insert_op(1, 2, Some(Id::new(1, 1)), 'z');
    assert_eq!(b.integrate_remote(orphan.clone()), Integration::Buffered);
    assert_eq!(b.integrate_remote(orphan), Integration::Duplicate);
    assert_eq!(b.pending_operation_count(), 1);
}

#[test]
fn concurrent_inserts_order_by_id() {
    let mut r1 = Buffer::new(1);
    let mut r2 = Buffer::new(2);
    let o1 = r1.apply_local_insert(0, 'x');
    let o2 = r2.apply_local_insert(0, 'y');
    r1.integrate_remote(o2);
    r2.integrate_remote(o1);
    assert_eq!(r1.render(), "xy");
    assert_eq!(r2.render(), "xy");

    // a larger sequence number wins the later place, whatever the replica
    let mut r3 = Buffer::new(3);
    let mut r4 = Buffer::new(4);
    let a = insert_op(9, 5, None, 'a');
    let b = insert_op(8, 7, None, 'b');
    r3.integrate_remote(a.clone());
    r3.integrate_remote(b.clone());
    r4.integrate_remote(b);
    r4.integrate_remote(a);
    assert_eq!(r3.render(), "ab");
    assert_eq!(r4.render(), "ab");
}

#[test]
fn concurrent_deletes_of_same_character() {
    let mut r1 = buffer_with(1, "abc");
    let mut r2 = Buffer::new(2);
    for n in r1.nodes.clone() {
        r2.integrate_remote(insert_op(1, n.insertion_id.value, n.relative_to_id, n.text));
    }
    assert_eq!(r2.render(), "abc");
    let d1 = r1.apply_local_delete(1);
    let d2 = r2.apply_local_delete(1);
    assert_eq!(d1.relative_id, Some(Id::new(1, 2)));
    assert_eq!(d2.relative_id, Some(Id::new(1, 2)));
    assert_eq!(r1.integrate_remote(d2), Integration::Integrated);
    assert_eq!(r2.integrate_remote(d1), Integration::Integrated);
    assert_eq!(r1.render(), "ac");
    assert_eq!(r2.render(), "ac");
    assert_eq!(r1.nodes.iter().filter(|n| !n.visible).count(), 1);
    assert_eq!(r1.nodes, r2.nodes);
}

#[test]
fn version_vector_counts_local_ops() {
    let mut b = Buffer::new(7);
    assert_eq!(b.version.get(7), None);
    b.apply_local_insert(0, 'a');
    b.apply_local_insert(1, 'b');
    b.apply_local_delete(0);
    b.apply_local_delete(10);
    b.apply_local_insert(0, 'c');
    assert_eq!(b.version.get(7), Some(5));
    assert_eq!(b.sequence, 5);
}

#[test]
fn convergence_under_different_delivery_orders() {
    let mut src = Buffer::new(1);
    let o1 = src.apply_local_insert(0, 'h');
    let o2 = src.apply_local_insert(1, 'i');
    let o3 = src.apply_local_delete(0);
    let o4 = src.apply_local_insert(1, '!');
    let ops = vec![o1, o2, o3, o4];
    let orders: Vec<Vec<usize>> = vec![vec![0, 1, 2, 3], vec![3, 2, 1, 0], vec![1, 3, 0, 2], vec![2, 0, 3, 1]];
    for order in orders {
        let mut r = Buffer::new(2);
        for i in order {
            r.integrate_remote(ops[i].clone());
        }
        assert_eq!(r.render(), "i!");
        assert_eq!(r.pending_operation_count(), 0);
        assert_eq!(r.render(), src.render());
    }
}

#[test]
fn insert_past_end_goes_to_start() {
    let mut b = buffer_with(1, "ab");
    let op = b.apply_local_insert(10, 'z');
    assert_eq!(op.relative_id, None);
    assert_eq!(b.render(), "azb");
}

#[test]
fn delete_past_end_uses_sequence_number() {
    let mut b = buffer_with(1, "ab");
    let op = b.apply_local_delete(5);
    assert_eq!(op.relative_id, None);
    assert!(op.is_delete);
    assert_eq!(op.id, Id::new(1, 3));
    assert_eq!(b.sequence, 3);
    assert_eq!(b.render(), "ab");
    assert_eq!(b.version.get(1), Some(3));
}

#[test]
fn malformed_ops_are_dropped() {
    let mut b = Buffer::new(2);
    let no_char = Op {
        id: Id::new(1, 1),
        relative_id: None,
        text: None,
        version: Global::new(),
        is_delete: false,
    };
    assert_eq!(b.integrate_remote(no_char), Integration::Malformed);
    let claims_ours = insert_op(2, 1, None, 'x');
    assert_eq!(b.integrate_remote(claims_ours), Integration::Malformed);
    let names_future = insert_op(1, 1, Some(Id::new(2, 4)), 'x');
    assert_eq!(b.integrate_remote(names_future), Integration::Malformed);
    assert_eq!(b.render(), "");
    assert_eq!(b.pending_operation_count(), 0);
}

#[test]
fn remote_delete_waits_for_its_target() {
    let mut b = Buffer::new(2);
    let del = delete_op(1, 2, Some(Id::new(1, 1)));
    assert_eq!(b.integrate_remote(del), Integration::Buffered);
    assert_eq!(b.integrate_remote(insert_op(1, 1, None, 'k')), Integration::Integrated);
    assert_eq!(b.render(), "");
    assert_eq!(b.nodes.len(), 1);
    assert!(!b.nodes[0].visible);
    assert_eq!(b.version.get(1), Some(2));
}

#[test]
fn id_order_is_sequence_then_replica() {
    let a = Id::new(5, 1);
    let b = Id::new(1, 2);
    let c = Id::new(6, 1);
    assert!(a.precedes(&b));
    assert!(!b.precedes(&a));
    assert!(a.precedes(&c));
    assert!(!a.precedes(&a));
    assert!(a < b && a < c);
    assert_eq!(a.compare(&b), std::cmp::Ordering::Less);
    assert_eq!(b.compare(&a), std::cmp::Ordering::Greater);
    assert_eq!(c.compare(&a), std::cmp::Ordering::Greater);
    assert_eq!(a.compare(&Id::new(5, 1)), std::cmp::Ordering::Equal);
    assert_eq!(a.compare(&b), a.cmp(&b));
}

#[test]
fn global_update_keeps_maximum() {
    let mut g = Global::new();
    g.update(Id::new(3, 4));
    assert_eq!(g.get(3), Some(4));
    g.update(Id::new(3, 2));
    assert_eq!(g.get(3), Some(4));
    g.update(Id::new(3, 9));
    assert_eq!(g.get(3), Some(9));
    g.update(Id::new(1, 0));
    assert_eq!(g.get(1), Some(0));
    assert_eq!(g.snapshot().state, g.state);
}

#[test]
fn move_cursor_changes_nothing() {
    let mut backend = CrdtBackend::new(1);
    backend.apply_intent(Intent::InsertAt { pos: 0, text: "ok".to_string() });
    let out = backend.apply_intent(Intent::MoveCursor { pos: 1 });
    assert_eq!(out, "ok");
}

#[test]
fn insert_after_anchor_skips_smaller_siblings() {
    // 'b' is anchored at 'a', which already has the child 'd' with a smaller
    // identifier, so 'b' goes after 'd'; 'c' is then anchored at 'd'.
    let mut backend = CrdtBackend::new(1);
    backend.apply_intent(Intent::InsertAt { pos: 0, text: "ad".to_string() });
    let out = backend.apply_intent(Intent::InsertAt { pos: 1, text: "bc".to_string() });
    assert_eq!(out, "adcb");
}

#[test]
fn can_apply_checks_ranges() {
    let mut m = MockBackend::default();
    m.apply_intent(Intent::ReplaceAll { text: "abc".to_string() });
    assert!(m.can_apply(&Intent::InsertAt { pos: 3, text: "x".to_string() }));
    assert!(!m.can_apply(&Intent::InsertAt { pos: 4, text: "x".to_string() }));
    assert!(!m.can_apply(&Intent::DeleteRange { start: 2, end: 1 }));
    assert!(!m.can_apply(&Intent::DeleteRange { start: 1, end: 4 }));
    let backend = CrdtBackend::new(1);
    assert!(backend.can_apply(&Intent::InsertAt { pos: 100, text: "x".to_string() }));
    assert!(!backend.can_apply(&Intent::InsertAt { pos: usize::MAX, text: "x".to_string() }));
    assert!(!backend.can_apply(&Intent::DeleteRange { start: 0, end: usize::MAX }));
    assert!(backend.can_apply(&Intent::DeleteRange { start: 5, end: 1 }));
}

#[test]
fn reverse_delivery_converges() {
    let mut r1 = Buffer::new(1);
    let ops: Vec<Op> = "abc".chars().enumerate().map(|(i, c)| r1.apply_local_insert(i, c)).collect();
    let mut r2 = Buffer::new(2);
    for op in ops.into_iter().rev() {
        r2.integrate_remote(op);
    }
    assert_eq!(r2.render(), "abc");
    assert_eq!(r2.version.get(1), Some(3));
}

#[test]
fn mock_backend_edits_text() {
    let mut m = MockBackend::default();
    assert_eq!(m.render_text(), "");
    assert_eq!(m.apply_intent(Intent::ReplaceAll { text: "hello".to_string() }), "hello");
    assert_eq!(m.apply_intent(Intent::InsertAt { pos: 5, text: " world".to_string() }), "hello world");
    assert_eq!(m.apply_intent(Intent::DeleteRange { start: 0, end: 6 }), "world");
    assert_eq!(m.apply_intent(Intent::MoveCursor { pos: 2 }), "world");
    assert_eq!(m.render_text(), "world");
}

fn permutations(n: usize) -> Vec<Vec<usize>> {
    if n == 0 {
        return vec![vec![]];
    }
    let mut out = Vec::new();
    for p in permutations(n - 1) {
        for at in 0..=p.len() {
            let mut q = p.clone();
            q.insert(at, n - 1);
            out.push(q);
        }
    }
    out
}

#[test]
fn concurrent_run_converges_in_every_order() {
    let mut base = Buffer::new(1);
    let a = base.apply_local_insert(0, 'a');
    let b = base.apply_local_insert(1, 'b');
    let ops = vec![
        insert_op(2, 1, Some(Id::new(1, 1)), 'x'),
        insert_op(3, 1, Some(Id::new(1, 1)), 'y'),
        insert_op(4, 1, Some(Id::new(1, 1)), 'z'),
        delete_op(5, 1, Some(Id::new(1, 2))),
    ];
    let mut renders = Vec::new();
    for order in permutations(ops.len()) {
        let mut r = Buffer::new(9);
        r.integrate_remote(a.clone());
        r.integrate_remote(b.clone());
        for i in order {
            assert_eq!(r.integrate_remote(ops[i].clone()), Integration::Integrated);
        }
        renders.push(r.render());
    }
    assert_eq!(renders.len(), 24);
    assert!(renders.iter().all(|t| t == "axyz"));
}
