//! The node sequence: the ordered list of characters, with tombstones, that
//! encodes the document, and the spec functions that describe it.

use vstd::prelude::*;
use crate::id::{Id, id_lt};

verus! {

/// One inserted character. A node is never removed: deleting it only
/// clears `visible`, so that anchors naming it stay valid.
#[derive(Debug, Clone, Copy, PartialEq, Eq, Structural)]
pub struct Node {
    pub insertion_id: Id,
    pub relative_to_id: Option<Id>,
    pub text: char,
    pub visible: bool,
}

/// Some node of `nodes` carries identifier `id`.
pub open spec fn has_id(nodes: Seq<Node>, id: Id) -> bool {
    exists|i: int| 0 <= i < nodes.len() && #[trigger] nodes[i].insertion_id == id
}

/// No two nodes share an identifier.
pub open spec fn unique_ids(nodes: Seq<Node>) -> bool {
    forall|i: int, j: int|
        0 <= i < nodes.len() && 0 <= j < nodes.len() && #[trigger] nodes[i].insertion_id
            == #[trigger] nodes[j].insertion_id ==> i == j
}

/// `anchor` is the start of the document or names a node of `nodes`.
pub open spec fn anchor_present(nodes: Seq<Node>, anchor: Option<Id>) -> bool {
    match anchor {
        Some(a) => has_id(nodes, a),
        None => true,
    }
}

/// Every node's anchor is present in the sequence.
pub open spec fn anchors_present(nodes: Seq<Node>) -> bool {
    forall|i: int|
        0 <= i < nodes.len() ==> anchor_present(nodes, #[trigger] nodes[i].relative_to_id)
}

/// The position of the node carrying `id` (meaningful when `has_id`).
pub open spec fn index_of(nodes: Seq<Node>, id: Id) -> int {
    choose|i: int| 0 <= i < nodes.len() && #[trigger] nodes[i].insertion_id == id
}

/// Where the scan for a node anchored at `anchor` starts: just after the
/// anchor node, at the very start for no anchor, and at the end when the
/// anchor is absent.
pub open spec fn start_of(nodes: Seq<Node>, anchor: Option<Id>) -> int {
    match anchor {
        None => 0,
        Some(a) => if has_id(nodes, a) {
            index_of(nodes, a) + 1
        } else {
            nodes.len() as int
        },
    }
}

/// From position `i`, skip every contiguous node that shares `anchor` and
/// whose identifier is smaller than `id`; the result is where the scan stops.
pub open spec fn skip_from(nodes: Seq<Node>, anchor: Option<Id>, id: Id, i: int) -> int
    decreases nodes.len() - i,
{
    if 0 <= i < nodes.len() && nodes[i].relative_to_id == anchor && id_lt(
        nodes[i].insertion_id,
        id,
    ) {
        skip_from(nodes, anchor, id, i + 1)
    } else {
        i
    }
}

/// The position at which `node` is placed.
pub open spec fn insert_index(nodes: Seq<Node>, node: Node) -> int {
    skip_from(nodes, node.relative_to_id, node.insertion_id, start_of(nodes, node.relative_to_id))
}

/// The sequence after integrating `node`.
pub open spec fn insert_spec(nodes: Seq<Node>, node: Node) -> Seq<Node> {
    nodes.insert(insert_index(nodes, node), node)
}

/// The sequence after tombstoning the node carrying `id` (if any).
pub open spec fn hide_spec(nodes: Seq<Node>, id: Id) -> Seq<Node> {
    Seq::new(
        nodes.len(),
        |k: int|
            if nodes[k].insertion_id == id {
                Node { visible: false, ..nodes[k] }
            } else {
                nodes[k]
            },
    )
}

/// The document text: the characters of the visible nodes, in order.
pub open spec fn visible_text(nodes: Seq<Node>) -> Seq<char>
    decreases nodes.len(),
{
    if nodes.len() == 0 {
        Seq::empty()
    } else {
        let rest = visible_text(nodes.drop_last());
        if nodes.last().visible {
            rest.push(nodes.last().text)
        } else {
            rest
        }
    }
}

/// How many visible nodes stand before position `i`.
pub open spec fn visible_before(nodes: Seq<Node>, i: int) -> int {
    visible_text(nodes.take(i)).len() as int
}

/// The position of the node that holds the `k`-th visible character
/// (counting from 0); meaningful when `k < visible_text(nodes).len()`.
pub open spec fn visible_index(nodes: Seq<Node>, k: int) -> int {
    choose|i: int| 0 <= i < nodes.len() && nodes[i].visible && visible_before(nodes, i) == k
}

/// The anchor of a character typed at visible position `pos`: the node that
/// holds the `pos`-th character (counting from 1). Position 0, and a
/// position past the end, give no anchor (the start of the document).
pub open spec fn anchor_for(nodes: Seq<Node>, pos: int) -> Option<Id> {
    if pos == 0 || pos > visible_text(nodes).len() {
        None
    } else {
        Some(nodes[visible_index(nodes, pos - 1)].insertion_id)
    }
}

/// The node that a delete at visible position `pos` tombstones: the one
/// holding the `pos`-th character (counting from 0), if there is one.
pub open spec fn delete_target(nodes: Seq<Node>, pos: int) -> Option<Id> {
    if 0 <= pos < visible_text(nodes).len() {
        Some(nodes[visible_index(nodes, pos)].insertion_id)
    } else {
        None
    }
}

pub proof fn lemma_index_of(nodes: Seq<Node>, i: int)
    requires
        unique_ids(nodes),
        0 <= i < nodes.len(),
    ensures
        has_id(nodes, nodes[i].insertion_id),
        index_of(nodes, nodes[i].insertion_id) == i,
{
    let id = nodes[i].insertion_id;
    assert(nodes[i].insertion_id == id);
    let j = index_of(nodes, id);
    assert(nodes[j].insertion_id == id);
}

/// The text of a concatenation is the concatenation of the texts.
pub proof fn lemma_visible_text_concat(a: Seq<Node>, b: Seq<Node>)
    ensures
        visible_text(a + b) == visible_text(a) + visible_text(b),
    decreases b.len(),
{
    if b.len() == 0 {
        assert(a + b =~= a);
        assert(visible_text(a) + visible_text(b) =~= visible_text(a));
    } else {
        lemma_visible_text_concat(a, b.drop_last());
        assert((a + b).drop_last() =~= a + b.drop_last());
        assert((a + b).last() == b.last());
        if b.last().visible {
            let c = b.last().text;
            assert(visible_text(a) + visible_text(b.drop_last()).push(c) =~= (visible_text(a)
                + visible_text(b.drop_last())).push(c));
        }
    }
}

pub proof fn lemma_visible_text_single(n: Node)
    ensures
        visible_text(seq![n]) == (if n.visible {
            seq![n.text]
        } else {
            Seq::<char>::empty()
        }),
{
    assert(seq![n].drop_last() =~= Seq::<Node>::empty());
    assert(visible_text(Seq::<Node>::empty()) == Seq::<char>::empty());
    assert(Seq::<char>::empty().push(n.text) =~= seq![n.text]);
}

/// Splits the sequence around position `i`.
pub proof fn lemma_visible_text_split(nodes: Seq<Node>, i: int)
    requires
        0 <= i < nodes.len(),
    ensures
        visible_text(nodes) == visible_text(nodes.take(i)) + visible_text(seq![nodes[i]])
            + visible_text(nodes.skip(i + 1)),
{
    assert(nodes =~= nodes.take(i) + seq![nodes[i]] + nodes.skip(i + 1));
    lemma_visible_text_concat(nodes.take(i) + seq![nodes[i]], nodes.skip(i + 1));
    lemma_visible_text_concat(nodes.take(i), seq![nodes[i]]);
}

/// One step of the visible count.
pub proof fn lemma_visible_before_step(nodes: Seq<Node>, i: int)
    requires
        0 <= i < nodes.len(),
    ensures
        visible_before(nodes, i + 1) == visible_before(nodes, i) + (if nodes[i].visible {
            1int
        } else {
            0int
        }),
{
    assert(nodes.take(i + 1).drop_last() =~= nodes.take(i));
    assert(nodes.take(i + 1).last() == nodes[i]);
}

pub proof fn lemma_visible_before_full(nodes: Seq<Node>)
    ensures
        visible_before(nodes, nodes.len() as int) == visible_text(nodes).len(),
{
    assert(nodes.take(nodes.len() as int) =~= nodes);
}

/// The visible count never decreases, and passes each visible node.
pub proof fn lemma_visible_before_mono(nodes: Seq<Node>, i: int, j: int)
    requires
        0 <= i <= j <= nodes.len(),
    ensures
        visible_before(nodes, i) <= visible_before(nodes, j),
        i < j && nodes[i].visible ==> visible_before(nodes, i) < visible_before(nodes, j),
    decreases j - i,
{
    if i < j {
        lemma_visible_before_mono(nodes, i, j - 1);
        lemma_visible_before_step(nodes, j - 1);
        if i < j - 1 {
        } else {
            assert(i == j - 1);
        }
    }
}

/// Position `i` holds the `k`-th visible character exactly when
/// `visible_index` names it.
pub proof fn lemma_visible_index(nodes: Seq<Node>, i: int)
    requires
        0 <= i < nodes.len(),
        nodes[i].visible,
    ensures
        visible_index(nodes, visible_before(nodes, i)) == i,
        visible_before(nodes, i) < visible_text(nodes).len(),
{
    let k = visible_before(nodes, i);
    assert(0 <= i < nodes.len() && nodes[i].visible && visible_before(nodes, i) == k);
    let j = visible_index(nodes, k);
    if j < i {
        lemma_visible_before_mono(nodes, j, i);
    } else if j > i {
        lemma_visible_before_mono(nodes, i, j);
    }
    lemma_visible_before_mono(nodes, i, nodes.len() as int);
    lemma_visible_before_full(nodes);
}

/// Every visible position below the length is held by some node.
pub proof fn lemma_visible_index_exists(nodes: Seq<Node>, k: int)
    requires
        0 <= k < visible_text(nodes).len(),
    ensures
        0 <= visible_index(nodes, k) < nodes.len(),
        nodes[visible_index(nodes, k)].visible,
        visible_before(nodes, visible_index(nodes, k)) == k,
    decreases nodes.len(),
{
    let n = nodes.len() as int;
    lemma_visible_before_full(nodes);
    lemma_visible_before_step(nodes, n - 1);
    if visible_before(nodes, n - 1) > k {
        let prefix = nodes.drop_last();
        assert(nodes.take(n - 1) =~= prefix);
        assert(prefix.take(n - 1) =~= prefix);
        lemma_visible_index_exists(prefix, k);
        let i = visible_index(prefix, k);
        assert(prefix.take(i) =~= nodes.take(i));
        assert(0 <= i < nodes.len() && nodes[i].visible && visible_before(nodes, i) == k);
    } else {
        assert(0 <= n - 1 < nodes.len() && nodes[n - 1].visible && visible_before(nodes, n - 1)
            == k);
    }
}


/// Inserting a node adds exactly its identifier.
pub proof fn lemma_insert_ids(nodes: Seq<Node>, p: int, n: Node)
    requires
        0 <= p <= nodes.len(),
        unique_ids(nodes),
        !has_id(nodes, n.insertion_id),
    ensures
        unique_ids(nodes.insert(p, n)),
        forall|a: Id| #[trigger]
            has_id(nodes.insert(p, n), a) <==> (has_id(nodes, a) || a == n.insertion_id),
{
    let s = nodes.insert(p, n);
    assert forall|a: Id| #[trigger] has_id(s, a) <==> (has_id(nodes, a) || a == n.insertion_id) by {
        if has_id(s, a) {
            let i = choose|i: int| 0 <= i < s.len() && #[trigger] s[i].insertion_id == a;
            if i < p {
                assert(nodes[i].insertion_id == a);
            } else if i > p {
                assert(nodes[i - 1].insertion_id == a);
            }
        }
        if has_id(nodes, a) {
            let i = choose|i: int| 0 <= i < nodes.len() && #[trigger] nodes[i].insertion_id == a;
            if i < p {
                assert(s[i].insertion_id == a);
            } else {
                assert(s[i + 1].insertion_id == a);
            }
        }
        if a == n.insertion_id {
            assert(s[p].insertion_id == a);
        }
    }
    assert forall|i: int, j: int|
        0 <= i < s.len() && 0 <= j < s.len() && #[trigger] s[i].insertion_id
            == #[trigger] s[j].insertion_id implies i == j by {
        let oi = if i < p {
            i
        } else {
            i - 1
        };
        let oj = if j < p {
            j
        } else {
            j - 1
        };
        if i != p && j != p {
            assert(nodes[oi].insertion_id == nodes[oj].insertion_id);
        } else if i == p && j != p {
            assert(nodes[oj].insertion_id == n.insertion_id);
        } else if j == p && i != p {
            assert(nodes[oi].insertion_id == n.insertion_id);
        }
    }
}

/// Tombstoning keeps every identifier where it was.
pub proof fn lemma_hide_ids(nodes: Seq<Node>, t: Id)
    ensures
        hide_spec(nodes, t).len() == nodes.len(),
        forall|i: int|
            0 <= i < nodes.len() ==> (#[trigger] hide_spec(nodes, t)[i]).insertion_id
                == nodes[i].insertion_id && hide_spec(nodes, t)[i].relative_to_id
                == nodes[i].relative_to_id,
        unique_ids(nodes) ==> unique_ids(hide_spec(nodes, t)),
        forall|a: Id| #[trigger] has_id(hide_spec(nodes, t), a) <==> has_id(nodes, a),
{
    let h = hide_spec(nodes, t);
    assert forall|a: Id| #[trigger] has_id(h, a) <==> has_id(nodes, a) by {
        if has_id(h, a) {
            let i = choose|i: int| 0 <= i < h.len() && #[trigger] h[i].insertion_id == a;
            assert(nodes[i].insertion_id == a);
        }
        if has_id(nodes, a) {
            let i = choose|i: int| 0 <= i < nodes.len() && #[trigger] nodes[i].insertion_id == a;
            assert(h[i].insertion_id == a);
        }
    }
    if unique_ids(nodes) {
        assert forall|i: int, j: int|
            0 <= i < h.len() && 0 <= j < h.len() && #[trigger] h[i].insertion_id
                == #[trigger] h[j].insertion_id implies i == j by {
            assert(nodes[i].insertion_id == nodes[j].insertion_id);
        }
    }
}

/// With unique identifiers, tombstoning the node at `i` updates that one
/// position.
pub proof fn lemma_hide_at(nodes: Seq<Node>, i: int)
    requires
        unique_ids(nodes),
        0 <= i < nodes.len(),
    ensures
        hide_spec(nodes, nodes[i].insertion_id) == nodes.update(
            i,
            Node { visible: false, ..nodes[i] },
        ),
{
    assert(hide_spec(nodes, nodes[i].insertion_id) =~= nodes.update(
        i,
        Node { visible: false, ..nodes[i] },
    ));
}

/// The scan stays within bounds and never moves backwards.
pub proof fn lemma_skip_from_bounds(nodes: Seq<Node>, anchor: Option<Id>, id: Id, i: int)
    requires
        0 <= i <= nodes.len(),
    ensures
        i <= skip_from(nodes, anchor, id, i) <= nodes.len(),
    decreases nodes.len() - i,
{
    if i < nodes.len() && nodes[i].relative_to_id == anchor && id_lt(nodes[i].insertion_id, id) {
        lemma_skip_from_bounds(nodes, anchor, id, i + 1);
    }
}

pub proof fn lemma_start_of_bounds(nodes: Seq<Node>, anchor: Option<Id>)
    ensures
        0 <= start_of(nodes, anchor) <= nodes.len(),
{
    match anchor {
        Some(a) => {
            if has_id(nodes, a) {
                let i = index_of(nodes, a);
                assert(0 <= i < nodes.len());
            }
        },
        None => {},
    }
}

pub proof fn lemma_insert_index_bounds(nodes: Seq<Node>, n: Node)
    ensures
        0 <= start_of(nodes, n.relative_to_id) <= insert_index(nodes, n) <= nodes.len(),
{
    lemma_start_of_bounds(nodes, n.relative_to_id);
    lemma_skip_from_bounds(
        nodes,
        n.relative_to_id,
        n.insertion_id,
        start_of(nodes, n.relative_to_id),
    );
}

/// A smaller identifier never scans further.
pub proof fn lemma_skip_from_mono(nodes: Seq<Node>, anchor: Option<Id>, x: Id, y: Id, i: int)
    requires
        0 <= i <= nodes.len(),
        id_lt(x, y),
    ensures
        skip_from(nodes, anchor, x, i) <= skip_from(nodes, anchor, y, i),
    decreases nodes.len() - i,
{
    lemma_skip_from_bounds(nodes, anchor, y, i);
    if i < nodes.len() && nodes[i].relative_to_id == anchor && id_lt(nodes[i].insertion_id, x) {
        lemma_skip_from_mono(nodes, anchor, x, y, i + 1);
    }
}

/// Past the inserted node, the scan runs as in the old sequence, one place
/// further on.
pub proof fn lemma_skip_from_shift(
    nodes: Seq<Node>,
    p: int,
    n: Node,
    anchor: Option<Id>,
    y: Id,
    j: int,
)
    requires
        0 <= p <= j <= nodes.len(),
    ensures
        skip_from(nodes.insert(p, n), anchor, y, j + 1) == skip_from(nodes, anchor, y, j) + 1,
    decreases nodes.len() - j,
{
    let t = nodes.insert(p, n);
    if j < nodes.len() {
        assert(t[j + 1] == nodes[j]);
        if nodes[j].relative_to_id == anchor && id_lt(nodes[j].insertion_id, y) {
            lemma_skip_from_shift(nodes, p, n, anchor, y, j + 1);
        }
    }
}

/// How a scan that starts at or before the insertion point runs once a node
/// has been inserted at `p`.
pub proof fn lemma_skip_from_insert(
    nodes: Seq<Node>,
    p: int,
    n: Node,
    anchor: Option<Id>,
    y: Id,
    i: int,
)
    requires
        0 <= i <= p <= nodes.len(),
    ensures
        skip_from(nodes.insert(p, n), anchor, y, i) == (if skip_from(nodes, anchor, y, i) < p {
            skip_from(nodes, anchor, y, i)
        } else if n.relative_to_id == anchor && id_lt(n.insertion_id, y) {
            skip_from(nodes, anchor, y, i) + 1
        } else {
            p
        }),
    decreases p - i,
{
    let t = nodes.insert(p, n);
    lemma_skip_from_bounds(nodes, anchor, y, i);
    if i == p {
        assert(t[p] == n);
        if n.relative_to_id == anchor && id_lt(n.insertion_id, y) {
            lemma_skip_from_shift(nodes, p, n, anchor, y, p);
        }
    } else {
        assert(t[i] == nodes[i]);
        if nodes[i].relative_to_id == anchor && id_lt(nodes[i].insertion_id, y) {
            lemma_skip_from_insert(nodes, p, n, anchor, y, i + 1);
        }
    }
}

/// Inserting after the anchor leaves the anchor's scan start in place.
pub proof fn lemma_start_of_insert(nodes: Seq<Node>, p: int, n: Node, anchor: Option<Id>)
    requires
        unique_ids(nodes),
        !has_id(nodes, n.insertion_id),
        start_of(nodes, anchor) <= p <= nodes.len(),
        anchor is Some ==> has_id(nodes, anchor->0),
    ensures
        start_of(nodes.insert(p, n), anchor) == start_of(nodes, anchor),
{
    lemma_insert_ids(nodes, p, n);
    match anchor {
        Some(x) => {
            let i = index_of(nodes, x);
            lemma_index_of(nodes, i);
            assert(nodes.insert(p, n)[i] == nodes[i]);
            lemma_index_of(nodes.insert(p, n), i);
        },
        None => {},
    }
}

/// The scan reads only identifiers and anchors.
pub proof fn lemma_skip_from_frame(a: Seq<Node>, b: Seq<Node>, anchor: Option<Id>, y: Id, i: int)
    requires
        a.len() == b.len(),
        forall|k: int|
            0 <= k < a.len() ==> (#[trigger] a[k]).insertion_id == b[k].insertion_id
                && a[k].relative_to_id == b[k].relative_to_id,
    ensures
        skip_from(a, anchor, y, i) == skip_from(b, anchor, y, i),
    decreases a.len() - i,
{
    if 0 <= i < a.len() && a[i].relative_to_id == anchor && id_lt(a[i].insertion_id, y) {
        lemma_skip_from_frame(a, b, anchor, y, i + 1);
    }
}

/// Where a node goes depends only on the identifiers and anchors present.
pub proof fn lemma_insert_index_frame(a: Seq<Node>, b: Seq<Node>, n: Node)
    requires
        a.len() == b.len(),
        unique_ids(a),
        unique_ids(b),
        forall|k: int|
            0 <= k < a.len() ==> (#[trigger] a[k]).insertion_id == b[k].insertion_id
                && a[k].relative_to_id == b[k].relative_to_id,
    ensures
        start_of(a, n.relative_to_id) == start_of(b, n.relative_to_id),
        insert_index(a, n) == insert_index(b, n),
{
    match n.relative_to_id {
        Some(x) => {
            if has_id(a, x) {
                let i = index_of(a, x);
                assert(b[i].insertion_id == x);
                lemma_index_of(b, i);
            }
            if has_id(b, x) {
                let i = index_of(b, x);
                assert(a[i].insertion_id == x);
                lemma_index_of(a, i);
            }
        },
        None => {},
    }
    lemma_skip_from_frame(a, b, n.relative_to_id, n.insertion_id, start_of(a, n.relative_to_id));
}

/// Inserting before the anchor moves the anchor's scan start one place on.
pub proof fn lemma_start_of_insert_before(nodes: Seq<Node>, p: int, n: Node, anchor: Option<Id>)
    requires
        unique_ids(nodes),
        !has_id(nodes, n.insertion_id),
        0 <= p < start_of(nodes, anchor),
        anchor is Some ==> has_id(nodes, anchor->0),
    ensures
        start_of(nodes.insert(p, n), anchor) == start_of(nodes, anchor) + 1,
{
    lemma_insert_ids(nodes, p, n);
    let x = anchor->0;
    let i = index_of(nodes, x);
    lemma_index_of(nodes, i);
    assert(nodes.insert(p, n)[i + 1] == nodes[i]);
    lemma_index_of(nodes.insert(p, n), i + 1);
}

/// Tombstoning the visible node at `i` removes its character from the text.
pub proof fn lemma_hide_visible_text(nodes: Seq<Node>, i: int)
    requires
        unique_ids(nodes),
        0 <= i < nodes.len(),
        nodes[i].visible,
    ensures
        visible_text(hide_spec(nodes, nodes[i].insertion_id)) == visible_text(nodes).remove(
            visible_before(nodes, i),
        ),
{
    let x = nodes[i].insertion_id;
    lemma_hide_at(nodes, i);
    let h = hide_spec(nodes, x);
    let hidden = Node { visible: false, ..nodes[i] };
    lemma_visible_text_split(nodes, i);
    lemma_visible_text_split(h, i);
    assert(h.take(i) =~= nodes.take(i));
    assert(h.skip(i + 1) =~= nodes.skip(i + 1));
    lemma_visible_text_single(nodes[i]);
    lemma_visible_text_single(hidden);
    assert(h[i] == hidden);
    let pre = visible_text(nodes.take(i));
    let post = visible_text(nodes.skip(i + 1));
    assert((pre + seq![nodes[i].text] + post).remove(pre.len() as int) =~= pre
        + Seq::<char>::empty() + post);
}

/// Inserting a visible node adds one character to the text.
pub proof fn lemma_insert_visible_text_len(nodes: Seq<Node>, p: int, n: Node)
    requires
        0 <= p <= nodes.len(),
        n.visible,
    ensures
        visible_text(nodes.insert(p, n)).len() == visible_text(nodes).len() + 1,
{
    let t = nodes.insert(p, n);
    lemma_visible_text_split(t, p);
    assert(t.take(p) =~= nodes.take(p));
    assert(t.skip(p + 1) =~= nodes.skip(p));
    assert(nodes =~= nodes.take(p) + nodes.skip(p));
    lemma_visible_text_concat(nodes.take(p), nodes.skip(p));
    lemma_visible_text_single(n);
}

pub proof fn lemma_insert_anchors(nodes: Seq<Node>, p: int, n: Node)
    requires
        0 <= p <= nodes.len(),
        unique_ids(nodes),
        !has_id(nodes, n.insertion_id),
        anchors_present(nodes),
        anchor_present(nodes, n.relative_to_id),
    ensures
        anchors_present(nodes.insert(p, n)),
{
    let t = nodes.insert(p, n);
    lemma_insert_ids(nodes, p, n);
    assert forall|i: int| 0 <= i < t.len() implies anchor_present(
        t,
        #[trigger] t[i].relative_to_id,
    ) by {
        if i < p {
            assert(anchor_present(nodes, nodes[i].relative_to_id));
        } else if i > p {
            assert(anchor_present(nodes, nodes[i - 1].relative_to_id));
        }
        match t[i].relative_to_id {
            Some(a) => {
                assert(has_id(nodes, a));
                assert(has_id(t, a));
            },
            None => {},
        }
    }
}

pub proof fn lemma_hide_anchors(nodes: Seq<Node>, x: Id)
    requires
        anchors_present(nodes),
    ensures
        anchors_present(hide_spec(nodes, x)),
{
    let h = hide_spec(nodes, x);
    lemma_hide_ids(nodes, x);
    assert forall|i: int| 0 <= i < h.len() implies anchor_present(
        h,
        #[trigger] h[i].relative_to_id,
    ) by {
        assert(anchor_present(nodes, nodes[i].relative_to_id));
        match h[i].relative_to_id {
            Some(a) => {
                assert(has_id(h, a));
            },
            None => {},
        }
    }
}

/// Node `j` holds the last of `count` visible characters, only tombstones
/// follow it, and no node is anchored at it.
pub open spec fn typed_last(nodes: Seq<Node>, j: int, count: int) -> bool {
    &&& 0 <= j < nodes.len()
    &&& nodes[j].visible
    &&& visible_before(nodes, j) == count - 1
    &&& visible_text(nodes.skip(j + 1)).len() == 0
    &&& forall|k: int|
        0 <= k < nodes.len() ==> (#[trigger] nodes[k]).relative_to_id != Some(
            nodes[j].insertion_id,
        )
}

/// Typing at the end of the text, right after the character typed last (or
/// into a text with no visible character), appends to the text.
pub proof fn lemma_typing_at_end(nodes: Seq<Node>, j: int, m: Node)
    requires
        unique_ids(nodes),
        anchors_present(nodes),
        !has_id(nodes, m.insertion_id),
        m.visible,
        m.relative_to_id == anchor_for(nodes, visible_text(nodes).len() as int),
        visible_text(nodes).len() > 0 ==> typed_last(nodes, j, visible_text(nodes).len() as int),
    ensures
        typed_last(
            insert_spec(nodes, m),
            insert_index(nodes, m),
            visible_text(nodes).len() + 1int,
        ),
        visible_text(insert_spec(nodes, m)) == visible_text(nodes).push(m.text),
{
    let n = visible_text(nodes).len() as int;
    let p = insert_index(nodes, m);
    lemma_insert_index_bounds(nodes, m);
    if n > 0 {
        lemma_visible_index(nodes, j);
        lemma_index_of(nodes, j);
        assert(start_of(nodes, m.relative_to_id) == j + 1);
        if j + 1 < nodes.len() {
            assert(nodes[j + 1].relative_to_id != Some(nodes[j].insertion_id));
        }
        assert(p == j + 1);
    }
    let t = nodes.insert(p, m);
    // the text splits around p; everything after p is tombstones
    assert(nodes =~= nodes.take(p) + nodes.skip(p));
    lemma_visible_text_concat(nodes.take(p), nodes.skip(p));
    if n > 0 {
        assert(nodes.skip(p) =~= nodes.skip(j + 1));
    }
    assert(visible_text(nodes.skip(p)).len() == 0);
    assert(visible_text(nodes.take(p)) =~= visible_text(nodes));
    lemma_visible_text_split(t, p);
    assert(t.take(p) =~= nodes.take(p));
    assert(t.skip(p + 1) =~= nodes.skip(p));
    lemma_visible_text_single(m);
    assert(visible_text(t) =~= visible_text(nodes).push(m.text));
    lemma_insert_ids(nodes, p, m);
    assert forall|k: int| 0 <= k < t.len() implies (#[trigger] t[k]).relative_to_id != Some(
        t[p].insertion_id,
    ) by {
        if k < p {
            assert(anchor_present(nodes, nodes[k].relative_to_id));
        } else if k > p {
            assert(anchor_present(nodes, nodes[k - 1].relative_to_id));
        }
    }
}

} // verus!
