//! Document backends: user intents in, rendered text out.

use vstd::prelude::*;
use crate::buffer::{Buffer, Op, ReplicaState, local_delete_spec, local_insert_spec, state_wf};
use crate::merge::{Integration, receive_spec};
use crate::sequence::{
    Node, anchor_for, insert_index, lemma_typing_at_end, typed_last, visible_text,
};
use crate::text::{chars_of, string_of};

verus! {

/// What the user asked the editor to do. Positions count characters of the
/// visible text.
#[derive(Debug, Clone, PartialEq)]
pub enum Intent {
    /// Insert `text` so that it starts at `pos`.
    InsertAt { pos: usize, text: String },
    /// Delete the half-open range `[start, end)`.
    DeleteRange { start: usize, end: usize },
    /// Move the local caret; the document does not change.
    MoveCursor { pos: usize },
    /// Replace the whole text with `text`.
    ReplaceAll { text: String },
}

/// Inserts the characters of `text` one by one at `pos, pos + 1, ...`.
pub open spec fn insert_chars_spec(s: ReplicaState, pos: int, text: Seq<char>) -> ReplicaState
    decreases text.len(),
{
    if text.len() == 0 {
        s
    } else {
        local_insert_spec(
            insert_chars_spec(s, pos, text.drop_last()),
            pos + text.len() - 1,
            text.last(),
        )
    }
}

/// Deletes at visible position `pos`, `n` times.
pub open spec fn delete_repeat_spec(s: ReplicaState, pos: int, n: nat) -> ReplicaState
    decreases n,
{
    if n == 0 {
        s
    } else {
        local_delete_spec(delete_repeat_spec(s, pos, (n - 1) as nat), pos)
    }
}

/// How many local operations a range delete issues.
pub open spec fn range_len(start: usize, end: usize) -> nat {
    if end > start {
        (end - start) as nat
    } else {
        0
    }
}

/// The buffer state after applying `intent`.
pub open spec fn intent_spec(s: ReplicaState, intent: Intent) -> ReplicaState {
    match intent {
        Intent::InsertAt { pos, text } => insert_chars_spec(s, pos as int, text@),
        Intent::DeleteRange { start, end } => delete_repeat_spec(
            s,
            start as int,
            range_len(start, end),
        ),
        Intent::MoveCursor { pos } => s,
        Intent::ReplaceAll { text } => insert_chars_spec(
            delete_repeat_spec(s, 0, visible_text(s.nodes).len()),
            0,
            text@,
        ),
    }
}

/// How many local operations (and so sequence numbers) `intent` uses.
pub open spec fn intent_cost(s: ReplicaState, intent: Intent) -> int {
    match intent {
        Intent::InsertAt { pos, text } => text@.len() as int,
        Intent::DeleteRange { start, end } => range_len(start, end) as int,
        Intent::MoveCursor { pos } => 0,
        Intent::ReplaceAll { text } => (visible_text(s.nodes).len() + text@.len()) as int,
    }
}

/// The sequence numbers and positions that `intent` needs fit their types.
pub open spec fn intent_fits(s: ReplicaState, intent: Intent) -> bool {
    &&& s.sequence + intent_cost(s, intent) <= u32::MAX
    &&& match intent {
        Intent::InsertAt { pos, text } => pos + text@.len() <= usize::MAX,
        _ => true,
    }
}

fn insert_chars(buffer: &mut Buffer, pos: usize, chars: &Vec<char>)
    requires
        old(buffer).wf(),
        old(buffer).sequence + chars@.len() <= u32::MAX,
        pos + chars@.len() <= usize::MAX,
    ensures
        final(buffer).wf(),
        final(buffer)@ == insert_chars_spec(old(buffer)@, pos as int, chars@),
        final(buffer).sequence == old(buffer).sequence + chars@.len(),
        pos == 0 && visible_text(old(buffer).nodes@).len() == 0 ==> visible_text(
            final(buffer).nodes@,
        ) == chars@,
{
    let ghost s0 = buffer@;
    let ghost at_end = pos == 0 && visible_text(s0.nodes).len() == 0;
    let ghost mut last: int = 0;
    let mut i: usize = 0;
    proof {
        assert(chars@.take(0) =~= Seq::<char>::empty());
    }
    while i < chars.len()
        invariant
            i <= chars.len(),
            buffer.wf(),
            buffer@ == insert_chars_spec(s0, pos as int, chars@.take(i as int)),
            buffer.sequence == s0.sequence + i,
            s0.sequence + chars@.len() <= u32::MAX,
            pos + chars@.len() <= usize::MAX,
            at_end == (pos == 0 && visible_text(s0.nodes).len() == 0),
            at_end ==> visible_text(buffer.nodes@) == chars@.take(i as int),
            at_end && i > 0 ==> typed_last(buffer.nodes@, last, i as int),
        decreases chars.len() - i,
    {
        proof {
            assert(chars@.take(i + 1).drop_last() =~= chars@.take(i as int));
        }
        let ghost before = buffer.nodes@;
        let op = buffer.apply_local_insert(pos + i, chars[i]);
        proof {
            if at_end {
                let m = Node {
                    insertion_id: op.id,
                    relative_to_id: anchor_for(before, pos + i),
                    text: chars@[i as int],
                    visible: true,
                };
                lemma_typing_at_end(before, last, m);
                last = insert_index(before, m);
                assert(chars@.take(i as int).push(chars@[i as int]) =~= chars@.take(i + 1));
            }
        }
        i += 1;
    }
    proof {
        assert(chars@.take(chars.len() as int) =~= chars@);
    }
}

fn delete_repeat(buffer: &mut Buffer, pos: usize, n: usize)
    requires
        old(buffer).wf(),
        old(buffer).sequence + n <= u32::MAX,
    ensures
        final(buffer).wf(),
        final(buffer)@ == delete_repeat_spec(old(buffer)@, pos as int, n as nat),
        final(buffer).sequence == old(buffer).sequence + n,
        pos + n <= visible_text(old(buffer).nodes@).len() ==> visible_text(final(buffer).nodes@)
            == visible_text(old(buffer).nodes@).take(pos as int) + visible_text(
            old(buffer).nodes@,
        ).skip(pos + n),
{
    let ghost s0 = buffer@;
    let ghost t = visible_text(s0.nodes);
    let mut i: usize = 0;
    proof {
        if pos <= t.len() {
            assert(t =~= t.take(pos as int) + t.skip(pos as int));
        }
    }
    while i < n
        invariant
            i <= n,
            buffer.wf(),
            buffer@ == delete_repeat_spec(s0, pos as int, i as nat),
            buffer.sequence == s0.sequence + i,
            s0.sequence + n <= u32::MAX,
            t == visible_text(s0.nodes),
            pos + i <= t.len() ==> visible_text(buffer.nodes@) == t.take(pos as int) + t.skip(
                pos + i,
            ),
        decreases n - i,
    {
        let ghost before = visible_text(buffer.nodes@);
        buffer.apply_local_delete(pos);
        proof {
            if pos + i + 1 <= t.len() {
                assert(before.remove(pos as int) =~= t.take(pos as int) + t.skip(pos + i + 1));
            }
        }
        i += 1;
    }
}

/// The backend built on this crate's replicated buffer.
pub struct CrdtBackend {
    buffer: Buffer,
}

impl View for CrdtBackend {
    type V = ReplicaState;

    closed spec fn view(&self) -> ReplicaState {
        self.buffer@
    }
}

impl CrdtBackend {
    pub open spec fn wf(&self) -> bool {
        state_wf(self@)
    }

    pub fn new(replica_id: u16) -> (r: CrdtBackend)
        ensures
            r@ == crate::buffer::fresh_state(replica_id),
            r.wf(),
    {
        CrdtBackend { buffer: Buffer::new(replica_id) }
    }

    /// Applies a user intent and returns the whole rendered text.
    pub fn apply_intent(&mut self, intent: Intent) -> (r: String)
        requires
            old(self).wf(),
            intent_fits(old(self)@, intent),
        ensures
            final(self).wf(),
            final(self)@ == intent_spec(old(self)@, intent),
            final(self)@.sequence == old(self)@.sequence + intent_cost(old(self)@, intent),
            r@ == visible_text(final(self)@.nodes),
            match intent {
                Intent::DeleteRange { start, end } => start <= end <= visible_text(
                    old(self)@.nodes,
                ).len() ==> r@ == visible_text(old(self)@.nodes).take(start as int) + visible_text(
                    old(self)@.nodes,
                ).skip(end as int),
                Intent::InsertAt { pos, text } => pos == 0 && visible_text(old(self)@.nodes).len()
                    == 0 ==> r@ == text@,
                Intent::MoveCursor { pos } => r@ == visible_text(old(self)@.nodes),
                Intent::ReplaceAll { text } => r@ == text@,
            },
    {
        match intent {
            Intent::InsertAt { pos, text } => {
                let chars = chars_of(text.as_str());
                insert_chars(&mut self.buffer, pos, &chars);
            },
            Intent::DeleteRange { start, end } => {
                let n: usize = if end > start {
                    end - start
                } else {
                    0
                };
                delete_repeat(&mut self.buffer, start, n);
            },
            Intent::MoveCursor { pos } => {},
            Intent::ReplaceAll { text } => {
                let len = self.buffer.visible_len();
                delete_repeat(&mut self.buffer, 0, len);
                proof {
                    let t = visible_text(old(self)@.nodes);
                    assert(t.take(0) + t.skip(len as int) =~= Seq::<char>::empty());
                }
                let chars = chars_of(text.as_str());
                insert_chars(&mut self.buffer, 0, &chars);
            },
        }
        self.buffer.render()
    }

    /// Whether the sequence numbers and positions that `intent` needs fit
    /// their types, so that `apply_intent` may be called with it.
    pub fn can_apply(&self, intent: &Intent) -> (r: bool)
        ensures
            r == intent_fits(self@, *intent),
    {
        let room = (u32::MAX - self.buffer.sequence) as u128;
        match intent {
            Intent::InsertAt { pos, text } => {
                let n = text.as_str().unicode_len();
                (n as u128) <= room && *pos <= usize::MAX - n
            },
            Intent::DeleteRange { start, end } => {
                if *end > *start {
                    ((*end - *start) as u128) <= room
                } else {
                    true
                }
            },
            Intent::MoveCursor { pos } => true,
            Intent::ReplaceAll { text } => {
                let n = text.as_str().unicode_len();
                let len = self.buffer.visible_len();
                (len as u128) + (n as u128) <= room
            },
        }
    }

    /// The current text.
    pub fn render_text(&self) -> (r: String)
        ensures
            r@ == visible_text(self@.nodes),
    {
        self.buffer.render()
    }

    /// Receives an operation from another replica.
    pub fn integrate_remote(&mut self, op: Op) -> (r: Integration)
        requires
            old(self).wf(),
        ensures
            final(self).wf(),
            (final(self)@, r) == receive_spec(old(self)@, op),
    {
        self.buffer.integrate_remote(op)
    }

    /// The number of remote operations waiting for their dependency.
    pub fn pending_operation_count(&self) -> (r: usize)
        ensures
            r == self@.holdback_queue.len(),
    {
        self.buffer.pending_operation_count()
    }
}

/// The text of a mock backend after `intent`.
pub open spec fn mock_intent_spec(t: Seq<char>, intent: Intent) -> Seq<char> {
    match intent {
        Intent::InsertAt { pos, text } => t.take(pos as int) + text@ + t.skip(pos as int),
        Intent::DeleteRange { start, end } => t.take(start as int) + t.skip(end as int),
        Intent::MoveCursor { pos } => t,
        Intent::ReplaceAll { text } => text@,
    }
}

/// The positions of `intent` lie within the mock's text.
pub open spec fn mock_intent_in_range(t: Seq<char>, intent: Intent) -> bool {
    match intent {
        Intent::InsertAt { pos, text } => pos <= t.len(),
        Intent::DeleteRange { start, end } => start <= end <= t.len(),
        _ => true,
    }
}

/// `t[..start] + ins + t[end..]`.
fn splice(t: &Vec<char>, start: usize, end: usize, ins: &Vec<char>) -> (r: Vec<char>)
    requires
        start <= end <= t@.len(),
    ensures
        r@ == t@.take(start as int) + ins@ + t@.skip(end as int),
{
    let mut out: Vec<char> = Vec::new();
    let mut i: usize = 0;
    while i < start
        invariant
            i <= start <= end <= t@.len(),
            out@ == t@.take(i as int),
        decreases start - i,
    {
        out.push(t[i]);
        proof {
            assert(t@.take(i as int).push(t@[i as int]) =~= t@.take(i + 1));
        }
        i += 1;
    }
    let mut j: usize = 0;
    while j < ins.len()
        invariant
            j <= ins@.len(),
            out@ == t@.take(start as int) + ins@.take(j as int),
        decreases ins.len() - j,
    {
        out.push(ins[j]);
        proof {
            assert((t@.take(start as int) + ins@.take(j as int)).push(ins@[j as int]) =~= t@.take(
                start as int,
            ) + ins@.take(j + 1));
        }
        j += 1;
    }
    proof {
        assert(ins@.take(ins@.len() as int) =~= ins@);
    }
    let mut k: usize = end;
    while k < t.len()
        invariant
            end <= k <= t@.len(),
            out@ == t@.take(start as int) + ins@ + t@.subrange(end as int, k as int),
        decreases t.len() - k,
    {
        out.push(t[k]);
        proof {
            assert((t@.take(start as int) + ins@ + t@.subrange(end as int, k as int)).push(
                t@[k as int],
            ) =~= t@.take(start as int) + ins@ + t@.subrange(end as int, k + 1));
        }
        k += 1;
    }
    proof {
        assert(t@.subrange(end as int, t@.len() as int) =~= t@.skip(end as int));
    }
    out
}

/// A stand-in backend that keeps the text as a plain character list, with
/// no replication.
pub struct MockBackend {
    text: Vec<char>,
}

impl View for MockBackend {
    type V = Seq<char>;

    closed spec fn view(&self) -> Seq<char> {
        self.text@
    }
}

impl Default for MockBackend {
    fn default() -> (r: MockBackend)
        ensures
            r@ == Seq::<char>::empty(),
    {
        MockBackend { text: Vec::new() }
    }
}

impl MockBackend {
    /// Whether the positions of `intent` lie within the text, so that
    /// `apply_intent` may be called with it.
    pub fn can_apply(&self, intent: &Intent) -> (r: bool)
        ensures
            r == mock_intent_in_range(self@, *intent),
    {
        match intent {
            Intent::InsertAt { pos, text } => *pos <= self.text.len(),
            Intent::DeleteRange { start, end } => *start <= *end && *end <= self.text.len(),
            _ => true,
        }
    }

    /// Applies a user intent and returns the whole text.
    pub fn apply_intent(&mut self, intent: Intent) -> (r: String)
        requires
            mock_intent_in_range(old(self)@, intent),
        ensures
            final(self)@ == mock_intent_spec(old(self)@, intent),
            r@ == final(self)@,
    {
        match intent {
            Intent::ReplaceAll { text } => {
                self.text = chars_of(text.as_str());
            },
            Intent::MoveCursor { pos } => {},
            Intent::InsertAt { pos, text } => {
                let ins = chars_of(text.as_str());
                self.text = splice(&self.text, pos, pos, &ins);
            },
            Intent::DeleteRange { start, end } => {
                let none: Vec<char> = Vec::new();
                self.text = splice(&self.text, start, end, &none);
                proof {
                    assert(self.text@ =~= mock_intent_spec(old(self)@, intent));
                }
            },
        }
        string_of(&self.text)
    }

    /// The current text.
    pub fn render_text(&self) -> (r: String)
        ensures
            r@ == self@,
    {
        string_of(&self.text)
    }
}

} // verus!
