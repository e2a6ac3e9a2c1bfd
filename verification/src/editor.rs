//! The editor's decisions: what a local edit produces, what an operation
//! received from a peer does to the replica, and what a peer that asks for
//! the operations it missed is sent back. Sending and receiving stay with the
//! caller.
use std::collections::HashMap;
use std::collections::HashSet;

use vstd::prelude::*;

use crate::causal::{
    barrier_diff, clock_sets, dep_delivered, entry_of, entry_wf, lemma_increment_delivers, increment_defined, increment_spec, peers_view,
    CausalMessage, CausalOp, CausalityBarrier, LogTime, VectorEntry,
};
use crate::lseq::convergence::lemma_remove_undoes_insert;
use crate::lseq::{
    chars, has_id, op_id, entry_view, insert_defined, op_effect, same_op, Entry, EntryView, LSeq, Op,
};

verus! {

/// The site and clock of an operation (its own, as `CausalOp` reports them).
pub open spec fn op_key(op: Op) -> (u32, u64) {
    match op {
        Op::Insert { site_id, clock, .. } => (site_id, clock),
        Op::Delete { site_id, clock, .. } => (site_id, clock),
    }
}

/// `clocks` asks for the entry `e`: its site is there, with the entry's clock.
pub open spec fn asked_for(clocks: Map<u32, Set<u64>>, e: EntryView) -> bool {
    clocks.contains_key(e.2) && clocks[e.2].contains(e.1)
}

/// The entries of `s` that `clocks` asks for, in order.
pub open spec fn asked_entries(s: Seq<EntryView>, clocks: Map<u32, Set<u64>>) -> Seq<EntryView>
    decreases s.len(),
{
    if s.len() == 0 {
        s
    } else if asked_for(clocks, s.last()) {
        asked_entries(s.drop_last(), clocks).push(s.last())
    } else {
        asked_entries(s.drop_last(), clocks)
    }
}

/// The entries a peer asks for, as the response lists them: each of them is
/// an entry of the text that the peer asks for, every entry of the text that
/// the peer asks for is among them (wherever it stands in the text), and there
/// are no more of them than entries.
pub proof fn lemma_asked_entries_exact(s: Seq<EntryView>, clocks: Map<u32, Set<u64>>)
    ensures
        forall|k: int|
            0 <= k < asked_entries(s, clocks).len() ==> clocks.contains_key(
                (#[trigger] asked_entries(s, clocks)[k]).2,
            ) && clocks[asked_entries(s, clocks)[k].2].contains(asked_entries(s, clocks)[k].1)
                && s.contains(asked_entries(s, clocks)[k]),
        forall|i: int|
            0 <= i < s.len() && clocks.contains_key((#[trigger] s[i]).2) && clocks[s[i].2].contains(
                s[i].1,
            ) ==> asked_entries(s, clocks).contains(s[i]),
        asked_entries(s, clocks).len() <= s.len(),
    decreases s.len(),
{
    if s.len() > 0 {
        let t = s.drop_last();
        let rt = asked_entries(t, clocks);
        lemma_asked_entries_exact(t, clocks);
        let r = asked_entries(s, clocks);
        assert forall|k: int| 0 <= k < r.len() implies asked_for(clocks, #[trigger] r[k])
            && s.contains(r[k]) by {
            if k < rt.len() {
                assert(r[k] == rt[k]);
                let j = choose|j: int| 0 <= j < t.len() && t[j] == rt[k];
                assert(s[j] == t[j]);
            } else {
                assert(r[k] == s.last());
                assert(s[s.len() - 1] == s.last());
            }
        }
        assert forall|i: int| 0 <= i < s.len() && asked_for(clocks, #[trigger] s[i]) implies r.contains(
            s[i],
        ) by {
            if i < s.len() - 1 {
                assert(t[i] == s[i]);
                assert(rt.contains(t[i]));
                let j = choose|j: int| 0 <= j < rt.len() && rt[j] == t[i];
                assert(r[j] == rt[j]);
            } else {
                assert(s[i] == s.last());
                assert(r[r.len() - 1] == s.last());
            }
        }
    }
}

/// `op` is the insertion of entry `e`.
pub open spec fn inserts(op: Op, e: EntryView) -> bool {
    match op {
        Op::Insert { id, clock, site_id, c } => (id@, clock, site_id, c) == e,
        Op::Delete { .. } => false,
    }
}

/// A local insertion: the character `c` goes in at `pos`, the local clock
/// of the causality barrier follows, and the operation to broadcast comes out.
pub fn insert_char(store: &mut LSeq, causal: &mut CausalityBarrier<Op>, c: char, pos: usize) -> (op:
    Op)
    requires
        old(store).wf(),
        old(store).clock < u64::MAX,
        insert_defined(old(store)@, pos as int, old(store).gen.initial_base_bits),
    ensures
        final(store).wf(),
        final(store).clock == old(store).clock + 1,
        chars(final(store)@) == chars(old(store)@).insert(
            if pos < old(store)@.len() {
                pos as int
            } else {
                old(store)@.len() as int
            },
            c,
        ),
        final(store).gen == old(store).gen,
        match op {
            Op::Insert { clock, site_id, c: d, .. } => clock == old(store).clock && site_id
                == old(store).gen.site_id && d == c,
            Op::Delete { .. } => false,
        },
        final(store)@ == op_effect(old(store)@, op),
        final(causal).held() == old(causal).held(),
        final(causal).local_id == old(causal).local_id,
        final(causal).known() == old(causal).known().insert(
            old(causal).local_id.0,
            (old(store).clock, entry_of(old(causal).known(), old(causal).local_id.0).1),
        ),
{
    let op = store.local_insert(pos, c);
    let clock = op_clock(&op);
    causal.record_local(clock);
    op
}

/// A local deletion at `pos`: the local clock of the causality barrier
/// follows, and the operation to broadcast comes out.
pub fn delete_char(store: &mut LSeq, causal: &mut CausalityBarrier<Op>, pos: usize) -> (op: Op)
    requires
        old(store).wf(),
        old(store).clock < u64::MAX,
        pos < old(store)@.len(),
    ensures
        final(store).wf(),
        final(store).clock == old(store).clock + 1,
        final(store)@ == old(store)@.remove(pos as int),
        chars(final(store)@) == chars(old(store)@).remove(pos as int),
        final(store).gen == old(store).gen,
        match op {
            Op::Delete { remote, id, site_id, clock } => {
                &&& id@ == old(store)@[pos as int].0
                &&& remote == (old(store)@[pos as int].2, old(store)@[pos as int].1)
                &&& site_id == old(store).gen.site_id
                &&& clock == old(store).clock
            },
            Op::Insert { .. } => false,
        },
        final(causal).held() == old(causal).held(),
        final(causal).local_id == old(causal).local_id,
        final(causal).known() == old(causal).known().insert(
            old(causal).local_id.0,
            (old(store).clock, entry_of(old(causal).known(), old(causal).local_id.0).1),
        ),
{
    let op = store.local_delete(pos);
    let clock = op_clock(&op);
    causal.record_local(clock);
    op
}

/// The clock of an operation.
fn op_clock(op: &Op) -> (r: LogTime)
    ensures
        r.0 == op_key(*op).1,
{
    op.clock()
}

/// What the editor's state amounts to: the replica's entries, the operations
/// the barrier holds back (by the key they wait under), and the version vector.
pub type EditorView = (Seq<EntryView>, Map<(u32, u64), Op>, Map<u32, (u64, Set<u64>)>);

/// The barrier hands `op` out in state `st`: a deletion whose insertion has
/// been delivered, or an insertion that no held deletion waits for.
pub open spec fn hands_out(st: EditorView, op: Op) -> bool {
    match op {
        Op::Delete { remote, .. } => dep_delivered(st.2, remote),
        Op::Insert { .. } => !st.1.contains_key(op_key(op)),
    }
}

/// The state after an operation received from a peer (see `handle_op`): its
/// site and clock are recorded; it is applied if the barrier hands it out;
/// otherwise a deletion waits under its insertion's key, and an insertion
/// cancels the deletion waiting for it.
pub open spec fn after_op(st: EditorView, op: Op) -> EditorView {
    let known = st.2.insert(op_key(op).0, increment_spec(entry_of(st.2, op_key(op).0), op_key(op).1));
    if hands_out(st, op) {
        (op_effect(st.0, op), st.1, known)
    } else {
        match op {
            Op::Delete { remote, .. } => (st.0, st.1.insert(remote, op), known),
            Op::Insert { .. } => (st.0, st.1.remove(op_key(op)), known),
        }
    }
}

/// An operation received from a peer goes through the barrier, and what it
/// hands out is applied to the replica and comes back (to be passed on).
pub fn handle_op(store: &mut LSeq, causal: &mut CausalityBarrier<Op>, op: Op) -> (r: Option<Op>)
    requires
        old(store).wf(),
        old(causal).wf(),
        increment_defined(entry_of(old(causal).known(), op_key(op).0), op_key(op).1),
    ensures
        final(store).wf(),
        final(causal).wf(),
        final(causal).local_id == old(causal).local_id,
        final(store).gen == old(store).gen,
        final(store).clock == old(store).clock,
        editor_view(*final(store), *final(causal)) == after_op(
            editor_view(*old(store), *old(causal)),
            op,
        ),
        r == if hands_out(editor_view(*old(store), *old(causal)), op) {
            Some(op)
        } else {
            None::<Op>
        },
{
    let dep = op.happens_before();
    let key = (op.site(), op.clock());
    let msg = CausalMessage { time: key.1, local_id: key.0, msg: op };
    match causal.ingest_decided(msg, dep, key) {
        Some(op) => {
            store.apply(&op);
            Some(op)
        },
        None => None,
    }
}

/// The editor's state as `EditorView` holds it.
pub open spec fn editor_view(store: LSeq, causal: CausalityBarrier<Op>) -> EditorView {
    (store@, causal.held(), causal.known())
}

/// An insertion and the deletion of what it inserts, received from peers in
/// either order, leave the replica's entries and the held operations as they
/// were: a deletion that comes first waits for its insertion and both cancel;
/// one that comes second is handed out and removes what was inserted.
pub proof fn lemma_insert_delete_either_order(st: EditorView, ins: Op, del: Op)
    requires
        ins matches Op::Insert { id, site_id, clock, .. } && del matches Op::Delete {
            remote,
            id: id2,
            ..
        } && remote == (site_id, clock) && id2@ == id@,
        !has_id(st.0, op_id(ins)),
        !st.1.contains_key(op_key(ins)),
        !dep_delivered(st.2, op_key(ins)),
        entry_wf(entry_of(st.2, op_key(ins).0)),
        increment_defined(entry_of(st.2, op_key(ins).0), op_key(ins).1),
    ensures
        after_op(after_op(st, del), ins).0 == st.0,
        after_op(after_op(st, del), ins).1 == st.1,
        after_op(after_op(st, ins), del).0 == st.0,
        after_op(after_op(st, ins), del).1 == st.1,
{
    let k = op_key(ins);
    // the deletion first: it waits under the insertion's key, which cancels it
    let st1 = after_op(st, del);
    assert(!hands_out(st, del));
    assert(st1.1 == st.1.insert(k, del));
    assert(!hands_out(st1, ins));
    assert(st1.1.insert(k, del).remove(k) =~= st.1) by {
        assert(st.1.insert(k, del).remove(k) =~= st.1);
    }
    assert(after_op(st1, ins).1 =~= st.1);
    // the insertion first: it is applied and delivered, then the deletion
    // is handed out and removes it
    let st2 = after_op(st, ins);
    assert(hands_out(st, ins));
    lemma_increment_delivers(entry_of(st.2, k.0), k.1, k.1);
    assert(st2.2.contains_key(k.0));
    assert(dep_delivered(st2.2, k));
    assert(hands_out(st2, del));
    match ins {
        Op::Insert { id, clock, site_id, c } => {
            lemma_remove_undoes_insert(st.0, (id@, clock, site_id, c));
        },
        Op::Delete { .. } => {},
    }
}

/// The state after the operations `ops`, received in this order.
pub open spec fn replay(st: EditorView, ops: Seq<Op>) -> EditorView
    decreases ops.len(),
{
    if ops.len() == 0 {
        st
    } else {
        after_op(replay(st, ops.drop_last()), ops.last())
    }
}

/// Every operation of `ops`, received in this order from `st`, can be
/// recorded by the version vector (no clock past the largest one).
pub open spec fn replay_defined(st: EditorView, ops: Seq<Op>) -> bool
    decreases ops.len(),
{
    if ops.len() == 0 {
        true
    } else {
        &&& replay_defined(st, ops.drop_last())
        &&& increment_defined(
            entry_of(replay(st, ops.drop_last()).2, op_key(ops.last()).0),
            op_key(ops.last()).1,
        )
    }
}


/// The operations of a peer's reply, received in order: each one goes
/// through `handle_op`, and what comes out of the barrier is applied. The
/// replay stops before the first operation whose clock cannot be recorded;
/// the number of operations handled comes back.
pub fn handle_ops(store: &mut LSeq, causal: &mut CausalityBarrier<Op>, ops: Vec<Op>) -> (k: usize)
    requires
        old(store).wf(),
        old(causal).wf(),
    ensures
        k <= ops@.len(),
        final(store).wf(),
        final(causal).wf(),
        final(causal).local_id == old(causal).local_id,
        final(store).gen == old(store).gen,
        final(store).clock == old(store).clock,
        replay_defined(editor_view(*old(store), *old(causal)), ops@.take(k as int)),
        editor_view(*final(store), *final(causal)) == replay(
            editor_view(*old(store), *old(causal)),
            ops@.take(k as int),
        ),
        k < ops@.len() ==> !increment_defined(
            entry_of(final(causal).known(), op_key(ops@[k as int]).0),
            op_key(ops@[k as int]).1,
        ),
{
    let ghost start = editor_view(*store, *causal);
    let ghost all = ops@;
    let ghost local = causal.local_id;
    let ghost gen = store.gen;
    let ghost clock = store.clock;
    let mut ops = ops;
    let mut i: usize = 0;
    let n = ops.len();
    while i < n
        invariant_except_break
            ops@ == all.skip(i as int),
        invariant
            n == all.len(),
            i <= n,
            store.wf(),
            causal.wf(),
            causal.local_id == local,
            store.gen == gen,
            store.clock == clock,
            replay_defined(start, all.take(i as int)),
            editor_view(*store, *causal) == replay(start, all.take(i as int)),
        ensures
            i < n ==> !increment_defined(
                entry_of(causal.known(), op_key(all[i as int]).0),
                op_key(all[i as int]).1,
            ),
        decreases n - i,
    {
        let op = ops.remove(0);
        proof {
            assert(op == all[i as int]);
            assert(ops@ =~= all.skip(i + 1));
        }
        let site = op.site();
        let clock = op.clock();
        if !causal.can_record(site, clock) {
            break;
        }
        proof {
            assert(all.take(i + 1).drop_last() =~= all.take(i as int));
            assert(all.take(i + 1).last() == op);
        }
        let _ = handle_op(store, causal, op);
        i += 1;
    }
    i
}

/// The insertions of the entries of `store` whose site and clock `to_find`
/// lists, in text order.
fn asked_insertions(store: &LSeq, to_find: &HashMap<u32, HashSet<u64>>) -> (r: Vec<Op>)
    ensures
        r@.len() == asked_entries(store@, clock_sets(to_find@)).len(),
        forall|k: int|
            0 <= k < r@.len() ==> inserts(
                #[trigger] r@[k],
                asked_entries(store@, clock_sets(to_find@))[k],
            ),
{
    let ghost clocks = clock_sets(to_find@);
    let ghost s = store@;
    let mut resp: Vec<Op> = Vec::new();
    let text = store.raw_text();
    let mut i: usize = 0;
    while i < text.len()
        invariant
            text@ == store.text@,
            s == store@,
            i <= text@.len(),
            clocks == clock_sets(to_find@),
            resp@.len() == asked_entries(s.take(i as int), clocks).len(),
            forall|k: int|
                0 <= k < resp@.len() ==> inserts(
                    #[trigger] resp@[k],
                    asked_entries(s.take(i as int), clocks)[k],
                ),
        decreases text.len() - i,
    {
        let e = &text[i];
        let ghost ev = entry_view(*e);
        let ghost before = asked_entries(s.take(i as int), clocks);
        proof {
            assert(s[i as int] == ev);
            assert(s.take(i + 1).drop_last() =~= s.take(i as int));
            assert(s.take(i + 1).last() == ev);
        }
        let found = match to_find.get(&e.2) {
            Some(set) => set.contains(&e.1),
            None => false,
        };
        assert(found == asked_for(clocks, ev));
        if found {
            let new_op = insertion_of(e);
            proof {
                lemma_push_inserts(resp@, before, new_op, ev);
            }
            resp.push(new_op);
            assert(asked_entries(s.take(i + 1), clocks) == before.push(ev));
        } else {
            assert(asked_entries(s.take(i + 1), clocks) == before);
        }
        i += 1;
    }
    assert(s.take(i as int) =~= s);
    resp
}

/// The insertion of entry `e`.
fn insertion_of(e: &Entry) -> (op: Op)
    ensures
        inserts(op, entry_view(*e)),
{
    Op::Insert { id: e.0.duplicate(), clock: e.1, site_id: e.2, c: e.3 }
}

proof fn lemma_push_inserts(ops: Seq<Op>, es: Seq<EntryView>, op: Op, e: EntryView)
    requires
        ops.len() == es.len(),
        forall|k: int| 0 <= k < ops.len() ==> inserts(#[trigger] ops[k], es[k]),
        inserts(op, e),
    ensures
        forall|k: int| 0 <= k < ops.len() + 1 ==> inserts(#[trigger] ops.push(op)[k], es.push(e)[k]),
{
    assert forall|k: int| 0 <= k < ops.len() + 1 implies inserts(
        #[trigger] ops.push(op)[k],
        es.push(e)[k],
    ) by {
        if k < ops.len() {
            assert(ops.push(op)[k] == ops[k]);
            assert(es.push(e)[k] == es[k]);
        }
    }
}

/// The reply to a peer that sent its version vector `vec`: the insertions
/// of the replica's entries that the peer has not seen, in text order, then
/// every operation held back by the barrier.
pub fn anti_entropy_response(
    store: &LSeq,
    causal: &CausalityBarrier<Op>,
    vec: &HashMap<u32, VectorEntry>,
) -> (r: Vec<Op>)
    requires
        store.wf(),
    ensures
        ({
            let owed = barrier_diff(causal.known(), peers_view(vec@));
            let wanted = asked_entries(store@, owed);
            &&& r@.len() == wanted.len() + causal.buffer@.len()
            &&& forall|i: int| 0 <= i < wanted.len() ==> inserts(#[trigger] r@[i], wanted[i])
            &&& forall|j: int|
                0 <= j < causal.buffer@.len() ==> same_op(
                    causal.buffer@[j].2,
                    #[trigger] r@[wanted.len() + j],
                )
            // every entry of the text that the peer misses is answered,
            // wherever it stands; every insertion answered is of such an entry
            &&& forall|i: int|
                0 <= i < store@.len() && owed.contains_key((#[trigger] store@[i]).2)
                    && owed[store@[i].2].contains(store@[i].1) ==> wanted.contains(store@[i])
            &&& forall|k: int|
                0 <= k < wanted.len() ==> owed.contains_key((#[trigger] wanted[k]).2)
                    && owed[wanted[k].2].contains(wanted[k].1) && store@.contains(wanted[k])
        }),
{
    // Here are all the operations that we've seen and need to find.
    let to_find = causal.diff_from(vec);
    let ghost clocks = clock_sets(to_find@);
    // 1. Search the local LSeq.
    let mut resp = asked_insertions(store, &to_find);
    let ghost s = store@;
    let ghost n = resp@.len();
    // 2. Search the causal buffer for unapplied removes
    let mut j: usize = 0;
    while j < causal.buffer.len()
        invariant
            j <= causal.buffer@.len(),
            resp@.len() == n + j,
            forall|k: int|
                0 <= k < n ==> inserts(#[trigger] resp@[k], asked_entries(s, clocks)[k]),
            forall|k: int|
                0 <= k < j ==> same_op(causal.buffer@[k].2, #[trigger] resp@[n + k]),
        decreases causal.buffer.len() - j,
    {
        let del = causal.buffer[j].2.clone();
        resp.push(del);
        j += 1;
    }
    proof {
        lemma_asked_entries_exact(s, clocks);
    }
    resp
}

} // verus!
