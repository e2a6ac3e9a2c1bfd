use std::collections::HashMap;

use crdocs::causal::{CausalityBarrier, LogTime, SiteId, VectorEntry};
use crdocs::editor::{anti_entropy_response, delete_char, handle_op, handle_ops, insert_char};
use crdocs::lseq::ident::{IdentGen, Identifier, INITIAL_BASE};
use crdocs::lseq::{LSeq, Op};

fn replica(id: u32) -> (LSeq, CausalityBarrier<Op>) {
    (
        LSeq { text: Vec::new(), gen: IdentGen::new_with_args(INITIAL_BASE, id), clock: 0 },
        CausalityBarrier::new(SiteId(id)),
    )
}

fn is_insert_of(op: &Op, ch: char) -> bool {
    matches!(op, Op::Insert { c, .. } if *c == ch)
}

#[test]
fn local_edits_move_the_local_clock() {
    let (mut store, mut causal) = replica(3);
    let a = insert_char(&mut store, &mut causal, 'a', 0);
    let b = insert_char(&mut store, &mut causal, 'b', 1);
    assert!(is_insert_of(&a, 'a'));
    assert!(is_insert_of(&b, 'b'));
    assert_eq!(store.text(), "ab");
    assert_eq!(causal.peers[&3].max_version, LogTime(1));

    let d = delete_char(&mut store, &mut causal, 0);
    assert!(matches!(d, Op::Delete { site_id: 3, clock: 2, .. }));
    assert_eq!(store.text(), "b");
    assert_eq!(causal.peers[&3].max_version, LogTime(2));
    assert!(causal.buffer.is_empty());
}

#[test]
fn insert_past_the_end_appends() {
    let (mut store, mut causal) = replica(1);
    insert_char(&mut store, &mut causal, 'x', 0);
    insert_char(&mut store, &mut causal, 'y', 7);
    assert_eq!(store.text(), "xy");
}

#[test]
fn remote_insert_is_applied_and_passed_on() {
    let (mut s1, mut c1) = replica(1);
    let (mut s2, mut c2) = replica(2);
    let op = insert_char(&mut s1, &mut c1, 'q', 0);
    let out = handle_op(&mut s2, &mut c2, op);
    assert!(matches!(out, Some(ref o) if is_insert_of(o, 'q')));
    assert_eq!(s2.text(), "q");
    assert!(c2.peers.contains_key(&1));
}

#[test]
fn remote_delete_is_held_back() {
    let (mut s1, mut c1) = replica(1);
    let (mut s2, mut c2) = replica(2);
    let ins = insert_char(&mut s1, &mut c1, 'q', 0);
    let del = delete_char(&mut s1, &mut c1, 0);
    // The deletion arrives first: it waits for the insertion it names.
    assert!(handle_op(&mut s2, &mut c2, del).is_none());
    assert_eq!(c2.buffer.len(), 1);
    assert_eq!(s2.text(), "");
    // The insertion then arrives, and the pair cancels: both replicas agree.
    assert!(handle_op(&mut s2, &mut c2, ins).is_none());
    assert!(c2.buffer.is_empty());
    assert_eq!(s2.text(), "");
    assert_eq!(s1.text(), s2.text());
}

#[test]
fn remote_delete_after_its_insert_takes_effect() {
    let (mut s1, mut c1) = replica(1);
    let (mut s2, mut c2) = replica(2);
    let a = insert_char(&mut s1, &mut c1, 'a', 0);
    let b = insert_char(&mut s1, &mut c1, 'b', 1);
    let del = delete_char(&mut s1, &mut c1, 0);
    assert!(handle_op(&mut s2, &mut c2, a).is_some());
    assert!(handle_op(&mut s2, &mut c2, b).is_some());
    assert_eq!(s2.text(), "ab");
    assert!(matches!(handle_op(&mut s2, &mut c2, del), Some(Op::Delete { .. })));
    assert_eq!(s2.text(), "b");
    assert_eq!(s1.text(), s2.text());
    assert!(c2.buffer.is_empty());
}

#[test]
fn insertion_cancels_what_is_held_under_its_key() {
    let (mut s1, mut c1) = replica(1);
    let (mut s2, mut c2) = replica(2);
    let ins = insert_char(&mut s1, &mut c1, 'q', 0);
    let id = match &ins {
        Op::Insert { id, .. } => id.clone(),
        _ => unreachable!(),
    };
    // A deletion that carries the insertion's own site and clock.
    let del = Op::Delete { remote: (1, 0), id, site_id: 1, clock: 0 };
    assert!(handle_op(&mut s2, &mut c2, del).is_none());
    assert!(handle_op(&mut s2, &mut c2, ins).is_none());
    assert!(c2.buffer.is_empty());
    assert_eq!(s2.text(), "");
}

#[test]
fn reply_replays_every_operation() {
    let (mut s1, mut c1) = replica(1);
    let (mut s2, mut c2) = replica(2);
    let mut ops = Vec::new();
    ops.push(insert_char(&mut s1, &mut c1, 'h', 0));
    ops.push(insert_char(&mut s1, &mut c1, 'i', 1));
    ops.push(insert_char(&mut s1, &mut c1, '!', 2));
    assert_eq!(handle_ops(&mut s2, &mut c2, ops), 3);
    assert_eq!(s2.text(), "hi!");
    assert_eq!(s2.text(), s1.text());
}

#[test]
fn anti_entropy_sends_what_the_peer_missed() {
    let (mut s1, mut c1) = replica(1);
    insert_char(&mut s1, &mut c1, 'a', 0);
    insert_char(&mut s1, &mut c1, 'b', 1);
    insert_char(&mut s1, &mut c1, 'c', 2);

    // A peer that has seen nothing gets the insertions the local vector
    // counts as delivered, in text order.
    let none: HashMap<u32, VectorEntry> = HashMap::new();
    let resp = anti_entropy_response(&s1, &c1, &none);
    assert_eq!(resp.len(), 2);
    assert!(is_insert_of(&resp[0], 'a'));
    assert!(is_insert_of(&resp[1], 'b'));

    // A peer that has seen up to clock 1 gets nothing more.
    let mut seen: HashMap<u32, VectorEntry> = HashMap::new();
    seen.insert(1, VectorEntry { max_version: LogTime(2), exceptions: Default::default() });
    let resp = anti_entropy_response(&s1, &c1, &seen);
    assert!(resp.is_empty());
}

#[test]
fn anti_entropy_includes_held_operations() {
    let (mut s1, mut c1) = replica(1);
    let (mut s2, mut c2) = replica(2);
    insert_char(&mut s1, &mut c1, 'z', 0);
    let del = delete_char(&mut s1, &mut c1, 0);
    assert!(handle_op(&mut s2, &mut c2, del).is_none());
    let none: HashMap<u32, VectorEntry> = HashMap::new();
    let resp = anti_entropy_response(&s2, &c2, &none);
    assert_eq!(resp.len(), 1);
    assert!(matches!(resp[0], Op::Delete { site_id: 1, clock: 1, .. }));
}

#[test]
fn reply_stops_where_a_clock_cannot_be_recorded() {
    let (mut s1, mut c1) = replica(1);
    let (mut s2, mut c2) = replica(2);
    let first = insert_char(&mut s1, &mut c1, 'k', 0);
    c2.peers.insert(7, VectorEntry { max_version: LogTime(u64::MAX), exceptions: Default::default() });
    let stuck = Op::Delete { remote: (7, 0), id: Identifier { path: vec![(1, 1)] }, site_id: 7, clock: u64::MAX };
    let after = insert_char(&mut s1, &mut c1, 'l', 1);
    assert!(!c2.can_record(SiteId(7), LogTime(u64::MAX)));
    assert!(c2.can_record(SiteId(7), LogTime(3)));
    assert!(c2.can_record(SiteId(1), LogTime(u64::MAX)));
    assert_eq!(handle_ops(&mut s2, &mut c2, vec![first, stuck, after]), 1);
    assert_eq!(s2.text(), "k");
    assert!(c2.buffer.is_empty());
}

#[test]
fn delete_waits_for_an_insert_that_is_overtaken() {
    let (mut s1, mut c1) = replica(1);
    let (mut s2, mut c2) = replica(2);
    let w = insert_char(&mut s1, &mut c1, 'w', 0);
    let x = insert_char(&mut s1, &mut c1, 'x', 1);
    let y = insert_char(&mut s1, &mut c1, 'y', 2);
    let del = delete_char(&mut s1, &mut c1, 1);
    assert_eq!(s1.text(), "wy");
    assert!(handle_op(&mut s2, &mut c2, w).is_some());
    // y overtakes x, then the deletion of x arrives before x itself
    assert!(handle_op(&mut s2, &mut c2, y).is_some());
    assert!(handle_op(&mut s2, &mut c2, del).is_none());
    assert!(handle_op(&mut s2, &mut c2, x).is_none());
    assert_eq!(s2.text(), "wy");
    assert!(c2.buffer.is_empty());
}
