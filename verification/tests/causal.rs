use std::collections::HashMap;
use std::collections::HashSet;

use crdocs::causal::{CausalMessage, CausalOp, CausalityBarrier, LogTime, SiteId, VectorEntry};

#[derive(PartialEq, Debug)]
enum Op {
    Insert(u64),
    Delete(u64),
}

use Op::{Delete, Insert};

impl CausalOp for Op {
    fn depends_on(&self) -> Option<(u32, u64)> {
        match self {
            Op::Insert(_) => None,
            Op::Delete(i) => Some((0, *i)),
        }
    }

    fn origin(&self) -> (u32, u64) {
        match self {
            Insert(i) => (0, *i),
            Delete(i) => (0, *i),
        }
    }

    fn happens_before(&self) -> Option<(SiteId, LogTime)> {
        match self {
            Op::Insert(_) => None,
            Op::Delete(i) => Some((SiteId(0), LogTime::from(*i))),
        }
    }

    fn clock(&self) -> LogTime {
        match self {
            Insert(i) => LogTime::from(*i),
            Delete(i) => LogTime::from(*i),
        }
    }
    fn site(&self) -> SiteId {
        SiteId(0)
    }
}

fn set(xs: &[u64]) -> HashSet<u64> {
    xs.iter().cloned().collect()
}

fn entry(max: u64, exceptions: &[u64]) -> VectorEntry {
    VectorEntry { max_version: max.into(), exceptions: set(exceptions) }
}

#[test]
fn delete_before_insert() {
    let mut barrier = CausalityBarrier::new(0.into());

    let del = CausalMessage { time: 0.into(), local_id: 1.into(), msg: Op::Delete(0) };
    let ins = CausalMessage { time: 1.into(), local_id: 1.into(), msg: Op::Insert(0) };
    assert_eq!(barrier.ingest(del), None);
    assert_eq!(barrier.ingest(ins), None);
}

#[test]
fn insert() {
    let mut barrier = CausalityBarrier::new(0.into());

    let ins = CausalMessage { time: 1.into(), local_id: 1.into(), msg: Op::Insert(0) };
    assert_eq!(barrier.ingest(ins), Some(Op::Insert(0)));
}

#[test]
fn delete_before_insert_multiple_sites() {
    let mut barrier = CausalityBarrier::new(0.into());

    let del = CausalMessage { time: 0.into(), local_id: 2.into(), msg: Op::Delete(0) };
    let ins = CausalMessage { time: 5.into(), local_id: 1.into(), msg: Op::Insert(0) };
    assert_eq!(barrier.ingest(del), None);
    assert_eq!(barrier.ingest(ins), None);
}

#[test]
fn entry_diff_new_entries() {
    let a = VectorEntry::new();
    let b = VectorEntry { max_version: 10.into(), exceptions: HashSet::new() };

    let c: HashSet<u64> = (0..10).into_iter().collect();
    assert_eq!(b.diff_from(&a), c);
}

#[test]
fn entry_diff_found_exceptions() {
    let a = VectorEntry { max_version: 10.into(), exceptions: [1, 2, 3, 4].iter().cloned().collect() };
    let b = VectorEntry { max_version: 5.into(), exceptions: HashSet::new() };

    let c: HashSet<u64> = [1, 2, 3, 4].iter().cloned().collect();
    assert_eq!(b.diff_from(&a), c);
}

#[test]
fn entry_diff_complex() {
    // a has seen 0, 5
    let a = VectorEntry { max_version: 6.into(), exceptions: [1, 2, 3, 4].iter().cloned().collect() };
    // b has seen 0, 1, 5,6,7,8
    let b = VectorEntry { max_version: 9.into(), exceptions: [2, 3, 4].iter().cloned().collect() };

    // c should be 1,6,7,8
    let c: HashSet<u64> = [1, 6, 7, 8].iter().cloned().collect();
    assert_eq!(b.diff_from(&a), c);
}

#[test]
fn increment_next_clock_advances_maximum() {
    let mut e = VectorEntry::new();
    e.increment(LogTime(1));
    e.increment(LogTime(2));
    assert_eq!(e.max_version, LogTime(2));
    assert!(e.exceptions.is_empty());
    assert!(e.is_ready(LogTime(2)));
    assert!(!e.is_ready(LogTime(3)));
}

#[test]
fn increment_gap_advances_maximum() {
    let mut e = VectorEntry::new();
    e.increment(LogTime(4));
    // the clocks in between become exceptions; the clock received is the latest
    assert_eq!(e.max_version, LogTime(4));
    assert_eq!(e.exceptions, set(&[1, 2, 3]));
    assert!(e.is_ready(LogTime(4)));
    assert!(!e.is_ready(LogTime(2)));
}

#[test]
fn increment_from_fresh_to_three() {
    let mut v = VectorEntry::new();
    v.increment(LogTime::from(3));
    assert_eq!(v.max_version, LogTime(3));
    assert!(v.is_ready(3.into()));
    assert!(!v.is_ready(1.into()));
    assert!(!v.is_ready(2.into()));
}

#[test]
fn fresh_entry_then_next_clocks() {
    let v = VectorEntry::new();
    assert_eq!(v.max_version, LogTime(0));
    assert!(v.exceptions.is_empty());
    let mut w = VectorEntry::new();
    w.increment(LogTime::from(1));
    w.increment(LogTime::from(2));
    assert_eq!(w.max_version, LogTime(2));
    assert!(w.exceptions.is_empty());
    assert!(w.is_ready(1.into()));
    assert!(w.is_ready(2.into()));
    assert!(!w.is_ready(3.into()));
}

#[test]
fn entry_diff_ignores_remote_exceptions_above_our_maximum() {
    let ours = entry(2, &[]);
    let theirs = entry(10, &[7]);
    assert!(ours.diff_from(&theirs).is_empty());
    let ours = entry(9, &[]);
    assert_eq!(ours.diff_from(&theirs), set(&[7]));
}

#[test]
fn increment_below_maximum_clears_exception() {
    let mut e = entry(6, &[2, 3]);
    assert!(!e.is_ready(LogTime(3)));
    e.increment(LogTime(3));
    assert_eq!(e.max_version, LogTime(6));
    assert_eq!(e.exceptions, set(&[2]));
    assert!(e.is_ready(LogTime(3)));
    assert!(!e.is_ready(LogTime(2)));
}

#[test]
fn increment_at_maximum_changes_nothing() {
    let mut e = entry(3, &[1]);
    e.increment(LogTime(3));
    assert_eq!(e.max_version, LogTime(3));
    assert_eq!(e.exceptions, set(&[1]));
}

#[test]
fn entry_diff_with_itself_is_empty() {
    let a = entry(9, &[2, 3, 4]);
    assert!(a.diff_from(&a).is_empty());
}

#[test]
fn barrier_diff_from_covers_unknown_sites() {
    let mut barrier: CausalityBarrier<Op> = CausalityBarrier::new(0.into());
    barrier.ingest(CausalMessage { time: 1.into(), local_id: 1.into(), msg: Op::Insert(7) });
    barrier.ingest(CausalMessage { time: 2.into(), local_id: 1.into(), msg: Op::Insert(8) });
    barrier.ingest(CausalMessage { time: 1.into(), local_id: 2.into(), msg: Op::Insert(9) });

    let mut remote: HashMap<u32, VectorEntry> = HashMap::new();
    remote.insert(1, entry(1, &[]));
    let d = barrier.diff_from(&remote);
    assert_eq!(d.len(), 2);
    // site 1: from the remote's maximum up to ours
    assert_eq!(d[&1], set(&[1]));
    // site 2: unknown to the remote, every clock below our maximum
    assert_eq!(d[&2], set(&[0]));
}

#[test]
fn ingest_insert_after_held_delete_cancels() {
    let mut barrier = CausalityBarrier::new(SiteId(0));
    let del = CausalMessage { time: 1.into(), local_id: 3.into(), msg: Op::Delete(4) };
    assert_eq!(barrier.ingest(del), None);
    assert_eq!(barrier.buffer.len(), 1);
    let other = CausalMessage { time: 2.into(), local_id: 3.into(), msg: Op::Insert(5) };
    assert_eq!(barrier.ingest(other), Some(Op::Insert(5)));
    let ins = CausalMessage { time: 3.into(), local_id: 3.into(), msg: Op::Insert(4) };
    assert_eq!(barrier.ingest(ins), None);
    assert!(barrier.buffer.is_empty());
    assert_eq!(barrier.peers[&3].max_version, LogTime(3));
}

#[test]
fn ingest_decided_follows_the_given_answers() {
    let mut barrier: CausalityBarrier<Op> = CausalityBarrier::new(SiteId(0));
    let m = CausalMessage { time: 1.into(), local_id: 2.into(), msg: Op::Insert(1) };
    // told that it depends on an operation not delivered: held back under that one's key
    assert_eq!(barrier.ingest_decided(m, Some((SiteId(2), LogTime(9))), (SiteId(2), LogTime(1))), None);
    assert_eq!(barrier.buffer.len(), 1);
    let m = CausalMessage { time: 2.into(), local_id: 2.into(), msg: Op::Delete(1) };
    // told that it is free, under the held key: both cancel
    assert_eq!(barrier.ingest_decided(m, None, (SiteId(2), LogTime(9))), None);
    assert!(barrier.buffer.is_empty());
    let m = CausalMessage { time: 3.into(), local_id: 2.into(), msg: Op::Delete(1) };
    assert_eq!(barrier.ingest_decided(m, None, (SiteId(2), LogTime(9))), Some(Op::Delete(1)));
    // told that it depends on an operation already delivered: handed out
    let m = CausalMessage { time: 4.into(), local_id: 2.into(), msg: Op::Delete(2) };
    assert!(barrier.has_delivered(SiteId(2), LogTime(2)));
    assert_eq!(barrier.ingest_decided(m, Some((SiteId(2), LogTime(2))), (SiteId(2), LogTime(4))), Some(Op::Delete(2)));
    assert!(barrier.buffer.is_empty());
    assert!(!barrier.has_delivered(SiteId(5), LogTime(0)));
}

#[test]
fn delete_after_its_insert_is_handed_out() {
    let mut barrier: CausalityBarrier<Op> = CausalityBarrier::new(SiteId(1));
    let ins = CausalMessage { time: 3.into(), local_id: 0.into(), msg: Op::Insert(3) };
    assert_eq!(barrier.ingest(ins), Some(Op::Insert(3)));
    let del = CausalMessage { time: 4.into(), local_id: 0.into(), msg: Op::Delete(3) };
    assert_eq!(barrier.ingest(del), Some(Op::Delete(3)));
    assert!(barrier.buffer.is_empty());
}

#[test]
fn expel_records_local_clock() {
    let mut barrier: CausalityBarrier<Op> = CausalityBarrier::new(SiteId(7));
    let op = barrier.expel(Op::Insert(12));
    assert_eq!(op, Op::Insert(12));
    assert_eq!(barrier.peers[&7].max_version, LogTime(12));
    barrier.record_local(LogTime(15));
    assert_eq!(barrier.peers[&7].max_version, LogTime(15));
    assert_eq!(barrier.local_id, SiteId(7));
}

#[test]
fn conversions_keep_values() {
    assert_eq!(SiteId::from(5u32), SiteId(5));
    assert_eq!(LogTime::from(6u64), LogTime(6));
}

#[test]
fn held_keys_check() {
    let mut barrier: CausalityBarrier<Op> = CausalityBarrier::new(SiteId(0));
    assert!(barrier.keys_are_distinct());
    barrier.buffer.push((SiteId(1), LogTime(2), Op::Delete(2)));
    barrier.buffer.push((SiteId(1), LogTime(3), Op::Delete(3)));
    assert!(barrier.keys_are_distinct());
    barrier.buffer.push((SiteId(1), LogTime(2), Op::Delete(2)));
    assert!(!barrier.keys_are_distinct());
}

#[test]
fn expel_keeps_local_exceptions() {
    let mut barrier: CausalityBarrier<Op> = CausalityBarrier::new(SiteId(7));
    barrier.peers.insert(7, entry(4, &[2]));
    barrier.expel(Op::Insert(9));
    assert_eq!(barrier.peers[&7].max_version, LogTime(9));
    assert_eq!(barrier.peers[&7].exceptions, set(&[2]));
    assert!(barrier.buffer.is_empty());
}
