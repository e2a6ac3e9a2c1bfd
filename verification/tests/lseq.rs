use crdocs::causal::{CausalOp, LogTime, SiteId};
use crdocs::lseq::ident::{IdentGen, Identifier, INITIAL_BASE};
use crdocs::lseq::{LSeq, Op};

use quickcheck::{Arbitrary, Gen};
use rand::distributions::Alphanumeric;
use rand::Rng;

fn site(id: u32) -> LSeq {
    LSeq { text: Vec::new(), gen: IdentGen::new_with_args(INITIAL_BASE, id), clock: 0 }
}

fn ident(path: &[(u64, u32)]) -> Identifier {
    Identifier { path: path.to_vec() }
}

#[test]
fn test_out_of_order_inserts() {
    let mut site1 = LSeq { text: Vec::new(), gen: IdentGen::new_with_args(INITIAL_BASE, 0), clock: 0 };
    //let mut site2 = LSeq { text: Vec::new(), gen: IdentGen::new_with_args(INITIAL_BASE, 1) };
    site1.local_insert(0, 'a');
    site1.local_insert(1, 'c');
    site1.local_insert(1, 'b');

    assert_eq!(site1.text(), "abc");
}

#[test]
fn mod_test_inserts() {
    // A simple smoke test to ensure that insertions work properly.
    // Uses two sites which random insert a character and then immediately insert it into the
    // other site.
    let mut rng = rand::thread_rng();

    let mut s1 = rng.sample_iter(Alphanumeric);
    let mut s2 = rng.sample_iter(Alphanumeric);

    let mut site1 = LSeq { text: Vec::new(), gen: IdentGen::new_with_args(INITIAL_BASE, 0), clock: 0 };
    let mut site2 = LSeq { text: Vec::new(), gen: IdentGen::new_with_args(INITIAL_BASE, 1), clock: 0 };

    for _ in 0..5000 {
        if rng.gen() {
            let op = site1.local_insert(rng.gen_range(0, site1.text.len() + 1), s1.next().unwrap());
            site2.apply(&op);
        } else {
            let op = site2.local_insert(rng.gen_range(0, site2.text.len() + 1), s2.next().unwrap());
            site1.apply(&op);
        }
    }
    assert_eq!(site1.text, site2.text);
}

#[derive(Clone)]
struct OperationList(pub Vec<Op>);

impl Arbitrary for OperationList {
    fn arbitrary<G: Gen>(g: &mut G) -> OperationList {
        let size = {
            let s = g.size();
            if s == 0 {
                0
            } else {
                g.gen_range(0, s)
            }
        };

        let mut site1 = LSeq { text: Vec::new(), gen: IdentGen::new_with_args(INITIAL_BASE, g.gen()), clock: 0 };
        let ops = (0..size)
            .map(|_| {
                if g.gen() || site1.text.len() == 0 {
                    site1.local_insert(g.gen_range(0, site1.text.len() + 1), g.gen())
                } else {
                    site1.local_delete(g.gen_range(0, site1.text.len()))
                }
            })
            .collect::<Vec<Op>>();
        OperationList(ops)
    }
    // implement shrinking ://
}

#[test]
fn mod_prop_inserts_and_deletes() {
    let mut rng = quickcheck::StdThreadGen::new(1000);
    let mut op1 = OperationList::arbitrary(&mut rng).0.into_iter();
    let mut op2 = OperationList::arbitrary(&mut rng).0.into_iter();

    let mut site1 = LSeq { text: Vec::new(), gen: IdentGen::new_with_args(INITIAL_BASE, 0), clock: 0 };
    let mut site2 = LSeq { text: Vec::new(), gen: IdentGen::new_with_args(INITIAL_BASE, 1), clock: 0 };

    let mut s1_empty = false;
    let mut s2_empty = false;
    while !s1_empty && !s2_empty {
        if rng.gen() {
            match op1.next() {
                Some(o) => {
                    site1.apply(&o);
                    site2.apply(&o);
                }
                None => {
                    s1_empty = true;
                }
            }
        } else {
            match op2.next() {
                Some(o) => {
                    site1.apply(&o);
                    site2.apply(&o);
                }
                None => {
                    s2_empty = true;
                }
            }
        }
    }

    assert_eq!(site1.text, site2.text);
}

#[test]
fn local_insert_places_character_and_counts_clock() {
    let mut s = LSeq::new(4);
    let op = s.local_insert(10, 'x');
    assert_eq!(s.text(), "x");
    assert_eq!(s.clock, 1);
    match op {
        Op::Insert { id, clock, site_id, c } => {
            assert_eq!(clock, 0);
            assert_eq!(site_id, 4);
            assert_eq!(c, 'x');
            assert_eq!(s.raw_text()[0].0, id);
            assert!(s.gen.lower() < id && id < s.gen.upper());
        }
        Op::Delete { .. } => panic!("expected an insertion"),
    }
    s.local_insert(0, 'a');
    s.local_insert(1, 'b');
    s.local_insert(99, 'z');
    assert_eq!(s.text(), "abxz");
    let ids: Vec<Identifier> = s.raw_text().iter().map(|e| e.0.clone()).collect();
    for w in ids.windows(2) {
        assert!(w[0] < w[1]);
    }
}

#[test]
fn local_delete_removes_position() {
    let mut s = LSeq::new(2);
    for (i, c) in "hello".chars().enumerate() {
        s.local_insert(i, c);
    }
    let removed_id = s.raw_text()[1].0.clone();
    let op = s.local_delete(1);
    assert_eq!(s.text(), "hllo");
    assert_eq!(s.clock, 6);
    match op {
        Op::Delete { remote, id, site_id, clock } => {
            assert_eq!(id, removed_id);
            assert_eq!(remote, (2, 1));
            assert_eq!(site_id, 2);
            assert_eq!(clock, 5);
        }
        Op::Insert { .. } => panic!("expected a deletion"),
    }
}

#[test]
fn remote_ops_apply_in_identifier_order() {
    let mut s = LSeq::new(0);
    s.do_insert(ident(&[(5, 1)]), 0, 1, 'c');
    s.do_insert(ident(&[(2, 1)]), 1, 1, 'a');
    s.do_insert(ident(&[(2, 1), (3, 2)]), 0, 2, 'b');
    assert_eq!(s.text(), "abc");
    // an identifier already present keeps its character
    s.do_insert(ident(&[(2, 1)]), 9, 9, 'q');
    assert_eq!(s.text(), "abc");
    // deleting an absent identifier changes nothing
    s.do_delete(&ident(&[(4, 4)]));
    assert_eq!(s.text(), "abc");
    s.do_delete(&ident(&[(2, 1)]));
    assert_eq!(s.text(), "bc");
    let del = Op::Delete { remote: (1, 0), id: ident(&[(5, 1)]), site_id: 0, clock: 0 };
    s.apply(&del);
    assert_eq!(s.text(), "b");
}

#[test]
fn ops_on_different_identifiers_commute() {
    let a = Op::Insert { id: ident(&[(3, 0)]), clock: 0, site_id: 0, c: 'a' };
    let b = Op::Insert { id: ident(&[(3, 0), (1, 1)]), clock: 0, site_id: 1, c: 'b' };
    let d = Op::Delete { remote: (0, 0), id: ident(&[(3, 0)]), site_id: 2, clock: 1 };
    let mut x = LSeq::new(7);
    let mut y = LSeq::new(8);
    x.apply(&a);
    x.apply(&b);
    y.apply(&b);
    y.apply(&a);
    assert_eq!(x.text, y.text);
    assert_eq!(x.text(), "ab");
    x.apply(&d);
    assert_eq!(x.text(), "b");
    // applying the same insertion twice changes nothing
    y.apply(&b);
    assert_eq!(y.text(), "ab");
}

#[test]
fn op_as_causal_op() {
    let ins = Op::Insert { id: ident(&[(1, 0)]), clock: 3, site_id: 9, c: 'a' };
    let del = Op::Delete { remote: (9, 3), id: ident(&[(1, 0)]), site_id: 4, clock: 11 };
    assert_eq!(ins.happens_before(), None);
    assert_eq!(del.happens_before(), Some((SiteId(9), LogTime(3))));
    assert_eq!(ins.site(), SiteId(9));
    assert_eq!(del.site(), SiteId(4));
    assert_eq!(ins.clock(), LogTime(3));
    assert_eq!(del.clock(), LogTime(11));
    let copy = del.clone();
    match copy {
        Op::Delete { remote, id, site_id, clock } => {
            assert_eq!((remote, site_id, clock), ((9, 3), 4, 11));
            assert_eq!(id, ident(&[(1, 0)]));
        }
        Op::Insert { .. } => panic!("clone changed the variant"),
    }
}

#[test]
fn two_replicas_converge_under_interleaving() {
    let mut a = site(1);
    let mut b = site(2);
    let mut from_a = Vec::new();
    let mut from_b = Vec::new();
    for (i, c) in "replica".chars().enumerate() {
        from_a.push(a.local_insert(i, c));
        from_b.push(b.local_insert(0, c));
    }
    from_a.push(a.local_delete(0));
    for op in &from_b {
        a.apply(op);
    }
    for op in &from_a {
        b.apply(op);
    }
    assert_eq!(a.text, b.text);
    assert_eq!(a.text(), b.text());
}

#[test]
fn sortedness_check() {
    let mut s = site(0);
    assert!(s.is_sorted());
    s.local_insert(0, 'a');
    s.local_insert(1, 'b');
    s.local_insert(1, 'c');
    assert!(s.is_sorted());
    let mut t = site(0);
    t.text.push((ident(&[(5, 0)]), 0, 0, 'x'));
    t.text.push((ident(&[(2, 0)]), 1, 0, 'y'));
    assert!(!t.is_sorted());
}

#[test]
fn insertion_guard() {
    let s = site(0);
    assert!(s.can_insert(0));
    assert!(s.can_insert(5));
    let wide = LSeq { text: Vec::new(), gen: IdentGen::new_with_args(64, 0), clock: 0 };
    assert!(!wide.can_insert(0));
    // Nothing fits between a path and its extension by a zero step.
    let mut z = site(0);
    z.text.push((ident(&[(1, 0)]), 0, 0, 'p'));
    z.text.push((ident(&[(1, 0), (0, 0)]), 1, 0, 'q'));
    assert!(!z.can_insert(1));
    assert!(z.can_insert(2));
    // Neighbours out of order.
    let mut t = site(0);
    t.text.push((ident(&[(5, 0)]), 0, 0, 'x'));
    t.text.push((ident(&[(2, 0)]), 1, 0, 'y'));
    assert!(!t.can_insert(1));
}
