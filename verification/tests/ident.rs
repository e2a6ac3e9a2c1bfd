use crdocs::lseq::ident::{IdentGen, Identifier, INITIAL_BASE};

#[test]
fn ident_test_alloc_eq_path() {
    let mut gen = IdentGen::new(0);

    let x = Identifier { path: vec![(1, 0), (1, 0)] };
    let y = Identifier { path: vec![(1, 0), (1, 1)] };
    gen.allocate(&x, &y);
    let b = gen.allocate(&x, &y);
    // println!("{:?} {:?} {:?}", x, b, y);
    assert!(x < b);
    assert!(b < y);
}

#[test]
fn ident_test_different_len_paths() {
    let mut gen = IdentGen::new(0);
    let x = Identifier { path: vec![(1, 0)] };
    let y = Identifier { path: vec![(1, 0), (15, 0)] };

    let z = gen.allocate(&x, &y);

    assert!(x < z);
    assert!(z < y);
}

#[test]
fn ident_test_alloc() {
    let mut gen = IdentGen::new(0);
    let a = Identifier { path: vec![(1, 0)] };
    let b = Identifier { path: vec![(3, 0)] };

    assert_eq!(gen.allocate(&a, &b), Identifier { path: vec![(2, 0)] });

    let c = Identifier { path: vec![(1, 0), (0, 0), (1, 0)] };
    let d = Identifier { path: vec![(1, 0), (0, 0), (3, 0)] };

    assert_eq!(gen.allocate(&c, &d), Identifier { path: vec![(1, 0), (0, 0), (2, 0)] });

    let e = Identifier { path: vec![(1, 0)] };
    let f = Identifier { path: vec![(2, 0)] };

    let res = gen.allocate(&e, &f);

    assert!(e < res);
    assert!(res < f);
    {
        let mut gen = IdentGen::new_with_args(INITIAL_BASE, 1);

        let a = Identifier { path: vec![(4, 0), (4, 0)] };
        let b = Identifier { path: vec![(4, 0), (4, 0), (1, 1)] };
        // let a = Identifier { path: vec![(4, 0)]};
        // let b = Identifier { path: vec![(4, 1)]};

        let c = gen.allocate(&a, &b);
        println!("{:?}", c);
        assert!(a < c);
        assert!(c < b);
    }
    {
        let a = Identifier { path: vec![(5, 1), (6, 1), (6, 1), (6, 0)] };
        let b = Identifier { path: vec![(5, 1), (6, 1), (6, 1), (6, 0), (0, 0), (507, 0)] };

        let c = gen.allocate(&a, &b);
        println!("{:?}", c);
        assert!(a < c);
        assert!(c < b);
    }
}

#[test]
fn ident_test_index_in_range() {
    let mut gen = IdentGen::new(0);
    assert_eq!(gen.index_in_range(0, 1, 1), 0);
}

#[test]
fn pick_index_follows_depth_strategy() {
    let mut gen = IdentGen::new(0);
    // even depth: counted up from the lower bound
    assert_eq!(gen.pick_index(10, 100, 0, 3), 13);
    // odd depth: counted down from the upper bound
    assert_eq!(gen.pick_index(10, 100, 1, 3), 96);
    assert_eq!(gen.pick_index(5, 6, 7, 0), 5);
}

#[test]
fn index_in_range_stays_near_favoured_bound() {
    let mut gen = IdentGen::new(0);
    for _ in 0..200 {
        let lo = gen.index_in_range(100, 1000, 2);
        assert!(100 <= lo && lo < 110);
        let hi = gen.index_in_range(100, 1000, 3);
        assert!(990 <= hi && hi < 1000);
    }
}

#[test]
fn bounds_of_the_root() {
    let gen = IdentGen::new(4);
    assert_eq!(gen.lower(), Identifier { path: vec![(0, 0)] });
    assert_eq!(gen.upper(), Identifier { path: vec![(7, 0)] });
    let gen = IdentGen::new_with_args(5, 4);
    assert_eq!(gen.upper(), Identifier { path: vec![(31, 0)] });
    assert_eq!(gen.initial_base_bits, 5);
    assert_eq!(gen.site_id, 4);
}

#[test]
fn allocate_below_upper_run_of_small_indices() {
    let mut gen = IdentGen::new(3);
    let p = Identifier { path: vec![(2, 0)] };
    let q = Identifier { path: vec![(2, 0), (0, 5), (1, 6), (9, 0)] };
    let z = gen.allocate(&p, &q);
    // zeros copied over the run of q, the first index above one bounds the choice
    assert_eq!(z.path.len(), 4);
    assert_eq!(&z.path[..3], &[(2, 0), (0, 5), (0, 6)]);
    assert_eq!(z.path[3].1, 3);
    assert!(p < z && z < q);
}

#[test]
fn allocate_descends_lower_bound_when_no_room() {
    let mut gen = IdentGen::new(1);
    // no room at the root between 4 and 5, and the lower bound's next level is full
    let p = Identifier { path: vec![(4, 0), (15, 0)] };
    let q = Identifier { path: vec![(5, 0)] };
    let z = gen.allocate(&p, &q);
    assert_eq!(z.path.len(), 3);
    assert_eq!(&z.path[..2], &[(4, 0), (15, 0)]);
    assert_eq!(z.path[2].1, 1);
    assert!(p < z && z < q);
}

#[test]
fn allocate_between_siblings_at_first_difference() {
    let mut gen = IdentGen::new(2);
    let p = Identifier { path: vec![(1, 0), (3, 4), (9, 9)] };
    let q = Identifier { path: vec![(1, 0), (30, 0)] };
    let z = gen.allocate(&p, &q);
    assert_eq!(z.path.len(), 2);
    assert_eq!(z.path[0], (1, 0));
    // odd depth: near the upper bound
    assert!(20 <= z.path[1].0 && z.path[1].0 < 30);
    assert_eq!(z.path[1].1, 2);
}

#[test]
fn identifier_order_helpers() {
    let a = Identifier { path: vec![(1, 0)] };
    let b = Identifier { path: vec![(1, 0), (0, 0)] };
    let c = Identifier { path: vec![(1, 1)] };
    assert!(a.precedes(&b));
    assert!(b.precedes(&c));
    assert!(!c.precedes(&a));
    assert!(!a.precedes(&a));
    assert!(a.same(&Identifier { path: vec![(1, 0)] }));
    assert!(!a.same(&b));
}

fn id(path: &[(u64, u32)]) -> Identifier {
    Identifier { path: path.to_vec() }
}

#[test]
fn common_prefix_lengths() {
    assert_eq!(id(&[(1, 0), (2, 0)]).common_prefix(&id(&[(1, 0), (3, 0)])), 1);
    assert_eq!(id(&[(1, 0)]).common_prefix(&id(&[(1, 0), (3, 0)])), 1);
    assert_eq!(id(&[(1, 0)]).common_prefix(&id(&[(1, 1)])), 0);
}

#[test]
fn zero_extensions() {
    assert!(id(&[(1, 0)]).zero_extended_by(&id(&[(1, 0), (0, 0), (0, 0)])));
    assert!(!id(&[(1, 0)]).zero_extended_by(&id(&[(1, 0), (0, 4), (0, 2)])));
    assert!(!id(&[(1, 0)]).zero_extended_by(&id(&[(1, 0), (0, 4), (1, 2)])));
    assert!(!id(&[(1, 0)]).zero_extended_by(&id(&[(1, 0)])));
    assert!(!id(&[(1, 0)]).zero_extended_by(&id(&[(2, 0), (0, 0)])));
}

#[test]
fn allocation_guard() {
    let gen = IdentGen::new(0);
    assert!(gen.can_allocate(&id(&[(1, 0)]), &id(&[(3, 0)])));
    assert!(!gen.can_allocate(&id(&[(3, 0)]), &id(&[(1, 0)])));
    assert!(!gen.can_allocate(&id(&[(3, 0)]), &id(&[(3, 0)])));
    // No room at the root, and the index below cannot be stepped over.
    assert!(!gen.can_allocate(&id(&[(7, 0), (u64::MAX, 1)]), &id(&[(8, 0)])));
    // No room at the root, but room one level down.
    assert!(gen.can_allocate(&id(&[(7, 0), (3, 1)]), &id(&[(8, 0)])));
    // Too deep for the widths to fit in 64 bits.
    assert!(!IdentGen::new_with_args(63, 0).can_allocate(&id(&[(1, 0)]), &id(&[(2, 0)])));
}

#[test]
fn allocate_below_an_upper_bound_ending_in_index_zero() {
    // something fits between: p,(0,0) for instance; copying q's step (0,5)
    // would lead above q, so the least step is taken there
    let p = id(&[(1, 0)]);
    let q = id(&[(1, 0), (0, 5)]);
    for site in [0u32, 3, 9] {
        let mut gen = IdentGen::new(site);
        assert!(gen.can_allocate(&p, &q));
        let z = gen.allocate(&p, &q);
        assert!(p < z && z < q, "{:?}", z);
        assert_eq!(z.path[z.path.len() - 1].1, site);
    }
    // nothing ending with an allocating site's step fits here
    let q = id(&[(1, 0), (0, 0)]);
    let mut gen = IdentGen::new(2);
    let z = gen.allocate(&p, &q);
    assert!(p < z);
    assert!(!(z < q));
}

#[test]
fn allocate_copies_sites_where_an_index_of_one_follows() {
    // the run ends with q itself, but an index of one keeps the result below q
    let p = id(&[(1, 0)]);
    let q = id(&[(1, 0), (0, 5), (1, 4)]);
    let mut gen = IdentGen::new(2);
    let z = gen.allocate(&p, &q);
    assert_eq!(&z.path[..3], &[(1, 0), (0, 5), (0, 4)]);
    assert!(p < z && z < q);
}
