//! Why replicas converge: operations on different identifiers commute, so
//! every interleaving of two replicas' operation streams gives the same text.
use vstd::prelude::*;

use super::ident::slot_result;
use super::order::{
    lemma_path_lt_asymmetric, lemma_path_lt_irreflexive, lemma_path_lt_total,
    lemma_path_lt_transitive, path_lt, Step,
};
use super::{chars, has_id, lemma_insert_at, op_effect, op_id, sorted, sorted_insert, sorted_remove, EntryView, Op};

verus! {

proof fn lemma_cons_drop<A>(x: A, s: Seq<A>)
    ensures
        (seq![x] + s).len() == s.len() + 1,
        (seq![x] + s)[0] == x,
        (seq![x] + s).drop_first() == s,
{
    assert((seq![x] + s).drop_first() =~= s);
}

/// Inserting entries with different identifiers in either order gives the
/// same entries.
pub proof fn lemma_insert_commutes(s: Seq<EntryView>, a: EntryView, b: EntryView)
    requires
        a.0 != b.0,
    ensures
        sorted_insert(sorted_insert(s, a), b) == sorted_insert(sorted_insert(s, b), a),
    decreases s.len(),
{
    lemma_path_lt_total(a.0, b.0);
    lemma_path_lt_irreflexive(a.0);
    lemma_path_lt_irreflexive(b.0);
    if path_lt(a.0, b.0) {
        lemma_path_lt_asymmetric(a.0, b.0);
    } else {
        lemma_path_lt_asymmetric(b.0, a.0);
    }
    if s.len() == 0 {
        let e = Seq::<EntryView>::empty();
        assert(seq![a].drop_first() =~= e);
        assert(seq![b].drop_first() =~= e);
        assert(sorted_insert(e, a) == seq![a]);
        assert(sorted_insert(e, b) == seq![b]);
        assert(seq![a][0] == a);
        assert(seq![b][0] == b);
        assert(seq![a] + e =~= seq![a]);
        assert(seq![b] + e =~= seq![b]);
    } else {
        let h = s[0];
        let t = s.drop_first();
        assert(s == seq![h] + t) by {
            assert(s =~= seq![h] + t);
        }
        lemma_cons_drop(h, t);
        lemma_cons_drop(a, s);
        lemma_cons_drop(b, s);
        if path_lt(h.0, a.0) {
            lemma_path_lt_asymmetric(h.0, a.0);
        }
        if path_lt(h.0, b.0) {
            lemma_path_lt_asymmetric(h.0, b.0);
        }
        if path_lt(a.0, h.0) {
            lemma_path_lt_asymmetric(a.0, h.0);
        }
        if path_lt(b.0, h.0) {
            lemma_path_lt_asymmetric(b.0, h.0);
        }
        if a.0 == h.0 {
            if b.0 != h.0 {
                lemma_path_lt_total(b.0, h.0);
                if path_lt(b.0, h.0) {
                    lemma_cons_drop(a, seq![b] + s);
                } else {
                    lemma_cons_drop(h, sorted_insert(t, b));
                }
            }
        } else if b.0 == h.0 {
            lemma_path_lt_total(a.0, h.0);
            if path_lt(a.0, h.0) {
                lemma_cons_drop(b, seq![a] + s);
            } else {
                lemma_cons_drop(h, sorted_insert(t, a));
            }
        } else {
            lemma_path_lt_total(a.0, h.0);
            lemma_path_lt_total(b.0, h.0);
            let sa = sorted_insert(s, a);
            let sb = sorted_insert(s, b);
            if path_lt(a.0, h.0) && path_lt(b.0, h.0) {
                lemma_cons_drop(a, s);
                lemma_cons_drop(b, s);
                lemma_cons_drop(a, seq![b] + s);
                lemma_cons_drop(b, seq![a] + s);
                assert(sorted_insert(seq![a] + s, b) == if path_lt(b.0, a.0) {
                    seq![b] + (seq![a] + s)
                } else {
                    seq![a] + sorted_insert(s, b)
                });
                assert(sorted_insert(seq![b] + s, a) == if path_lt(a.0, b.0) {
                    seq![a] + (seq![b] + s)
                } else {
                    seq![b] + sorted_insert(s, a)
                });
                assert((seq![b] + (seq![a] + s)) =~= (seq![b] + seq![a]) + s);
                assert((seq![a] + (seq![b] + s)) =~= (seq![a] + seq![b]) + s);
            } else if path_lt(a.0, h.0) {
                // b after h, a before h
                lemma_path_lt_transitive(a.0, h.0, b.0);
                lemma_path_lt_asymmetric(a.0, b.0);
                lemma_cons_drop(h, sorted_insert(t, b));
                lemma_cons_drop(a, seq![h] + sorted_insert(t, b));
                assert(sorted_insert(seq![a] + s, b) == seq![a] + sorted_insert(s, b));
                assert(sorted_insert(seq![h] + sorted_insert(t, b), a) == seq![a] + (seq![h]
                    + sorted_insert(t, b)));
            } else if path_lt(b.0, h.0) {
                lemma_path_lt_transitive(b.0, h.0, a.0);
                lemma_path_lt_asymmetric(b.0, a.0);
                lemma_cons_drop(h, sorted_insert(t, a));
                lemma_cons_drop(b, seq![h] + sorted_insert(t, a));
                assert(sorted_insert(seq![b] + s, a) == seq![b] + sorted_insert(s, a));
                assert(sorted_insert(seq![h] + sorted_insert(t, a), b) == seq![b] + (seq![h]
                    + sorted_insert(t, a)));
            } else {
                lemma_insert_commutes(t, a, b);
                lemma_cons_drop(h, sorted_insert(t, a));
                lemma_cons_drop(h, sorted_insert(t, b));
            }
        }
    }
}

/// Removing two identifiers in either order gives the same entries.
pub proof fn lemma_remove_commutes(s: Seq<EntryView>, x: Seq<Step>, y: Seq<Step>)
    ensures
        sorted_remove(sorted_remove(s, x), y) == sorted_remove(sorted_remove(s, y), x),
    decreases s.len(),
{
    if s.len() > 0 {
        let h = s[0];
        let t = s.drop_first();
        if h.0 != x && h.0 != y {
            lemma_remove_commutes(t, x, y);
            lemma_cons_drop(h, sorted_remove(t, x));
            lemma_cons_drop(h, sorted_remove(t, y));
        } else if h.0 == x && h.0 != y {
            lemma_cons_drop(h, sorted_remove(t, y));
        } else if h.0 == y && h.0 != x {
            lemma_cons_drop(h, sorted_remove(t, x));
        }
    }
}

/// Inserting an entry and removing another identifier commute (on sorted
/// entries).
pub proof fn lemma_insert_remove_commute(s: Seq<EntryView>, a: EntryView, x: Seq<Step>)
    requires
        sorted(s),
        a.0 != x,
    ensures
        sorted_remove(sorted_insert(s, a), x) == sorted_insert(sorted_remove(s, x), a),
    decreases s.len(),
{
    if s.len() == 0 {
        lemma_cons_drop(a, s);
    } else {
        let h = s[0];
        let t = s.drop_first();
        assert(s == seq![h] + t) by {
            assert(s =~= seq![h] + t);
        }
        assert(sorted(t)) by {
            assert forall|i: int, j: int| 0 <= i < j < t.len() implies path_lt(
                #[trigger] t[i].0,
                #[trigger] t[j].0,
            ) by {
                assert(t[i] == s[i + 1] && t[j] == s[j + 1]);
            }
        }
        lemma_cons_drop(h, t);
        lemma_cons_drop(a, s);
        lemma_path_lt_irreflexive(a.0);
        lemma_path_lt_irreflexive(h.0);
        if a.0 == h.0 {
        } else {
            lemma_path_lt_total(a.0, h.0);
            if path_lt(a.0, h.0) {
                lemma_path_lt_asymmetric(a.0, h.0);
                if h.0 == x {
                    // everything after `h` comes after `a`
                    if t.len() > 0 {
                        assert(path_lt(s[0].0, s[1].0));
                        assert(t[0] == s[1]);
                        lemma_path_lt_transitive(a.0, h.0, t[0].0);
                        lemma_path_lt_asymmetric(a.0, t[0].0);
                        assert(sorted_insert(t, a) == seq![a] + t);
                    } else {
                        lemma_cons_drop(a, t);
                    }
                } else {
                    lemma_cons_drop(h, sorted_remove(t, x));
                    lemma_cons_drop(a, seq![h] + sorted_remove(t, x));
                    assert(sorted_remove(seq![a] + s, x) == seq![a] + sorted_remove(s, x));
                }
            } else {
                lemma_path_lt_asymmetric(h.0, a.0);
                lemma_cons_drop(h, sorted_insert(t, a));
                if h.0 == x {
                } else {
                    lemma_insert_remove_commute(t, a, x);
                    lemma_cons_drop(h, sorted_remove(t, x));
                    lemma_cons_drop(h, sorted_remove(sorted_insert(t, a), x));
                }
            }
        }
    }
}

/// Removing what was just inserted (when it was not there before) gives the
/// entries back.
pub proof fn lemma_remove_undoes_insert(s: Seq<EntryView>, a: EntryView)
    requires
        !has_id(s, a.0),
    ensures
        sorted_remove(sorted_insert(s, a), a.0) == s,
    decreases s.len(),
{
    if s.len() == 0 {
        lemma_cons_drop(a, s);
    } else {
        let h = s[0];
        let t = s.drop_first();
        assert(s == seq![h] + t) by {
            assert(s =~= seq![h] + t);
        }
        assert(h.0 != a.0);
        assert(!has_id(t, a.0)) by {
            if has_id(t, a.0) {
                let i = choose|i: int| 0 <= i < t.len() && #[trigger] t[i].0 == a.0;
                assert(s[i + 1] == t[i]);
            }
        }
        lemma_cons_drop(a, s);
        if path_lt(a.0, h.0) {
        } else {
            lemma_remove_undoes_insert(t, a);
            lemma_cons_drop(h, sorted_insert(t, a));
        }
    }
}

/// Inserting an identifier a second time changes nothing, whatever it
/// carries.
pub proof fn lemma_insert_idempotent(s: Seq<EntryView>, a: EntryView, b: EntryView)
    requires
        a.0 == b.0,
    ensures
        sorted_insert(sorted_insert(s, a), b) == sorted_insert(s, a),
    decreases s.len(),
{
    lemma_path_lt_irreflexive(a.0);
    if s.len() == 0 {
        lemma_cons_drop(a, s);
    } else {
        let h = s[0];
        let t = s.drop_first();
        lemma_cons_drop(a, s);
        if a.0 == h.0 {
        } else if path_lt(a.0, h.0) {
        } else {
            lemma_insert_idempotent(t, a, b);
            lemma_cons_drop(h, sorted_insert(t, a));
        }
    }
}

/// Applying an operation keeps the entries sorted.
pub proof fn lemma_op_effect_sorted(s: Seq<EntryView>, op: Op)
    requires
        sorted(s),
    ensures
        sorted(op_effect(s, op)),
    decreases s.len(),
{
    match op {
        Op::Insert { id, clock, site_id, c } => lemma_insert_sorted(s, (id@, clock, site_id, c)),
        Op::Delete { id, .. } => lemma_remove_sorted(s, id@),
    }
}

proof fn lemma_sorted_cons(h: EntryView, t: Seq<EntryView>)
    requires
        sorted(t),
        forall|j: int| 0 <= j < t.len() ==> path_lt(h.0, #[trigger] t[j].0),
    ensures
        sorted(seq![h] + t),
{
    let s = seq![h] + t;
    assert forall|i: int, j: int| 0 <= i < j < s.len() implies path_lt(
        #[trigger] s[i].0,
        #[trigger] s[j].0,
    ) by {
        assert(s[j] == t[j - 1]);
        if i > 0 {
            assert(s[i] == t[i - 1]);
        }
    }
}

proof fn lemma_sorted_tail(s: Seq<EntryView>)
    requires
        sorted(s),
        s.len() > 0,
    ensures
        sorted(s.drop_first()),
        forall|j: int| 0 <= j < s.drop_first().len() ==> path_lt(s[0].0, #[trigger] s.drop_first()[j].0),
{
    let t = s.drop_first();
    assert forall|i: int, j: int| 0 <= i < j < t.len() implies path_lt(
        #[trigger] t[i].0,
        #[trigger] t[j].0,
    ) by {
        assert(t[i] == s[i + 1] && t[j] == s[j + 1]);
    }
    assert forall|j: int| 0 <= j < t.len() implies path_lt(s[0].0, #[trigger] t[j].0) by {
        assert(t[j] == s[j + 1]);
    }
}

/// Every entry of `sorted_insert(s, a)` is `a` or an entry of `s`.
proof fn lemma_insert_members(s: Seq<EntryView>, a: EntryView)
    ensures
        forall|j: int|
            0 <= j < sorted_insert(s, a).len() ==> #[trigger] sorted_insert(s, a)[j] == a
                || s.contains(sorted_insert(s, a)[j]),
    decreases s.len(),
{
    if s.len() > 0 {
        let h = s[0];
        let t = s.drop_first();
        lemma_cons_drop(a, s);
        if a.0 != h.0 && !path_lt(a.0, h.0) {
            lemma_insert_members(t, a);
            lemma_cons_drop(h, sorted_insert(t, a));
            let r = sorted_insert(s, a);
            assert forall|j: int| 0 <= j < r.len() implies #[trigger] r[j] == a || s.contains(
                r[j],
            ) by {
                if j == 0 {
                    assert(s[0] == r[0]);
                } else {
                    assert(r[j] == sorted_insert(t, a)[j - 1]);
                    if sorted_insert(t, a)[j - 1] != a {
                        let k = choose|k: int| 0 <= k < t.len() && t[k] == r[j];
                        assert(s[k + 1] == t[k]);
                    }
                }
            }
        } else if a.0 != h.0 {
            let r = sorted_insert(s, a);
            assert forall|j: int| 0 <= j < r.len() implies #[trigger] r[j] == a || s.contains(
                r[j],
            ) by {
                if j > 0 {
                    assert(r[j] == s[j - 1]);
                }
            }
        } else {
            let r = sorted_insert(s, a);
            assert forall|j: int| 0 <= j < r.len() implies #[trigger] r[j] == a || s.contains(
                r[j],
            ) by {
                assert(r[j] == s[j]);
            }
        }
    }
}

proof fn lemma_insert_sorted(s: Seq<EntryView>, a: EntryView)
    requires
        sorted(s),
    ensures
        sorted(sorted_insert(s, a)),
    decreases s.len(),
{
    if s.len() == 0 {
        assert(sorted(seq![a]));
    } else {
        let h = s[0];
        let t = s.drop_first();
        assert(s == seq![h] + t) by {
            assert(s =~= seq![h] + t);
        }
        lemma_sorted_tail(s);
        lemma_cons_drop(a, s);
        if a.0 == h.0 {
        } else if path_lt(a.0, h.0) {
            assert forall|j: int| 0 <= j < s.len() implies path_lt(a.0, #[trigger] s[j].0) by {
                if j > 0 {
                    lemma_path_lt_transitive(a.0, h.0, s[j].0);
                }
            }
            lemma_sorted_cons(a, s);
        } else {
            lemma_path_lt_total(a.0, h.0);
            lemma_insert_sorted(t, a);
            lemma_insert_members(t, a);
            let r = sorted_insert(t, a);
            assert forall|j: int| 0 <= j < r.len() implies path_lt(h.0, #[trigger] r[j].0) by {
                if r[j] != a {
                    let k = choose|k: int| 0 <= k < t.len() && t[k] == r[j];
                }
            }
            lemma_sorted_cons(h, r);
        }
    }
}

proof fn lemma_remove_sorted(s: Seq<EntryView>, x: Seq<Step>)
    requires
        sorted(s),
    ensures
        sorted(sorted_remove(s, x)),
        forall|j: int|
            0 <= j < sorted_remove(s, x).len() ==> s.contains(#[trigger] sorted_remove(s, x)[j]),
    decreases s.len(),
{
    if s.len() > 0 {
        let h = s[0];
        let t = s.drop_first();
        lemma_sorted_tail(s);
        if h.0 == x {
            assert forall|j: int| 0 <= j < t.len() implies s.contains(#[trigger] t[j]) by {
                assert(s[j + 1] == t[j]);
            }
        } else {
            lemma_remove_sorted(t, x);
            let r = sorted_remove(t, x);
            lemma_cons_drop(h, r);
            assert forall|j: int| 0 <= j < r.len() implies path_lt(h.0, #[trigger] r[j].0) by {
                let k = choose|k: int| 0 <= k < t.len() && t[k] == r[j];
            }
            lemma_sorted_cons(h, r);
            let rr = seq![h] + r;
            assert forall|j: int| 0 <= j < rr.len() implies s.contains(#[trigger] rr[j]) by {
                if j == 0 {
                    assert(s[0] == rr[0]);
                } else {
                    assert(rr[j] == r[j - 1]);
                    let k = choose|k: int| 0 <= k < t.len() && t[k] == r[j - 1];
                    assert(s[k + 1] == t[k]);
                }
            }
        }
    }
}

/// Operations on different identifiers commute (on sorted entries): the
/// order in which two replicas receive them does not matter.
pub proof fn lemma_ops_commute(s: Seq<EntryView>, o1: Op, o2: Op)
    requires
        sorted(s),
        op_id(o1) != op_id(o2),
    ensures
        op_effect(op_effect(s, o1), o2) == op_effect(op_effect(s, o2), o1),
{
    match (o1, o2) {
        (Op::Insert { id, clock, site_id, c }, Op::Insert { id: id2, clock: clock2, site_id: site_id2, c: c2 }) => {
            lemma_insert_commutes(s, (id@, clock, site_id, c), (id2@, clock2, site_id2, c2));
        },
        (Op::Insert { id, clock, site_id, c }, Op::Delete { id: id2, .. }) => {
            lemma_insert_remove_commute(s, (id@, clock, site_id, c), id2@);
        },
        (Op::Delete { id, .. }, Op::Insert { id: id2, clock: clock2, site_id: site_id2, c: c2 }) => {
            lemma_insert_remove_commute(s, (id2@, clock2, site_id2, c2), id@);
        },
        (Op::Delete { id, .. }, Op::Delete { id: id2, .. }) => {
            lemma_remove_commutes(s, id@, id2@);
        },
    }
}

/// The entries after applying `ops` in order.
pub open spec fn apply_all(s: Seq<EntryView>, ops: Seq<Op>) -> Seq<EntryView>
    decreases ops.len(),
{
    if ops.len() == 0 {
        s
    } else {
        apply_all(op_effect(s, ops[0]), ops.drop_first())
    }
}

/// `z` is an interleaving of `x` and `y`: their operations, each stream in
/// its own order.
pub open spec fn interleaving(z: Seq<Op>, x: Seq<Op>, y: Seq<Op>) -> bool
    decreases z.len(),
{
    if z.len() == 0 {
        x.len() == 0 && y.len() == 0
    } else {
        (x.len() > 0 && z[0] == x[0] && interleaving(z.drop_first(), x.drop_first(), y)) || (y.len()
            > 0 && z[0] == y[0] && interleaving(z.drop_first(), x, y.drop_first()))
    }
}

/// No operation of `x` has the identifier of an operation of `y`.
pub open spec fn ids_apart(x: Seq<Op>, y: Seq<Op>) -> bool {
    forall|i: int, j: int|
        0 <= i < x.len() && 0 <= j < y.len() ==> op_id(#[trigger] x[i]) != op_id(#[trigger] y[j])
}

proof fn lemma_apply_all_sorted(s: Seq<EntryView>, ops: Seq<Op>)
    requires
        sorted(s),
    ensures
        sorted(apply_all(s, ops)),
    decreases ops.len(),
{
    if ops.len() > 0 {
        lemma_op_effect_sorted(s, ops[0]);
        lemma_apply_all_sorted(op_effect(s, ops[0]), ops.drop_first());
    }
}

proof fn lemma_apply_all_append(s: Seq<EntryView>, x: Seq<Op>, y: Seq<Op>)
    ensures
        apply_all(s, x + y) == apply_all(apply_all(s, x), y),
    decreases x.len(),
{
    if x.len() > 0 {
        assert((x + y).drop_first() =~= x.drop_first() + y);
        assert((x + y)[0] == x[0]);
        lemma_apply_all_append(op_effect(s, x[0]), x.drop_first(), y);
    } else {
        assert(x + y =~= y);
    }
}

/// An operation whose identifier no operation of `x` touches can be applied
/// before or after all of `x`.
proof fn lemma_commute_through(s: Seq<EntryView>, o: Op, x: Seq<Op>)
    requires
        sorted(s),
        forall|i: int| 0 <= i < x.len() ==> op_id(#[trigger] x[i]) != op_id(o),
    ensures
        apply_all(op_effect(s, o), x) == op_effect(apply_all(s, x), o),
    decreases x.len(),
{
    if x.len() > 0 {
        assert(op_id(x[0]) != op_id(o));
        lemma_ops_commute(s, o, x[0]);
        lemma_op_effect_sorted(s, x[0]);
        let t = x.drop_first();
        assert forall|i: int| 0 <= i < t.len() implies op_id(#[trigger] t[i]) != op_id(o) by {
            assert(t[i] == x[i + 1]);
        }
        lemma_commute_through(op_effect(s, x[0]), o, t);
    }
}

/// Convergence: when no operation of one replica's stream `x` has the
/// identifier of an operation of the other's `y`, every interleaving of the
/// two streams gives the same entries as `x` followed by `y`.
pub proof fn lemma_interleavings_converge(s: Seq<EntryView>, z: Seq<Op>, x: Seq<Op>, y: Seq<Op>)
    requires
        sorted(s),
        interleaving(z, x, y),
        ids_apart(x, y),
    ensures
        apply_all(s, z) == apply_all(s, x + y),
    decreases z.len(),
{
    if z.len() == 0 {
        assert(x + y =~= Seq::<Op>::empty());
    } else if x.len() > 0 && z[0] == x[0] && interleaving(z.drop_first(), x.drop_first(), y) {
        let xt = x.drop_first();
        assert forall|i: int, j: int| 0 <= i < xt.len() && 0 <= j < y.len() implies op_id(
            #[trigger] xt[i],
        ) != op_id(#[trigger] y[j]) by {
            assert(xt[i] == x[i + 1]);
        }
        lemma_op_effect_sorted(s, x[0]);
        lemma_interleavings_converge(op_effect(s, x[0]), z.drop_first(), xt, y);
        assert((x + y).drop_first() =~= xt + y);
        assert((x + y)[0] == x[0]);
    } else {
        let yt = y.drop_first();
        assert forall|i: int, j: int| 0 <= i < x.len() && 0 <= j < yt.len() implies op_id(
            #[trigger] x[i],
        ) != op_id(#[trigger] yt[j]) by {
            assert(yt[j] == y[j + 1]);
        }
        lemma_op_effect_sorted(s, y[0]);
        lemma_interleavings_converge(op_effect(s, y[0]), z.drop_first(), x, yt);
        // apply_all(s, z) == apply_all(op_effect(s, y0), x + yt)
        lemma_apply_all_append(op_effect(s, y[0]), x, yt);
        assert forall|i: int| 0 <= i < x.len() implies op_id(#[trigger] x[i]) != op_id(y[0]) by {
            assert(op_id(x[i]) != op_id(y[0]));
        }
        lemma_commute_through(s, y[0], x);
        lemma_apply_all_append(s, x, y);
        assert(y =~= seq![y[0]] + yt);
        lemma_apply_all_append(apply_all(s, x), seq![y[0]], yt);
        assert(seq![y[0]].drop_first() =~= Seq::<Op>::empty());
    }
}

/// A local insertion, applied at another replica holding the same entries,
/// lands where it was made: when the new identifier lies between the entries
/// around position `pos` (as `local_insert` ensures), inserting it by
/// identifier (what `apply` does) puts it at `pos`, so both replicas end with
/// the same entries and the same text.
pub proof fn lemma_insert_lands_where_made(s: Seq<EntryView>, e: EntryView, pos: int)
    requires
        sorted(s),
        0 <= pos <= s.len(),
        pos > 0 ==> path_lt(s[pos - 1].0, e.0),
        pos < s.len() ==> path_lt(e.0, s[pos].0),
    ensures
        sorted_insert(s, e) == s.insert(pos, e),
        chars(sorted_insert(s, e)) == chars(s).insert(pos, e.3),
{
    assert forall|j: int| 0 <= j < pos implies path_lt(#[trigger] s[j].0, e.0) by {
        if j < pos - 1 {
            lemma_path_lt_transitive(s[j].0, s[pos - 1].0, e.0);
        }
    }
    assert forall|j: int| pos <= j < s.len() implies path_lt(e.0, #[trigger] s[j].0) by {
        if j > pos {
            lemma_path_lt_transitive(e.0, s[pos].0, s[j].0);
        }
    }
    lemma_insert_at(s, e, pos);
    assert(chars(s.insert(pos, e)) =~= chars(s).insert(pos, e.3));
}

/// Identifiers allocated by different sites differ: each ends with a step
/// carrying its site.
pub proof fn lemma_sites_allocate_apart(
    slot1: (Seq<Step>, int, int, int),
    step1: int,
    site1: u32,
    slot2: (Seq<Step>, int, int, int),
    step2: int,
    site2: u32,
)
    requires
        site1 != site2,
    ensures
        slot_result(slot1, step1, site1) != slot_result(slot2, step2, site2),
{
    let r1 = slot_result(slot1, step1, site1);
    let r2 = slot_result(slot2, step2, site2);
    if r1 == r2 {
        assert(r1[r1.len() - 1].1 == site1);
        assert(r2[r2.len() - 1].1 == site2);
    }
}

} // verus!
