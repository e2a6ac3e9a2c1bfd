//! The order on identifier paths.
//!
//! A path is a sequence of `(index, site)` steps. Steps are ordered by index,
//! then by site; paths are ordered lexicographically, a proper prefix coming
//! first. This is the order that `derive(PartialOrd, Ord)` gives `Identifier`.
use vstd::prelude::*;

verus! {

/// One level of an identifier: the index at that level and the site that chose it.
pub type Step = (u64, u32);

/// Strict order on steps: by index, then by site.
pub open spec fn step_lt(a: Step, b: Step) -> bool {
    a.0 < b.0 || (a.0 == b.0 && a.1 < b.1)
}

/// `a` and `b` have the same first `d` steps (and both have at least `d`).
pub open spec fn agree_upto(a: Seq<Step>, b: Seq<Step>, d: int) -> bool {
    &&& 0 <= d <= a.len()
    &&& d <= b.len()
    &&& forall|i: int| 0 <= i < d ==> a[i] == b[i]
}

/// `a` comes before `b`, and position `d` is where they part.
pub open spec fn lt_at(a: Seq<Step>, b: Seq<Step>, d: int) -> bool {
    &&& agree_upto(a, b, d)
    &&& ((d == a.len() && d < b.len()) || (d < a.len() && d < b.len() && step_lt(a[d], b[d])))
}

/// Lexicographic strict order on paths.
pub open spec fn path_lt(a: Seq<Step>, b: Seq<Step>) -> bool {
    exists|d: int| #[trigger] lt_at(a, b, d)
}

/// The first position at or after `i` where `a` and `b` part (or one of them ends).
pub open spec fn mismatch_from(a: Seq<Step>, b: Seq<Step>, i: int) -> int
    decreases a.len() - i,
{
    if i < 0 || i >= a.len() || i >= b.len() || a[i] != b[i] {
        i
    } else {
        mismatch_from(a, b, i + 1)
    }
}

/// The length of the longest common prefix of `a` and `b`.
pub open spec fn mismatch(a: Seq<Step>, b: Seq<Step>) -> int {
    mismatch_from(a, b, 0)
}

/// `b` is `a` followed by one or more steps `(0, 0)`, the least step: every
/// path strictly between such a pair is a proper prefix of `b` (see
/// `lemma_zero_extension_between`), so none ends with a step of its own.
pub open spec fn zero_extension(a: Seq<Step>, b: Seq<Step>) -> bool {
    &&& a.len() < b.len()
    &&& b.take(a.len() as int) == a
    &&& forall|i: int| a.len() <= i < b.len() ==> #[trigger] b[i] == (0u64, 0u32)
}

pub proof fn lemma_mismatch_from(a: Seq<Step>, b: Seq<Step>, i: int)
    requires
        agree_upto(a, b, i),
    ensures
        agree_upto(a, b, mismatch_from(a, b, i)),
        i <= mismatch_from(a, b, i),
        mismatch_from(a, b, i) == a.len() || mismatch_from(a, b, i) == b.len() || a[mismatch_from(
            a,
            b,
            i,
        )] != b[mismatch_from(a, b, i)],
    decreases a.len() - i,
{
    if i < a.len() && i < b.len() && a[i] == b[i] {
        lemma_mismatch_from(a, b, i + 1);
    }
}

/// The common prefix length is where the paths part.
pub proof fn lemma_mismatch(a: Seq<Step>, b: Seq<Step>)
    ensures
        agree_upto(a, b, mismatch(a, b)),
        mismatch(a, b) == a.len() || mismatch(a, b) == b.len() || a[mismatch(a, b)] != b[mismatch(
            a,
            b,
        )],
{
    lemma_mismatch_from(a, b, 0);
}

/// Any position where two agreeing paths part is their common prefix length.
pub proof fn lemma_mismatch_unique(a: Seq<Step>, b: Seq<Step>, d: int)
    requires
        agree_upto(a, b, d),
        d == a.len() || d == b.len() || a[d] != b[d],
    ensures
        mismatch(a, b) == d,
{
    lemma_mismatch(a, b);
    let m = mismatch(a, b);
    if m < d {
        assert(a[m] == b[m]);
    } else if m > d {
        assert(a[d] == b[d]);
    }
}

/// The position named by `lt_at` is the common prefix length.
pub proof fn lemma_lt_at_mismatch(a: Seq<Step>, b: Seq<Step>, d: int)
    requires
        lt_at(a, b, d),
    ensures
        mismatch(a, b) == d,
{
    lemma_mismatch_unique(a, b, d);
}

/// `a < b` holds exactly when it holds at their common prefix length.
pub proof fn lemma_path_lt_mismatch(a: Seq<Step>, b: Seq<Step>)
    ensures
        path_lt(a, b) <==> lt_at(a, b, mismatch(a, b)),
{
    lemma_mismatch(a, b);
    if path_lt(a, b) {
        let d = choose|d: int| #[trigger] lt_at(a, b, d);
        lemma_lt_at_mismatch(a, b, d);
    }
}

/// No path comes before itself.
pub proof fn lemma_path_lt_irreflexive(a: Seq<Step>)
    ensures
        !path_lt(a, a),
{
}

/// The order on paths is transitive.
pub proof fn lemma_path_lt_transitive(a: Seq<Step>, b: Seq<Step>, c: Seq<Step>)
    requires
        path_lt(a, b),
        path_lt(b, c),
    ensures
        path_lt(a, c),
{
    let d1 = choose|d: int| #[trigger] lt_at(a, b, d);
    let d2 = choose|d: int| #[trigger] lt_at(b, c, d);
    if d1 <= d2 {
        assert(lt_at(a, c, d1));
    } else {
        assert(lt_at(a, c, d2));
    }
}

/// Two different paths are ordered one way or the other.
pub proof fn lemma_path_lt_total(a: Seq<Step>, b: Seq<Step>)
    requires
        a != b,
    ensures
        path_lt(a, b) || path_lt(b, a),
{
    lemma_mismatch(a, b);
    let m = mismatch(a, b);
    if m == a.len() && m == b.len() {
        assert(a =~= b);
    } else if m == a.len() {
        assert(lt_at(a, b, m));
    } else if m == b.len() {
        assert(lt_at(b, a, m));
    } else if step_lt(a[m], b[m]) {
        assert(lt_at(a, b, m));
    } else {
        assert(lt_at(b, a, m));
    }
}

/// The order on paths is asymmetric.
pub proof fn lemma_path_lt_asymmetric(a: Seq<Step>, b: Seq<Step>)
    requires
        path_lt(a, b),
    ensures
        !path_lt(b, a),
{
    if path_lt(b, a) {
        lemma_path_lt_transitive(a, b, a);
    }
}

/// What lies strictly between a path and its extension by `(0, 0)` steps:
/// only the proper prefixes of the extension that are longer than the path.
pub proof fn lemma_zero_extension_between(a: Seq<Step>, b: Seq<Step>, x: Seq<Step>)
    requires
        zero_extension(a, b),
        path_lt(a, x),
        path_lt(x, b),
    ensures
        a.len() < x.len() < b.len(),
        x == b.take(x.len() as int),
{
    lemma_path_lt_mismatch(a, x);
    lemma_path_lt_mismatch(x, b);
    let d1 = mismatch(a, x);
    let d2 = mismatch(x, b);
    assert(forall|i: int| 0 <= i < a.len() ==> #[trigger] b[i] == b.take(a.len() as int)[i]);
    if d1 < a.len() {
        // x leaves a upwards at d1, where b still follows a
        assert(x[d1] == b[d1]) by {
            if d2 < d1 {
                assert(x[d2] == a[d2]);
                assert(b[d2] == a[d2]);
            }
            if d2 == d1 {
                assert(step_lt(a[d1], x[d1]));
                assert(b[d1] == a[d1]);
            }
        }
        if d2 > d1 {
            assert(x[d1] == b[d1]);
        }
        assert(false);
    } else {
        assert(d1 == a.len());
        assert(agree_upto(x, b, a.len() as int)) by {
            assert forall|i: int| 0 <= i < a.len() implies x[i] == b[i] by {
                assert(x[i] == a[i]);
            }
        }
        if d2 < a.len() {
            assert(x[d2] == b[d2]);
            assert(false);
        }
        if d2 < x.len() {
            assert(b[d2] == (0u64, 0u32));
            assert(!step_lt(x[d2], b[d2]));
            assert(false);
        }
        assert(x =~= b.take(x.len() as int));
    }
}

} // verus!
