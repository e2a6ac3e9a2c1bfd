//! Room for local insertions: in a text whose identifiers are of the shape
//! the allocator produces, `local_insert` is possible at every position.
use vstd::arithmetic::power2::lemma_pow2_strictly_increases;
use vstd::prelude::*;

use super::ident::{
    alloc_defined, alloc_slot, lemma_alloc_between, lemma_index_choice_range, lower_gap,
    lower_search_defined, run_follows_to_end, slot_result, step_ok, width, zero_run_end, zero_steps,
};
use super::order::{
    lemma_mismatch, lemma_path_lt_mismatch, lemma_path_lt_transitive, lt_at, mismatch, path_lt,
    zero_extension, Step,
};
use super::{insert_bounds, insert_defined, lower_bound, sorted, upper_bound, EntryView};

verus! {

/// An identifier of the allocator's shape, at most `depth` steps deep: not
/// empty, every index below `u64::MAX`, and a last index of at least one.
pub open spec fn tidy_path(p: Seq<Step>, depth: int) -> bool {
    &&& 1 <= p.len() <= depth
    &&& p[p.len() - 1].0 >= 1
    &&& forall|i: int| 0 <= i < p.len() ==> #[trigger] p[i].0 < u64::MAX
}

/// A text whose identifiers are all of the allocator's shape, at most `depth`
/// deep, strictly between the text's bounds, with room for one more level.
pub open spec fn tidy(s: Seq<EntryView>, base: u32, depth: int) -> bool {
    &&& sorted(s)
    &&& 1 <= base
    &&& base + depth + 1 <= 63
    &&& forall|i: int|
        0 <= i < s.len() ==> tidy_path(#[trigger] s[i].0, depth) && path_lt(lower_bound(), s[i].0)
            && path_lt(s[i].0, upper_bound(base))
}

proof fn lemma_lower_search(base: u32, p: Seq<Step>, lb: int)
    requires
        1 <= lb <= p.len(),
        base + p.len() <= 63,
        forall|i: int| 0 <= i < p.len() ==> #[trigger] p[i].0 < u64::MAX,
    ensures
        lower_search_defined(base, p, lb),
    decreases p.len() - lb,
{
    if lb < p.len() {
        lemma_lower_search(base, p, lb + 1);
    }
}

proof fn lemma_zero_run_end_bound(q: Seq<Step>, k: int)
    requires
        0 <= k <= q.len(),
    ensures
        k <= zero_run_end(q, k) <= q.len(),
    decreases q.len() - k,
{
    if k < q.len() && q[k].0 <= 1 {
        lemma_zero_run_end_bound(q, k + 1);
    }
}

/// Allocation between two ordered identifiers of bounded depth and bounded
/// indices stays within machine integers.
pub proof fn lemma_alloc_defined(base: u32, p: Seq<Step>, q: Seq<Step>, depth: int)
    requires
        path_lt(p, q),
        1 <= base,
        base + depth + 1 <= 63,
        p.len() <= depth,
        q.len() <= depth,
        forall|i: int| 0 <= i < p.len() ==> #[trigger] p[i].0 < u64::MAX,
    ensures
        alloc_defined(base, p, q),
{
    lemma_path_lt_mismatch(p, q);
    lemma_mismatch(p, q);
    let d = mismatch(p, q);
    if d < p.len() {
        lemma_lower_search(base, p, d + 1);
    } else {
        lemma_zero_run_end_bound(q, d);
    }
}

proof fn lemma_bounds(base: u32)
    requires
        1 <= base <= 61,
    ensures
        path_lt(lower_bound(), upper_bound(base)),
        1 <= width(base, 0) - 1 < u64::MAX,
        upper_bound(base)[0].0 == width(base, 0) - 1,
{
    lemma_pow2_strictly_increases(0, base as nat);
    lemma_pow2_strictly_increases(base as nat, 64);
    vstd::arithmetic::power2::lemma2_to64();
    assert(lt_at(lower_bound(), upper_bound(base), 0));
}

/// In a tidy text, a local insertion is possible at every position.
pub proof fn lemma_tidy_insert_defined(s: Seq<EntryView>, base: u32, depth: int, ix: int)
    requires
        tidy(s, base, depth),
        1 <= depth,
        0 <= ix,
    ensures
        insert_defined(s, ix, base),
{
    lemma_bounds(base);
    let (prev, next) = insert_bounds(s, ix, base);
    if s.len() <= ix {
        if s.len() > 0 {
            assert(tidy_path(s[s.len() - 1].0, depth));
        }
        lemma_alloc_defined(base, prev, next, depth);
    } else {
        assert(tidy_path(s[ix].0, depth));
        if ix == 0 {
        } else {
            assert(tidy_path(s[ix - 1].0, depth));
            assert(path_lt(s[ix - 1].0, s[ix].0));
        }
        lemma_alloc_defined(base, prev, next, depth);
        if zero_extension(prev, next) {
            assert(next[next.len() - 1].0 == 0);
        }
    }
}

proof fn lemma_lower_gap_bound(base: u32, p: Seq<Step>, lb: int)
    requires
        0 <= lb <= p.len(),
    ensures
        lb <= lower_gap(base, p, lb) <= p.len(),
    decreases p.len() - lb,
{
    if lb < p.len() && p[lb].0 + 1 >= width(base, lb) {
        lemma_lower_gap_bound(base, p, lb + 1);
    }
}

/// Every identifier that allocation between two identifiers of depth at most
/// `depth` (indices below `u64::MAX`) can return is of the allocator's shape,
/// at most one level deeper.
pub proof fn lemma_alloc_tidy(
    base: u32,
    site: u32,
    p: Seq<Step>,
    q: Seq<Step>,
    step: int,
    depth: int,
)
    requires
        path_lt(p, q),
        1 <= base,
        base + depth + 2 <= 63,
        p.len() <= depth,
        q.len() <= depth,
        forall|i: int| 0 <= i < p.len() ==> #[trigger] p[i].0 < u64::MAX,
        forall|i: int| 0 <= i < q.len() ==> #[trigger] q[i].0 < u64::MAX,
        step_ok(alloc_slot(base, p, q).1, alloc_slot(base, p, q).2, step),
    ensures
        tidy_path(slot_result(alloc_slot(base, p, q), step, site), depth + 1),
{
    lemma_alloc_defined(base, p, q, depth + 1);
    lemma_alloc_between(base, site, p, q, step);
    lemma_path_lt_mismatch(p, q);
    lemma_mismatch(p, q);
    let d = mismatch(p, q);
    let slot = alloc_slot(base, p, q);
    let r = slot_result(slot, step, site);
    lemma_index_choice_range(slot.1, slot.2, slot.3, step);
    vstd::arithmetic::power2::lemma2_to64();
    vstd::arithmetic::power2::lemma2_to64_rest();
    if d < p.len() && d < q.len() && p[d].0 + 1 < q[d].0 {
        assert(r.len() == d + 1);
        assert(r[r.len() - 1].0 >= 1);
        assert forall|i: int| 0 <= i < r.len() implies #[trigger] r[i].0 < u64::MAX by {
            if i < d {
                assert(r[i] == p[i]);
            }
        }
    } else if d < p.len() {
        lemma_lower_gap_bound(base, p, d + 1);
        let lb = lower_gap(base, p, d + 1);
        if base + lb < 63 {
            lemma_pow2_strictly_increases((base + lb) as nat, 63);
        }
        assert(r.len() == p.len() + 1);
        assert(r[r.len() - 1].0 >= 1);
        assert forall|i: int| 0 <= i < r.len() implies #[trigger] r[i].0 < u64::MAX by {
            if i < p.len() {
                assert(r[i] == p[i]);
            }
        }
    } else {
        let k = zero_run_end(q, d);
        lemma_zero_run_end_bound(q, d);
        if k >= q.len() {
            lemma_pow2_strictly_increases((base + k + 1) as nat, 63);
        }
        assert(r.len() == k + 1);
        assert(r[r.len() - 1].0 >= 1);
        assert forall|i: int| 0 <= i < r.len() implies #[trigger] r[i].0 < u64::MAX by {
            if i < p.len() {
                assert(r[i] == p[i]);
            } else if i < k {
                assert(r[i] == zero_steps(q, d, k, run_follows_to_end(q, d))[i - p.len()]);
            }
        }
    }
}

/// A local insertion into a tidy text (at any position, with any random
/// step the allocator can take) leaves a tidy text, at most one level deeper.
pub proof fn lemma_local_insert_keeps_tidy(
    s: Seq<EntryView>,
    base: u32,
    depth: int,
    ix: int,
    step: int,
    clock: u64,
    site: u32,
    c: char,
)
    requires
        tidy(s, base, depth),
        1 <= depth,
        base + depth + 2 <= 63,
        0 <= ix,
        step_ok(
            alloc_slot(base, insert_bounds(s, ix, base).0, insert_bounds(s, ix, base).1).1,
            alloc_slot(base, insert_bounds(s, ix, base).0, insert_bounds(s, ix, base).1).2,
            step,
        ),
    ensures
        tidy(
            s.insert(
                if ix < s.len() {
                    ix
                } else {
                    s.len() as int
                },
                (
                    slot_result(
                        alloc_slot(base, insert_bounds(s, ix, base).0, insert_bounds(s, ix, base).1),
                        step,
                        site,
                    ),
                    clock,
                    site,
                    c,
                ),
            ),
            base,
            depth + 1,
        ),
{
    lemma_tidy_insert_defined(s, base, depth, ix);
    lemma_bounds(base);
    let (prev, next) = insert_bounds(s, ix, base);
    let pos = if ix < s.len() {
        ix
    } else {
        s.len() as int
    };
    let z = slot_result(alloc_slot(base, prev, next), step, site);
    let e = (z, clock, site, c);
    let t = s.insert(pos, e);
    if pos > 0 {
        assert(tidy_path(s[pos - 1].0, depth));
    }
    if pos < s.len() {
        assert(tidy_path(s[pos].0, depth));
    }
    lemma_alloc_tidy(base, site, prev, next, step, depth);
    lemma_alloc_between(base, site, prev, next, step);
    if pos == s.len() && zero_extension(prev, next) {
        assert(next[next.len() - 1].0 == 0);
    }
    // the new identifier lies between its neighbours, and so between the bounds
    assert(path_lt(prev, z) && path_lt(z, next));
    assert(path_lt(lower_bound(), z)) by {
        if pos > 0 {
            lemma_path_lt_transitive(lower_bound(), prev, z);
        }
    }
    assert(path_lt(z, upper_bound(base))) by {
        if pos < s.len() {
            lemma_path_lt_transitive(z, next, upper_bound(base));
        }
    }
    assert forall|j: int| 0 <= j < pos implies path_lt(#[trigger] s[j].0, z) by {
        if j < pos - 1 {
            lemma_path_lt_transitive(s[j].0, s[pos - 1].0, z);
        }
    }
    assert forall|j: int| pos <= j < s.len() implies path_lt(z, #[trigger] s[j].0) by {
        if j > pos {
            lemma_path_lt_transitive(z, s[pos].0, s[j].0);
        }
    }
    assert forall|a: int, b: int| 0 <= a < b < t.len() implies path_lt(
        #[trigger] t[a].0,
        #[trigger] t[b].0,
    ) by {
        if b < pos {
        } else if a < pos && b == pos {
        } else if a < pos {
            assert(t[b] == s[b - 1]);
        } else if a == pos {
            assert(t[b] == s[b - 1]);
        } else {
            assert(t[a] == s[a - 1]);
            assert(t[b] == s[b - 1]);
        }
    }
    assert forall|i: int| 0 <= i < t.len() implies tidy_path(#[trigger] t[i].0, depth + 1)
        && path_lt(lower_bound(), t[i].0) && path_lt(t[i].0, upper_bound(base)) by {
        if i < pos {
            assert(t[i] == s[i]);
            assert(tidy_path(s[i].0, depth));
        } else if i > pos {
            assert(t[i] == s[i - 1]);
            assert(tidy_path(s[i - 1].0, depth));
        }
    }
}

/// Deleting an entry from a tidy text leaves it tidy.
pub proof fn lemma_delete_keeps_tidy(s: Seq<EntryView>, base: u32, depth: int, ix: int)
    requires
        tidy(s, base, depth),
        0 <= ix < s.len(),
    ensures
        tidy(s.remove(ix), base, depth),
{
    let t = s.remove(ix);
    assert forall|a: int, b: int| 0 <= a < b < t.len() implies path_lt(
        #[trigger] t[a].0,
        #[trigger] t[b].0,
    ) by {
        if b < ix {
        } else if a < ix {
            assert(t[b] == s[b + 1]);
        } else {
            assert(t[a] == s[a + 1]);
            assert(t[b] == s[b + 1]);
        }
    }
    assert forall|i: int| 0 <= i < t.len() implies tidy_path(#[trigger] t[i].0, depth) && path_lt(
        lower_bound(),
        t[i].0,
    ) && path_lt(t[i].0, upper_bound(base)) by {
        if i < ix {
            assert(t[i] == s[i]);
        } else {
            assert(t[i] == s[i + 1]);
        }
    }
}

/// The empty text is tidy.
pub proof fn lemma_empty_tidy(base: u32, depth: int)
    requires
        1 <= base,
        base + depth + 1 <= 63,
    ensures
        tidy(Seq::<EntryView>::empty(), base, depth),
{
}

} // verus!
