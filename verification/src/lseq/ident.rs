//! Identifiers and their allocation.
//!
//! An identifier is a path of `(index, site)` steps. The allocator descends two
//! identifiers `p < q` in parallel and picks a fresh path between them; at each
//! depth the choice is biased towards the lower bound (even depths,
//! "boundary+") or towards the upper bound (odd depths, "boundary-"), by a
//! random step below `BOUNDARY`.
use rand::Rng;
use vstd::arithmetic::power2::{
    lemma2_to64_rest, lemma_pow2_pos, lemma_pow2_strictly_increases, lemma_pow2_unfold, pow2,
};
use vstd::prelude::*;

use super::order::{
    agree_upto, lemma_mismatch, lemma_mismatch_unique, lemma_path_lt_mismatch, lt_at, mismatch,
    mismatch_from, path_lt, step_lt, zero_extension, Step,
};

verus! {

/// The largest random step taken away from the favoured bound.
pub const BOUNDARY: u64 = 10;

/// The number of index bits at depth zero (so `2^3` indices at the root).
pub const INITIAL_BASE: u32 = 3;

/// A position in the sequence: a path of `(index, site)` steps, ordered
/// lexicographically.
#[derive(Debug, PartialEq, PartialOrd, Ord, Eq, Clone, Hash)]
pub struct Identifier {
    pub path: Vec<(u64, u32)>,
}

impl View for Identifier {
    type V = Seq<Step>;

    open spec fn view(&self) -> Seq<Step> {
        self.path@
    }
}

/// Allocates identifiers for one site.
pub struct IdentGen {
    pub initial_base_bits: u32,
    pub site_id: u32,
}

/// The number of indices available at `depth`: `2^(base + depth)`.
pub open spec fn width(base: u32, depth: int) -> int {
    pow2((base + depth) as nat) as int
}

/// The first depth at or below `lb` where `p` leaves room above its own index
/// (or where `p` has ended).
pub open spec fn lower_gap(base: u32, p: Seq<Step>, lb: int) -> int
    decreases p.len() - lb,
{
    if lb < 0 || lb >= p.len() || p[lb].0 + 1 < width(base, lb) {
        lb
    } else {
        lower_gap(base, p, lb + 1)
    }
}

/// The first depth at or below `k` where the index of `q` exceeds one (or
/// where `q` has ended).
pub open spec fn zero_run_end(q: Seq<Step>, k: int) -> int
    decreases q.len() - k,
{
    if k < 0 || k >= q.len() || q[k].0 > 1 {
        k
    } else {
        zero_run_end(q, k + 1)
    }
}

/// The steps of `q` from `from` to `to`, each with index zero (and `q`'s
/// site), or, when `least`, each the least step `(0, 0)`.
pub open spec fn zero_steps(q: Seq<Step>, from: int, to: int, least: bool) -> Seq<Step> {
    Seq::new(
        (to - from) as nat,
        |i: int|
            if least {
                (0u64, 0u32)
            } else {
                (0u64, q[from + i].1)
            },
    )
}

/// The run of `q` from `from` reaches `q`'s end with index zero only: steps
/// copied from it with `q`'s sites would follow `q` to its end, and whatever
/// comes after them would lie above `q`.
pub open spec fn run_follows_to_end(q: Seq<Step>, from: int) -> bool {
    &&& zero_run_end(q, from) == q.len()
    &&& forall|j: int| from <= j < q.len() ==> #[trigger] q[j].0 == 0
}

/// Where the allocator puts a new step when it searches below `p` from depth
/// `from`: the kept prefix, the index range `[lower, upper)` and the depth.
pub open spec fn lower_slot(base: u32, p: Seq<Step>, from: int) -> (Seq<Step>, int, int, int) {
    let lb = lower_gap(base, p, from);
    (p, if lb < p.len() {
        p[lb].0 + 1
    } else {
        1
    }, width(base, lb), lb)
}

/// Where the allocator puts a new step when `p` has ended at depth `from` and
/// `q` continues: `p`, then zero-index steps over the run of `q` whose indices
/// are at most one, then a step below the next index of `q` (or anywhere on
/// the level after, when `q` ends). The zero-index steps keep `q`'s sites,
/// except where the run follows `q` to its end with index zero only: there
/// they are least steps `(0, 0)`, so that the result can stay below `q`.
pub open spec fn upper_slot(base: u32, p: Seq<Step>, q: Seq<Step>, from: int) -> (
    Seq<Step>,
    int,
    int,
    int,
) {
    let k = zero_run_end(q, from);
    (p + zero_steps(q, from, k, run_follows_to_end(q, from)), 1, if k < q.len() {
        q[k].0 as int
    } else {
        width(base, k + 1)
    }, k)
}

/// Where `allocate` puts the new step between `p` and `q`: the kept prefix, the
/// index range `[lower, upper)` and the depth of the new step.
pub open spec fn alloc_slot(base: u32, p: Seq<Step>, q: Seq<Step>) -> (Seq<Step>, int, int, int) {
    let d = mismatch(p, q);
    if d < p.len() && d < q.len() && p[d].0 + 1 < q[d].0 {
        (p.take(d), p[d].0 + 1, q[d].0 as int, d)
    } else if d < p.len() {
        lower_slot(base, p, d + 1)
    } else if d < q.len() {
        upper_slot(base, p, q, d)
    } else {
        (p, 1, width(base, d) - 1, d)
    }
}

/// The search below `p` from depth `lb` stays within machine integers: every
/// width it computes fits in a `u64`, and every index it steps over can be
/// incremented.
pub open spec fn lower_search_defined(base: u32, p: Seq<Step>, lb: int) -> bool
    decreases p.len() - lb,
{
    if lb < 0 || base + lb > 63 {
        false
    } else if lb >= p.len() {
        base + lb >= 1
    } else {
        p[lb].0 < u64::MAX && (p[lb].0 + 1 < width(base, lb) || lower_search_defined(
            base,
            p,
            lb + 1,
        ))
    }
}

/// `allocate(p, q)` computes within machine integers.
pub open spec fn alloc_defined(base: u32, p: Seq<Step>, q: Seq<Step>) -> bool {
    let d = mismatch(p, q);
    if d < p.len() && d < q.len() {
        p[d].0 < u64::MAX && (p[d].0 + 1 < q[d].0 || lower_search_defined(base, p, d + 1))
    } else if d < p.len() {
        lower_search_defined(base, p, d + 1)
    } else if d < q.len() {
        let k = zero_run_end(q, d);
        k < q.len() || base + k + 1 <= 63
    } else {
        2 <= base + d <= 63
    }
}

/// How far from the favoured bound a random step may go in `[lower, upper)`.
pub open spec fn step_interval(lower: int, upper: int) -> int {
    if BOUNDARY < upper - 1 - lower {
        BOUNDARY as int
    } else {
        upper - 1 - lower
    }
}

/// `step` is a value the random draw can give for the range `[lower, upper)`.
pub open spec fn step_ok(lower: int, upper: int, step: int) -> bool {
    if step_interval(lower, upper) > 0 {
        0 <= step < step_interval(lower, upper)
    } else {
        step == 0
    }
}

/// The index chosen in `[lower, upper)` at `depth` for a random `step`:
/// counted up from `lower` at even depths, down from `upper - 1` at odd ones.
pub open spec fn index_choice(lower: int, upper: int, depth: int, step: int) -> int {
    if depth % 2 == 0 {
        lower + step
    } else {
        upper - step - 1
    }
}

/// The identifier made from a slot, a random step and the allocating site.
pub open spec fn slot_result(slot: (Seq<Step>, int, int, int), step: int, site: u32) -> Seq<
    Step,
> {
    slot.0.push((index_choice(slot.1, slot.2, slot.3, step) as u64, site))
}

/// The first depth at or below `from` where the index of `q` exceeds one (or
/// where `q` has ended).
fn zero_run(q: &Identifier, from: usize) -> (k: usize)
    ensures
        k == zero_run_end(q@, from as int),
{
    let ghost start = from as int;
    let mut k = from;
    while k < q.path.len() && q.path[k].0 <= 1
        invariant
            zero_run_end(q@, k as int) == zero_run_end(q@, start),
        decreases q.path.len() - k,
    {
        k += 1;
    }
    k
}

/// Every step of `q` from `from` to its end has index zero.
fn run_has_index_zero_only(q: &Identifier, from: usize) -> (r: bool)
    ensures
        r == forall|j: int| from <= j < q@.len() ==> #[trigger] q@[j].0 == 0,
{
    let mut j = from;
    while j < q.path.len()
        invariant
            from <= j,
            forall|i: int| from <= i < j ==> #[trigger] q@[i].0 == 0,
        decreases q.path.len() - j,
    {
        if q.path[j].0 != 0 {
            assert(q@[j as int].0 != 0);
            return false;
        }
        j += 1;
    }
    true
}

/// Draws a number below `bound` from the thread-local generator of `rand`
/// (`rand::thread_rng` and `Rng::gen_range(0, bound)`); the documentation
/// promises a value in `[0, bound)` and a panic when the range is empty, which
/// `requires` rules out. Which value comes is chance: nothing more is stated.
#[verifier::external_body]
fn draw_below(bound: u64) -> (r: u64)
    requires
        0 < bound,
    ensures
        r < bound,
{
    rand::thread_rng().gen_range(0, bound)
}

/// A chosen index lies in its range.
pub proof fn lemma_index_choice_range(lower: int, upper: int, depth: int, step: int)
    requires
        lower < upper,
        step_ok(lower, upper, step),
    ensures
        lower <= index_choice(lower, upper, depth, step) < upper,
{
}

proof fn lemma_parity_u32(k: usize)
    ensures
        (k as u32) as int % 2 == k as int % 2,
{
    assert((k as u32) % 2 == (k % 2) as u32) by (bit_vector);
}

proof fn lemma_lower_gap(base: u32, p: Seq<Step>, lb: int)
    requires
        lower_search_defined(base, p, lb),
    ensures
        lb <= lower_gap(base, p, lb),
        lower_search_defined(base, p, lower_gap(base, p, lb)),
        lower_gap(base, p, lb) < p.len() ==> p[lower_gap(base, p, lb)].0 + 1 < width(
            base,
            lower_gap(base, p, lb),
        ),
        lower_gap(base, p, lb) >= p.len() ==> 1 < width(base, lower_gap(base, p, lb)),
        base + lower_gap(base, p, lb) <= 63,
    decreases p.len() - lb,
{
    if lb < p.len() && p[lb].0 + 1 >= width(base, lb) {
        lemma_lower_gap(base, p, lb + 1);
    }
    let g = lower_gap(base, p, lb);
    if g >= p.len() {
        lemma_pow2_strictly_increases(0, (base + g) as nat);
        assert(pow2(0) == 1) by {
            vstd::arithmetic::power2::lemma2_to64();
        }
    }
}

proof fn lemma_zero_run_end(q: Seq<Step>, k: int)
    requires
        0 <= k <= q.len(),
    ensures
        k <= zero_run_end(q, k) <= q.len(),
        forall|i: int| k <= i < zero_run_end(q, k) ==> #[trigger] q[i].0 <= 1,
        zero_run_end(q, k) < q.len() ==> q[zero_run_end(q, k)].0 > 1,
    decreases q.len() - k,
{
    if k < q.len() && q[k].0 <= 1 {
        lemma_zero_run_end(q, k + 1);
    }
}

/// A path that follows `p`, then takes least steps over `q`'s zero run, then
/// steps below `q` (or ends the run where `q` has a step above the least one)
/// comes before `q`.
proof fn lemma_least_run_below(p: Seq<Step>, q: Seq<Step>, r: Seq<Step>, i: int, k: int)
    requires
        0 <= p.len() <= i <= k <= q.len(),
        k < r.len(),
        agree_upto(r, q, i),
        forall|j: int| i <= j < k ==> #[trigger] q[j].0 <= 1,
        forall|j: int| i <= j < k ==> #[trigger] r[j] == (0u64, 0u32),
        k < q.len() ==> step_lt(r[k], q[k]),
        k == q.len() ==> exists|j: int| i <= j < k && #[trigger] q[j] != (0u64, 0u32),
    ensures
        path_lt(r, q),
    decreases k - i,
{
    if i < k {
        if q[i] != (0u64, 0u32) {
            assert(step_lt(r[i], q[i]));
            assert(lt_at(r, q, i));
        } else {
            assert(r[i] == q[i]);
            if k == q.len() {
                let j = choose|j: int| i <= j < k && #[trigger] q[j] != (0u64, 0u32);
                assert(j != i);
            }
            lemma_least_run_below(p, q, r, i + 1, k);
        }
    } else {
        assert(lt_at(r, q, k));
    }
}

/// A path that follows `p`, then copies `q`'s zero run with index zero, then
/// steps below `q` (or ends the run where `q` has an index of one) comes
/// before `q`.
proof fn lemma_copied_run_below(p: Seq<Step>, q: Seq<Step>, r: Seq<Step>, i: int, k: int)
    requires
        0 <= p.len() <= i <= k <= q.len(),
        k < r.len(),
        agree_upto(r, q, i),
        forall|j: int| i <= j < k ==> #[trigger] q[j].0 <= 1,
        forall|j: int| i <= j < k ==> #[trigger] r[j] == (0u64, q[j].1),
        k < q.len() ==> step_lt(r[k], q[k]),
        k == q.len() ==> exists|j: int| i <= j < k && #[trigger] q[j].0 == 1,
    ensures
        path_lt(r, q),
    decreases k - i,
{
    if i < k {
        if q[i].0 == 1 {
            assert(lt_at(r, q, i));
        } else {
            assert(r[i] == q[i]);
            if k == q.len() {
                let j = choose|j: int| i <= j < k && #[trigger] q[j].0 == 1;
                assert(j != i);
            }
            lemma_copied_run_below(p, q, r, i + 1, k);
        }
    } else {
        assert(lt_at(r, q, k));
    }
}

/// The allocator's main promise: for `p < q`, every identifier that
/// `allocate(p, q)` can return comes after `p`, and before `q` unless `q` is
/// `p` followed by least steps `(0, 0)` only (then every path between them is
/// a prefix of `q`, and none ends with a step of the allocating site).
pub proof fn lemma_alloc_between(base: u32, site: u32, p: Seq<Step>, q: Seq<Step>, step: int)
    requires
        path_lt(p, q),
        alloc_defined(base, p, q),
        step_ok(alloc_slot(base, p, q).1, alloc_slot(base, p, q).2, step),
    ensures
        alloc_slot(base, p, q).1 < alloc_slot(base, p, q).2,
        path_lt(p, slot_result(alloc_slot(base, p, q), step, site)),
        !zero_extension(p, q) ==> path_lt(slot_result(alloc_slot(base, p, q), step, site), q),
{
    lemma_path_lt_mismatch(p, q);
    lemma_mismatch(p, q);
    let d = mismatch(p, q);
    let slot = alloc_slot(base, p, q);
    let r = slot_result(slot, step, site);
    if d < p.len() && d < q.len() && p[d].0 + 1 < q[d].0 {
        lemma_index_choice_range(slot.1, slot.2, slot.3, step);
        assert(lt_at(p, r, d));
        assert(lt_at(r, q, d));
    } else if d < p.len() {
        lemma_lower_gap(base, p, d + 1);
        lemma_index_choice_range(slot.1, slot.2, slot.3, step);
        assert(lt_at(p, r, p.len() as int));
        assert(lt_at(r, q, d));
    } else {
        let k = zero_run_end(q, d);
        lemma_zero_run_end(q, d);
        if k >= q.len() {
            lemma_pow2_strictly_increases(0, (base + k + 1) as nat);
            assert(pow2(0) == 1) by {
                vstd::arithmetic::power2::lemma2_to64();
            }
        }
        lemma_index_choice_range(slot.1, slot.2, slot.3, step);
        assert(lt_at(p, r, p.len() as int));
        if run_follows_to_end(q, d) {
            if !zero_extension(p, q) {
                if forall|j: int| d <= j < k ==> #[trigger] q[j] == (0u64, 0u32) {
                    assert(q.take(p.len() as int) =~= p);
                    assert(zero_extension(p, q));
                }
                lemma_least_run_below(p, q, r, d, k);
            }
        } else {
            if k == q.len() {
                assert(exists|j: int| d <= j < k && #[trigger] q[j].0 == 1) by {
                    let j = choose|j: int| d <= j < q.len() && #[trigger] q[j].0 != 0;
                    assert(q[j].0 <= 1);
                }
            }
            lemma_copied_run_below(p, q, r, d, k);
        }
    }
}

impl Identifier {
    /// A copy of this identifier.
    pub(crate) fn duplicate(&self) -> (r: Identifier)
        ensures
            r@ == self@,
    {
        let mut path: Vec<(u64, u32)> = Vec::new();
        let mut i: usize = 0;
        while i < self.path.len()
            invariant
                i <= self.path.len(),
                path@ == self.path@.take(i as int),
            decreases self.path.len() - i,
        {
            path.push(self.path[i]);
            i += 1;
            assert(path@ =~= self.path@.take(i as int));
        }
        assert(self.path@.take(i as int) =~= self.path@);
        Identifier { path }
    }

    /// Whether this identifier comes before `other`.
    pub fn precedes(&self, other: &Identifier) -> (r: bool)
        ensures
            r == path_lt(self@, other@),
    {
        let mut i: usize = 0;
        while i < self.path.len() && i < other.path.len()
            invariant
                agree_upto(self@, other@, i as int),
            decreases self.path.len() - i,
        {
            let a = self.path[i];
            let b = other.path[i];
            if a.0 != b.0 || a.1 != b.1 {
                proof {
                    lemma_mismatch_unique(self@, other@, i as int);
                    lemma_path_lt_mismatch(self@, other@);
                }
                return a.0 < b.0 || (a.0 == b.0 && a.1 < b.1);
            }
            i += 1;
        }
        proof {
            lemma_mismatch_unique(self@, other@, i as int);
            lemma_path_lt_mismatch(self@, other@);
        }
        i == self.path.len() && i < other.path.len()
    }

    /// Whether this identifier has the same path as `other`.
    pub fn same(&self, other: &Identifier) -> (r: bool)
        ensures
            r == (self@ == other@),
    {
        if self.path.len() != other.path.len() {
            return false;
        }
        let mut i: usize = 0;
        while i < self.path.len()
            invariant
                self.path.len() == other.path.len(),
                agree_upto(self@, other@, i as int),
            decreases self.path.len() - i,
        {
            let a = self.path[i];
            let b = other.path[i];
            if a.0 != b.0 || a.1 != b.1 {
                return false;
            }
            i += 1;
        }
        assert(self@ =~= other@);
        true
    }
}

impl Identifier {
    /// The length of the longest common prefix of this identifier and `other`.
    pub fn common_prefix(&self, other: &Identifier) -> (d: usize)
        ensures
            d == mismatch(self@, other@),
    {
        let mut i: usize = 0;
        while i < self.path.len() && i < other.path.len()
            invariant
                agree_upto(self@, other@, i as int),
            decreases self.path.len() - i,
        {
            let a = self.path[i];
            let b = other.path[i];
            if a.0 != b.0 || a.1 != b.1 {
                proof {
                    lemma_mismatch_unique(self@, other@, i as int);
                }
                return i;
            }
            i += 1;
        }
        proof {
            lemma_mismatch_unique(self@, other@, i as int);
        }
        i
    }

    /// Whether `other` is this identifier followed by one or more least steps
    /// `(0, 0)`.
    pub fn zero_extended_by(&self, other: &Identifier) -> (r: bool)
        ensures
            r == zero_extension(self@, other@),
    {
        let n = self.path.len();
        if n >= other.path.len() {
            return false;
        }
        let mut i: usize = 0;
        while i < n
            invariant
                n == self@.len() < other@.len(),
                i <= n,
                forall|j: int| 0 <= j < i ==> self@[j] == other@[j],
            decreases n - i,
        {
            let a = self.path[i];
            let b = other.path[i];
            if a.0 != b.0 || a.1 != b.1 {
                proof {
                    assert(other@.take(n as int)[i as int] == other@[i as int]);
                }
                return false;
            }
            i += 1;
        }
        assert(other@.take(n as int) =~= self@);
        while i < other.path.len()
            invariant
                n == self@.len() < other@.len(),
                n <= i <= other@.len(),
                forall|j: int| n <= j < i ==> #[trigger] other@[j] == (0u64, 0u32),
            decreases other.path.len() - i,
        {
            if other.path[i].0 != 0 || other.path[i].1 != 0 {
                return false;
            }
            i += 1;
        }
        true
    }
}

impl IdentGen {
    /// A generator for `site_id` with the default base.
    pub fn new(site_id: u32) -> (g: IdentGen)
        ensures
            g.initial_base_bits == INITIAL_BASE,
            g.site_id == site_id,
    {
        Self::new_with_args(INITIAL_BASE, site_id)
    }

    /// A generator for `site_id` with `2^base` indices at the root.
    pub fn new_with_args(base: u32, site_id: u32) -> (g: IdentGen)
        ensures
            g.initial_base_bits == base,
            g.site_id == site_id,
    {
        IdentGen { initial_base_bits: base, site_id: site_id }
    }

    /// The identifier that bounds the sequence from below.
    pub fn lower(&self) -> (r: Identifier)
        ensures
            r@ == seq![(0u64, 0u32)],
    {
        let mut path: Vec<(u64, u32)> = Vec::new();
        path.push((0, 0));
        Identifier { path }
    }

    /// The identifier that bounds the sequence from above: the last index at
    /// the root.
    pub fn upper(&self) -> (r: Identifier)
        requires
            self.initial_base_bits <= 63,
        ensures
            r@ == seq![((width(self.initial_base_bits, 0) - 1) as u64, 0u32)],
    {
        let w = self.width_at(0);
        proof {
            lemma_pow2_pos(self.initial_base_bits as nat);
        }
        let mut path: Vec<(u64, u32)> = Vec::new();
        path.push((w - 1, 0));
        Identifier { path }
    }

    /// Allocates a new identifier between `p` and `q` (`p < q`). The result
    /// is made from the slot that `alloc_slot` describes and one random step;
    /// `lemma_alloc_between` shows that it comes after `p`, and before `q`
    /// unless `q` is `p` followed by least steps `(0, 0)` only (where no
    /// identifier ending with this site's step lies between them).
    pub fn allocate(&mut self, p: &Identifier, q: &Identifier) -> (r: Identifier)
        requires
            path_lt(p@, q@),
            alloc_defined(old(self).initial_base_bits, p@, q@),
        ensures
            *final(self) == *old(self),
            exists|step: int|
                #[trigger] step_ok(
                    alloc_slot(old(self).initial_base_bits, p@, q@).1,
                    alloc_slot(old(self).initial_base_bits, p@, q@).2,
                    step,
                ) && r@ == slot_result(
                    alloc_slot(old(self).initial_base_bits, p@, q@),
                    step,
                    old(self).site_id,
                ),
    {
        let ghost base = self.initial_base_bits;
        proof {
            lemma_path_lt_mismatch(p@, q@);
            lemma_mismatch(p@, q@);
        }
        let mut depth: usize = 0;
        loop
            invariant
                *self == *old(self),
                base == self.initial_base_bits,
                path_lt(p@, q@),
                alloc_defined(base, p@, q@),
                agree_upto(p@, q@, depth as int),
                mismatch_from(p@, q@, depth as int) == mismatch(p@, q@),
            decreases p.path.len() - depth,
        {
            if depth < p.path.len() && depth < q.path.len() {
                let a = p.path[depth];
                let b = q.path[depth];
                if a.0 == b.0 && a.1 == b.1 {
                    assert(p@[depth as int] == q@[depth as int]);
                } else {
                    assert(mismatch(p@, q@) == depth);
                    if a.0 + 1 < b.0 {
                        let next_index = self.index_in_range(a.0 + 1, b.0, depth as u32);
                        let r = self.replace_last(p, depth, next_index);
                        proof {
                            lemma_parity_u32(depth);
                            let s = choose|s: int|
                                #[trigger] step_ok((a.0 + 1) as int, b.0 as int, s) && next_index
                                    == index_choice((a.0 + 1) as int, b.0 as int, (depth as u32) as int, s);
                            assert(step_ok(alloc_slot(base, p@, q@).1, alloc_slot(base, p@, q@).2, s));
                            assert(r@ =~= slot_result(alloc_slot(base, p@, q@), s, self.site_id));
                        }
                        return r;
                    } else {
                        let r = self.alloc_with_lower(p, depth + 1);
                        proof {
                            let slot = lower_slot(base, p@, depth + 1);
                            assert(alloc_slot(base, p@, q@) == slot);
                            let s = choose|s: int|
                                #[trigger] step_ok(slot.1, slot.2, s) && r@ == slot_result(slot, s, self.site_id);
                            assert(step_ok(alloc_slot(base, p@, q@).1, alloc_slot(base, p@, q@).2, s));
                        }
                        return r;
                    }
                }
            } else if depth < p.path.len() {
                assert(mismatch(p@, q@) == depth);
                return self.alloc_with_lower(p, depth + 1);
            } else if depth < q.path.len() {
                assert(mismatch(p@, q@) == depth);
                let r = self.alloc_with_upper(p, q, depth);
                proof {
                    let slot = upper_slot(base, p@, q@, depth as int);
                    assert(alloc_slot(base, p@, q@) == slot);
                    let s = choose|s: int|
                        #[trigger] step_ok(slot.1, slot.2, s) && r@ == slot_result(slot, s, self.site_id);
                    assert(step_ok(alloc_slot(base, p@, q@).1, alloc_slot(base, p@, q@).2, s));
                }
                return r;
            } else {
                // Equal paths: ruled out by `p < q`.
                assert(p@ =~= q@);
                assert(false);
                let max_for_depth = self.width_at(depth) - 1;
                let next_index = self.index_in_range(1, max_for_depth, depth as u32);
                return self.push_index(p, next_index);
            }
            depth += 1;
        }
    }

    /// Whether `allocate(p, q)` may be called: `p` comes before `q`, and the
    /// allocation between them stays within machine integers.
    pub fn can_allocate(&self, p: &Identifier, q: &Identifier) -> (r: bool)
        ensures
            r == (path_lt(p@, q@) && alloc_defined(self.initial_base_bits, p@, q@)),
    {
        if !p.precedes(q) {
            return false;
        }
        let d = p.common_prefix(q);
        if d < p.path.len() && d < q.path.len() {
            let a = p.path[d].0;
            if a == u64::MAX {
                false
            } else if a + 1 < q.path[d].0 {
                true
            } else {
                self.lower_search_ok(p, d + 1)
            }
        } else if d < p.path.len() {
            self.lower_search_ok(p, d + 1)
        } else if d < q.path.len() {
            let k = zero_run(q, d);
            if k < q.path.len() {
                true
            } else {
                k < 63 && self.initial_base_bits as u64 + k as u64 + 1 <= 63
            }
        } else {
            d <= 63 && 2 <= self.initial_base_bits as u64 + d as u64 && self.initial_base_bits
                as u64 + d as u64 <= 63
        }
    }

    /// Whether the search below `p` from depth `lb` stays within machine
    /// integers.
    fn lower_search_ok(&self, p: &Identifier, lb: usize) -> (r: bool)
        ensures
            r == lower_search_defined(self.initial_base_bits, p@, lb as int),
    {
        let ghost base = self.initial_base_bits;
        let mut depth = lb;
        loop
            invariant
                base == self.initial_base_bits,
                lower_search_defined(base, p@, depth as int) == lower_search_defined(
                    base,
                    p@,
                    lb as int,
                ),
            decreases p.path.len() - depth,
        {
            if depth > 63 || self.initial_base_bits as u64 + depth as u64 > 63 {
                return false;
            }
            if depth >= p.path.len() {
                return self.initial_base_bits as u64 + depth as u64 >= 1;
            }
            let ix = p.path[depth].0;
            if ix == u64::MAX {
                return false;
            }
            if ix + 1 < self.width_at(depth) {
                return true;
            }
            depth += 1;
        }
    }

    // Here the lower path has run out and the upper one continues with small
    // indices: copy its run of indices no greater than one (as zeros), then
    // allocate below the first larger index, or anywhere on the next level.
    fn alloc_with_upper(&mut self, p: &Identifier, q: &Identifier, depth: usize) -> (r: Identifier)
        requires
            depth == p@.len() < q@.len(),
            zero_run_end(q@, depth as int) < q@.len() || old(self).initial_base_bits
                + zero_run_end(q@, depth as int) + 1 <= 63,
        ensures
            *final(self) == *old(self),
            exists|step: int|
                #[trigger] step_ok(
                    upper_slot(old(self).initial_base_bits, p@, q@, depth as int).1,
                    upper_slot(old(self).initial_base_bits, p@, q@, depth as int).2,
                    step,
                ) && r@ == slot_result(
                    upper_slot(old(self).initial_base_bits, p@, q@, depth as int),
                    step,
                    old(self).site_id,
                ),
    {
        let ghost k = zero_run_end(q@, depth as int);
        proof {
            lemma_zero_run_end(q@, depth as int);
        }
        let ghost start = depth as int;
        let end = zero_run(q, depth);
        // Copying q's steps would follow q to its end: use least steps then.
        let least = end == q.path.len() && run_has_index_zero_only(q, depth);
        assert(least == run_follows_to_end(q@, start));
        let mut ident = p.duplicate();
        let mut depth = depth;
        while depth < end
            invariant
                start <= depth <= k,
                end == k,
                k <= q@.len(),
                ident@ == p@ + zero_steps(q@, start, depth as int, least),
            decreases end - depth,
        {
            // append a 0 to the result path as well
            if least {
                ident.path.push((0, 0));
            } else {
                ident.path.push((0, q.path[depth].1));
            }
            depth += 1;
            assert(ident@ =~= p@ + zero_steps(q@, start, depth as int, least));
        }
        assert(depth == k);
        let upper = if depth < q.path.len() {
            q.path[depth].0
        } else {
            proof {
                lemma_pow2_strictly_increases(0, (self.initial_base_bits + depth + 1) as nat);
                vstd::arithmetic::power2::lemma2_to64();
            }
            self.width_at(depth + 1)
        };
        let next_index = self.index_in_range(1, upper, depth as u32);
        let r = self.push_index(&ident, next_index);
        proof {
            lemma_parity_u32(depth);
            let slot = upper_slot(self.initial_base_bits, p@, q@, start);
            let s = choose|s: int|
                #[trigger] step_ok(1, upper as int, s) && next_index
                    == index_choice(1, upper as int, (depth as u32) as int, s);
            assert(step_ok(slot.1, slot.2, s));
            assert(r@ =~= slot_result(slot, s, self.site_id));
        }
        r
    }

    // Here the upper bound leaves no room at the current level: descend the
    // lower bound until some level has room above it, or until it ends.
    fn alloc_with_lower(&mut self, p: &Identifier, depth: usize) -> (r: Identifier)
        requires
            lower_search_defined(old(self).initial_base_bits, p@, depth as int),
        ensures
            *final(self) == *old(self),
            exists|step: int|
                #[trigger] step_ok(
                    lower_slot(old(self).initial_base_bits, p@, depth as int).1,
                    lower_slot(old(self).initial_base_bits, p@, depth as int).2,
                    step,
                ) && r@ == slot_result(
                    lower_slot(old(self).initial_base_bits, p@, depth as int),
                    step,
                    old(self).site_id,
                ),
    {
        let ghost base = self.initial_base_bits;
        proof {
            lemma_lower_gap(base, p@, depth as int);
        }
        let mut lower_bound = depth;
        loop
            invariant
                *self == *old(self),
                base == self.initial_base_bits,
                depth <= lower_bound <= lower_gap(base, p@, depth as int),
                lower_gap(base, p@, lower_bound as int) == lower_gap(base, p@, depth as int),
                lower_search_defined(base, p@, lower_bound as int),
            decreases p.path.len() - lower_bound,
        {
            if lower_bound < p.path.len() {
                let ix = p.path[lower_bound].0;
                let w = self.width_at(lower_bound);
                if ix + 1 < w {
                    let next_index = self.index_in_range(ix + 1, w, lower_bound as u32);
                    let r = self.push_index(p, next_index);
                    proof {
                        lemma_parity_u32(lower_bound);
                        let slot = lower_slot(base, p@, depth as int);
                        let s = choose|s: int|
                            #[trigger] step_ok((ix + 1) as int, w as int, s) && next_index
                                == index_choice((ix + 1) as int, w as int, (lower_bound as u32) as int, s);
                        assert(step_ok(slot.1, slot.2, s));
                        assert(r@ =~= slot_result(slot, s, self.site_id));
                    }
                    return r;
                }
            } else {
                proof {
                    lemma_lower_gap(base, p@, lower_bound as int);
                }
                let w = self.width_at(lower_bound);
                let next_index = self.index_in_range(1, w, lower_bound as u32);
                let r = self.push_index(p, next_index);
                proof {
                    lemma_parity_u32(lower_bound);
                    let slot = lower_slot(base, p@, depth as int);
                    let s = choose|s: int|
                        #[trigger] step_ok(1, w as int, s) && next_index
                            == index_choice(1, w as int, (lower_bound as u32) as int, s);
                    assert(step_ok(slot.1, slot.2, s));
                    assert(r@ =~= slot_result(slot, s, self.site_id));
                }
                return r;
            }
            proof {
                lemma_lower_gap(base, p@, lower_bound + 1);
            }
            lower_bound += 1;
        }
    }

    /// `p` cut to its first `depth` steps (all of it when it is shorter), then
    /// one step at index `ix` from this site.
    fn replace_last(&mut self, p: &Identifier, depth: usize, ix: u64) -> (r: Identifier)
        ensures
            *final(self) == *old(self),
            r@ == p@.take(if depth <= p@.len() {
                depth as int
            } else {
                p@.len() as int
            }).push((ix, old(self).site_id)),
    {
        let mut ident = p.duplicate();
        ident.path.truncate(depth);
        ident.path.push((ix, self.site_id));
        proof {
            if depth > p@.len() {
                assert(p@.take(p@.len() as int) =~= p@);
            }
        }
        return ident;
    }

    /// `p` extended by one step at index `ix` from this site.
    fn push_index(&mut self, p: &Identifier, ix: u64) -> (r: Identifier)
        ensures
            *final(self) == *old(self),
            r@ == p@.push((ix, old(self).site_id)),
    {
        let mut ident = p.duplicate();
        ident.path.push((ix, self.site_id));
        return ident;
    }

    /// The number of indices at `depth`.
    fn width_at(&self, depth: usize) -> (w: u64)
        requires
            self.initial_base_bits + depth <= 63,
        ensures
            w == width(self.initial_base_bits, depth as int),
    {
        let e: u32 = self.initial_base_bits + depth as u32;
        let mut w: u64 = 1;
        let mut i: u32 = 0;
        proof {
            vstd::arithmetic::power2::lemma2_to64();
            lemma2_to64_rest();
        }
        while i < e
            invariant
                i <= e <= 63,
                e == self.initial_base_bits + depth,
                w == pow2(i as nat),
                pow2(63) == 0x8000000000000000,
            decreases e - i,
        {
            proof {
                lemma_pow2_unfold((i + 1) as nat);
                if i + 1 < 63 {
                    lemma_pow2_strictly_increases((i + 1) as nat, 63);
                }
            }
            w = w * 2;
            i = i + 1;
        }
        w
    }

    /// Picks an index in `[lower, upper)` at `depth`: a random step, below
    /// `BOUNDARY` and below the room available, away from the bound that the
    /// depth's strategy favours.
    pub fn index_in_range(&mut self, lower: u64, upper: u64, depth: u32) -> (r: u64)
        requires
            lower < upper,
        ensures
            *final(self) == *old(self),
            lower <= r < upper,
            exists|step: int|
                #[trigger] step_ok(lower as int, upper as int, step) && r == index_choice(
                    lower as int,
                    upper as int,
                    depth as int,
                    step,
                ),
    {
        let room = upper - 1 - lower;
        let interval = if BOUNDARY < room {
            BOUNDARY
        } else {
            room
        };
        let step = if interval > 0 {
            draw_below(interval)
        } else {
            0
        };
        let r = self.pick_index(lower, upper, depth, step);
        proof {
            assert(step_ok(lower as int, upper as int, step as int));
            lemma_index_choice_range(lower as int, upper as int, depth as int, step as int);
        }
        r
    }

    /// The index in `[lower, upper)` at `depth` for a given random `step`.
    pub fn pick_index(&mut self, lower: u64, upper: u64, depth: u32, step: u64) -> (r: u64)
        requires
            lower < upper,
            step_ok(lower as int, upper as int, step as int),
        ensures
            *final(self) == *old(self),
            r == index_choice(lower as int, upper as int, depth as int, step as int),
    {
        if self.strategy(depth) {
            //boundary+
            lower + step
        } else {
            //boundary-
            upper - step - 1
        }
    }

    /// Whether `depth` favours the lower bound ("boundary+").
    fn strategy(&mut self, depth: u32) -> (r: bool)
        ensures
            *final(self) == *old(self),
            r == (depth % 2 == 0),
    {
        depth % 2 == 0
    }
}

} // verus!
