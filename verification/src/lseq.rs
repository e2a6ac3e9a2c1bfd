//! The replicated text: a sequence of characters, each keyed by an identifier.
//!
//! The entries are kept sorted by identifier, so every replica that has seen
//! the same insertions and deletions holds the same text.
pub mod convergence;
pub mod ident;
pub mod order;
pub mod room;

use vstd::prelude::*;

use crate::causal::{CausalOp, LogTime, SiteId};
use ident::{
    alloc_defined, alloc_slot, lemma_alloc_between, slot_result, step_ok, width, IdentGen,
    Identifier,
};
use order::{
    lemma_path_lt_asymmetric, lemma_path_lt_irreflexive, lemma_path_lt_total,
    lemma_path_lt_transitive, path_lt, zero_extension, Step,
};

verus! {

/// An entry of the text: identifier, clock of the insertion, inserting site,
/// character.
pub type Entry = (Identifier, u64, u32, char);

/// The abstract value of an entry: its identifier taken by its path.
pub type EntryView = (Seq<Step>, u64, u32, char);

pub open spec fn entry_view(e: Entry) -> EntryView {
    (e.0@, e.1, e.2, e.3)
}

/// The entries' identifiers are strictly increasing.
pub open spec fn sorted(s: Seq<EntryView>) -> bool {
    forall|i: int, j: int| 0 <= i < j < s.len() ==> path_lt(#[trigger] s[i].0, #[trigger] s[j].0)
}

/// Some entry of `s` has identifier `id`.
pub open spec fn has_id(s: Seq<EntryView>, id: Seq<Step>) -> bool {
    exists|i: int| 0 <= i < s.len() && #[trigger] s[i].0 == id
}

/// `e` put into `s` before the first entry whose identifier comes after it;
/// `s` unchanged when an entry with `e`'s identifier is met first.
pub open spec fn sorted_insert(s: Seq<EntryView>, e: EntryView) -> Seq<EntryView>
    decreases s.len(),
{
    if s.len() == 0 {
        seq![e]
    } else if e.0 == s[0].0 {
        s
    } else if path_lt(e.0, s[0].0) {
        seq![e] + s
    } else {
        seq![s[0]] + sorted_insert(s.drop_first(), e)
    }
}

/// `s` without its first entry with identifier `id` (unchanged if none).
pub open spec fn sorted_remove(s: Seq<EntryView>, id: Seq<Step>) -> Seq<EntryView>
    decreases s.len(),
{
    if s.len() == 0 {
        s
    } else if s[0].0 == id {
        s.drop_first()
    } else {
        seq![s[0]] + sorted_remove(s.drop_first(), id)
    }
}

/// The characters of the entries, in order.
pub open spec fn chars(s: Seq<EntryView>) -> Seq<char> {
    s.map_values(|e: EntryView| e.3)
}

/// The identifier that bounds every text from below.
pub open spec fn lower_bound() -> Seq<Step> {
    seq![(0u64, 0u32)]
}

/// The identifier that bounds every text from above, for root width `2^base`.
pub open spec fn upper_bound(base: u32) -> Seq<Step> {
    seq![((width(base, 0) - 1) as u64, 0u32)]
}

/// The identifiers between which a local insertion at `ix` allocates: the
/// entry before the position (or the lower bound) and the entry at it (or the
/// upper bound when inserting at the end).
pub open spec fn insert_bounds(s: Seq<EntryView>, ix: int, base: u32) -> (Seq<Step>, Seq<Step>) {
    if s.len() <= ix {
        (if s.len() > 0 {
            s[s.len() - 1].0
        } else {
            lower_bound()
        }, upper_bound(base))
    } else {
        (if ix == 0 {
            lower_bound()
        } else {
            s[ix - 1].0
        }, s[ix].0)
    }
}

/// A local insertion at `ix` goes through: the bounds are ordered, the
/// allocation between them stays within machine integers, and (inside the
/// text) something fits between them.
pub open spec fn insert_defined(s: Seq<EntryView>, ix: int, base: u32) -> bool {
    let (prev, next) = insert_bounds(s, ix, base);
    &&& base <= 63
    &&& path_lt(prev, next)
    &&& alloc_defined(base, prev, next)
    &&& ix < s.len() ==> !zero_extension(prev, next)
}

/// An operation, as broadcast to the other replicas.
#[derive(Debug)]
pub enum Op {
    Insert { id: Identifier, clock: u64, site_id: u32, c: char },
    Delete { remote: (u32, u64), id: Identifier, site_id: u32, clock: u64 },
}

/// Two operations are the same, their identifiers taken by their paths.
pub open spec fn same_op(a: Op, b: Op) -> bool {
    match (a, b) {
        (Op::Insert { id, clock, site_id, c }, Op::Insert { id: id2, clock: clock2, site_id: site_id2, c: c2 }) => {
            id@ == id2@ && clock == clock2 && site_id == site_id2 && c == c2
        },
        (Op::Delete { remote, id, site_id, clock }, Op::Delete { remote: remote2, id: id2, site_id: site_id2, clock: clock2 }) => {
            remote == remote2 && id@ == id2@ && site_id == site_id2 && clock == clock2
        },
        _ => false,
    }
}

impl Clone for Op {
    fn clone(&self) -> (r: Op)
        ensures
            same_op(*self, r),
    {
        match self {
            Op::Insert { id, clock, site_id, c } => Op::Insert {
                id: id.duplicate(),
                clock: *clock,
                site_id: *site_id,
                c: *c,
            },
            Op::Delete { remote, id, site_id, clock } => Op::Delete {
                remote: (remote.0, remote.1),
                id: id.duplicate(),
                site_id: *site_id,
                clock: *clock,
            },
        }
    }
}

/// What applying `op` does to the entries.
pub open spec fn op_effect(s: Seq<EntryView>, op: Op) -> Seq<EntryView> {
    match op {
        Op::Insert { id, clock, site_id, c } => sorted_insert(s, (id@, clock, site_id, c)),
        Op::Delete { id, .. } => sorted_remove(s, id@),
    }
}

/// The identifier that an operation inserts or deletes.
pub open spec fn op_id(op: Op) -> Seq<Step> {
    match op {
        Op::Insert { id, .. } => id@,
        Op::Delete { id, .. } => id@,
    }
}

impl CausalOp for Op {
    open spec fn depends_on(&self) -> Option<(u32, u64)> {
        match *self {
            Op::Insert { .. } => None,
            Op::Delete { remote, .. } => Some(remote),
        }
    }

    open spec fn origin(&self) -> (u32, u64) {
        match *self {
            Op::Insert { site_id, clock, .. } => (site_id, clock),
            Op::Delete { site_id, clock, .. } => (site_id, clock),
        }
    }

    /// A deletion depends on the insertion of what it deletes, named by that
    /// insertion's site and clock.
    fn happens_before(&self) -> (r: Option<(SiteId, LogTime)>) {
        match self {
            Op::Insert { .. } => None,
            Op::Delete { remote: (s, t), .. } => Some((SiteId::from(*s), LogTime::from(*t))),
        }
    }

    fn site(&self) -> (r: SiteId) {
        match self {
            Op::Insert { site_id, .. } => SiteId(*site_id),
            Op::Delete { site_id, .. } => SiteId(*site_id),
        }
    }

    fn clock(&self) -> (r: LogTime) {
        match self {
            Op::Insert { clock, .. } => LogTime(*clock),
            Op::Delete { clock, .. } => LogTime(*clock),
        }
    }
}

/// A replica of the text.
pub struct LSeq {
    pub text: Vec<Entry>,
    pub gen: IdentGen,
    pub clock: u64,
}

impl View for LSeq {
    type V = Seq<EntryView>;

    open spec fn view(&self) -> Seq<EntryView> {
        self.text@.map_values(|e: Entry| entry_view(e))
    }
}

proof fn lemma_insert_at(s: Seq<EntryView>, e: EntryView, i: int)
    requires
        0 <= i <= s.len(),
        forall|j: int| 0 <= j < i ==> path_lt(#[trigger] s[j].0, e.0),
        forall|j: int| i <= j < s.len() ==> path_lt(e.0, #[trigger] s[j].0),
    ensures
        sorted_insert(s, e) == s.insert(i, e),
    decreases s.len(),
{
    if s.len() == 0 {
        assert(s.insert(i, e) =~= seq![e]);
    } else if i == 0 {
        lemma_path_lt_irreflexive(e.0);
        assert(s.insert(i, e) =~= seq![e] + s);
    } else {
        lemma_path_lt_irreflexive(e.0);
        lemma_path_lt_asymmetric(s[0].0, e.0);
        let t = s.drop_first();
        assert forall|j: int| 0 <= j < i - 1 implies path_lt(#[trigger] t[j].0, e.0) by {
            assert(t[j] == s[j + 1]);
        }
        assert forall|j: int| i - 1 <= j < t.len() implies path_lt(e.0, #[trigger] t[j].0) by {
            assert(t[j] == s[j + 1]);
        }
        lemma_insert_at(t, e, i - 1);
        assert(s.insert(i, e) =~= seq![s[0]] + t.insert(i - 1, e));
    }
}

proof fn lemma_insert_present(s: Seq<EntryView>, e: EntryView, i: int)
    requires
        0 <= i < s.len(),
        s[i].0 == e.0,
        forall|j: int| 0 <= j < i ==> path_lt(#[trigger] s[j].0, e.0),
    ensures
        sorted_insert(s, e) == s,
    decreases s.len(),
{
    if i > 0 {
        lemma_path_lt_irreflexive(e.0);
        lemma_path_lt_asymmetric(s[0].0, e.0);
        let t = s.drop_first();
        assert forall|j: int| 0 <= j < i - 1 implies path_lt(#[trigger] t[j].0, e.0) by {
            assert(t[j] == s[j + 1]);
        }
        lemma_insert_present(t, e, i - 1);
        assert(s =~= seq![s[0]] + t);
    }
}

proof fn lemma_remove_at(s: Seq<EntryView>, id: Seq<Step>, i: int)
    requires
        0 <= i < s.len(),
        s[i].0 == id,
        forall|j: int| 0 <= j < i ==> #[trigger] s[j].0 != id,
    ensures
        sorted_remove(s, id) == s.remove(i),
    decreases s.len(),
{
    if i == 0 {
        assert(s.remove(0) =~= s.drop_first());
    } else {
        let t = s.drop_first();
        assert forall|j: int| 0 <= j < i - 1 implies #[trigger] t[j].0 != id by {
            assert(t[j] == s[j + 1]);
        }
        lemma_remove_at(t, id, i - 1);
        assert(s.remove(i) =~= seq![s[0]] + t.remove(i - 1));
    }
}

proof fn lemma_remove_absent(s: Seq<EntryView>, id: Seq<Step>)
    requires
        !has_id(s, id),
    ensures
        sorted_remove(s, id) == s,
    decreases s.len(),
{
    if s.len() > 0 {
        let t = s.drop_first();
        assert(s[0].0 != id);
        assert forall|j: int| 0 <= j < t.len() implies #[trigger] t[j].0 != id by {
            assert(t[j] == s[j + 1]);
        }
        lemma_remove_absent(t, id);
        assert(s =~= seq![s[0]] + t);
    }
}

proof fn lemma_sorted_insert_keeps(s: Seq<EntryView>, e: EntryView, i: int)
    requires
        sorted(s),
        0 <= i <= s.len(),
        forall|j: int| 0 <= j < i ==> path_lt(#[trigger] s[j].0, e.0),
        forall|j: int| i <= j < s.len() ==> path_lt(e.0, #[trigger] s[j].0),
    ensures
        sorted(s.insert(i, e)),
{
    let t = s.insert(i, e);
    assert forall|a: int, b: int| 0 <= a < b < t.len() implies path_lt(
        #[trigger] t[a].0,
        #[trigger] t[b].0,
    ) by {
        if b < i {
        } else if a < i && b == i {
        } else if a < i {
            assert(t[b] == s[b - 1]);
        } else if a == i {
            assert(t[b] == s[b - 1]);
        } else {
            assert(t[a] == s[a - 1]);
            assert(t[b] == s[b - 1]);
        }
    }
}

proof fn lemma_sorted_remove_keeps(s: Seq<EntryView>, i: int)
    requires
        sorted(s),
        0 <= i < s.len(),
    ensures
        sorted(s.remove(i)),
{
    let t = s.remove(i);
    assert forall|a: int, b: int| 0 <= a < b < t.len() implies path_lt(
        #[trigger] t[a].0,
        #[trigger] t[b].0,
    ) by {
        if b < i {
        } else if a < i {
            assert(t[b] == s[b + 1]);
        } else {
            assert(t[a] == s[a + 1]);
            assert(t[b] == s[b + 1]);
        }
    }
}

/// A well-formed text holds each identifier at most once.
pub proof fn lemma_sorted_unique(s: Seq<EntryView>, i: int, j: int)
    requires
        sorted(s),
        0 <= i < s.len(),
        0 <= j < s.len(),
        s[i].0 == s[j].0,
    ensures
        i == j,
{
    if i < j {
        lemma_path_lt_irreflexive(s[i].0);
    } else if j < i {
        lemma_path_lt_irreflexive(s[i].0);
    }
}

impl LSeq {
    /// The entries are sorted by identifier.
    pub open spec fn wf(&self) -> bool {
        sorted(self@)
    }

    /// An empty text for site `id`.
    pub fn new(id: u32) -> (r: LSeq)
        ensures
            r@ == Seq::<EntryView>::empty(),
            r.wf(),
            r.gen.initial_base_bits == ident::INITIAL_BASE,
            r.gen.site_id == id,
            r.clock == 0,
    {
        let r = LSeq { text: Vec::new(), gen: IdentGen::new(id), clock: 0 };
        assert(r@ =~= Seq::<EntryView>::empty());
        r
    }

    /// Whether the entries are sorted by identifier (as every replica built by
    /// these operations is; a text read back from storage may not be).
    pub fn is_sorted(&self) -> (r: bool)
        ensures
            r == self.wf(),
    {
        let n = self.text.len();
        if n == 0 {
            return true;
        }
        let mut i: usize = 1;
        while i < n
            invariant
                n == self@.len(),
                1 <= i <= n,
                sorted(self@.take(i as int)),
            decreases n - i,
        {
            let a = &self.text[i - 1].0;
            let b = &self.text[i].0;
            proof {
                assert(self@[i - 1].0 == a@);
                assert(self@[i as int].0 == b@);
            }
            if !a.precedes(b) {
                return false;
            }
            proof {
                let t = self@.take(i + 1);
                assert forall|x: int, y: int| 0 <= x < y < t.len() implies path_lt(
                    #[trigger] t[x].0,
                    #[trigger] t[y].0,
                ) by {
                    let u = self@.take(i as int);
                    if y < i {
                        assert(t[x] == u[x] && t[y] == u[y]);
                    } else if x < i - 1 {
                        assert(t[x] == u[x] && t[i - 1] == u[i - 1]);
                        assert(path_lt(u[x].0, u[i - 1].0));
                        lemma_path_lt_transitive(t[x].0, t[i - 1].0, t[y].0);
                    }
                }
            }
            i += 1;
        }
        assert(self@.take(n as int) =~= self@);
        true
    }

    /// Whether `local_insert(ix, ..)` may be called on this (sorted) text:
    /// the neighbours of the position are ordered and an identifier can be
    /// allocated between them.
    pub fn can_insert(&self, ix: usize) -> (r: bool)
        ensures
            r == insert_defined(self@, ix as int, self.gen.initial_base_bits),
    {
        if self.gen.initial_base_bits > 63 {
            return false;
        }
        let n = self.text.len();
        let lower = self.gen.lower();
        let upper = self.gen.upper();
        proof {
            assert(lower@ =~= lower_bound());
            assert(upper@ =~= upper_bound(self.gen.initial_base_bits));
        }
        if n <= ix {
            let prev = if n > 0 {
                &self.text[n - 1].0
            } else {
                &lower
            };
            proof {
                if n > 0 {
                    assert(self@[n - 1].0 == prev@);
                }
            }
            self.gen.can_allocate(prev, &upper)
        } else {
            let prev = if ix == 0 {
                &lower
            } else {
                &self.text[ix - 1].0
            };
            let next = &self.text[ix].0;
            proof {
                if ix > 0 {
                    assert(self@[ix - 1].0 == prev@);
                }
                assert(self@[ix as int].0 == next@);
            }
            self.gen.can_allocate(prev, next) && !prev.zero_extended_by(next)
        }
    }

    /// Where `ix` is, or would go, in the sorted entries.
    fn search(&self, ix: &Identifier) -> (r: Result<usize, usize>)
        requires
            self.wf(),
        ensures
            match r {
                Ok(i) => i < self@.len() && self@[i as int].0 == ix@,
                Err(i) => {
                    &&& i <= self@.len()
                    &&& forall|j: int| 0 <= j < i ==> path_lt(#[trigger] self@[j].0, ix@)
                    &&& forall|j: int| i <= j < self@.len() ==> path_lt(ix@, #[trigger] self@[j].0)
                },
            },
    {
        let mut lo: usize = 0;
        let mut hi: usize = self.text.len();
        while lo < hi
            invariant
                self.wf(),
                lo <= hi <= self@.len(),
                self@.len() == self.text@.len(),
                forall|j: int| 0 <= j < lo ==> path_lt(#[trigger] self@[j].0, ix@),
                forall|j: int| hi <= j < self@.len() ==> path_lt(ix@, #[trigger] self@[j].0),
            decreases hi - lo,
        {
            let mid = lo + (hi - lo) / 2;
            let e = &self.text[mid].0;
            assert(self@[mid as int].0 == e@);
            if e.same(ix) {
                return Ok(mid);
            }
            if e.precedes(ix) {
                assert forall|j: int| 0 <= j < mid + 1 implies path_lt(
                    #[trigger] self@[j].0,
                    ix@,
                ) by {
                    if j < mid {
                        lemma_path_lt_transitive(self@[j].0, self@[mid as int].0, ix@);
                    }
                }
                lo = mid + 1;
            } else {
                proof {
                    lemma_path_lt_total(e@, ix@);
                }
                assert forall|j: int| mid <= j < self@.len() implies path_lt(
                    ix@,
                    #[trigger] self@[j].0,
                ) by {
                    if j > mid {
                        lemma_path_lt_transitive(ix@, self@[mid as int].0, self@[j].0);
                    }
                }
                hi = mid;
            }
        }
        Err(lo)
    }

    /// Inserts a character under identifier `ix`, unless `ix` is already there.
    pub fn do_insert(&mut self, ix: Identifier, clock: u64, site_id: u32, c: char)
        requires
            old(self).wf(),
        ensures
            final(self).wf(),
            final(self)@ == sorted_insert(old(self)@, (ix@, clock, site_id, c)),
            final(self).gen == old(self).gen,
            final(self).clock == old(self).clock,
    {
        let ghost e: EntryView = (ix@, clock, site_id, c);
        match self.search(&ix) {
            Ok(i) => {
                proof {
                    lemma_insert_present(self@, e, i as int);
                }
            },
            Err(res) => {
                proof {
                    lemma_insert_at(self@, e, res as int);
                    lemma_sorted_insert_keeps(self@, e, res as int);
                }
                self.text.insert(res, (ix, clock, site_id, c));
                assert(self@ =~= old(self)@.insert(res as int, e));
            },
        }
    }

    /// Deletes the entry with identifier `ix`, if there is one.
    pub fn do_delete(&mut self, ix: &Identifier)
        requires
            old(self).wf(),
        ensures
            final(self).wf(),
            final(self)@ == sorted_remove(old(self)@, ix@),
            final(self).gen == old(self).gen,
            final(self).clock == old(self).clock,
    {
        match self.search(ix) {
            Ok(i) => {
                proof {
                    assert forall|j: int| 0 <= j < i implies #[trigger] self@[j].0 != ix@ by {
                        lemma_path_lt_irreflexive(ix@);
                    }
                    lemma_remove_at(self@, ix@, i as int);
                    lemma_sorted_remove_keeps(self@, i as int);
                }
                self.text.remove(i);
                assert(self@ =~= old(self)@.remove(i as int));
            },
            Err(_) => {
                proof {
                    if has_id(self@, ix@) {
                        let j = choose|j: int| 0 <= j < self@.len() && #[trigger] self@[j].0 == ix@;
                        lemma_path_lt_irreflexive(ix@);
                    }
                    lemma_remove_absent(self@, ix@);
                }
            },
        }
    }

    /// Applies an operation received from a replica (or made locally).
    pub fn apply(&mut self, op: &Op)
        requires
            old(self).wf(),
        ensures
            final(self).wf(),
            final(self)@ == op_effect(old(self)@, *op),
            final(self).gen == old(self).gen,
            final(self).clock == old(self).clock,
    {
        match op {
            Op::Insert { id, clock, site_id, c } => self.do_insert(
                id.duplicate(),
                *clock,
                *site_id,
                *c,
            ),
            Op::Delete { id, .. } => self.do_delete(id),
        }
    }

    /// Inserts `c` at position `ix` (at the end when `ix` is past it) and
    /// returns the operation to broadcast: a fresh identifier is allocated
    /// between the neighbours of the position.
    pub fn local_insert(&mut self, ix: usize, c: char) -> (op: Op)
        requires
            old(self).wf(),
            old(self).clock < u64::MAX,
            insert_defined(old(self)@, ix as int, old(self).gen.initial_base_bits),
        ensures
            final(self).wf(),
            final(self).gen == old(self).gen,
            final(self).clock == old(self).clock + 1,
            final(self)@ == op_effect(old(self)@, op),
            ({
                let pos = if ix < old(self)@.len() {
                    ix as int
                } else {
                    old(self)@.len() as int
                };
                let (prev, next) = insert_bounds(
                    old(self)@,
                    ix as int,
                    old(self).gen.initial_base_bits,
                );
                match op {
                    Op::Insert { id, clock, site_id, c: d } => {
                        &&& clock == old(self).clock
                        &&& site_id == old(self).gen.site_id
                        &&& d == c
                        &&& final(self)@ == old(self)@.insert(pos, (id@, clock, site_id, c))
                        &&& chars(final(self)@) == chars(old(self)@).insert(pos, c)
                        &&& path_lt(prev, id@)
                        &&& pos < old(self)@.len() ==> path_lt(id@, next)
                        &&& exists|step: int|
                            #[trigger] step_ok(
                                alloc_slot(old(self).gen.initial_base_bits, prev, next).1,
                                alloc_slot(old(self).gen.initial_base_bits, prev, next).2,
                                step,
                            ) && id@ == slot_result(
                                alloc_slot(old(self).gen.initial_base_bits, prev, next),
                                step,
                                old(self).gen.site_id,
                            )
                    },
                    Op::Delete { .. } => false,
                }
            }),
    {
        let ghost s = self@;
        let ghost base = self.gen.initial_base_bits;
        let lower = self.gen.lower();
        let upper = self.gen.upper();
        let len = self.text.len();
        // append!
        let ix_ident = if len <= ix {
            let prev = if len > 0 {
                &self.text[len - 1].0
            } else {
                &lower
            };
            assert(prev@ == insert_bounds(s, ix as int, base).0);
            self.gen.allocate(prev, &upper)
        } else {
            let prev = if ix == 0 {
                &lower
            } else {
                &self.text[ix - 1].0
            };
            let next = &self.text[ix].0;
            assert(prev@ == insert_bounds(s, ix as int, base).0);
            assert(next@ == insert_bounds(s, ix as int, base).1);
            self.gen.allocate(prev, next)
        };
        let ghost (prev, next) = insert_bounds(s, ix as int, base);
        let ghost pos = if ix < s.len() {
            ix as int
        } else {
            s.len() as int
        };
        proof {
            let slot = alloc_slot(base, prev, next);
            let st = choose|st: int|
                #[trigger] step_ok(slot.1, slot.2, st) && ix_ident@ == slot_result(
                    slot,
                    st,
                    self.gen.site_id,
                );
            lemma_alloc_between(base, self.gen.site_id, prev, next, st);
            let z = ix_ident@;
            // Everything before the position comes before the new identifier,
            // everything after it comes after.
            assert forall|j: int| 0 <= j < pos implies path_lt(#[trigger] s[j].0, z) by {
                if j < pos - 1 {
                    lemma_path_lt_transitive(s[j].0, s[pos - 1].0, z);
                }
            }
            assert forall|j: int| pos <= j < s.len() implies path_lt(z, #[trigger] s[j].0) by {
                if j > pos {
                    lemma_path_lt_transitive(z, s[pos].0, s[j].0);
                }
            }
            lemma_insert_at(s, (z, self.clock, self.gen.site_id, c), pos);
        }
        let op = Op::Insert { id: ix_ident, clock: self.clock, site_id: self.gen.site_id, c };
        self.clock += 1;
        self.apply(&op);
        proof {
            assert(chars(self@) =~= chars(s).insert(pos, c));
        }
        op
    }

    /// Deletes the entry at position `ix` and returns the operation to
    /// broadcast.
    pub fn local_delete(&mut self, ix: usize) -> (op: Op)
        requires
            old(self).wf(),
            old(self).clock < u64::MAX,
            ix < old(self)@.len(),
        ensures
            final(self).wf(),
            final(self).gen == old(self).gen,
            final(self).clock == old(self).clock + 1,
            final(self)@ == old(self)@.remove(ix as int),
            final(self)@ == op_effect(old(self)@, op),
            chars(final(self)@) == chars(old(self)@).remove(ix as int),
            match op {
                Op::Delete { remote, id, site_id, clock } => {
                    &&& id@ == old(self)@[ix as int].0
                    &&& remote == (old(self)@[ix as int].2, old(self)@[ix as int].1)
                    &&& site_id == old(self).gen.site_id
                    &&& clock == old(self).clock
                },
                Op::Insert { .. } => false,
            },
    {
        let ghost s = self@;
        let id = self.text[ix].0.duplicate();
        let data_clock = self.text[ix].1;
        let data_site = self.text[ix].2;
        let op = Op::Delete {
            id,
            remote: (data_site, data_clock),
            clock: self.clock,
            site_id: self.gen.site_id,
        };
        self.clock += 1;
        proof {
            assert forall|j: int| 0 <= j < ix implies #[trigger] s[j].0 != s[ix as int].0 by {
                lemma_path_lt_irreflexive(s[ix as int].0);
            }
            lemma_remove_at(s, s[ix as int].0, ix as int);
        }
        self.apply(&op);
        proof {
            assert(chars(self@) =~= chars(s).remove(ix as int));
        }
        op
    }

    /// The characters of the text, in order.
    pub fn text(&self) -> (r: String)
        ensures
            r@ == chars(self@),
    {
        let mut r = String::new();
        let mut i: usize = 0;
        while i < self.text.len()
            invariant
                i <= self.text.len(),
                r@ == chars(self@).take(i as int),
            decreases self.text.len() - i,
        {
            push_char(&mut r, self.text[i].3);
            i += 1;
            assert(r@ =~= chars(self@).take(i as int));
        }
        assert(chars(self@).take(i as int) =~= chars(self@));
        r
    }

    /// The entries, in order.
    pub fn raw_text(&self) -> (r: &Vec<Entry>)
        ensures
            r@ == self.text@,
    {
        &self.text
    }
}

/// Appends `c` to `s` (`String::push`, whose documentation says that it
/// appends the character to the end of the string).
#[verifier::external_body]
fn push_char(s: &mut String, c: char)
    ensures
        final(s)@ == old(s)@.push(c),
{
    s.push(c);
}

} // verus!
