//! Causality barrier.
//!
//! For each known peer it keeps the latest clock seen and the clocks below it
//! that have not been seen yet (a version vector with exceptions), and it holds
//! back the operations that depend on one not yet delivered.
use std::collections::HashMap;
use std::collections::HashSet;

use vstd::prelude::*;

verus! {

/// The identifier of a site (a peer).
#[derive(PartialEq, Eq, Debug, Copy, Clone, Hash, PartialOrd, Ord)]
pub struct SiteId(pub u32);

/// A logical clock value.
#[derive(PartialEq, Eq, Debug, Copy, Clone, PartialOrd, Ord, Hash)]
pub struct LogTime(pub u64);

/// Placeholder for a future identifier type.
pub struct TempId(u32);

impl From<u32> for SiteId {
    fn from(id: u32) -> (r: SiteId)
        ensures
            r.0 == id,
    {
        SiteId(id)
    }
}

impl vstd::std_specs::convert::FromSpecImpl<u32> for SiteId {
    open spec fn obeys_from_spec() -> bool {
        true
    }

    open spec fn from_spec(id: u32) -> SiteId {
        SiteId(id)
    }
}

impl From<u64> for LogTime {
    fn from(t: u64) -> (r: LogTime)
        ensures
            r.0 == t,
    {
        LogTime(t)
    }
}

impl vstd::std_specs::convert::FromSpecImpl<u64> for LogTime {
    open spec fn obeys_from_spec() -> bool {
        true
    }

    open spec fn from_spec(t: u64) -> LogTime {
        LogTime(t)
    }
}

/// What one site has delivered from one peer: every clock up to
/// `max_version`, except those in `exceptions`.
pub struct VectorEntry {
    pub max_version: LogTime,
    pub exceptions: HashSet<u64>,
}

impl View for VectorEntry {
    type V = (u64, Set<u64>);

    open spec fn view(&self) -> (u64, Set<u64>) {
        (self.max_version.0, self.exceptions@)
    }
}

/// The clocks strictly between `lo` and `hi`.
pub open spec fn clocks_between(lo: int, hi: int) -> Set<u64> {
    Set::new(|x: u64| lo < x < hi)
}

/// What `increment(clk)` makes of an entry: a clock below the maximum is no
/// longer an exception; a clock at or past the maximum becomes the new
/// maximum, and the clocks skipped in between become exceptions.
pub open spec fn increment_spec(e: (u64, Set<u64>), clk: u64) -> (u64, Set<u64>) {
    if clk < e.0 {
        (e.0, e.1.remove(clk))
    } else {
        (clk, e.1.union(clocks_between(e.0 as int, clk as int)))
    }
}

/// The entry of a peer not heard from yet: maximum zero, no exception.
pub open spec fn fresh_entry() -> (u64, Set<u64>) {
    (0u64, Set::<u64>::empty())
}

/// The entry is consistent: every exception lies below the maximum.
pub open spec fn entry_wf(e: (u64, Set<u64>)) -> bool {
    forall|x: u64| #[trigger] e.1.contains(x) ==> x < e.0
}

/// The clocks from `0` up to (not including) `hi`.
pub open spec fn clocks_below(hi: int) -> Set<u64> {
    Set::new(|x: u64| x < hi)
}

/// Clock `clk` counts as delivered: at most the maximum and not an exception.
pub open spec fn delivered(e: (u64, Set<u64>), clk: u64) -> bool {
    clk <= e.0 && !e.1.contains(clk)
}

/// `increment(clk)` stays within machine integers.
pub open spec fn increment_defined(e: (u64, Set<u64>), clk: u64) -> bool {
    clk < e.0 || e.0 < u64::MAX
}

/// The clocks an entry counts as seen when it is compared with another one:
/// those below its maximum that are not exceptions.
pub open spec fn seen_clocks(e: (u64, Set<u64>)) -> Set<u64> {
    Set::new(|x: u64| x < e.0 && !e.1.contains(x))
}

/// The clocks that `mine` has seen and `theirs` has not.
pub open spec fn diff_spec(mine: (u64, Set<u64>), theirs: (u64, Set<u64>)) -> Set<u64> {
    seen_clocks(mine).difference(seen_clocks(theirs))
}

impl VectorEntry {
    /// A fresh entry: maximum zero, no exception.
    pub fn new() -> (r: VectorEntry)
        ensures
            r@ == fresh_entry(),
    {
        VectorEntry { max_version: LogTime(0), exceptions: HashSet::new() }
    }

    /// Records that clock `clk` was delivered.
    pub fn increment(&mut self, clk: LogTime)
        requires
            increment_defined(old(self)@, clk.0),
        ensures
            final(self)@ == increment_spec(old(self)@, clk.0),
    {
        // We've just found an exception
        if clk.0 < self.max_version.0 {
            self.exceptions.remove(&clk.0);
        } else if clk.0 == self.max_version.0 + 1 {
            self.max_version = LogTime(self.max_version.0 + 1);
            assert(self.exceptions@ =~= old(self)@.1.union(
                clocks_between(old(self)@.0 as int, clk.0 as int),
            ));
        } else {
            let ghost start = self@;
            let mut x = self.max_version.0 + 1;
            while x < clk.0
                invariant
                    start == old(self)@,
                    start.0 < x <= clk.0 || (x == start.0 + 1 && clk.0 <= start.0),
                    self.max_version.0 == start.0,
                    self.exceptions@ == start.1.union(clocks_between(start.0 as int, x as int)),
                decreases clk.0 - x,
            {
                self.exceptions.insert(x);
                x = x + 1;
                assert(self.exceptions@ =~= start.1.union(clocks_between(start.0 as int, x as int)));
            }
            assert(self.exceptions@ =~= start.1.union(clocks_between(start.0 as int, clk.0 as int)));
            // the clock just received is the latest seen
            self.max_version = clk;
        }
    }

    /// Whether clock `clk` has been delivered.
    pub fn is_ready(&self, clk: LogTime) -> (r: bool)
        ensures
            r == delivered(self@, clk.0),
    {
        clk.0 <= self.max_version.0 && !self.exceptions.contains(&clk.0)
    }

    /// The clocks that this entry has delivered and the remote `other` has not.
    pub fn diff_from(&self, other: &Self) -> (r: HashSet<u64>)
        ensures
            r@ == diff_spec(self@, other@),
    {
        // 1. Find (new) operations that we've seen locally that the remote hasn't
        let mut r: HashSet<u64> = HashSet::new();
        let mut ix = other.max_version.0;
        while ix < self.max_version.0
            invariant
                other.max_version.0 <= ix <= self.max_version.0 || (ix == other.max_version.0
                    && self.max_version.0 <= ix),
                r@ == Set::new(
                    |x: u64| other@.0 <= x < ix && !self@.1.contains(x),
                ),
            decreases self.max_version.0 - ix,
        {
            if !self.exceptions.contains(&ix) {
                r.insert(ix);
            }
            ix = ix + 1;
            assert(r@ =~= Set::new(|x: u64| other@.0 <= x < ix && !self@.1.contains(x)));
        }
        assert(r@ =~= Set::new(|x: u64| other@.0 <= x < self@.0 && !self@.1.contains(x)));
        let ghost ranged = r@;
        let ghost mut seen: Set<u64> = Set::empty();
        // 2. Find exceptions that we've seen.
        for e in it: other.exceptions.iter()
            invariant
                it.seq().unref().to_set() == other@.1,
                seen == it.seq().take(it.index() as int).unref().to_set(),
                it.index() == it.seq().len() ==> seen == other@.1,
                r@ == ranged.union(
                    Set::new(|x: u64| seen.contains(x) && x < self@.0 && !self@.1.contains(x)),
                ),
        {
            let ghost done = it.seq().take(it.index() as int).unref();
            let ghost next = it.seq().take(it.index() + 1).unref();
            if *e < self.max_version.0 && !self.exceptions.contains(e) {
                r.insert(*e);
            }
            assert(next =~= done.push(*e));
            assert forall|x: u64| #[trigger] next.contains(x) <==> done.contains(x) || x == *e by {
                if x == *e {
                    assert(next[next.len() - 1] == x);
                }
                if done.contains(x) {
                    let j = choose|j: int| 0 <= j < done.len() && done[j] == x;
                    assert(next[j] == x);
                }
                if next.contains(x) {
                    let j = choose|j: int| 0 <= j < next.len() && next[j] == x;
                    if j < done.len() {
                        assert(done[j] == x);
                    }
                }
            }
            assert(next.to_set() =~= done.to_set().insert(*e));
            assert(it.index() + 1 == it.seq().len() ==> it.seq().take(it.index() + 1) =~= it.seq());
            proof {
                seen = seen.insert(*e);
            }
            assert(r@ =~= ranged.union(
                Set::new(|x: u64| seen.contains(x) && x < self@.0 && !self@.1.contains(x)),
            ));
        }
        assert(r@ =~= diff_spec(self@, other@));
        r
    }
}

/// Recording a clock in a consistent entry keeps it consistent, raises the
/// maximum to the clock when it is past it, and makes exactly that clock
/// delivered in addition to those delivered before.
pub proof fn lemma_increment_delivers(e: (u64, Set<u64>), clk: u64, t: u64)
    requires
        entry_wf(e),
        increment_defined(e, clk),
    ensures
        entry_wf(increment_spec(e, clk)),
        increment_spec(e, clk).0 == if clk < e.0 {
            e.0
        } else {
            clk
        },
        delivered(increment_spec(e, clk), t) == (delivered(e, t) || t == clk),
{
}

/// Recording a clock never lowers the maximum, and never forgets a
/// delivered clock.
pub proof fn lemma_increment_monotone(e: (u64, Set<u64>), clk: u64, other: u64)
    requires
        increment_defined(e, clk),
    ensures
        increment_spec(e, clk).0 >= e.0,
        delivered(e, other) ==> delivered(increment_spec(e, clk), other),
{
}

/// A fresh entry is consistent.
pub proof fn lemma_fresh_entry_wf()
    ensures
        entry_wf(fresh_entry()),
{
}

/// An entry owes nothing to an identical one.
pub proof fn lemma_diff_self_empty(e: (u64, Set<u64>))
    ensures
        diff_spec(e, e) == Set::<u64>::empty(),
{
    assert(diff_spec(e, e) =~= Set::<u64>::empty());
}

/// Against a fresh entry, the difference is every clock below the maximum
/// that is not an exception.
pub proof fn lemma_diff_from_fresh(e: (u64, Set<u64>))
    ensures
        diff_spec(e, fresh_entry()) == Set::new(
            |x: u64| x < e.0 && !e.1.contains(x),
        ),
{
    assert(diff_spec(e, fresh_entry()) =~= Set::new(
        |x: u64| x < e.0 && !e.1.contains(x),
    ));
}

/// An operation that the barrier can order.
pub trait CausalOp {
    /// The site and clock of the operation that this one depends on, if any
    /// (a deletion depends on the insertion of what it deletes).
    spec fn depends_on(&self) -> Option<(u32, u64)>;

    /// The site and clock of the operation itself.
    spec fn origin(&self) -> (u32, u64);

    /// Tells us the operation we causally depend on.
    fn happens_before(&self) -> (r: Option<(SiteId, LogTime)>)
        ensures
            match r {
                Some(d) => self.depends_on() == Some((d.0.0, d.1.0)),
                None => self.depends_on() is None,
            },
    ;

    /// The site of the operation.
    fn site(&self) -> (r: SiteId)
        ensures
            r.0 == self.origin().0,
    ;

    /// The clock of the operation.
    fn clock(&self) -> (r: LogTime)
        ensures
            r.0 == self.origin().1,
    ;
}

/// The operation that `known` has delivered from site `d.0` at clock `d.1`:
/// the site is known, and the clock is delivered there.
pub open spec fn dep_delivered(known: Map<u32, (u64, Set<u64>)>, d: (u32, u64)) -> bool {
    known.contains_key(d.0) && delivered(known[d.0], d.1)
}

/// An operation as received from a peer: the sender's clock and site, and
/// the operation.
#[derive(PartialEq, Debug, Eq, Hash, PartialOrd, Ord)]
pub struct CausalMessage<T> {
    pub time: LogTime,
    pub local_id: SiteId,
    pub msg: T,
}

/// The key under which an operation is held back.
pub open spec fn buf_key<T>(e: (SiteId, LogTime, T)) -> (u32, u64) {
    (e.0.0, e.1.0)
}

/// The held-back operations by key (the last entry for a key wins; the
/// barrier keeps keys distinct).
pub open spec fn buffer_map<T>(s: Seq<(SiteId, LogTime, T)>) -> Map<(u32, u64), T>
    decreases s.len(),
{
    if s.len() == 0 {
        Map::empty()
    } else {
        buffer_map(s.drop_last()).insert(buf_key(s.last()), s.last().2)
    }
}

/// No key occurs twice.
pub open spec fn keys_distinct<T>(s: Seq<(SiteId, LogTime, T)>) -> bool {
    forall|i: int, j: int|
        0 <= i < j < s.len() ==> buf_key(#[trigger] s[i]) != buf_key(#[trigger] s[j])
}

/// The held-back map holds exactly the keys of the list, each with its value.
pub proof fn lemma_buffer_map<T>(s: Seq<(SiteId, LogTime, T)>)
    requires
        keys_distinct(s),
    ensures
        forall|i: int|
            0 <= i < s.len() ==> #[trigger] buffer_map(s).contains_key(buf_key(s[i]))
                && buffer_map(s)[buf_key(s[i])] == s[i].2,
        forall|k: (u32, u64)|
            #[trigger] buffer_map(s).contains_key(k) ==> exists|i: int|
                0 <= i < s.len() && buf_key(#[trigger] s[i]) == k,
    decreases s.len(),
{
    if s.len() > 0 {
        let t = s.drop_last();
        assert forall|i: int, j: int| 0 <= i < j < t.len() implies buf_key(#[trigger] t[i])
            != buf_key(#[trigger] t[j]) by {
            assert(t[i] == s[i] && t[j] == s[j]);
        }
        lemma_buffer_map(t);
        assert(buffer_map(s) == buffer_map(t).insert(buf_key(s.last()), s.last().2));
        assert forall|i: int| 0 <= i < s.len() implies #[trigger] buffer_map(s).contains_key(
            buf_key(s[i]),
        ) && buffer_map(s)[buf_key(s[i])] == s[i].2 by {
            if i < s.len() - 1 {
                assert(t[i] == s[i]);
                assert(buffer_map(t).contains_key(buf_key(t[i])));
                assert(buf_key(s[i]) != buf_key(s[s.len() - 1]));
            }
        }
        assert forall|k: (u32, u64)| #[trigger] buffer_map(s).contains_key(k) implies exists|i: int|
            0 <= i < s.len() && buf_key(#[trigger] s[i]) == k by {
            if k != buf_key(s.last()) {
                assert(buffer_map(t).contains_key(k));
                let i = choose|i: int| 0 <= i < t.len() && buf_key(#[trigger] t[i]) == k;
                assert(s[i] == t[i]);
            } else {
                assert(buf_key(s[s.len() - 1]) == k);
            }
        }
    }
}

/// Replacing the value of an entry replaces it in the map.
proof fn lemma_buffer_map_update<T>(s: Seq<(SiteId, LogTime, T)>, i: int, e: (SiteId, LogTime, T))
    requires
        keys_distinct(s),
        0 <= i < s.len(),
        buf_key(e) == buf_key(s[i]),
    ensures
        keys_distinct(s.update(i, e)),
        buffer_map(s.update(i, e)) == buffer_map(s).insert(buf_key(e), e.2),
{
    let t = s.update(i, e);
    assert forall|a: int, b: int| 0 <= a < b < t.len() implies buf_key(#[trigger] t[a]) != buf_key(
        #[trigger] t[b],
    ) by {
        assert(buf_key(t[a]) == buf_key(s[a]));
        assert(buf_key(t[b]) == buf_key(s[b]));
    }
    lemma_buffer_map(s);
    lemma_buffer_map(t);
    assert forall|k: (u32, u64)| #[trigger] buffer_map(t).contains_key(k) <==> buffer_map(
        s,
    ).insert(buf_key(e), e.2).contains_key(k) by {
        if buffer_map(t).contains_key(k) {
            let j = choose|j: int| 0 <= j < t.len() && buf_key(#[trigger] t[j]) == k;
            assert(buf_key(t[j]) == buf_key(s[j]));
        }
        if buffer_map(s).contains_key(k) {
            let j = choose|j: int| 0 <= j < s.len() && buf_key(#[trigger] s[j]) == k;
            assert(buf_key(t[j]) == buf_key(s[j]));
        }
    }
    assert forall|k: (u32, u64)| #[trigger] buffer_map(t).contains_key(k) implies buffer_map(t)[k]
        == buffer_map(s).insert(buf_key(e), e.2)[k] by {
        let j = choose|j: int| 0 <= j < t.len() && buf_key(#[trigger] t[j]) == k;
        if j != i {
            assert(t[j] == s[j]);
        }
    }
    assert(buffer_map(t) =~= buffer_map(s).insert(buf_key(e), e.2));
}

/// Removing an entry removes its key from the map.
proof fn lemma_buffer_map_remove<T>(s: Seq<(SiteId, LogTime, T)>, i: int)
    requires
        keys_distinct(s),
        0 <= i < s.len(),
    ensures
        keys_distinct(s.remove(i)),
        buffer_map(s.remove(i)) == buffer_map(s).remove(buf_key(s[i])),
{
    let t = s.remove(i);
    let k0 = buf_key(s[i]);
    assert forall|a: int, b: int| 0 <= a < b < t.len() implies buf_key(#[trigger] t[a]) != buf_key(
        #[trigger] t[b],
    ) by {
        let a2 = if a < i {
            a
        } else {
            a + 1
        };
        let b2 = if b < i {
            b
        } else {
            b + 1
        };
        assert(t[a] == s[a2] && t[b] == s[b2]);
    }
    lemma_buffer_map(s);
    lemma_buffer_map(t);
    assert forall|k: (u32, u64)| #[trigger] buffer_map(t).contains_key(k) <==> buffer_map(s).remove(
        k0,
    ).contains_key(k) by {
        if buffer_map(t).contains_key(k) {
            let j = choose|j: int| 0 <= j < t.len() && buf_key(#[trigger] t[j]) == k;
            let j2 = if j < i {
                j
            } else {
                j + 1
            };
            assert(t[j] == s[j2]);
        }
        if buffer_map(s).contains_key(k) && k != k0 {
            let j = choose|j: int| 0 <= j < s.len() && buf_key(#[trigger] s[j]) == k;
            if j < i {
                assert(t[j] == s[j]);
            } else {
                assert(t[j - 1] == s[j]);
            }
        }
    }
    assert forall|k: (u32, u64)| #[trigger] buffer_map(t).contains_key(k) implies buffer_map(t)[k]
        == buffer_map(s).remove(k0)[k] by {
        let j = choose|j: int| 0 <= j < t.len() && buf_key(#[trigger] t[j]) == k;
        let j2 = if j < i {
            j
        } else {
            j + 1
        };
        assert(t[j] == s[j2]);
    }
    assert(buffer_map(t) =~= buffer_map(s).remove(k0));
}

/// An operation held back under the key `k` of the one it waits for, then
/// that one arriving: it finds the first, and afterwards nothing is held under
/// `k` (what was held under other keys is untouched).
pub proof fn lemma_hold_then_cancel<T>(before: Map<(u32, u64), T>, k: (u32, u64), m: T)
    ensures
        before.insert(k, m).contains_key(k),
        before.insert(k, m).remove(k) == before.remove(k),
        !before.insert(k, m).remove(k).contains_key(k),
{
    assert(before.insert(k, m).remove(k) =~= before.remove(k));
}

/// Version vector with exceptions, and the operations held back.
pub struct CausalityBarrier<T: CausalOp> {
    pub peers: HashMap<u32, VectorEntry>,
    pub local_id: SiteId,
    pub buffer: Vec<(SiteId, LogTime, T)>,
}

/// What the barrier knows of each peer.
pub open spec fn peers_view(peers: Map<u32, VectorEntry>) -> Map<u32, (u64, Set<u64>)> {
    peers.map_values(|e: VectorEntry| e@)
}

/// The entry of `site`, or that of a peer not heard from yet.
pub open spec fn entry_of(peers: Map<u32, (u64, Set<u64>)>, site: u32) -> (u64, Set<u64>) {
    if peers.contains_key(site) {
        peers[site]
    } else {
        fresh_entry()
    }
}

/// For each peer that `mine` knows: the clocks `mine` has seen from it and
/// `theirs` has not (every clock below `mine`'s maximum when `theirs` has
/// never heard of that peer).
pub open spec fn barrier_diff(
    mine: Map<u32, (u64, Set<u64>)>,
    theirs: Map<u32, (u64, Set<u64>)>,
) -> Map<u32, Set<u64>> {
    Map::new(
        |s: u32| mine.contains_key(s),
        |s: u32|
            if theirs.contains_key(s) {
                diff_spec(mine[s], theirs[s])
            } else {
                clocks_below(mine[s].0 as int)
            },
    )
}

/// What a replica owes a peer, clock by clock: it has an answer for exactly
/// the sites it knows; for a site the peer knows too, a clock is owed exactly
/// when it was delivered here (below our maximum, not one of our exceptions)
/// and not there (at or past the peer's maximum, or one of its exceptions);
/// for a site the peer has never heard of, every clock below our maximum is
/// owed.
pub proof fn lemma_barrier_diff_owed(
    mine: Map<u32, (u64, Set<u64>)>,
    theirs: Map<u32, (u64, Set<u64>)>,
    s: u32,
    x: u64,
)
    ensures
        barrier_diff(mine, theirs).contains_key(s) == mine.contains_key(s),
        mine.contains_key(s) && theirs.contains_key(s) ==> (barrier_diff(mine, theirs)[s].contains(x)
            <==> (x < mine[s].0 && !mine[s].1.contains(x) && (x >= theirs[s].0
            || theirs[s].1.contains(x)))),
        mine.contains_key(s) && !theirs.contains_key(s) ==> (barrier_diff(
            mine,
            theirs,
        )[s].contains(x) <==> x < mine[s].0),
{
}

/// What one entry owes another, clock by clock: a clock is owed exactly when
/// `mine` has it below its maximum and not as an exception, and `theirs` has
/// it at or past its maximum or as an exception.
pub proof fn lemma_entry_diff_owed(mine: (u64, Set<u64>), theirs: (u64, Set<u64>), x: u64)
    ensures
        diff_spec(mine, theirs).contains(x) <==> (x < mine.0 && !mine.1.contains(x) && (x
            >= theirs.0 || theirs.1.contains(x))),
{
}

/// The clocks of each site in a map of clock sets.
pub open spec fn clock_sets(m: Map<u32, HashSet<u64>>) -> Map<u32, Set<u64>> {
    m.map_values(|h: HashSet<u64>| h@)
}

/// The clocks below `hi`, as a set.
fn clocks_below_set(hi: u64) -> (r: HashSet<u64>)
    ensures
        r@ == clocks_below(hi as int),
{
    let mut r: HashSet<u64> = HashSet::new();
    let mut x: u64 = 0;
    while x < hi
        invariant
            x <= hi,
            r@ == clocks_below(x as int),
        decreases hi - x,
    {
        r.insert(x);
        x = x + 1;
        assert(r@ =~= clocks_below(x as int));
    }
    r
}

impl<T: CausalOp> CausalityBarrier<T> {
    /// No key is held back twice.
    pub open spec fn wf(&self) -> bool {
        keys_distinct(self.buffer@)
    }

    /// What the barrier knows of each peer.
    pub open spec fn known(&self) -> Map<u32, (u64, Set<u64>)> {
        peers_view(self.peers@)
    }

    /// The operations held back, by key.
    pub open spec fn held(&self) -> Map<(u32, u64), T> {
        buffer_map(self.buffer@)
    }

    /// An empty barrier for the local site `site_id`.
    pub fn new(site_id: SiteId) -> (r: Self)
        ensures
            r.wf(),
            r.known() == Map::<u32, (u64, Set<u64>)>::empty(),
            r.held() == Map::<(u32, u64), T>::empty(),
            r.local_id == site_id,
    {
        let r = CausalityBarrier { peers: HashMap::new(), buffer: Vec::new(), local_id: site_id };
        assert(r.known() =~= Map::<u32, (u64, Set<u64>)>::empty());
        r
    }

    /// The position of `key` in the held-back list.
    fn find(&self, key: (SiteId, LogTime)) -> (r: Option<usize>)
        requires
            self.wf(),
        ensures
            match r {
                Some(i) => i < self.buffer@.len() && buf_key(self.buffer@[i as int]) == (
                    key.0.0,
                    key.1.0,
                ),
                None => !self.held().contains_key((key.0.0, key.1.0)),
            },
    {
        let mut i: usize = 0;
        while i < self.buffer.len()
            invariant
                self.wf(),
                i <= self.buffer@.len(),
                forall|j: int| 0 <= j < i ==> buf_key(#[trigger] self.buffer@[j]) != (key.0.0, key.1.0),
            decreases self.buffer.len() - i,
        {
            let e = &self.buffer[i];
            if e.0.0 == key.0.0 && e.1.0 == key.1.0 {
                return Some(i);
            }
            i += 1;
        }
        proof {
            lemma_buffer_map(self.buffer@);
            if self.held().contains_key((key.0.0, key.1.0)) {
                let j = choose|j: int|
                    0 <= j < self.buffer@.len() && buf_key(#[trigger] self.buffer@[j]) == (
                        key.0.0,
                        key.1.0,
                    );
            }
        }
        None
    }

    /// Records clock `time` of `site` in the version vector.
    fn record(&mut self, site: SiteId, time: LogTime)
        requires
            increment_defined(entry_of(old(self).known(), site.0), time.0),
        ensures
            final(self).known() == old(self).known().insert(
                site.0,
                increment_spec(entry_of(old(self).known(), site.0), time.0),
            ),
            final(self).buffer == old(self).buffer,
            final(self).local_id == old(self).local_id,
    {
        let mut v = match self.peers.remove(&site.0) {
            Some(v) => v,
            None => VectorEntry::new(),
        };
        v.increment(time);
        self.peers.insert(site.0, v);
        assert(self.known() =~= old(self).known().insert(
            site.0,
            increment_spec(entry_of(old(self).known(), site.0), time.0),
        ));
    }

    /// Whether no key is held back twice (as every barrier built by these
    /// operations holds; one read back from storage may not).
    pub fn keys_are_distinct(&self) -> (r: bool)
        ensures
            r == self.wf(),
    {
        let n = self.buffer.len();
        let mut i: usize = 0;
        while i < n
            invariant
                n == self.buffer@.len(),
                i <= n,
                forall|a: int, b: int|
                    0 <= a < b < i ==> buf_key(#[trigger] self.buffer@[a]) != buf_key(
                        #[trigger] self.buffer@[b],
                    ),
            decreases n - i,
        {
            let mut j: usize = 0;
            while j < i
                invariant
                    n == self.buffer@.len(),
                    j <= i < n,
                    forall|a: int| 0 <= a < j ==> buf_key(#[trigger] self.buffer@[a]) != buf_key(
                        self.buffer@[i as int],
                    ),
                decreases i - j,
            {
                if (self.buffer[j].0).0 == (self.buffer[i].0).0 && (self.buffer[j].1).0 == (
                self.buffer[i].1).0 {
                    assert(buf_key(self.buffer@[j as int]) == buf_key(self.buffer@[i as int]));
                    return false;
                }
                j += 1;
            }
            i += 1;
        }
        true
    }

    /// Whether a clock from `site` can be recorded: recording it raises no
    /// maximum past `u64::MAX`.
    pub fn can_record(&self, site: SiteId, clk: LogTime) -> (r: bool)
        ensures
            r == increment_defined(entry_of(self.known(), site.0), clk.0),
    {
        match self.peers.get(&site.0) {
            Some(e) => clk.0 < e.max_version.0 || e.max_version.0 < u64::MAX,
            None => true,
        }
    }

    /// Whether the operation of site `site` at clock `clk` has been delivered.
    pub fn has_delivered(&self, site: SiteId, clk: LogTime) -> (r: bool)
        ensures
            r == dep_delivered(self.known(), (site.0, clk.0)),
    {
        match self.peers.get(&site.0) {
            Some(e) => e.is_ready(clk),
            None => false,
        }
    }

    /// Holds `m` back under `key`, in place of what was held there.
    fn hold(&mut self, key: (SiteId, LogTime), m: T)
        requires
            old(self).wf(),
        ensures
            final(self).wf(),
            final(self).peers == old(self).peers,
            final(self).local_id == old(self).local_id,
            final(self).held() == old(self).held().insert((key.0.0, key.1.0), m),
    {
        let e = (key.0, key.1, m);
        match self.find(key) {
            Some(i) => {
                proof {
                    lemma_buffer_map_update(self.buffer@, i as int, e);
                }
                self.buffer.set(i, e);
            },
            None => {
                proof {
                    lemma_buffer_map(self.buffer@);
                    assert forall|a: int, b: int|
                        0 <= a < b < self.buffer@.push(e).len() implies buf_key(
                        #[trigger] self.buffer@.push(e)[a],
                    ) != buf_key(#[trigger] self.buffer@.push(e)[b]) by {
                        if b == self.buffer@.len() {
                            assert(self.buffer@.push(e)[a] == self.buffer@[a]);
                        } else {
                            assert(self.buffer@.push(e)[a] == self.buffer@[a]);
                            assert(self.buffer@.push(e)[b] == self.buffer@[b]);
                        }
                    }
                    assert(self.buffer@.push(e).drop_last() =~= self.buffer@);
                }
                self.buffer.push(e);
            },
        }
    }

    /// Delivers a message, given what the operation's `happens_before`, `site`
    /// and `clock` answer (`dep` and `key`). An operation that depends on one
    /// not yet delivered is held back under that one's key; one whose
    /// dependency is delivered is handed out. An operation without dependency
    /// is handed out, unless an operation held back under its own key cancels
    /// it. The message's clock is recorded after the decision.
    pub fn ingest_decided(
        &mut self,
        msg: CausalMessage<T>,
        dep: Option<(SiteId, LogTime)>,
        key: (SiteId, LogTime),
    ) -> (r: Option<T>)
        requires
            old(self).wf(),
            increment_defined(entry_of(old(self).known(), msg.local_id.0), msg.time.0),
        ensures
            final(self).wf(),
            final(self).local_id == old(self).local_id,
            final(self).known() == old(self).known().insert(
                msg.local_id.0,
                increment_spec(entry_of(old(self).known(), msg.local_id.0), msg.time.0),
            ),
            match dep {
                Some(d) => if dep_delivered(old(self).known(), (d.0.0, d.1.0)) {
                    r == Some(msg.msg) && final(self).held() == old(self).held()
                } else {
                    r == None::<T> && final(self).held() == old(self).held().insert(
                        (d.0.0, d.1.0),
                        msg.msg,
                    )
                },
                None => if old(self).held().contains_key((key.0.0, key.1.0)) {
                    r == None::<T> && final(self).held() == old(self).held().remove(
                        (key.0.0, key.1.0),
                    )
                } else {
                    r == Some(msg.msg) && final(self).held() == old(self).held()
                },
            },
    {
        let ready = match dep {
            Some(d) => self.has_delivered(d.0, d.1),
            None => false,
        };
        self.record(msg.local_id, msg.time);
        match dep {
            Some(d) => {
                if ready {
                    Some(msg.msg)
                } else {
                    // Its dependency has not arrived: hold it back until then.
                    self.hold(d, msg.msg);
                    None
                }
            },
            None => {
                // Not causally constrained: but a held-back operation for it
                // cancels both.
                match self.find(key) {
                    Some(i) => {
                        proof {
                            lemma_buffer_map(self.buffer@);
                            lemma_buffer_map_remove(self.buffer@, i as int);
                        }
                        let _ = self.buffer.remove(i);
                        None
                    },
                    None => Some(msg.msg),
                }
            },
        }
    }

    /// Delivers a message received from a peer (see `ingest_decided`, which
    /// gets what the operation's `happens_before`, `site` and `clock` answer).
    pub fn ingest(&mut self, msg: CausalMessage<T>) -> (r: Option<T>)
        requires
            old(self).wf(),
            increment_defined(entry_of(old(self).known(), msg.local_id.0), msg.time.0),
        ensures
            final(self).wf(),
            final(self).local_id == old(self).local_id,
            final(self).known() == old(self).known().insert(
                msg.local_id.0,
                increment_spec(entry_of(old(self).known(), msg.local_id.0), msg.time.0),
            ),
            match msg.msg.depends_on() {
                Some(d) => if dep_delivered(old(self).known(), d) {
                    r == Some(msg.msg) && final(self).held() == old(self).held()
                } else {
                    r == None::<T> && final(self).held() == old(self).held().insert(d, msg.msg)
                },
                None => if old(self).held().contains_key(msg.msg.origin()) {
                    r == None::<T> && final(self).held() == old(self).held().remove(
                        msg.msg.origin(),
                    )
                } else {
                    r == Some(msg.msg) && final(self).held() == old(self).held()
                },
            },
    {
        let dep = msg.msg.happens_before();
        let key = (msg.msg.site(), msg.msg.clock());
        self.ingest_decided(msg, dep, key)
    }

    /// For each peer this barrier knows, the clocks it has delivered that the
    /// remote version vector `other` has not.
    pub fn diff_from(&self, other: &HashMap<u32, VectorEntry>) -> (r: HashMap<u32, HashSet<u64>>)
        ensures
            clock_sets(r@) == barrier_diff(self.known(), peers_view(other@)),
    {
        let mut ret: HashMap<u32, HashSet<u64>> = HashMap::new();
        let ghost mine = self.known();
        let ghost theirs = peers_view(other@);
        let ghost mut seen: Set<u32> = Set::empty();
        for (site_id, entry) in it: self.peers.iter()
            invariant
                mine == self.known(),
                theirs == peers_view(other@),
                it.seq().len() == self.peers@.dom().len(),
                forall|j: int|
                    #![trigger it.seq()[j]]
                    0 <= j < it.seq().len() ==> self.peers@.contains_key(*it.seq()[j].0)
                        && self.peers@[*it.seq()[j].0] == *it.seq()[j].1,
                forall|k: u32|
                    #[trigger] self.peers@.contains_key(k) ==> it.seq().contains(
                        (&k, &self.peers@[k]),
                    ),
                forall|j: int|
                    #![trigger it.seq()[j]]
                    0 <= j < it.index() ==> seen.contains(*it.seq()[j].0),
                forall|k: u32| #[trigger] ret@.contains_key(k) <==> seen.contains(k),
                forall|k: u32|
                    #[trigger] seen.contains(k) ==> mine.contains_key(k) && ret@[k]@ == barrier_diff(
                        mine,
                        theirs,
                    )[k],
                it.index() == it.seq().len() ==> forall|k: u32|
                    #[trigger] mine.contains_key(k) ==> seen.contains(k),
        {
            let ghost j = it.index();
            let e_diff = match other.get(site_id) {
                Some(remote_entry) => entry.diff_from(remote_entry),
                None => clocks_below_set(entry.max_version.0),
            };
            assert(self.peers@[*site_id] == *entry);
            ret.insert(*site_id, e_diff);
            proof {
                seen = seen.insert(*site_id);
            }
            assert forall|k: u32| #[trigger] mine.contains_key(k) && it.index() + 1 == it.seq().len()
                implies seen.contains(k) by {
                assert(self.peers@.contains_key(k));
                let i = choose|i: int| 0 <= i < it.seq().len() && it.seq()[i] == (&k, &self.peers@[k]);
                if i < j {
                    assert(seen.contains(*it.seq()[i].0));
                }
            }
        }
        proof {
            assert(forall|k: u32| #[trigger] mine.contains_key(k) ==> seen.contains(k));
        }
        assert(clock_sets(ret@) =~= barrier_diff(mine, theirs));
        ret
    }

    /// Sets the local site's maximum clock to `clock` (creating its entry if
    /// needed); its exceptions stay as they were.
    pub fn record_local(&mut self, clock: LogTime)
        ensures
            final(self).wf() == old(self).wf(),
            final(self).buffer == old(self).buffer,
            final(self).local_id == old(self).local_id,
            final(self).known() == old(self).known().insert(
                old(self).local_id.0,
                (clock.0, entry_of(old(self).known(), old(self).local_id.0).1),
            ),
    {
        let mut v = match self.peers.remove(&self.local_id.0) {
            Some(v) => v,
            None => VectorEntry::new(),
        };
        v.max_version = clock;
        self.peers.insert(self.local_id.0, v);
        assert(self.known() =~= old(self).known().insert(
            old(self).local_id.0,
            (clock.0, entry_of(old(self).known(), old(self).local_id.0).1),
        ));
    }

    /// Records a local operation's clock as the local site's latest, and
    /// hands the operation back.
    pub fn expel(&mut self, msg: T) -> (r: T)
        ensures
            r == msg,
            final(self).wf() == old(self).wf(),
            final(self).buffer == old(self).buffer,
            final(self).local_id == old(self).local_id,
            final(self).known() == old(self).known().insert(
                old(self).local_id.0,
                (msg.origin().1, entry_of(old(self).known(), old(self).local_id.0).1),
            ),
    {
        let clock = msg.clock();
        self.record_local(clock);
        msg
    }
}

} // verus!
