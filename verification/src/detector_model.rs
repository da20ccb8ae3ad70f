use vstd::prelude::*;

verus! {

/// The abstract state of a deadlock detector: the three matrices of the
/// banker's algorithm, indexed by thread id (rows) and resource id (columns).
pub struct DetectorModel {
    /// Units of each resource that no thread holds.
    pub available: Seq<usize>,
    /// `allocation[t][r]`: units of resource `r` held by thread `t`.
    pub allocation: Seq<Seq<usize>>,
    /// `need[t][r]`: units of resource `r` that thread `t` still waits for.
    pub need: Seq<Seq<usize>>,
}

/// The views of a matrix stored as a vector of rows.
pub open spec fn rows(m: Seq<Vec<usize>>) -> Seq<Seq<usize>> {
    m.map_values(|r: Vec<usize>| r@)
}

/// Units of resource `j` held together by the threads `i < k` that belong to `s`.
pub open spec fn held(alloc: Seq<Seq<usize>>, s: Set<int>, j: int, k: int) -> int
    decreases k,
{
    if k <= 0 {
        0
    } else {
        held(alloc, s, j, k - 1) + if s.contains(k - 1) {
            alloc[k - 1][j] as int
        } else {
            0int
        }
    }
}

/// A row of `len` zeros.
pub open spec fn zeros(len: int) -> Seq<usize> {
    Seq::new(len as nat, |j: int| 0usize)
}

/// `row` brought to length `len` the way `Vec::resize(len, 0)` does it.
pub open spec fn resized(row: Seq<usize>, len: int) -> Seq<usize> {
    if len <= row.len() {
        row.subrange(0, len)
    } else {
        row + zeros(len - row.len())
    }
}

impl DetectorModel {
    pub open spec fn n_threads(self) -> int {
        self.allocation.len() as int
    }

    pub open spec fn n_resources(self) -> int {
        self.available.len() as int
    }

    /// All units of resource `j` that the detector accounts for: the free
    /// ones and those that some thread holds.
    pub open spec fn total(self, j: int) -> int {
        self.available[j] + held(self.allocation, Set::full(), j, self.n_threads())
    }

    /// The shape of the matrices agrees, and no resource accounts for more
    /// units than a `usize` can count.
    pub open spec fn wf(self) -> bool {
        &&& self.need.len() == self.allocation.len()
        &&& forall|i: int|
            0 <= i < self.n_threads() ==> #[trigger] self.allocation[i].len() == self.n_resources()
        &&& forall|i: int|
            0 <= i < self.n_threads() ==> #[trigger] self.need[i].len() == self.n_resources()
        &&& forall|j: int| 0 <= j < self.n_resources() ==> #[trigger] self.total(j) <= usize::MAX
    }

    /// Thread `i` can run to completion once the threads in `done` have
    /// finished and given back what they hold.
    pub open spec fn can_finish(self, i: int, done: Set<int>) -> bool {
        forall|j: int|
            0 <= j < self.n_resources() && j < self.need[i].len() ==> #[trigger] self.need[i][j]
                <= self.available[j] + held(self.allocation, done, j, self.n_threads())
    }

    /// What the safety check reads is there: a need row for every thread,
    /// and an allocation entry for every thread and resource; and no
    /// resource accounts for more units than a `usize` can count.
    pub open spec fn check_ready(self) -> bool {
        &&& self.need.len() >= self.allocation.len()
        &&& forall|i: int|
            0 <= i < self.n_threads() ==> #[trigger] self.allocation[i].len() >= self.n_resources()
        &&& forall|j: int| 0 <= j < self.n_resources() ==> #[trigger] self.total(j) <= usize::MAX
    }

    /// `s` orders all threads so that each one can finish with what is free
    /// and what the threads before it give back.
    pub open spec fn is_safe_sequence(self, s: Seq<int>) -> bool {
        &&& s.no_duplicates()
        &&& forall|k: int| 0 <= k < s.len() ==> 0 <= #[trigger] s[k] < self.n_threads()
        &&& forall|i: int| 0 <= i < self.n_threads() ==> #[trigger] s.contains(i)
        &&& forall|k: int| 0 <= k < s.len() ==> self.can_finish(#[trigger] s[k], s.take(k).to_set())
    }

    /// No order lets every thread finish.
    pub open spec fn deadlocked(self) -> bool {
        !exists|s: Seq<int>| self.is_safe_sequence(s)
    }

    /// The state after registering thread `tid`: rows of zeros are appended
    /// until there is a row for `tid`.
    pub open spec fn with_thread(self, tid: int) -> DetectorModel {
        if self.allocation.len() <= tid {
            DetectorModel {
                available: self.available,
                allocation: self.allocation + Seq::new(
                    (tid + 1 - self.allocation.len()) as nat,
                    |i: int| zeros(self.n_resources()),
                ),
                need: self.need + Seq::new(
                    (tid + 1 - self.need.len()) as nat,
                    |i: int| zeros(self.n_resources()),
                ),
            }
        } else {
            self
        }
    }

    /// The state after registering resource `rid` with `count` free units:
    /// no thread holds or waits for it any more.
    pub open spec fn with_resource(self, rid: int, count: usize) -> DetectorModel {
        if self.available.len() <= rid {
            DetectorModel {
                available: resized(self.available, rid + 1).update(rid, count),
                allocation: self.allocation.map_values(|row: Seq<usize>| resized(row, rid + 1)),
                need: self.need.map_values(|row: Seq<usize>| resized(row, rid + 1)),
            }
        } else {
            DetectorModel {
                available: self.available.update(rid, count),
                allocation: self.allocation.map_values(|row: Seq<usize>| row.update(rid, 0usize)),
                need: self.need.map_values(|row: Seq<usize>| row.update(rid, 0usize)),
            }
        }
    }

    /// `m` with entry `[t][r]` set to `v`.
    pub open spec fn set_entry(m: Seq<Seq<usize>>, t: int, r: int, v: int) -> Seq<Seq<usize>> {
        m.update(t, m[t].update(r, v as usize))
    }

    /// Thread `tid` declares that it waits for `count` more units of `rid`.
    pub open spec fn claimed(self, tid: int, rid: int, count: int) -> DetectorModel {
        DetectorModel {
            need: Self::set_entry(self.need, tid, rid, self.need[tid][rid] + count),
            ..self
        }
    }

    /// Thread `tid` withdraws its claim on `count` units of `rid`.
    pub open spec fn unclaimed(self, tid: int, rid: int, count: int) -> DetectorModel {
        DetectorModel {
            need: Self::set_entry(self.need, tid, rid, self.need[tid][rid] - count),
            ..self
        }
    }

    /// `count` units of `rid` move from the free pool to thread `tid`,
    /// which then waits for `count` fewer.
    pub open spec fn granted(self, tid: int, rid: int, count: int) -> DetectorModel {
        DetectorModel {
            available: self.available.update(rid, (self.available[rid] - count) as usize),
            allocation: Self::set_entry(
                self.allocation,
                tid,
                rid,
                self.allocation[tid][rid] + count,
            ),
            need: Self::set_entry(self.need, tid, rid, self.need[tid][rid] - count),
        }
    }

    /// Thread `tid` gives `count` units of `rid` back to the free pool.
    pub open spec fn released(self, tid: int, rid: int, count: int) -> DetectorModel {
        DetectorModel {
            available: self.available.update(rid, (self.available[rid] + count) as usize),
            allocation: Self::set_entry(
                self.allocation,
                tid,
                rid,
                self.allocation[tid][rid] - count,
            ),
            ..self
        }
    }

    /// A request is granted when the units are free, the thread has claimed
    /// them, and handing them over leaves a state that is not deadlocked.
    pub open spec fn request_granted(self, tid: int, rid: int, count: int) -> bool {
        &&& count <= self.available[rid]
        &&& count <= self.need[tid][rid]
        &&& !self.granted(tid, rid, count).deadlocked()
    }

    /// The same state with the threads numbered anew: thread `i` of the new
    /// state is thread `p[i]` of this one.
    pub open spec fn renumbered(self, p: Seq<int>) -> DetectorModel {
        DetectorModel {
            available: self.available,
            allocation: Seq::new(p.len(), |i: int| self.allocation[p[i]]),
            need: Seq::new(p.len(), |i: int| self.need[p[i]]),
        }
    }

    /// Thread `tid` and resource `rid` have an entry in every matrix.
    pub open spec fn has_entry(self, tid: int, rid: int) -> bool {
        0 <= tid < self.n_threads() && 0 <= rid < self.n_resources()
    }
}

/// Adding the units of thread `i` to a set that lacks it adds them to the sum.
pub proof fn lemma_held_insert(alloc: Seq<Seq<usize>>, s: Set<int>, i: int, j: int, k: int)
    requires
        0 <= i < k,
        !s.contains(i),
    ensures
        held(alloc, s.insert(i), j, k) == held(alloc, s, j, k) + alloc[i][j],
    decreases k,
{
    if k - 1 > i {
        lemma_held_insert(alloc, s, i, j, k - 1);
    } else {
        lemma_held_same_below(alloc, s, s.insert(i), j, k - 1);
    }
}

/// Two sets that agree below `k` give the same sum.
pub proof fn lemma_held_same_below(alloc: Seq<Seq<usize>>, s1: Set<int>, s2: Set<int>, j: int, k: int)
    requires
        forall|i: int| 0 <= i < k ==> (s1.contains(i) <==> s2.contains(i)),
    ensures
        held(alloc, s1, j, k) == held(alloc, s2, j, k),
    decreases k,
{
    if k > 0 {
        lemma_held_same_below(alloc, s1, s2, j, k - 1);
    }
}

/// The sum grows with the set.
pub proof fn lemma_held_monotone(alloc: Seq<Seq<usize>>, s1: Set<int>, s2: Set<int>, j: int, k: int)
    requires
        forall|i: int| 0 <= i < k && #[trigger] s1.contains(i) ==> s2.contains(i),
    ensures
        held(alloc, s1, j, k) <= held(alloc, s2, j, k),
    decreases k,
{
    if k > 0 {
        lemma_held_monotone(alloc, s1, s2, j, k - 1);
    }
}

/// Nothing is held by the empty set.
pub proof fn lemma_held_empty(alloc: Seq<Seq<usize>>, j: int, k: int)
    ensures
        held(alloc, Set::empty(), j, k) == 0,
    decreases k,
{
    if k > 0 {
        lemma_held_empty(alloc, j, k - 1);
    }
}

/// The sum reads only the entries in column `j` of the rows below `k`.
pub proof fn lemma_held_same_column(
    a1: Seq<Seq<usize>>,
    a2: Seq<Seq<usize>>,
    s: Set<int>,
    j1: int,
    j2: int,
    k: int,
)
    requires
        forall|i: int| 0 <= i < k && s.contains(i) ==> a1[i][j1] == a2[i][j2],
    ensures
        held(a1, s, j1, k) == held(a2, s, j2, k),
    decreases k,
{
    if k > 0 {
        lemma_held_same_column(a1, a2, s, j1, j2, k - 1);
    }
}

/// The units of one thread are part of the whole.
pub proof fn lemma_held_single(alloc: Seq<Seq<usize>>, i: int, j: int, k: int)
    requires
        0 <= i < k,
    ensures
        alloc[i][j] <= held(alloc, Set::full(), j, k),
{
    lemma_held_empty(alloc, j, k);
    lemma_held_insert(alloc, Set::empty(), i, j, k);
    lemma_held_monotone(alloc, Set::empty().insert(i), Set::full(), j, k);
}

/// Changing one entry of the matrix changes the sum over the full set by the difference.
pub proof fn lemma_held_update(alloc: Seq<Seq<usize>>, t: int, row: Seq<usize>, j: int, k: int)
    requires
        0 <= t < k <= alloc.len(),
    ensures
        held(alloc.update(t, row), Set::full(), j, k) == held(alloc, Set::full(), j, k) - alloc[t][j]
            + row[j],
    decreases k,
{
    if k - 1 > t {
        lemma_held_update(alloc, t, row, j, k - 1);
    } else {
        lemma_held_same_column(alloc.update(t, row), alloc, Set::full(), j, j, k - 1);
    }
}

/// Rows `lo..k` that hold nothing of resource `j` add nothing to the sum.
pub proof fn lemma_held_zero_tail(alloc: Seq<Seq<usize>>, s: Set<int>, j: int, lo: int, k: int)
    requires
        0 <= lo <= k,
        forall|i: int| lo <= i < k ==> #[trigger] alloc[i][j] == 0,
    ensures
        held(alloc, s, j, k) == held(alloc, s, j, lo),
    decreases k,
{
    if k > lo {
        lemma_held_zero_tail(alloc, s, j, lo, k - 1);
    }
}

/// Registering a thread keeps the state well formed and every resource total.
pub proof fn lemma_with_thread_keeps(d: DetectorModel, tid: int)
    requires
        d.wf(),
        0 <= tid,
    ensures
        d.with_thread(tid).wf(),
        d.with_thread(tid).n_resources() == d.n_resources(),
        d.with_thread(tid).n_threads() == if tid < d.n_threads() {
            d.n_threads()
        } else {
            tid + 1
        },
        forall|j: int| 0 <= j < d.n_resources() ==> #[trigger] d.with_thread(tid).total(j) == d.total(j),
{
    let e = d.with_thread(tid);
    if d.allocation.len() <= tid {
        assert forall|j: int| 0 <= j < d.n_resources() implies #[trigger] e.total(j) == d.total(j) by {
            lemma_held_zero_tail(e.allocation, Set::full(), j, d.n_threads(), e.n_threads());
            lemma_held_same_column(e.allocation, d.allocation, Set::full(), j, j, d.n_threads());
        }
    }
}

/// Registering a resource keeps the state well formed; the resource then
/// counts `count` units, the ones it skipped over none, the others as before.
pub proof fn lemma_with_resource_keeps(d: DetectorModel, rid: int, count: usize)
    requires
        d.wf(),
        0 <= rid < usize::MAX,
    ensures
        d.with_resource(rid, count).wf(),
        d.with_resource(rid, count).n_threads() == d.n_threads(),
        d.with_resource(rid, count).n_resources() == if rid < d.n_resources() {
            d.n_resources()
        } else {
            rid + 1
        },
        d.with_resource(rid, count).total(rid) == count,
        forall|j: int|
            0 <= j < d.n_resources() && j != rid ==> #[trigger] d.with_resource(rid, count).total(j)
                == d.total(j),
        forall|j: int|
            d.n_resources() <= j < rid ==> #[trigger] d.with_resource(rid, count).total(j) == 0,
{
    let e = d.with_resource(rid, count);
    let n = d.n_threads();
    assert forall|j: int| 0 <= j < e.n_resources() implies #[trigger] e.total(j) == if j == rid {
        count as int
    } else if j < d.n_resources() {
        d.total(j)
    } else {
        0
    } by {
        if j == rid || j >= d.n_resources() {
            lemma_held_zero_tail(e.allocation, Set::full(), j, 0, n);
            lemma_held_empty(e.allocation, j, 0);
        } else {
            lemma_held_same_column(e.allocation, d.allocation, Set::full(), j, j, n);
        }
    }
    assert forall|i: int| 0 <= i < e.n_threads() implies #[trigger] e.allocation[i].len()
        == e.n_resources() by {}
    assert forall|i: int| 0 <= i < e.n_threads() implies #[trigger] e.need[i].len()
        == e.n_resources() by {}
}

/// A claim keeps the state well formed and every resource total.
pub proof fn lemma_claimed_keeps(d: DetectorModel, tid: int, rid: int, count: int)
    requires
        d.wf(),
        d.has_entry(tid, rid),
        0 <= count,
        d.need[tid][rid] + count <= usize::MAX,
    ensures
        d.claimed(tid, rid, count).wf(),
        d.claimed(tid, rid, count).n_threads() == d.n_threads(),
        d.claimed(tid, rid, count).n_resources() == d.n_resources(),
        forall|j: int| 0 <= j < d.n_resources() ==> #[trigger] d.claimed(tid, rid, count).total(j) == d.total(j),
{
    let e = d.claimed(tid, rid, count);
    assert forall|i: int| 0 <= i < e.n_threads() implies #[trigger] e.need[i].len()
        == e.n_resources() by {}
    assert(e.allocation == d.allocation && e.available == d.available);
    assert forall|j: int| 0 <= j < d.n_resources() implies #[trigger] e.total(j) == d.total(j) by {}
}

/// Withdrawing a claim keeps the state well formed and every resource total.
pub proof fn lemma_unclaimed_keeps(d: DetectorModel, tid: int, rid: int, count: int)
    requires
        d.wf(),
        d.has_entry(tid, rid),
        0 <= count <= d.need[tid][rid],
    ensures
        d.unclaimed(tid, rid, count).wf(),
        d.unclaimed(tid, rid, count).n_threads() == d.n_threads(),
        d.unclaimed(tid, rid, count).n_resources() == d.n_resources(),
        forall|j: int| 0 <= j < d.n_resources() ==> #[trigger] d.unclaimed(tid, rid, count).total(j) == d.total(j),
{
    let e = d.unclaimed(tid, rid, count);
    assert forall|i: int| 0 <= i < e.n_threads() implies #[trigger] e.need[i].len()
        == e.n_resources() by {}
    assert(e.allocation == d.allocation && e.available == d.available);
    assert forall|j: int| 0 <= j < d.n_resources() implies #[trigger] e.total(j) == d.total(j) by {}
}

/// Handing free units to a thread keeps the state well formed and every
/// resource total.
pub proof fn lemma_granted_keeps(d: DetectorModel, tid: int, rid: int, count: int)
    requires
        d.wf(),
        d.has_entry(tid, rid),
        0 <= count <= d.available[rid],
        count <= d.need[tid][rid],
    ensures
        d.granted(tid, rid, count).wf(),
        d.granted(tid, rid, count).n_threads() == d.n_threads(),
        d.granted(tid, rid, count).n_resources() == d.n_resources(),
        forall|j: int| 0 <= j < d.n_resources() ==> #[trigger] d.granted(tid, rid, count).total(j) == d.total(j),
        d.allocation[tid][rid] + count <= usize::MAX,
{
    let e = d.granted(tid, rid, count);
    let n = d.n_threads();
    lemma_held_single(d.allocation, tid, rid, n);
    assert(d.total(rid) <= usize::MAX);
    assert forall|j: int| 0 <= j < d.n_resources() implies #[trigger] e.total(j) == d.total(j) by {
        lemma_held_update(d.allocation, tid, e.allocation[tid], j, n);
    }
    assert forall|i: int| 0 <= i < e.n_threads() implies #[trigger] e.allocation[i].len()
        == e.n_resources() by {}
    assert forall|i: int| 0 <= i < e.n_threads() implies #[trigger] e.need[i].len()
        == e.n_resources() by {}
}

/// Giving units back keeps the state well formed and every resource total.
pub proof fn lemma_released_keeps(d: DetectorModel, tid: int, rid: int, count: int)
    requires
        d.wf(),
        d.has_entry(tid, rid),
        0 <= count <= d.allocation[tid][rid],
    ensures
        d.released(tid, rid, count).wf(),
        d.released(tid, rid, count).n_threads() == d.n_threads(),
        d.released(tid, rid, count).n_resources() == d.n_resources(),
        forall|j: int| 0 <= j < d.n_resources() ==> #[trigger] d.released(tid, rid, count).total(j) == d.total(j),
        d.available[rid] + count <= usize::MAX,
{
    let e = d.released(tid, rid, count);
    let n = d.n_threads();
    lemma_held_single(d.allocation, tid, rid, n);
    assert(d.total(rid) <= usize::MAX);
    assert forall|j: int| 0 <= j < d.n_resources() implies #[trigger] e.total(j) == d.total(j) by {
        lemma_held_update(d.allocation, tid, e.allocation[tid], j, n);
    }
    assert forall|i: int| 0 <= i < e.n_threads() implies #[trigger] e.allocation[i].len()
        == e.n_resources() by {}
}

/// Withdrawing a claim right after making it restores the state.
pub proof fn law_unclaim_undoes_claim(d: DetectorModel, tid: int, rid: int, count: int)
    requires
        d.wf(),
        d.has_entry(tid, rid),
        0 <= count,
        d.need[tid][rid] + count <= usize::MAX,
    ensures
        d.claimed(tid, rid, count).unclaimed(tid, rid, count) == d,
{
    let e = d.claimed(tid, rid, count).unclaimed(tid, rid, count);
    assert(e.need[tid] =~= d.need[tid]);
    assert(e.need =~= d.need);
}

/// Releasing what a request was just granted gives the units back: the
/// state is the one before the request, except that the claim is used up.
pub proof fn law_release_undoes_grant(d: DetectorModel, tid: int, rid: int, count: int)
    requires
        d.wf(),
        d.has_entry(tid, rid),
        0 <= count <= d.available[rid],
        count <= d.need[tid][rid],
    ensures
        d.granted(tid, rid, count).released(tid, rid, count) == d.unclaimed(tid, rid, count),
{
    let e = d.granted(tid, rid, count).released(tid, rid, count);
    lemma_granted_keeps(d, tid, rid, count);
    assert(e.available =~= d.available);
    assert(e.allocation[tid] =~= d.allocation[tid]);
    assert(e.allocation =~= d.allocation);
}

/// Changing row `t` changes the sum over any set by the change in column `j`
/// of that row, counted only when `t` is in the set.
pub proof fn lemma_held_update_in(
    alloc: Seq<Seq<usize>>,
    s: Set<int>,
    t: int,
    row: Seq<usize>,
    j: int,
    k: int,
)
    requires
        0 <= t < k <= alloc.len(),
    ensures
        held(alloc.update(t, row), s, j, k) == held(alloc, s, j, k) + if s.contains(t) {
            row[j] - alloc[t][j]
        } else {
            0
        },
    decreases k,
{
    if k - 1 > t {
        lemma_held_update_in(alloc, s, t, row, j, k - 1);
    } else {
        lemma_held_same_column(alloc.update(t, row), alloc, s, j, j, k - 1);
    }
}

/// Giving units back never turns a state without deadlock into a deadlock.
pub proof fn law_release_keeps_deadlock_free(d: DetectorModel, tid: int, rid: int, count: int)
    requires
        d.wf(),
        d.has_entry(tid, rid),
        0 <= count <= d.allocation[tid][rid],
        !d.deadlocked(),
    ensures
        !d.released(tid, rid, count).deadlocked(),
{
    let e = d.released(tid, rid, count);
    let s = choose|s: Seq<int>| d.is_safe_sequence(s);
    lemma_released_keeps(d, tid, rid, count);
    assert forall|k: int| 0 <= k < s.len() implies e.can_finish(#[trigger] s[k], s.take(k).to_set()) by {
        let p = s.take(k).to_set();
        assert(d.can_finish(s[k], p));
        assert forall|j: int| 0 <= j < e.n_resources() implies #[trigger] e.need[s[k]][j]
            <= e.available[j] + held(e.allocation, p, j, e.n_threads()) by {
            lemma_held_update_in(d.allocation, p, tid, e.allocation[tid], j, d.n_threads());
        }
    }
    assert(e.is_safe_sequence(s));
}

/// Withdrawing a claim never turns a state without deadlock into a deadlock.
pub proof fn law_unclaim_keeps_deadlock_free(d: DetectorModel, tid: int, rid: int, count: int)
    requires
        d.wf(),
        d.has_entry(tid, rid),
        0 <= count <= d.need[tid][rid],
        !d.deadlocked(),
    ensures
        !d.unclaimed(tid, rid, count).deadlocked(),
{
    let e = d.unclaimed(tid, rid, count);
    let s = choose|s: Seq<int>| d.is_safe_sequence(s);
    assert forall|k: int| 0 <= k < s.len() implies e.can_finish(#[trigger] s[k], s.take(k).to_set()) by {
        let p = s.take(k).to_set();
        assert(d.can_finish(s[k], p));
        assert forall|j: int| 0 <= j < e.n_resources() implies #[trigger] e.need[s[k]][j]
            <= e.available[j] + held(e.allocation, p, j, e.n_threads()) by {
            assert(d.need[s[k]][j] <= d.available[j] + held(d.allocation, p, j, d.n_threads()));
        }
    }
    assert(e.is_safe_sequence(s));
}

/// Registering a resource never turns a state without deadlock into a deadlock.
pub proof fn law_with_resource_keeps_deadlock_free(d: DetectorModel, rid: int, count: usize)
    requires
        d.wf(),
        0 <= rid < usize::MAX,
        !d.deadlocked(),
    ensures
        !d.with_resource(rid, count).deadlocked(),
{
    let e = d.with_resource(rid, count);
    let s = choose|s: Seq<int>| d.is_safe_sequence(s);
    lemma_with_resource_keeps(d, rid, count);
    assert forall|k: int| 0 <= k < s.len() implies e.can_finish(#[trigger] s[k], s.take(k).to_set()) by {
        let p = s.take(k).to_set();
        let t = s[k];
        assert(d.can_finish(t, p));
        assert forall|j: int| 0 <= j < e.n_resources() implies #[trigger] e.need[t][j]
            <= e.available[j] + held(e.allocation, p, j, e.n_threads()) by {
            if j != rid && j < d.n_resources() {
                lemma_held_same_column(e.allocation, d.allocation, p, j, j, d.n_threads());
                assert(d.need[t][j] <= d.available[j] + held(d.allocation, p, j, d.n_threads()));
            } else {
                lemma_held_zero_tail(e.allocation, p, j, 0, e.n_threads());
                lemma_held_empty(e.allocation, j, 0);
            }
        }
    }
    assert(e.is_safe_sequence(s));
}

/// Registering a thread never turns a state without deadlock into a
/// deadlock: the new threads hold and need nothing.
pub proof fn law_with_thread_keeps_deadlock_free(d: DetectorModel, tid: int)
    requires
        d.wf(),
        0 <= tid,
        !d.deadlocked(),
    ensures
        !d.with_thread(tid).deadlocked(),
{
    let e = d.with_thread(tid);
    if d.n_threads() <= tid {
        let s = choose|s: Seq<int>| d.is_safe_sequence(s);
        let n = d.n_threads();
        let extra = Seq::new((tid + 1 - n) as nat, |x: int| n + x);
        let s2 = s + extra;
        lemma_with_thread_keeps(d, tid);
        assert forall|k: int| 0 <= k < s2.len() implies 0 <= #[trigger] s2[k] < e.n_threads() by {
            if k >= s.len() {
                assert(s2[k] == extra[k - s.len()]);
            }
        }
        assert forall|i: int| 0 <= i < e.n_threads() implies #[trigger] s2.contains(i) by {
            if i < n {
                assert(s.contains(i));
                let m = choose|m: int| 0 <= m < s.len() && s[m] == i;
                assert(s2[m] == i);
            } else {
                assert(s2[s.len() + (i - n)] == i);
            }
        }
        assert forall|a: int, b: int| 0 <= a < s2.len() && 0 <= b < s2.len() && a != b implies s2[a]
            != s2[b] by {
            if a < s.len() && b < s.len() {
                assert(s[a] != s[b]);
            } else if a < s.len() {
                assert(s2[a] < n);
            } else if b < s.len() {
                assert(s2[b] < n);
            }
        }
        assert forall|k: int| 0 <= k < s2.len() implies e.can_finish(#[trigger] s2[k], s2.take(k).to_set()) by {
            let p = s2.take(k).to_set();
            let t = s2[k];
            if k < s.len() {
                assert(s2.take(k) =~= s.take(k));
                assert(t == s[k]);
                assert(d.can_finish(t, p));
                assert forall|j: int| 0 <= j < e.n_resources() implies #[trigger] e.need[t][j]
                    <= e.available[j] + held(e.allocation, p, j, e.n_threads()) by {
                    lemma_held_zero_tail(e.allocation, p, j, n, e.n_threads());
                    lemma_held_same_column(e.allocation, d.allocation, p, j, j, n);
                    assert(d.need[t][j] <= d.available[j] + held(d.allocation, p, j, n));
                }
            } else {
                assert(t == extra[k - s.len()]);
                assert forall|j: int| 0 <= j < e.n_resources() implies #[trigger] e.need[t][j]
                    <= e.available[j] + held(e.allocation, p, j, e.n_threads()) by {
                    lemma_held_empty(e.allocation, j, e.n_threads());
                    lemma_held_monotone(e.allocation, Set::empty(), p, j, e.n_threads());
                }
            }
        }
        assert(e.is_safe_sequence(s2));
    }
}

/// `p` numbers the threads `0..n` anew: it lists each of them exactly once.
pub open spec fn is_renumbering(p: Seq<int>, n: int) -> bool {
    &&& p.len() == n
    &&& p.no_duplicates()
    &&& forall|i: int| 0 <= i < n ==> 0 <= #[trigger] p[i] < n
    &&& forall|x: int| 0 <= x < n ==> #[trigger] p.contains(x)
}

/// Summing the renumbered matrix over the first `k` threads of `t` is
/// summing the matrix over the same threads under their old numbers.
proof fn lemma_held_renumbered(d: DetectorModel, p: Seq<int>, t: Seq<int>, j: int, k: int)
    requires
        is_renumbering(p, d.n_threads()),
        t.no_duplicates(),
        forall|m: int| 0 <= m < t.len() ==> 0 <= #[trigger] t[m] < d.n_threads(),
        0 <= k <= t.len(),
    ensures
        held(d.renumbered(p).allocation, t.take(k).to_set(), j, d.n_threads()) == held(
            d.allocation,
            t.map_values(|x: int| p[x]).take(k).to_set(),
            j,
            d.n_threads(),
        ),
    decreases k,
{
    let n = d.n_threads();
    let a2 = d.renumbered(p).allocation;
    let q = t.map_values(|x: int| p[x]);
    if k == 0 {
        assert(t.take(0).to_set() =~= Set::empty());
        assert(q.take(0).to_set() =~= Set::empty());
        lemma_held_empty(a2, j, n);
        lemma_held_empty(d.allocation, j, n);
    } else {
        lemma_held_renumbered(d, p, t, j, k - 1);
        let x = t[k - 1];
        let s0 = t.take(k - 1).to_set();
        let q0 = q.take(k - 1).to_set();
        assert(t.take(k).to_set() =~= s0.insert(x)) by {
            assert forall|y: int| t.take(k).to_set().contains(y) implies s0.insert(x).contains(y) by {
                let m = choose|m: int| 0 <= m < k && #[trigger] t.take(k)[m] == y;
                if m < k - 1 {
                    assert(t.take(k - 1)[m] == y);
                }
            }
            assert forall|y: int| s0.insert(x).contains(y) implies t.take(k).to_set().contains(y) by {
                if y == x {
                    assert(t.take(k)[k - 1] == y);
                } else {
                    let m = choose|m: int| 0 <= m < k - 1 && #[trigger] t.take(k - 1)[m] == y;
                    assert(t.take(k)[m] == y);
                }
            }
        }
        assert(q.take(k).to_set() =~= q0.insert(p[x])) by {
            assert forall|y: int| q.take(k).to_set().contains(y) implies q0.insert(p[x]).contains(y) by {
                let m = choose|m: int| 0 <= m < k && #[trigger] q.take(k)[m] == y;
                if m < k - 1 {
                    assert(q.take(k - 1)[m] == y);
                }
            }
            assert forall|y: int| q0.insert(p[x]).contains(y) implies q.take(k).to_set().contains(y) by {
                if y == p[x] {
                    assert(q.take(k)[k - 1] == y);
                } else {
                    let m = choose|m: int| 0 <= m < k - 1 && #[trigger] q.take(k - 1)[m] == y;
                    assert(q.take(k)[m] == y);
                }
            }
        }
        assert(!s0.contains(x)) by {
            if s0.contains(x) {
                let m = choose|m: int| 0 <= m < k - 1 && #[trigger] t.take(k - 1)[m] == x;
                assert(t[m] == t[k - 1]);
            }
        }
        assert(!q0.contains(p[x])) by {
            if q0.contains(p[x]) {
                let m = choose|m: int| 0 <= m < k - 1 && #[trigger] q.take(k - 1)[m] == p[x];
                assert(p[t[m]] == p[t[k - 1]]);
                assert(t[m] == t[k - 1]);
            }
        }
        lemma_held_insert(a2, s0, x, j, n);
        lemma_held_insert(d.allocation, q0, p[x], j, n);
    }
}

/// Whether the threads are deadlocked does not depend on how they are
/// numbered; and numbering them anew keeps a state in the domain of the
/// safety check. So the check gives the same answer however the threads are
/// numbered and thus scanned.
pub proof fn law_deadlock_independent_of_numbering(d: DetectorModel, p: Seq<int>)
    requires
        d.check_ready(),
        is_renumbering(p, d.n_threads()),
    ensures
        d.renumbered(p).check_ready(),
        d.renumbered(p).deadlocked() == d.deadlocked(),
{
    let n = d.n_threads();
    let e = d.renumbered(p);
    // the totals, hence the domain of the check
    let ids = Seq::new(n as nat, |i: int| i);
    assert forall|j: int| 0 <= j < d.n_resources() implies #[trigger] e.total(j) == d.total(j) by {
        lemma_held_renumbered(d, p, ids, j, n);
        assert(ids.take(n) =~= ids);
        assert(ids.map_values(|x: int| p[x]).take(n) =~= p);
        assert(held(e.allocation, ids.to_set(), j, n) == held(d.allocation, p.to_set(), j, n));
        assert forall|i: int| 0 <= i < n implies ids.to_set().contains(i) by {
            assert(ids[i] == i);
        }
        lemma_held_same_below(e.allocation, ids.to_set(), Set::full(), j, n);
        assert forall|i: int| 0 <= i < n implies p.to_set().contains(i) by {
            assert(p.contains(i));
        }
        lemma_held_same_below(d.allocation, p.to_set(), Set::full(), j, n);
    }
    assert(e.check_ready());
    // a safe order of the renumbered state gives one of the original state
    if exists|s2: Seq<int>| e.is_safe_sequence(s2) {
        let s2 = choose|s2: Seq<int>| e.is_safe_sequence(s2);
        let s = s2.map_values(|x: int| p[x]);
        assert forall|a: int, b: int| 0 <= a < s.len() && 0 <= b < s.len() && a != b implies s[a] != s[b] by {
            assert(s2[a] != s2[b]);
        }
        assert forall|x: int| 0 <= x < n implies #[trigger] s.contains(x) by {
            assert(p.contains(x));
            let i = choose|i: int| 0 <= i < p.len() && p[i] == x;
            assert(s2.contains(i));
            let m = choose|m: int| 0 <= m < s2.len() && s2[m] == i;
            assert(s[m] == x);
        }
        assert forall|k: int| 0 <= k < s.len() implies d.can_finish(#[trigger] s[k], s.take(k).to_set()) by {
            assert(e.can_finish(s2[k], s2.take(k).to_set()));
            assert forall|j: int| 0 <= j < d.n_resources() && j < d.need[s[k]].len() implies #[trigger] d.need[s[k]][j]
                <= d.available[j] + held(d.allocation, s.take(k).to_set(), j, n) by {
                lemma_held_renumbered(d, p, s2, j, k);
                assert(e.need[s2[k]] == d.need[s[k]]);
            }
        }
        assert(d.is_safe_sequence(s));
    }
    // and the other way round
    if exists|s: Seq<int>| d.is_safe_sequence(s) {
        let s = choose|s: Seq<int>| d.is_safe_sequence(s);
        let s2 = s.map_values(|x: int| choose|i: int| 0 <= i < n && p[i] == x);
        assert forall|m: int| 0 <= m < s.len() implies 0 <= #[trigger] s2[m] < n && p[s2[m]] == s[m] by {
            assert(p.contains(s[m]));
        }
        assert(s2.map_values(|x: int| p[x]) =~= s);
        assert forall|a: int, b: int| 0 <= a < s2.len() && 0 <= b < s2.len() && a != b implies s2[a] != s2[b] by {
            assert(p[s2[a]] == s[a]);
            assert(p[s2[b]] == s[b]);
            assert(s[a] != s[b]);
        }
        assert forall|i: int| 0 <= i < n implies #[trigger] s2.contains(i) by {
            assert(s.contains(p[i]));
            let m = choose|m: int| 0 <= m < s.len() && s[m] == p[i];
            assert(p[s2[m]] == p[i]);
            assert(s2[m] == i);
        }
        assert forall|k: int| 0 <= k < s2.len() implies e.can_finish(#[trigger] s2[k], s2.take(k).to_set()) by {
            assert(d.can_finish(s[k], s.take(k).to_set()));
            assert forall|j: int| 0 <= j < e.n_resources() && j < e.need[s2[k]].len() implies #[trigger] e.need[s2[k]][j]
                <= e.available[j] + held(e.allocation, s2.take(k).to_set(), j, n) by {
                lemma_held_renumbered(d, p, s2, j, k);
                assert(e.need[s2[k]] == d.need[s[k]]);
            }
        }
        assert(e.is_safe_sequence(s2));
    }
}

} // verus!
