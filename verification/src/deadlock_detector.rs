use vstd::prelude::*;
use crate::detector_model::{
    DetectorModel,
    held,
    resized,
    rows,
    zeros,
    lemma_claimed_keeps,
    lemma_granted_keeps,
    lemma_held_empty,
    lemma_held_insert,
    lemma_held_monotone,
    lemma_released_keeps,
    lemma_unclaimed_keeps,
    lemma_with_resource_keeps,
    lemma_with_thread_keeps,
};

verus! {

/// The matrices of the banker's algorithm, one row per thread id and one
/// column per resource id.
pub struct DeadlockDetectorInner {
    pub available: Vec<usize>,
    pub allocation: Vec<Vec<usize>>,
    pub need: Vec<Vec<usize>>,
}

impl View for DeadlockDetectorInner {
    type V = DetectorModel;

    open spec fn view(&self) -> DetectorModel {
        DetectorModel {
            available: self.available@,
            allocation: rows(self.allocation@),
            need: rows(self.need@),
        }
    }
}

/// Whether `need_row[j] <= work[j]` holds in every column that both rows have.
fn fits(need_row: &Vec<usize>, work: &Vec<usize>) -> (r: bool)
    ensures
        r == forall|j: int|
            0 <= j < need_row.len() && j < work.len() ==> need_row@[j] <= work@[j],
{
    let n: usize = if need_row.len() < work.len() {
        need_row.len()
    } else {
        work.len()
    };
    let mut j: usize = 0;
    while j < n
        invariant
            n <= need_row.len(),
            n <= work.len(),
            n == need_row.len() || n == work.len(),
            j <= n,
            forall|jj: int| 0 <= jj < j ==> need_row@[jj] <= work@[jj],
        decreases n - j,
    {
        if need_row[j] > work[j] {
            return false;
        }
        j = j + 1;
    }
    true
}

/// If every thread outside `done` is blocked, the threads of any safe
/// sequence all lie in `done`.
proof fn lemma_safe_prefix_done(d: DetectorModel, done: Set<int>, s: Seq<int>, k: int)
    requires
        d.is_safe_sequence(s),
        0 <= k <= s.len(),
        forall|i: int| 0 <= i < d.n_threads() && !done.contains(i) ==> !d.can_finish(i, done),
    ensures
        forall|m: int| 0 <= m < k ==> done.contains(#[trigger] s[m]),
    decreases k,
{
    if k > 0 {
        lemma_safe_prefix_done(d, done, s, k - 1);
        let t = s[k - 1];
        let p = s.take(k - 1).to_set();
        assert(d.can_finish(t, p));
        assert forall|i: int| 0 <= i < d.n_threads() && #[trigger] p.contains(i) implies done.contains(
            i,
        ) by {
            let m = choose|m: int| 0 <= m < s.take(k - 1).len() && #[trigger] s.take(k - 1)[m] == i;
            assert(s[m] == i);
        }
        assert forall|j: int| 0 <= j < d.n_resources() && j < d.need[t].len() implies #[trigger] d.need[t][j]
            <= d.available[j] + held(d.allocation, done, j, d.n_threads()) by {
            lemma_held_monotone(d.allocation, p, done, j, d.n_threads());
        }
        assert(d.can_finish(t, done));
    }
}

/// A state where some thread has not finished and every unfinished thread
/// is blocked has no safe sequence.
proof fn lemma_stuck_means_deadlock(d: DetectorModel, done: Set<int>, u: int)
    requires
        0 <= u < d.n_threads(),
        !done.contains(u),
        forall|i: int| 0 <= i < d.n_threads() && !done.contains(i) ==> !d.can_finish(i, done),
    ensures
        d.deadlocked(),
{
    assert forall|s: Seq<int>| !d.is_safe_sequence(s) by {
        if d.is_safe_sequence(s) {
            lemma_safe_prefix_done(d, done, s, s.len() as int);
            assert(s.contains(u));
            let m = choose|m: int| 0 <= m < s.len() && s[m] == u;
            assert(done.contains(s[m]));
        }
    }
}

impl DeadlockDetectorInner {
    /// Row `i` of each matrix, seen through the model.
    proof fn lemma_row_views(&self, i: int)
        requires
            0 <= i < self.allocation.len(),
            0 <= i < self.need.len(),
        ensures
            self@.allocation[i] == self.allocation@[i]@,
            self@.need[i] == self.need@[i]@,
    {
    }

    /// Check if the system is in a deadlock state,
    /// return true if there is a deadlock, otherwise return false
    pub fn check(&self) -> (r: bool)
        requires
            self@.check_ready(),
        ensures
            r == self@.deadlocked(),
    {
        let ghost d = self@;
        let n: usize = self.allocation.len();
        let m: usize = self.available.len();
        let mut work: Vec<usize> = Vec::new();
        let mut j: usize = 0;
        while j < m
            invariant
                d == self@,
                m == d.n_resources(),
                j <= m,
                work.len() == j,
                forall|jj: int| 0 <= jj < j ==> work@[jj] == d.available[jj],
            decreases m - j,
        {
            work.push(self.available[j]);
            j = j + 1;
        }
        proof {
            assert forall|jj: int| 0 <= jj < m implies work@[jj] == d.available[jj] + held(
                d.allocation,
                Seq::<int>::empty().to_set(),
                jj,
                n as int,
            ) by {
                assert(Seq::<int>::empty().to_set() =~= Set::empty());
                lemma_held_empty(d.allocation, jj, n as int);
            }
        }
        let mut finish: Vec<bool> = Vec::new();
        let mut i: usize = 0;
        while i < n
            invariant
                i <= n,
                finish.len() == i,
                forall|ii: int| 0 <= ii < i ==> !finish@[ii],
            decreases n - i,
        {
            finish.push(false);
            i = i + 1;
        }
        let ghost mut order: Seq<int> = Seq::empty();
        let mut progress: bool = true;
        while progress
            invariant
                d == self@,
                d.check_ready(),
                n == d.n_threads(),
                m == d.n_resources(),
                work.len() == m,
                finish.len() == n,
                order.no_duplicates(),
                order.len() <= n,
                forall|k: int| 0 <= k < order.len() ==> 0 <= #[trigger] order[k] < n,
                forall|ii: int| 0 <= ii < n ==> (finish@[ii] <==> order.contains(ii)),
                forall|jj: int|
                    0 <= jj < m ==> #[trigger] work@[jj] == d.available[jj] + held(
                        d.allocation,
                        order.to_set(),
                        jj,
                        n as int,
                    ),
                forall|k: int|
                    0 <= k < order.len() ==> d.can_finish(#[trigger] order[k], order.take(k).to_set()),
                !progress ==> forall|ii: int|
                    0 <= ii < n && !finish@[ii] ==> !d.can_finish(ii, order.to_set()),
            decreases n - order.len() + if progress {
                1int
            } else {
                0int
            },
        {
            let ghost order0 = order;
            let mut found: bool = false;
            let mut i: usize = 0;
            while i < n
                invariant
                    d == self@,
                    d.check_ready(),
                    n == d.n_threads(),
                    m == d.n_resources(),
                    work.len() == m,
                    finish.len() == n,
                    i <= n,
                    order.no_duplicates(),
                    forall|k: int| 0 <= k < order.len() ==> 0 <= #[trigger] order[k] < n,
                    forall|ii: int| 0 <= ii < n ==> (finish@[ii] <==> order.contains(ii)),
                    forall|jj: int|
                        0 <= jj < m ==> #[trigger] work@[jj] == d.available[jj] + held(
                            d.allocation,
                            order.to_set(),
                            jj,
                            n as int,
                        ),
                    forall|k: int|
                        0 <= k < order.len() ==> d.can_finish(
                            #[trigger] order[k],
                            order.take(k).to_set(),
                        ),
                    found ==> order.len() > order0.len(),
                    !found ==> order == order0,
                    !found ==> forall|ii: int|
                        0 <= ii < i && !finish@[ii] ==> !d.can_finish(ii, order.to_set()),
                decreases n - i,
            {
                if !finish[i] && fits(&self.need[i], &work) {
                    let ghost old_set = order.to_set();
                    let ghost new_set = old_set.insert(i as int);
                    proof {
                        assert(d.need[i as int] == self.need@[i as int]@);
                        assert forall|jj: int| 0 <= jj < m && jj < d.need[i as int].len() implies d.need[i as int][jj]
                            <= d.available[jj] + held(d.allocation, old_set, jj, n as int) by {
                            assert(work@[jj] == d.available[jj] + held(
                                d.allocation,
                                old_set,
                                jj,
                                n as int,
                            ));
                        }
                        assert(d.can_finish(i as int, old_set));
                    }
                    let ghost work0 = work@;
                    let mut j: usize = 0;
                    while j < m
                        invariant
                            d == self@,
                            d.check_ready(),
                            n == d.n_threads(),
                            m == d.n_resources(),
                            i < n,
                            !old_set.contains(i as int),
                            new_set == old_set.insert(i as int),
                            work.len() == m,
                            j <= m,
                            forall|jj: int|
                                0 <= jj < j ==> #[trigger] work@[jj] == d.available[jj] + held(
                                    d.allocation,
                                    new_set,
                                    jj,
                                    n as int,
                                ),
                            forall|jj: int| j <= jj < m ==> #[trigger] work@[jj] == work0[jj],
                            forall|jj: int|
                                0 <= jj < m ==> #[trigger] work0[jj] == d.available[jj] + held(
                                    d.allocation,
                                    old_set,
                                    jj,
                                    n as int,
                                ),
                        decreases m - j,
                    {
                        proof {
                            lemma_held_insert(d.allocation, old_set, i as int, j as int, n as int);
                            lemma_held_monotone(
                                d.allocation,
                                new_set,
                                Set::full(),
                                j as int,
                                n as int,
                            );
                            assert(d.total(j as int) <= usize::MAX);
                        }
                        let w = work[j] + self.allocation[i][j];
                        work.set(j, w);
                        j = j + 1;
                    }
                    finish.set(i, true);
                    proof {
                        let old_order = order;
                        order = order.push(i as int);
                        assert(order.to_set() =~= new_set) by {
                            assert forall|x: int| order.to_set().contains(x) implies new_set.contains(
                                x,
                            ) by {
                                let k = choose|k: int| 0 <= k < order.len() && order[k] == x;
                                if k < old_order.len() {
                                    assert(old_order[k] == x);
                                }
                            }
                            assert forall|x: int| new_set.contains(x) implies order.to_set().contains(
                                x,
                            ) by {
                                if x == i {
                                    assert(order[old_order.len() as int] == x);
                                } else {
                                    let k = choose|k: int|
                                        0 <= k < old_order.len() && old_order[k] == x;
                                    assert(order[k] == x);
                                }
                            }
                        }
                        assert(order.take(old_order.len() as int) =~= old_order);
                        assert forall|k: int| 0 <= k < order.len() implies d.can_finish(
                            #[trigger] order[k],
                            order.take(k).to_set(),
                        ) by {
                            if k < old_order.len() {
                                assert(order.take(k) =~= old_order.take(k));
                            }
                        }
                        assert forall|ii: int| 0 <= ii < n implies (finish@[ii] <==> order.contains(
                            ii,
                        )) by {
                            if ii != i {
                                if old_order.contains(ii) {
                                    let k = choose|k: int|
                                        0 <= k < old_order.len() && old_order[k] == ii;
                                    assert(order[k] == ii);
                                }
                                if order.contains(ii) {
                                    let k = choose|k: int| 0 <= k < order.len() && order[k] == ii;
                                    assert(old_order[k] == ii);
                                }
                            } else {
                                assert(order[old_order.len() as int] == ii);
                            }
                        }
                    }
                    found = true;
                } else {
                    proof {
                        if !finish@[i as int] {
                            let jj = choose|jj: int|
                                0 <= jj < self.need@[i as int].len() && jj < work.len()
                                    && !(self.need@[i as int]@[jj] <= work@[jj]);
                            assert(d.need[i as int][jj] == self.need@[i as int]@[jj]);
                            assert(!d.can_finish(i as int, order.to_set()));
                        }
                    }
                }
                i = i + 1;
            }
            proof {
                if found {
                    order.unique_seq_to_set();
                    vstd::set_lib::lemma_int_range(0, n as int);
                    assert(order.to_set().subset_of(vstd::set_lib::set_int_range(0, n as int)));
                    vstd::set_lib::lemma_len_subset(
                        order.to_set(),
                        vstd::set_lib::set_int_range(0, n as int),
                    );
                }
            }
            progress = found;
        }
        let mut all: bool = true;
        let mut i: usize = 0;
        while i < n
            invariant
                finish.len() == n,
                i <= n,
                all == forall|ii: int| 0 <= ii < i ==> finish@[ii],
            decreases n - i,
        {
            if !finish[i] {
                all = false;
            }
            i = i + 1;
        }
        proof {
            if all {
                assert(d.is_safe_sequence(order));
            } else {
                let u = choose|u: int| 0 <= u < n && !finish@[u];
                assert(!order.to_set().contains(u));
                assert forall|ii: int|
                    0 <= ii < n && !order.to_set().contains(ii) implies !d.can_finish(
                    ii,
                    order.to_set(),
                ) by {
                    assert(!finish@[ii]);
                }
                lemma_stuck_means_deadlock(d, order.to_set(), u);
            }
        }
        !all
    }
}

/// Deadlock detector structure
pub struct DeadlockDetector {
    /// Deadlock detector inner
    pub inner: DeadlockDetectorInner,
}

impl View for DeadlockDetector {
    type V = DetectorModel;

    open spec fn view(&self) -> DetectorModel {
        self.inner@
    }
}

/// A row of `len` zeros.
fn zero_row(len: usize) -> (r: Vec<usize>)
    ensures
        r@ == zeros(len as int),
{
    let mut r: Vec<usize> = Vec::new();
    while r.len() < len
        invariant
            r.len() <= len,
            forall|j: int| 0 <= j < r.len() ==> r@[j] == 0,
        decreases len - r.len(),
    {
        r.push(0);
    }
    assert(r@ =~= zeros(len as int));
    r
}

/// Sets entry `[i][j]` of a matrix stored as rows.
fn set_cell(m: &mut Vec<Vec<usize>>, i: usize, j: usize, v: usize)
    requires
        i < old(m).len(),
        j < old(m)@[i as int].len(),
    ensures
        final(m).len() == old(m).len(),
        rows(final(m)@) == DetectorModel::set_entry(rows(old(m)@), i as int, j as int, v as int),
{
    let ghost before = rows(m@);
    m[i].set(j, v);
    assert(rows(m@) =~= DetectorModel::set_entry(before, i as int, j as int, v as int));
}

/// Extends row `i` with zeros up to length `len`.
fn pad_row(m: &mut Vec<Vec<usize>>, i: usize, len: usize)
    requires
        i < old(m).len(),
        old(m)@[i as int].len() <= len,
    ensures
        final(m).len() == old(m).len(),
        rows(final(m)@) == rows(old(m)@).update(i as int, resized(rows(old(m)@)[i as int], len as int)),
{
    let ghost before = m@;
    while m[i].len() < len
        invariant
            i < m.len(),
            m.len() == before.len(),
            m@[i as int].len() <= len,
            before[i as int].len() <= m@[i as int].len(),
            forall|k: int| 0 <= k < m.len() && k != i ==> #[trigger] m@[k] == before[k],
            forall|j: int| 0 <= j < before[i as int].len() ==> #[trigger] m@[i as int]@[j] == before[i as int]@[j],
            forall|j: int| before[i as int].len() <= j < m@[i as int].len() ==> #[trigger] m@[i as int]@[j] == 0,
        decreases len - m@[i as int].len(),
    {
        m[i].push(0);
    }
    assert(rows(m@)[i as int] =~= resized(rows(before)[i as int], len as int));
    assert(rows(m@) =~= rows(before).update(i as int, resized(rows(before)[i as int], len as int)));
}

impl DeadlockDetector {
    /// Create a new deadlock detector
    pub fn new() -> (r: Self)
        ensures
            r@ == (DetectorModel {
                available: Seq::empty(),
                allocation: Seq::empty(),
                need: Seq::empty(),
            }),
            r@.wf(),
    {
        let r = Self {
            inner: DeadlockDetectorInner {
                available: Vec::new(),
                allocation: Vec::new(),
                need: Vec::new(),
            },
        };
        assert(rows(r.inner.allocation@) =~= Seq::empty());
        assert(rows(r.inner.need@) =~= Seq::empty());
        r
    }

    /// Add a new thread with thread id
    pub fn add_thread(&mut self, tid: usize)
        requires
            old(self)@.wf(),
            tid < usize::MAX,
        ensures
            final(self)@ == old(self)@.with_thread(tid as int),
            final(self)@.wf(),
    {
        let ghost d = self@;
        proof {
            lemma_with_thread_keeps(d, tid as int);
        }
        let available_len = self.inner.available.len();
        if self.inner.allocation.len() <= tid {
            let ghost e = d.with_thread(tid as int);
            while self.inner.allocation.len() < tid + 1
                invariant
                    d.wf(),
                    tid < usize::MAX,
                    available_len == d.n_resources(),
                    self.inner.available@ == d.available,
                    rows(self.inner.need@) == d.need,
                    e == d.with_thread(tid as int),
                    d.n_threads() <= tid,
                    d.n_threads() <= self.inner.allocation.len() <= tid + 1,
                    forall|i: int|
                        0 <= i < self.inner.allocation.len() ==> #[trigger] self.inner.allocation@[i]@
                            == e.allocation[i],
                decreases tid + 1 - self.inner.allocation.len(),
            {
                let row = zero_row(available_len);
                self.inner.allocation.push(row);
            }
            assert(rows(self.inner.allocation@) =~= e.allocation);
            while self.inner.need.len() < tid + 1
                invariant
                    d.wf(),
                    tid < usize::MAX,
                    available_len == d.n_resources(),
                    self.inner.available@ == d.available,
                    rows(self.inner.allocation@) == e.allocation,
                    e == d.with_thread(tid as int),
                    d.n_threads() <= tid,
                    d.n_threads() <= self.inner.need.len() <= tid + 1,
                    forall|i: int|
                        0 <= i < self.inner.need.len() ==> #[trigger] self.inner.need@[i]@
                            == e.need[i],
                decreases tid + 1 - self.inner.need.len(),
            {
                let row = zero_row(available_len);
                self.inner.need.push(row);
            }
            assert(rows(self.inner.need@) =~= e.need);
            assert(self@ =~= e);
        }
    }

    /// Add a new resource with resource id and count
    pub fn add_resource(&mut self, rid: usize, count: usize)
        requires
            old(self)@.wf(),
            rid < usize::MAX,
        ensures
            final(self)@ == old(self)@.with_resource(rid as int, count),
            final(self)@.wf(),
    {
        let ghost d = self@;
        let ghost e = d.with_resource(rid as int, count);
        proof {
            lemma_with_resource_keeps(d, rid as int, count);
        }
        let n = self.inner.allocation.len();
        if self.inner.available.len() <= rid {
            while self.inner.available.len() < rid + 1
                invariant
                    rid < usize::MAX,
                    self.inner.allocation == old(self).inner.allocation,
                    self.inner.need == old(self).inner.need,
                    d == old(self)@,
                    d.n_resources() <= self.inner.available.len() <= rid + 1,
                    forall|j: int| 0 <= j < d.n_resources() ==> #[trigger] self.inner.available@[j] == d.available[j],
                    forall|j: int| d.n_resources() <= j < self.inner.available.len() ==> #[trigger] self.inner.available@[j] == 0,
                decreases rid + 1 - self.inner.available.len(),
            {
                self.inner.available.push(0);
            }
            self.inner.available.set(rid, count);
            assert(self.inner.available@ =~= e.available);
            let mut i: usize = 0;
            while i < n
                invariant
                    d.wf(),
                    n == d.n_threads(),
                    e == d.with_resource(rid as int, count),
                    d.n_resources() <= rid,
                    rid < usize::MAX,
                    self.inner.available@ == e.available,
                    i <= n,
                    self.inner.allocation.len() == n,
                    self.inner.need.len() == n,
                    forall|k: int| 0 <= k < i ==> #[trigger] rows(self.inner.allocation@)[k] == e.allocation[k],
                    forall|k: int| i <= k < n ==> #[trigger] rows(self.inner.allocation@)[k] == d.allocation[k],
                    forall|k: int| 0 <= k < i ==> #[trigger] rows(self.inner.need@)[k] == e.need[k],
                    forall|k: int| i <= k < n ==> #[trigger] rows(self.inner.need@)[k] == d.need[k],
                decreases n - i,
            {
                assert(rows(self.inner.allocation@)[i as int] == self.inner.allocation@[i as int]@);
                assert(rows(self.inner.need@)[i as int] == self.inner.need@[i as int]@);
                pad_row(&mut self.inner.allocation, i, rid + 1);
                pad_row(&mut self.inner.need, i, rid + 1);
                i = i + 1;
            }
        } else {
            self.inner.available.set(rid, count);
            assert(self.inner.available@ =~= e.available);
            let mut i: usize = 0;
            while i < n
                invariant
                    d.wf(),
                    n == d.n_threads(),
                    e == d.with_resource(rid as int, count),
                    rid < d.n_resources(),
                    self.inner.available@ == e.available,
                    i <= n,
                    self.inner.allocation.len() == n,
                    self.inner.need.len() == n,
                    forall|k: int| 0 <= k < i ==> #[trigger] rows(self.inner.allocation@)[k] == e.allocation[k],
                    forall|k: int| i <= k < n ==> #[trigger] rows(self.inner.allocation@)[k] == d.allocation[k],
                    forall|k: int| 0 <= k < i ==> #[trigger] rows(self.inner.need@)[k] == e.need[k],
                    forall|k: int| i <= k < n ==> #[trigger] rows(self.inner.need@)[k] == d.need[k],
                decreases n - i,
            {
                assert(rows(self.inner.allocation@)[i as int] == self.inner.allocation@[i as int]@);
                assert(rows(self.inner.need@)[i as int] == self.inner.need@[i as int]@);
                set_cell(&mut self.inner.allocation, i, rid, 0);
                set_cell(&mut self.inner.need, i, rid, 0);
                i = i + 1;
            }
        }
        assert(rows(self.inner.allocation@) =~= e.allocation);
        assert(rows(self.inner.need@) =~= e.need);
        assert(self.inner.available@ =~= e.available);
        assert(self@ =~= e);
    }

    /// Claim the need of a thread for a resource
    pub fn claim(&mut self, tid: usize, rid: usize, count: usize)
        requires
            old(self)@.wf(),
            old(self)@.has_entry(tid as int, rid as int),
            old(self)@.need[tid as int][rid as int] + count <= usize::MAX,
        ensures
            final(self)@ == old(self)@.claimed(tid as int, rid as int, count as int),
            final(self)@.wf(),
    {
        proof {
            lemma_claimed_keeps(self@, tid as int, rid as int, count as int);
            self.inner.lemma_row_views(tid as int);
        }
        let v = self.inner.need[tid][rid] + count;
        set_cell(&mut self.inner.need, tid, rid, v);
    }

    /// Revert the claim of a thread for a resource
    pub fn unclaim(&mut self, tid: usize, rid: usize, count: usize)
        requires
            old(self)@.wf(),
            old(self)@.has_entry(tid as int, rid as int),
            count <= old(self)@.need[tid as int][rid as int],
        ensures
            final(self)@ == old(self)@.unclaimed(tid as int, rid as int, count as int),
            final(self)@.wf(),
    {
        proof {
            lemma_unclaimed_keeps(self@, tid as int, rid as int, count as int);
            self.inner.lemma_row_views(tid as int);
        }
        let v = self.inner.need[tid][rid] - count;
        set_cell(&mut self.inner.need, tid, rid, v);
    }

    /// Try to request resources for a thread
    pub fn request(&mut self, tid: usize, rid: usize, count: usize) -> (r: bool)
        requires
            old(self)@.wf(),
            old(self)@.has_entry(tid as int, rid as int),
        ensures
            r == old(self)@.request_granted(tid as int, rid as int, count as int),
            final(self)@ == if r {
                old(self)@.granted(tid as int, rid as int, count as int)
            } else {
                old(self)@
            },
            final(self)@.wf(),
    {
        let ghost d = self@;
        proof {
            self.inner.lemma_row_views(tid as int);
        }
        if count > self.inner.available[rid] || count > self.inner.need[tid][rid] {
            return false;
        }
        proof {
            lemma_granted_keeps(d, tid as int, rid as int, count as int);
        }
        let a = self.inner.available[rid] - count;
        self.inner.available.set(rid, a);
        let h = self.inner.allocation[tid][rid] + count;
        set_cell(&mut self.inner.allocation, tid, rid, h);
        let w = self.inner.need[tid][rid] - count;
        set_cell(&mut self.inner.need, tid, rid, w);
        assert(self@ =~= d.granted(tid as int, rid as int, count as int));
        if self.inner.check() {
            // deadlock occurs
            proof {
                self.inner.lemma_row_views(tid as int);
            }
            let a = self.inner.available[rid] + count;
            self.inner.available.set(rid, a);
            let h = self.inner.allocation[tid][rid] - count;
            set_cell(&mut self.inner.allocation, tid, rid, h);
            let w = self.inner.need[tid][rid] + count;
            set_cell(&mut self.inner.need, tid, rid, w);
            assert(self.inner.available@ =~= d.available);
            assert(rows(self.inner.allocation@)[tid as int] =~= d.allocation[tid as int]);
            assert(rows(self.inner.need@)[tid as int] =~= d.need[tid as int]);
            assert(rows(self.inner.allocation@) =~= d.allocation);
            assert(rows(self.inner.need@) =~= d.need);
            assert(self@ =~= d);
            false
        } else {
            true
        }
    }

    /// The thread has obtained one unit of a resource it waited for: if it
    /// still claims a unit, that unit passes from the free pool to it.
    pub fn acquire_claimed(&mut self, tid: usize, rid: usize)
        requires
            old(self)@.wf(),
            old(self)@.has_entry(tid as int, rid as int),
            old(self)@.need[tid as int][rid as int] >= 1 ==> old(self)@.available[rid as int] >= 1,
        ensures
            final(self)@ == if old(self)@.need[tid as int][rid as int] >= 1 {
                old(self)@.granted(tid as int, rid as int, 1)
            } else {
                old(self)@
            },
            final(self)@.wf(),
    {
        let ghost d = self@;
        proof {
            self.inner.lemma_row_views(tid as int);
        }
        if self.inner.need[tid][rid] >= 1 {
            proof {
                lemma_granted_keeps(d, tid as int, rid as int, 1);
            }
            let a = self.inner.available[rid] - 1;
            self.inner.available.set(rid, a);
            let h = self.inner.allocation[tid][rid] + 1;
            set_cell(&mut self.inner.allocation, tid, rid, h);
            let w = self.inner.need[tid][rid] - 1;
            set_cell(&mut self.inner.need, tid, rid, w);
            assert(self@ =~= d.granted(tid as int, rid as int, 1));
        }
    }

    /// Release resources for a thread
    pub fn release(&mut self, tid: usize, rid: usize, count: usize)
        requires
            old(self)@.wf(),
            old(self)@.has_entry(tid as int, rid as int),
            count <= old(self)@.allocation[tid as int][rid as int],
        ensures
            final(self)@ == old(self)@.released(tid as int, rid as int, count as int),
            final(self)@.wf(),
    {
        let ghost d = self@;
        proof {
            lemma_released_keeps(d, tid as int, rid as int, count as int);
            self.inner.lemma_row_views(tid as int);
        }
        let a = self.inner.available[rid] + count;
        self.inner.available.set(rid, a);
        let h = self.inner.allocation[tid][rid] - count;
        set_cell(&mut self.inner.allocation, tid, rid, h);
        assert(self@ =~= d.released(tid as int, rid as int, count as int));
    }
}

} // verus!
