use vstd::prelude::*;
use crate::deadlock_detector::DeadlockDetector;
use crate::detector_model::{
    DetectorModel,
    law_unclaim_undoes_claim,
    law_with_resource_keeps_deadlock_free,
    law_with_thread_keeps_deadlock_free,
    lemma_claimed_keeps,
    lemma_granted_keeps,
    lemma_released_keeps,
    lemma_with_thread_keeps,
};

verus! {

/// What the syscalls return when they refuse an operation that would deadlock.
pub const EDEADLOCK: isize = -0xDEAD;

/// A mutex of the process, as the syscalls see it: whether waiters block
/// or spin, and the resource id under which the detector tracks it.
pub struct MutexObject {
    pub blocking: bool,
    pub rid: usize,
}

/// A semaphore of the process: its initial count and its resource id.
pub struct SemaphoreObject {
    pub res_count: usize,
    pub rid: usize,
}

/// A condition variable of the process.
pub struct CondvarObject {}

/// The synchronisation state that a process keeps: its mutexes, semaphores
/// and condition variables by id, one deadlock detector for mutexes and one
/// for semaphores, and whether deadlock detection is on.
pub struct ProcessSyncState {
    pub mutex_list: Vec<Option<MutexObject>>,
    pub semaphore_list: Vec<Option<SemaphoreObject>>,
    pub condvar_list: Vec<Option<CondvarObject>>,
    pub mutex_deadlock_detector: DeadlockDetector,
    pub semaphore_deadlock_detector: DeadlockDetector,
    pub deadlock_detect_enabled: bool,
}

/// `id` is the first empty slot of `list`, or its length when none is empty.
pub open spec fn is_first_free<T>(list: Seq<Option<T>>, id: int) -> bool {
    &&& 0 <= id <= list.len()
    &&& id < list.len() ==> list[id] is None
    &&& forall|i: int| 0 <= i < id ==> #[trigger] list[i] is Some
}

/// The slot that a new object takes: the first empty one, or a new one at the end.
pub open spec fn first_free<T>(list: Seq<Option<T>>) -> int {
    choose|id: int| is_first_free(list, id)
}

/// `list` with `v` stored at slot `id`, which is either a slot of the list
/// or the one just past its end.
pub open spec fn placed<T>(list: Seq<Option<T>>, id: int, v: T) -> Seq<Option<T>> {
    if id < list.len() {
        list.update(id, Some(v))
    } else {
        list.push(Some(v))
    }
}

/// There is exactly one first free slot.
pub proof fn lemma_first_free<T>(list: Seq<Option<T>>, id: int)
    requires
        is_first_free(list, id),
    ensures
        first_free(list) == id,
{
    let c = first_free(list);
    assert(is_first_free(list, c));
    if c < id {
        assert(list[c] is Some);
    } else if id < c {
        assert(list[id] is Some);
    }
}

/// A list whose slots below `k` are all taken has a first free slot.
proof fn lemma_first_free_exists<T>(list: Seq<Option<T>>, k: int)
    requires
        0 <= k <= list.len(),
        forall|i: int| 0 <= i < k ==> #[trigger] list[i] is Some,
    ensures
        is_first_free(list, first_free(list)),
    decreases list.len() - k,
{
    if k == list.len() || list[k] is None {
        assert(is_first_free(list, k));
    } else {
        lemma_first_free_exists(list, k + 1);
    }
}

/// A new object takes the lowest empty slot, and the end of the list only
/// when every slot is taken.
pub proof fn law_first_free_is_lowest_empty_slot<T>(list: Seq<Option<T>>)
    ensures
        0 <= first_free(list) <= list.len(),
        first_free(list) < list.len() ==> list[first_free(list)] is None,
        forall|i: int| 0 <= i < first_free(list) ==> #[trigger] list[i] is Some,
        first_free(list) == list.len() <==> forall|i: int| 0 <= i < list.len() ==> #[trigger] list[i] is Some,
{
    lemma_first_free_exists(list, 0);
}

/// Finds the first empty slot.
fn find_free<T>(list: &Vec<Option<T>>) -> (r: Option<usize>)
    ensures
        match r {
            Some(id) => id < list.len() && is_first_free(list@, id as int),
            None => is_first_free(list@, list.len() as int),
        },
{
    let mut i: usize = 0;
    while i < list.len()
        invariant
            i <= list.len(),
            forall|k: int| 0 <= k < i ==> #[trigger] list@[k] is Some,
        decreases list.len() - i,
    {
        if list[i].is_none() {
            return Some(i);
        }
        i = i + 1;
    }
    None
}

/// sleep syscall
///
/// `now_ms` is the current time in milliseconds, and `add_timer` arms a
/// timer that wakes the current task at the time it is given; the task then
/// blocks until it is woken.
pub fn sys_sleep<F: FnOnce(usize)>(ms: usize, now_ms: usize, add_timer: F) -> (r: isize)
    requires
        now_ms + ms <= usize::MAX,
        call_requires(add_timer, ((now_ms + ms) as usize,)),
    ensures
        r == 0,
        call_ensures(add_timer, ((now_ms + ms) as usize,), ()),
{
    let expire_ms = now_ms + ms;
    add_timer(expire_ms);
    0
}

/// The detector state after a thread asks for one unit of resource `rid`
/// (a mutex or a semaphore): a granted request takes the unit at once; a
/// refused one keeps the claim while the thread waits, unless detection is
/// on and the claim itself deadlocks, in which case the claim is withdrawn.
pub open spec fn wait_outcome(d: DetectorModel, tid: int, rid: int, enabled: bool) -> DetectorModel {
    let c = d.claimed(tid, rid, 1);
    if c.request_granted(tid, rid, 1) {
        c.granted(tid, rid, 1)
    } else if enabled && c.deadlocked() {
        d
    } else {
        c
    }
}

/// Whether a thread asking for one unit of `rid` is turned away: the
/// request is refused, detection is on, and waiting would deadlock.
pub open spec fn wait_refused(d: DetectorModel, tid: int, rid: int, enabled: bool) -> bool {
    let c = d.claimed(tid, rid, 1);
    !c.request_granted(tid, rid, 1) && enabled && c.deadlocked()
}

/// With deadlock detection on, asking for a mutex or a semaphore never
/// leads its detector from a state without deadlock into a deadlock.
pub proof fn law_wait_keeps_deadlock_free(d: DetectorModel, tid: int, rid: int)
    requires
        !d.deadlocked(),
    ensures
        !wait_outcome(d, tid, rid, true).deadlocked(),
{
}

/// Registering the creating thread and the new object's resource, as the
/// create syscalls do, never turns a state without deadlock into a deadlock.
pub proof fn law_create_keeps_deadlock_free(d: DetectorModel, tid: int, rid: int, count: usize)
    requires
        d.wf(),
        0 <= tid,
        0 <= rid < usize::MAX,
        !d.deadlocked(),
    ensures
        !d.with_thread(tid).with_resource(rid, count).deadlocked(),
{
    law_with_thread_keeps_deadlock_free(d, tid);
    lemma_with_thread_keeps(d, tid);
    law_with_resource_keeps_deadlock_free(d.with_thread(tid), rid, count);
}

/// mutex create syscall
pub fn sys_mutex_create(state: &mut ProcessSyncState, tid: usize, blocking: bool) -> (r: isize)
    requires
        old(state).mutex_deadlock_detector@.wf(),
        tid < usize::MAX,
        old(state).mutex_list.len() < isize::MAX,
    ensures
        r >= 0,
        r as int == first_free(old(state).mutex_list@),
        final(state).mutex_list@ == placed(
            old(state).mutex_list@,
            r as int,
            MutexObject { blocking, rid: r as usize },
        ),
        final(state).mutex_deadlock_detector@ == old(state).mutex_deadlock_detector@.with_thread(
            tid as int,
        ).with_resource(r as int, 1),
        final(state).mutex_deadlock_detector@.wf(),
        final(state).semaphore_list@ == old(state).semaphore_list@,
        final(state).condvar_list@ == old(state).condvar_list@,
        final(state).semaphore_deadlock_detector@ == old(state).semaphore_deadlock_detector@,
        final(state).deadlock_detect_enabled == old(state).deadlock_detect_enabled,
{
    let ghost list0 = state.mutex_list@;
    if let Some(id) = find_free(&state.mutex_list) {
        proof {
            lemma_first_free(list0, id as int);
        }
        let mutex = MutexObject { blocking, rid: id };
        state.mutex_list.set(id, Some(mutex));
        state.mutex_deadlock_detector.add_thread(tid);
        state.mutex_deadlock_detector.add_resource(id, 1);
        id as isize
    } else {
        let rid = state.mutex_list.len();
        proof {
            lemma_first_free(list0, rid as int);
        }
        let mutex = MutexObject { blocking, rid };
        state.mutex_list.push(Some(mutex));
        state.mutex_deadlock_detector.add_thread(tid);
        state.mutex_deadlock_detector.add_resource(rid, 1);
        rid as isize
    }
}

/// mutex lock syscall
///
/// The calling thread claims the mutex. When the detector can hand it over
/// at once, it records the thread as its holder and returns 0: the thread
/// goes on to lock the mutex, which is free. Otherwise the claim stays and 0
/// is returned: the thread goes on to wait for the mutex and, once it has
/// it, reports that with `mutex_lock_acquired`. With detection on, a wait
/// that would deadlock is refused instead: the claim is withdrawn and
/// `EDEADLOCK` returned.
pub fn sys_mutex_lock(state: &mut ProcessSyncState, tid: usize, mutex_id: usize) -> (r: isize)
    requires
        mutex_id < old(state).mutex_list.len(),
        old(state).mutex_list@[mutex_id as int] is Some,
        old(state).mutex_deadlock_detector@.wf(),
        old(state).mutex_deadlock_detector@.has_entry(
            tid as int,
            old(state).mutex_list@[mutex_id as int]->0.rid as int,
        ),
        old(state).mutex_deadlock_detector@.need[tid as int][old(
            state,
        ).mutex_list@[mutex_id as int]->0.rid as int] < usize::MAX,
    ensures
        ({
            let d = old(state).mutex_deadlock_detector@;
            let rid = old(state).mutex_list@[mutex_id as int]->0.rid as int;
            let enabled = old(state).deadlock_detect_enabled;
            &&& r == if wait_refused(d, tid as int, rid, enabled) {
                EDEADLOCK
            } else {
                0
            }
            &&& final(state).mutex_deadlock_detector@ == wait_outcome(d, tid as int, rid, enabled)
        }),
        final(state).mutex_deadlock_detector@.wf(),
        final(state).mutex_list@ == old(state).mutex_list@,
        final(state).semaphore_list@ == old(state).semaphore_list@,
        final(state).condvar_list@ == old(state).condvar_list@,
        final(state).semaphore_deadlock_detector@ == old(state).semaphore_deadlock_detector@,
        final(state).deadlock_detect_enabled == old(state).deadlock_detect_enabled,
{
    let ghost d = state.mutex_deadlock_detector@;
    let rid = match &state.mutex_list[mutex_id] {
        Some(mutex) => mutex.rid,
        None => 0,
    };
    proof {
        lemma_claimed_keeps(d, tid as int, rid as int, 1);
        law_unclaim_undoes_claim(d, tid as int, rid as int, 1);
    }
    state.mutex_deadlock_detector.claim(tid, rid, 1);
    if state.mutex_deadlock_detector.request(tid, rid, 1) {
        0
    } else {
        let real_deadlocked = state.deadlock_detect_enabled
            && state.mutex_deadlock_detector.inner.check();
        if real_deadlocked {
            state.mutex_deadlock_detector.unclaim(tid, rid, 1);
            EDEADLOCK
        } else {
            0
        }
    }
}

/// The detector state once a thread that waited for the mutex with resource
/// `rid` has it: the unit it still claims passes from the free pool to it.
/// A thread whose claim was granted when it asked has no claim left, and
/// nothing changes.
pub open spec fn acquired_outcome(d: DetectorModel, tid: int, rid: int) -> DetectorModel {
    if d.need[tid][rid] >= 1 {
        d.granted(tid, rid, 1)
    } else {
        d
    }
}

/// A thread that asks for a free mutex, with no claim on it outstanding,
/// and is granted it at once is recorded as its holder, and reporting the
/// lock afterwards changes nothing more.
pub proof fn law_granted_lock_records_holder(d: DetectorModel, tid: int, rid: int, enabled: bool)
    requires
        d.wf(),
        d.has_entry(tid, rid),
        d.need[tid][rid] == 0,
        d.claimed(tid, rid, 1).request_granted(tid, rid, 1),
    ensures
        ({
            let e = acquired_outcome(wait_outcome(d, tid, rid, enabled), tid, rid);
            &&& e.allocation[tid][rid] == d.allocation[tid][rid] + 1
            &&& e.available[rid] == d.available[rid] - 1
            &&& e.need[tid][rid] == 0
        }),
{
    lemma_claimed_keeps(d, tid, rid, 1);
    let c = d.claimed(tid, rid, 1);
    lemma_granted_keeps(c, tid, rid, 1);
    assert(c.need[tid][rid] == 1);
    assert(wait_outcome(d, tid, rid, enabled) == c.granted(tid, rid, 1));
}

/// A thread that waits for a mutex held by another thread, and takes it
/// once the holder has unlocked it, is recorded as its new holder: the
/// unit moves from the old holder to it, through the free pool.
pub proof fn law_waiting_lock_records_holder(
    d: DetectorModel,
    tid: int,
    holder: int,
    rid: int,
    enabled: bool,
)
    requires
        d.wf(),
        d.has_entry(tid, rid),
        d.has_entry(holder, rid),
        tid != holder,
        d.available[rid] == 0,
        d.allocation[holder][rid] == 1,
        d.need[tid][rid] == 0,
        !wait_refused(d, tid, rid, enabled),
    ensures
        ({
            let e = acquired_outcome(
                wait_outcome(d, tid, rid, enabled).released(holder, rid, 1),
                tid,
                rid,
            );
            &&& e.allocation[tid][rid] == d.allocation[tid][rid] + 1
            &&& e.allocation[holder][rid] == 0
            &&& e.available[rid] == 0
            &&& e.need[tid][rid] == 0
        }),
{
    lemma_claimed_keeps(d, tid, rid, 1);
    let c = d.claimed(tid, rid, 1);
    assert(c.need[tid][rid] == 1);
    assert(!c.request_granted(tid, rid, 1));
    assert(wait_outcome(d, tid, rid, enabled) == c);
    assert(c.allocation == d.allocation && c.available == d.available);
    lemma_released_keeps(c, holder, rid, 1);
    let c2 = c.released(holder, rid, 1);
    assert(c2.need == c.need);
    assert(c2.available[rid] == 1);
    assert(c2.allocation[holder][rid] == 0);
    assert(c2.allocation[tid][rid] == d.allocation[tid][rid]);
    lemma_granted_keeps(c2, tid, rid, 1);
}

/// Records that the calling thread now holds mutex `mutex_id`, after a
/// `sys_mutex_lock` that returned 0 and the lock that followed it. When the
/// thread had to wait, its claim is turned into a holding; the mutex is
/// free for the detector then, since its holder has unlocked it.
pub fn mutex_lock_acquired(state: &mut ProcessSyncState, tid: usize, mutex_id: usize)
    requires
        mutex_id < old(state).mutex_list.len(),
        old(state).mutex_list@[mutex_id as int] is Some,
        old(state).mutex_deadlock_detector@.wf(),
        old(state).mutex_deadlock_detector@.has_entry(
            tid as int,
            old(state).mutex_list@[mutex_id as int]->0.rid as int,
        ),
        old(state).mutex_deadlock_detector@.need[tid as int][old(
            state,
        ).mutex_list@[mutex_id as int]->0.rid as int] >= 1
            ==> old(state).mutex_deadlock_detector@.available[old(
            state,
        ).mutex_list@[mutex_id as int]->0.rid as int] >= 1,
    ensures
        final(state).mutex_deadlock_detector@ == acquired_outcome(
            old(state).mutex_deadlock_detector@,
            tid as int,
            old(state).mutex_list@[mutex_id as int]->0.rid as int,
        ),
        final(state).mutex_deadlock_detector@.wf(),
        final(state).mutex_list@ == old(state).mutex_list@,
        final(state).semaphore_list@ == old(state).semaphore_list@,
        final(state).condvar_list@ == old(state).condvar_list@,
        final(state).semaphore_deadlock_detector@ == old(state).semaphore_deadlock_detector@,
        final(state).deadlock_detect_enabled == old(state).deadlock_detect_enabled,
{
    let rid = match &state.mutex_list[mutex_id] {
        Some(mutex) => mutex.rid,
        None => 0,
    };
    state.mutex_deadlock_detector.acquire_claimed(tid, rid);
}

/// mutex unlock syscall
///
/// Returns 0, after which the calling thread goes on to unlock mutex `mutex_id`.
pub fn sys_mutex_unlock(state: &mut ProcessSyncState, tid: usize, mutex_id: usize) -> (r: isize)
    requires
        mutex_id < old(state).mutex_list.len(),
        old(state).mutex_list@[mutex_id as int] is Some,
        old(state).mutex_deadlock_detector@.wf(),
        old(state).mutex_deadlock_detector@.has_entry(
            tid as int,
            old(state).mutex_list@[mutex_id as int]->0.rid as int,
        ),
        old(state).mutex_deadlock_detector@.allocation[tid as int][old(
            state,
        ).mutex_list@[mutex_id as int]->0.rid as int] >= 1,
    ensures
        r == 0,
        final(state).mutex_deadlock_detector@ == old(state).mutex_deadlock_detector@.released(
            tid as int,
            old(state).mutex_list@[mutex_id as int]->0.rid as int,
            1,
        ),
        final(state).mutex_deadlock_detector@.wf(),
        final(state).mutex_list@ == old(state).mutex_list@,
        final(state).semaphore_list@ == old(state).semaphore_list@,
        final(state).condvar_list@ == old(state).condvar_list@,
        final(state).semaphore_deadlock_detector@ == old(state).semaphore_deadlock_detector@,
        final(state).deadlock_detect_enabled == old(state).deadlock_detect_enabled,
{
    let rid = match &state.mutex_list[mutex_id] {
        Some(mutex) => mutex.rid,
        None => 0,
    };
    state.mutex_deadlock_detector.release(tid, rid, 1);
    0
}

/// semaphore create syscall
pub fn sys_semaphore_create(state: &mut ProcessSyncState, tid: usize, res_count: usize) -> (r: isize)
    requires
        old(state).semaphore_deadlock_detector@.wf(),
        tid < usize::MAX,
        old(state).semaphore_list.len() < isize::MAX,
    ensures
        r >= 0,
        r as int == first_free(old(state).semaphore_list@),
        final(state).semaphore_list@ == placed(
            old(state).semaphore_list@,
            r as int,
            SemaphoreObject { res_count, rid: r as usize },
        ),
        final(state).semaphore_deadlock_detector@
            == old(state).semaphore_deadlock_detector@.with_thread(tid as int).with_resource(
            r as int,
            res_count,
        ),
        final(state).semaphore_deadlock_detector@.wf(),
        final(state).mutex_list@ == old(state).mutex_list@,
        final(state).condvar_list@ == old(state).condvar_list@,
        final(state).mutex_deadlock_detector@ == old(state).mutex_deadlock_detector@,
        final(state).deadlock_detect_enabled == old(state).deadlock_detect_enabled,
{
    let ghost list0 = state.semaphore_list@;
    let id = if let Some(id) = find_free(&state.semaphore_list) {
        proof {
            lemma_first_free(list0, id as int);
        }
        state.semaphore_deadlock_detector.add_thread(tid);
        state.semaphore_deadlock_detector.add_resource(id, res_count);
        state.semaphore_list.set(id, Some(SemaphoreObject { res_count, rid: id }));
        id
    } else {
        let rid = state.semaphore_list.len();
        proof {
            lemma_first_free(list0, rid as int);
        }
        state.semaphore_list.push(Some(SemaphoreObject { res_count, rid }));
        state.semaphore_deadlock_detector.add_thread(tid);
        state.semaphore_deadlock_detector.add_resource(rid, res_count);
        state.semaphore_list.len() - 1
    };
    id as isize
}

/// semaphore up syscall
///
/// Returns 0, after which the calling thread goes on to raise semaphore `sem_id`.
pub fn sys_semaphore_up(state: &mut ProcessSyncState, tid: usize, sem_id: usize) -> (r: isize)
    requires
        sem_id < old(state).semaphore_list.len(),
        old(state).semaphore_list@[sem_id as int] is Some,
        old(state).semaphore_deadlock_detector@.wf(),
        old(state).semaphore_deadlock_detector@.has_entry(
            tid as int,
            old(state).semaphore_list@[sem_id as int]->0.rid as int,
        ),
        old(state).semaphore_deadlock_detector@.allocation[tid as int][old(
            state,
        ).semaphore_list@[sem_id as int]->0.rid as int] >= 1,
    ensures
        r == 0,
        final(state).semaphore_deadlock_detector@
            == old(state).semaphore_deadlock_detector@.released(
            tid as int,
            old(state).semaphore_list@[sem_id as int]->0.rid as int,
            1,
        ),
        final(state).semaphore_deadlock_detector@.wf(),
        final(state).mutex_list@ == old(state).mutex_list@,
        final(state).semaphore_list@ == old(state).semaphore_list@,
        final(state).condvar_list@ == old(state).condvar_list@,
        final(state).mutex_deadlock_detector@ == old(state).mutex_deadlock_detector@,
        final(state).deadlock_detect_enabled == old(state).deadlock_detect_enabled,
{
    let rid = match &state.semaphore_list[sem_id] {
        Some(sem) => sem.rid,
        None => 0,
    };
    state.semaphore_deadlock_detector.release(tid, rid, 1);
    0
}

/// semaphore down syscall
///
/// Returns 0 when the calling thread is to go on and lower semaphore
/// `sem_id`, and `EDEADLOCK` when that is refused.
pub fn sys_semaphore_down(state: &mut ProcessSyncState, tid: usize, sem_id: usize) -> (r: isize)
    requires
        sem_id < old(state).semaphore_list.len(),
        old(state).semaphore_list@[sem_id as int] is Some,
        old(state).semaphore_deadlock_detector@.wf(),
        old(state).semaphore_deadlock_detector@.has_entry(
            tid as int,
            old(state).semaphore_list@[sem_id as int]->0.rid as int,
        ),
        old(state).semaphore_deadlock_detector@.need[tid as int][old(
            state,
        ).semaphore_list@[sem_id as int]->0.rid as int] < usize::MAX,
    ensures
        ({
            let d = old(state).semaphore_deadlock_detector@;
            let rid = old(state).semaphore_list@[sem_id as int]->0.rid as int;
            let enabled = old(state).deadlock_detect_enabled;
            &&& r == if wait_refused(d, tid as int, rid, enabled) {
                EDEADLOCK
            } else {
                0
            }
            &&& final(state).semaphore_deadlock_detector@ == wait_outcome(d, tid as int, rid, enabled)
        }),
        final(state).semaphore_deadlock_detector@.wf(),
        final(state).mutex_list@ == old(state).mutex_list@,
        final(state).semaphore_list@ == old(state).semaphore_list@,
        final(state).condvar_list@ == old(state).condvar_list@,
        final(state).mutex_deadlock_detector@ == old(state).mutex_deadlock_detector@,
        final(state).deadlock_detect_enabled == old(state).deadlock_detect_enabled,
{
    let ghost d = state.semaphore_deadlock_detector@;
    let rid = match &state.semaphore_list[sem_id] {
        Some(sem) => sem.rid,
        None => 0,
    };
    proof {
        lemma_claimed_keeps(d, tid as int, rid as int, 1);
        law_unclaim_undoes_claim(d, tid as int, rid as int, 1);
    }
    state.semaphore_deadlock_detector.claim(tid, rid, 1);
    if state.semaphore_deadlock_detector.request(tid, rid, 1) {
        0
    } else {
        let real_deadlocked = state.deadlock_detect_enabled
            && state.semaphore_deadlock_detector.inner.check();
        if real_deadlocked {
            state.semaphore_deadlock_detector.unclaim(tid, rid, 1);
            EDEADLOCK
        } else {
            0
        }
    }
}

/// condvar create syscall
pub fn sys_condvar_create(state: &mut ProcessSyncState) -> (r: isize)
    requires
        old(state).condvar_list.len() < isize::MAX,
    ensures
        r >= 0,
        r as int == first_free(old(state).condvar_list@),
        final(state).condvar_list@ == placed(old(state).condvar_list@, r as int, CondvarObject {  }),
        final(state).mutex_list@ == old(state).mutex_list@,
        final(state).semaphore_list@ == old(state).semaphore_list@,
        final(state).mutex_deadlock_detector@ == old(state).mutex_deadlock_detector@,
        final(state).semaphore_deadlock_detector@ == old(state).semaphore_deadlock_detector@,
        final(state).deadlock_detect_enabled == old(state).deadlock_detect_enabled,
{
    let ghost list0 = state.condvar_list@;
    let id = if let Some(id) = find_free(&state.condvar_list) {
        proof {
            lemma_first_free(list0, id as int);
        }
        state.condvar_list.set(id, Some(CondvarObject {  }));
        id
    } else {
        proof {
            lemma_first_free(list0, list0.len() as int);
        }
        state.condvar_list.push(Some(CondvarObject {  }));
        state.condvar_list.len() - 1
    };
    id as isize
}

/// condvar signal syscall
///
/// `signal` wakes a thread waiting on the condition variable with the id it
/// is given.
pub fn sys_condvar_signal<F: FnOnce(usize)>(state: &ProcessSyncState, condvar_id: usize, signal: F) -> (r: isize)
    requires
        condvar_id < state.condvar_list.len(),
        state.condvar_list@[condvar_id as int] is Some,
        call_requires(signal, (condvar_id,)),
    ensures
        r == 0,
        call_ensures(signal, (condvar_id,), ()),
{
    signal(condvar_id);
    0
}

/// condvar wait syscall
///
/// `wait` makes the current task wait on the condition variable with the
/// first id it is given, releasing the mutex with the second id meanwhile
/// and holding it again when woken.
pub fn sys_condvar_wait<F: FnOnce(usize, usize)>(
    state: &ProcessSyncState,
    condvar_id: usize,
    mutex_id: usize,
    wait: F,
) -> (r: isize)
    requires
        condvar_id < state.condvar_list.len(),
        state.condvar_list@[condvar_id as int] is Some,
        mutex_id < state.mutex_list.len(),
        state.mutex_list@[mutex_id as int] is Some,
        call_requires(wait, (condvar_id, mutex_id)),
    ensures
        r == 0,
        call_ensures(wait, (condvar_id, mutex_id), ()),
{
    wait(condvar_id, mutex_id);
    0
}

/// enable deadlock detection syscall
pub fn sys_enable_deadlock_detect(state: &mut ProcessSyncState, enabled: usize) -> (r: isize)
    ensures
        r == if enabled <= 1 {
            0isize
        } else {
            -1isize
        },
        final(state).deadlock_detect_enabled == if enabled <= 1 {
            enabled == 1
        } else {
            old(state).deadlock_detect_enabled
        },
        final(state).mutex_list@ == old(state).mutex_list@,
        final(state).semaphore_list@ == old(state).semaphore_list@,
        final(state).condvar_list@ == old(state).condvar_list@,
        final(state).mutex_deadlock_detector@ == old(state).mutex_deadlock_detector@,
        final(state).semaphore_deadlock_detector@ == old(state).semaphore_deadlock_detector@,
{
    match enabled {
        0 | 1 => {
            state.deadlock_detect_enabled = enabled == 1;
            0
        },
        _ => -1,
    }
}

} // verus!
