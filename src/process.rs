//! Per-process synchronisation state and the system calls that act on it.
//!
//! Each call decides and updates state; the dispatcher then performs what the
//! returned `SysOutcome` asks for: resume the caller, block it, let it yield,
//! and wake the task named in `wake`.
use vstd::prelude::*;
use crate::detector::{
    commit_done, release_done, request_done, resource_added, zeros, DeadLockDetector, Safety,
};
use crate::sync::{
    down_answer, down_step, lock_answer, lock_step, signal_step, signal_woken, unlock_step,
    unlock_woken, up_step, up_woken, Acquire, Condvar, Mutex, MutexKind, Semaphore,
};

verus! {

/// Returned instead of blocking when a request would make the state unsafe.
pub const DEAD: isize = -0xDEAD;

/// What happens to the caller after a call.
#[derive(Clone, Copy, Debug, PartialEq, Eq, Structural)]
pub enum Next {
    /// It goes on running with the return value.
    Resume,
    /// It is parked until another task wakes it.
    Block,
    /// It gives up the processor and stays ready.
    Yield,
    /// It yields, then tries the spin lock again with `mutex_lock_retry`.
    Retry,
}

/// Return value of a call, what happens to the caller, and which task to wake.
#[derive(Clone, Copy, Debug, PartialEq, Eq)]
pub struct SysOutcome {
    pub ret: isize,
    pub next: Next,
    pub wake: Option<usize>,
}

/// The caller resumes with `ret` and nobody is woken.
pub open spec fn resumed(ret: isize) -> SysOutcome {
    SysOutcome { ret, next: Next::Resume, wake: None }
}

fn resume(ret: isize) -> (o: SysOutcome)
    ensures
        o == resumed(ret),
{
    SysOutcome { ret, next: Next::Resume, wake: None }
}

/// Tracker, primitives and thread count of one process.
pub struct Process {
    detector: DeadLockDetector,
    mutex_list: Vec<Mutex>,
    semaphore_list: Vec<Semaphore>,
    condvar_list: Vec<Option<Condvar>>,
    threads: usize,
}

impl Process {
    pub closed spec fn detector(&self) -> DeadLockDetector {
        self.detector
    }

    pub closed spec fn mutexes(&self) -> Seq<Mutex> {
        self.mutex_list@
    }

    pub closed spec fn semaphores(&self) -> Seq<Semaphore> {
        self.semaphore_list@
    }

    /// Condition variable slots; a freed slot is `None`.
    pub closed spec fn condvars(&self) -> Seq<Option<Condvar>> {
        self.condvar_list@
    }

    pub closed spec fn threads(&self) -> usize {
        self.threads
    }

    /// The tracker is well formed and every primitive stands for a tracked resource.
    pub open spec fn wf(&self) -> bool {
        &&& self.detector().wf()
        &&& forall|i: int|
            0 <= i < self.mutexes().len() ==> (#[trigger] self.mutexes()[i]).resource()
                < self.detector().resource_count()
        &&& forall|i: int|
            0 <= i < self.semaphores().len() ==> (#[trigger] self.semaphores()[i]).resource()
                < self.detector().resource_count()
    }

    /// Nothing differs between the two.
    pub open spec fn unchanged(&self, other: &Self) -> bool {
        &&& self.detector().same_state(&other.detector())
        &&& self.mutexes() == other.mutexes()
        &&& self.semaphores() == other.semaphores()
        &&& self.condvars() == other.condvars()
        &&& self.threads() == other.threads()
    }

    /// Well-formedness survives a change that kept every old primitive, added
    /// primitives only for tracked resources, and did not shrink the tracker.
    proof fn lemma_wf_after_growth(&self, prev: &Process)
        requires
            prev.wf(),
            self.detector().wf(),
            self.detector().resource_count() >= prev.detector().resource_count(),
            self.mutexes().len() >= prev.mutexes().len(),
            self.semaphores().len() >= prev.semaphores().len(),
            forall|i: int|
                0 <= i < prev.mutexes().len() ==> (#[trigger] self.mutexes()[i]).resource() == prev.mutexes()[i].resource(),
            forall|i: int|
                0 <= i < prev.semaphores().len() ==> (#[trigger] self.semaphores()[i]).resource() == prev.semaphores()[i].resource(),
            forall|i: int|
                prev.mutexes().len() <= i < self.mutexes().len() ==> (#[trigger] self.mutexes()[i]).resource()
                    < self.detector().resource_count(),
            forall|i: int|
                prev.semaphores().len() <= i < self.semaphores().len() ==> (#[trigger] self.semaphores()[i]).resource()
                    < self.detector().resource_count(),
        ensures
            self.wf(),
    {
        assert forall|i: int| 0 <= i < self.mutexes().len() implies (#[trigger] self.mutexes()[i]).resource()
            < self.detector().resource_count() by {
            if i < prev.mutexes().len() {
                assert(prev.mutexes()[i].resource() < prev.detector().resource_count());
            }
        }
        assert forall|i: int| 0 <= i < self.semaphores().len() implies (#[trigger] self.semaphores()[i]).resource()
            < self.detector().resource_count() by {
            if i < prev.semaphores().len() {
                assert(prev.semaphores()[i].resource() < prev.detector().resource_count());
            }
        }
    }

    /// A process with `threads` threads, no primitives, and checking off.
    pub fn new(threads: usize) -> (p: Self)
        ensures
            p.wf(),
            p.detector().task_count() == 0,
            p.detector().resource_count() == 0,
            !p.detector().detecting(),
            p.mutexes().len() == 0,
            p.semaphores().len() == 0,
            p.condvars().len() == 0,
            p.threads() == threads,
    {
        let mut detector = DeadLockDetector::new();
        detector.enable(false);
        Process {
            detector,
            mutex_list: Vec::new(),
            semaphore_list: Vec::new(),
            condvar_list: Vec::new(),
            threads,
        }
    }

    /// Counts one more thread and returns its handle.
    pub fn add_thread(&mut self) -> (tid: usize)
        requires
            old(self).threads() < usize::MAX,
        ensures
            tid == old(self).threads(),
            final(self).threads() == old(self).threads() + 1,
            final(self).detector() == old(self).detector(),
            final(self).mutexes() == old(self).mutexes(),
            final(self).semaphores() == old(self).semaphores(),
            final(self).condvars() == old(self).condvars(),
    {
        let tid = self.threads;
        self.threads = self.threads + 1;
        tid
    }

    pub fn thread_count(&self) -> (n: usize)
        ensures
            n == self.threads(),
    {
        self.threads
    }

    /// The process's resource tracker.
    pub fn tracker(&self) -> (d: &DeadLockDetector)
        ensures
            *d == self.detector(),
    {
        &self.detector
    }
}

/// Creates a mutex, spin or blocking, tracked as a resource of one unit, and returns
/// its handle; -1 when no more can be created.
pub fn sys_mutex_create(process: &mut Process, blocking: bool) -> (id: isize)
    requires
        old(process).wf(),
    ensures
        final(process).wf(),
        old(process).mutexes().len() < isize::MAX && old(process).detector().resource_count()
            < usize::MAX ==> {
            &&& id == old(process).mutexes().len()
            &&& resource_added(old(process).detector(), 1, final(process).detector())
            &&& final(process).mutexes().len() == old(process).mutexes().len() + 1
            &&& final(process).mutexes().drop_last() == old(process).mutexes()
            &&& final(process).mutexes().last().kind() == if blocking {
                MutexKind::Blocking
            } else {
                MutexKind::Spin
            }
            &&& !final(process).mutexes().last().is_locked()
            &&& final(process).mutexes().last().waiters().len() == 0
            &&& final(process).mutexes().last().resource() == old(process).detector().resource_count()
            &&& final(process).semaphores() == old(process).semaphores()
            &&& final(process).condvars() == old(process).condvars()
            &&& final(process).threads() == old(process).threads()
        },
        !(old(process).mutexes().len() < isize::MAX && old(process).detector().resource_count()
            < usize::MAX) ==> id == -1 && final(process).unchanged(old(process)),
{
    if process.mutex_list.len() >= isize::MAX as usize || process.detector.resource_count_exec()
        == usize::MAX {
        return -1;
    }
    let res = process.detector.register_resource(1);
    let kind = if blocking {
        MutexKind::Blocking
    } else {
        MutexKind::Spin
    };
    let id = process.mutex_list.len();
    process.mutex_list.push(Mutex::new(kind, res));
    proof {
        assert(process.mutexes().drop_last() =~= old(process).mutexes());
        process.lemma_wf_after_growth(old(process));
    }
    id as isize
}

/// Creates a counting semaphore of `res_count` units, tracked as a resource of that
/// many units, and returns its handle; -1 when no more can be created.
pub fn sys_semaphore_create(process: &mut Process, res_count: usize) -> (id: isize)
    requires
        old(process).wf(),
    ensures
        final(process).wf(),
        old(process).semaphores().len() < isize::MAX && old(process).detector().resource_count()
            < usize::MAX ==> {
            &&& id == old(process).semaphores().len()
            &&& resource_added(old(process).detector(), res_count, final(process).detector())
            &&& final(process).semaphores().len() == old(process).semaphores().len() + 1
            &&& final(process).semaphores().drop_last() == old(process).semaphores()
            &&& final(process).semaphores().last().count() == res_count
            &&& final(process).semaphores().last().waiters().len() == 0
            &&& final(process).semaphores().last().resource() == old(process).detector().resource_count()
            &&& final(process).mutexes() == old(process).mutexes()
            &&& final(process).condvars() == old(process).condvars()
            &&& final(process).threads() == old(process).threads()
        },
        !(old(process).semaphores().len() < isize::MAX && old(process).detector().resource_count()
            < usize::MAX) ==> id == -1 && final(process).unchanged(old(process)),
{
    if process.semaphore_list.len() >= isize::MAX as usize || process.detector.resource_count_exec()
        == usize::MAX {
        return -1;
    }
    let res = process.detector.register_resource(res_count);
    let id = process.semaphore_list.len();
    process.semaphore_list.push(Semaphore::new(res_count, res));
    proof {
        assert(process.semaphores().drop_last() =~= old(process).semaphores());
        process.lemma_wf_after_growth(old(process));
    }
    id as isize
}

/// Index `i` is the first free slot of `s`.
pub open spec fn first_free_slot(s: Seq<Option<Condvar>>, i: int) -> bool {
    &&& 0 <= i < s.len()
    &&& s[i].is_none()
    &&& forall|j: int| 0 <= j < i ==> (#[trigger] s[j]).is_some()
}

/// Creates a condition variable in the first free slot, or in a new one at the end,
/// and returns its handle; -1 when the slot count has reached its limit.
pub fn sys_condvar_create(process: &mut Process) -> (id: isize)
    requires
        old(process).wf(),
    ensures
        final(process).wf(),
        final(process).detector() == old(process).detector(),
        final(process).mutexes() == old(process).mutexes(),
        final(process).semaphores() == old(process).semaphores(),
        final(process).threads() == old(process).threads(),
        old(process).condvars().len() >= isize::MAX ==> id == -1 && final(process).condvars()
            == old(process).condvars(),
        old(process).condvars().len() < isize::MAX ==> {
            &&& (exists|i: int| first_free_slot(old(process).condvars(), i)) ==> first_free_slot(
                old(process).condvars(),
                id as int,
            ) && final(process).condvars() == old(process).condvars().update(
                id as int,
                final(process).condvars()[id as int],
            )
            &&& !(exists|i: int| first_free_slot(old(process).condvars(), i)) ==> id == old(
                process,
            ).condvars().len() && final(process).condvars().drop_last() == old(process).condvars()
                && final(process).condvars().len() == old(process).condvars().len() + 1
            &&& final(process).condvars()[id as int].is_some()
            &&& final(process).condvars()[id as int].unwrap().waiters().len() == 0
        },
{
    let n = process.condvar_list.len();
    if n >= isize::MAX as usize {
        return -1;
    }
    let mut i: usize = 0;
    while i < n
        invariant
            n == process.condvar_list.len(),
            n < isize::MAX,
            old(process).wf(),
            *process == *old(process),
            i <= n,
            forall|j: int| 0 <= j < i ==> (#[trigger] process.condvar_list@[j]).is_some(),
        decreases n - i,
    {
        if process.condvar_list[i].is_none() {
            process.condvar_list.set(i, Some(Condvar::new()));
            proof {
                assert(first_free_slot(old(process).condvars(), i as int));
                assert(process.condvars() =~= old(process).condvars().update(
                    i as int,
                    process.condvars()[i as int],
                ));
                process.lemma_wf_after_growth(old(process));
            }
            return i as isize;
        }
        i = i + 1;
    }
    proof {
        assert forall|k: int| !first_free_slot(old(process).condvars(), k) by {
            if 0 <= k < n {
                assert(old(process).condvars()[k].is_some());
            }
        }
    }
    process.condvar_list.push(Some(Condvar::new()));
    proof {
        assert(process.condvars().drop_last() =~= old(process).condvars());
        process.lemma_wf_after_growth(old(process));
    }
    n as isize
}

/// The outcome of `lock` on the mutex `m` at handle `id`, with the tracker in state `d`
/// before: a grant is committed to the tracker; a parked or spinning caller changes
/// nothing there.
pub open spec fn mutex_acquired(
    d: DeadLockDetector,
    m: Mutex,
    tid: usize,
    id: int,
    o: SysOutcome,
    new: Process,
) -> bool {
    &&& lock_step(m, tid, lock_answer(m), new.mutexes()[id])
    &&& lock_answer(m) == Acquire::Granted ==> o == resumed(0) && commit_done(
        d,
        tid as int,
        m.resource() as int,
        d.can_commit(tid as int, m.resource() as int),
        new.detector(),
    )
    &&& lock_answer(m) == Acquire::Parked ==> o == (SysOutcome {
        ret: 0,
        next: Next::Block,
        wake: None,
    }) && new.detector().same_state(&d)
    &&& lock_answer(m) == Acquire::Busy ==> o == (SysOutcome {
        ret: 0,
        next: Next::Retry,
        wake: None,
    }) && new.detector().same_state(&d)
}

/// Only mutex `id` and the tracker may differ between `old` and `new`.
pub open spec fn mutex_frame(old: Process, new: Process, id: int) -> bool {
    &&& new.mutexes() == old.mutexes().update(id, new.mutexes()[id])
    &&& new.semaphores() == old.semaphores()
    &&& new.condvars() == old.condvars()
    &&& new.threads() == old.threads()
}

/// Only semaphore `id` and the tracker may differ between `old` and `new`.
pub open spec fn semaphore_frame(old: Process, new: Process, id: int) -> bool {
    &&& new.semaphores() == old.semaphores().update(id, new.semaphores()[id])
    &&& new.mutexes() == old.mutexes()
    &&& new.condvars() == old.condvars()
    &&& new.threads() == old.threads()
}

/// Locks mutex `id` for `tid` and commits a grant to the tracker.
fn acquire_mutex(process: &mut Process, tid: usize, id: usize) -> (o: SysOutcome)
    requires
        old(process).wf(),
        id < old(process).mutexes().len(),
    ensures
        final(process).wf(),
        mutex_acquired(
            old(process).detector(),
            old(process).mutexes()[id as int],
            tid,
            id as int,
            o,
            *final(process),
        ),
        mutex_frame(*old(process), *final(process), id as int),
{
    let res = process.mutex_list[id].resource_id();
    let ghost m0 = process.mutex_list@[id as int];
    let a = process.mutex_list[id].lock(tid);
    let o = match a {
        Acquire::Granted => {
            process.detector.commit_allocation(tid, res);
            resume(0)
        },
        Acquire::Parked => SysOutcome { ret: 0, next: Next::Block, wake: None },
        Acquire::Busy => SysOutcome { ret: 0, next: Next::Retry, wake: None },
    };
    proof {
        assert(process.mutexes() =~= old(process).mutexes().update(id as int, process.mutexes()[id as int]));
        process.lemma_wf_after_growth(old(process));
    }
    o
}

/// Mutex `id` exists and a request by `tid` on it fits the tracker's counters.
pub open spec fn mutex_lock_ok(p: Process, tid: usize, id: usize) -> bool {
    &&& id < p.mutexes().len()
    &&& tid < usize::MAX
    &&& p.detector().need_at(tid as int, p.mutexes()[id as int].resource() as int) < usize::MAX
}

/// Task `tid` locks mutex `id`. The request goes to the tracker first: when it would
/// make the state unsafe the call returns `DEAD` and nothing changes. Otherwise the
/// caller is granted the mutex, parked on it, or told to retry a spin mutex, and the
/// request stays recorded until granted. -1 for an unknown handle.
pub fn sys_mutex_lock(process: &mut Process, tid: usize, mutex_id: usize) -> (o: SysOutcome)
    requires
        old(process).wf(),
    ensures
        final(process).wf(),
        !mutex_lock_ok(*old(process), tid, mutex_id) ==> o == resumed(-1isize) && final(process).unchanged(old(process)),
        mutex_lock_ok(*old(process), tid, mutex_id) ==> {
            let m = old(process).mutexes()[mutex_id as int];
            &&& (o.ret == DEAD) == (old(process).detector().detecting() && !old(process).detector().request_is_safe(tid as int, m.resource() as int))
            &&& o.ret == DEAD ==> o == resumed(DEAD) && final(process).unchanged(old(process))
            &&& o.ret != DEAD ==> mutex_frame(*old(process), *final(process), mutex_id as int)
                && exists|d: DeadLockDetector|
                #![trigger request_done(old(process).detector(), tid as int, m.resource() as int, Safety::Safe, d)]
                request_done(
                    old(process).detector(),
                    tid as int,
                    m.resource() as int,
                    Safety::Safe,
                    d,
                ) && mutex_acquired(d, m, tid, mutex_id as int, o, *final(process))
        },
{
    if mutex_id >= process.mutex_list.len() || tid == usize::MAX {
        return resume(-1);
    }
    let res = process.mutex_list[mutex_id].resource_id();
    let count = process.detector.resource_count_exec();
    proof {
        assert(process.mutexes()[mutex_id as int].resource() < process.detector().resource_count());
        assert(res < count);
    }
    if process.detector.need_of(tid, res) == usize::MAX {
        return resume(-1);
    }
    let s = process.detector.request(tid, res);
    if s == Safety::Unsafe {
        return resume(DEAD);
    }
    proof {
        process.lemma_wf_after_growth(old(process));
    }
    let ghost d = process.detector();
    let o = acquire_mutex(process, tid, mutex_id);
    proof {
        assert(request_done(old(process).detector(), tid as int, res as int, Safety::Safe, d));
    }
    o
}

/// Task `tid` tries again to take spin mutex `id` after `Retry`; the request is
/// already recorded. -1 for an unknown handle.
pub fn mutex_lock_retry(process: &mut Process, tid: usize, mutex_id: usize) -> (o: SysOutcome)
    requires
        old(process).wf(),
    ensures
        final(process).wf(),
        mutex_id >= old(process).mutexes().len() ==> o == resumed(-1isize) && final(process).unchanged(
            old(process),
        ),
        mutex_id < old(process).mutexes().len() ==> mutex_acquired(
            old(process).detector(),
            old(process).mutexes()[mutex_id as int],
            tid,
            mutex_id as int,
            o,
            *final(process),
        ) && mutex_frame(*old(process), *final(process), mutex_id as int),
{
    if mutex_id >= process.mutex_list.len() {
        return resume(-1);
    }
    acquire_mutex(process, tid, mutex_id)
}

/// The outcome of `unlock` on mutex `m` at handle `id`, with the tracker in state `d`
/// once the caller's unit was given back: a unit handed to a woken waiter is committed
/// to it.
pub open spec fn mutex_released(d: DeadLockDetector, m: Mutex, id: int, new: Process) -> bool {
    &&& unlock_step(m, unlock_woken(m), new.mutexes()[id])
    &&& match unlock_woken(m) {
        Some(w) => commit_done(
            d,
            w as int,
            m.resource() as int,
            d.can_commit(w as int, m.resource() as int),
            new.detector(),
        ),
        None => new.detector().same_state(&d),
    }
}

/// Task `tid` gives mutex `id` back: the tracker takes the unit back from `tid`, then
/// hands it to the waiter the mutex passes to, if any.
fn release_mutex(process: &mut Process, tid: usize, id: usize) -> (woken: Option<usize>)
    requires
        old(process).wf(),
        id < old(process).mutexes().len(),
    ensures
        final(process).wf(),
        woken == unlock_woken(old(process).mutexes()[id as int]),
        mutex_frame(*old(process), *final(process), id as int),
        exists|d: DeadLockDetector|
            #![trigger release_done(old(process).detector(), tid as int, old(process).mutexes()[id as int].resource() as int, old(process).detector().can_release(tid as int, old(process).mutexes()[id as int].resource() as int), d)]
            release_done(
                old(process).detector(),
                tid as int,
                old(process).mutexes()[id as int].resource() as int,
                old(process).detector().can_release(
                    tid as int,
                    old(process).mutexes()[id as int].resource() as int,
                ),
                d,
            ) && mutex_released(d, old(process).mutexes()[id as int], id as int, *final(process)),
{
    let res = process.mutex_list[id].resource_id();
    process.detector.release(tid, res);
    let ghost d = process.detector();
    let woken = process.mutex_list[id].unlock();
    match woken {
        Some(w) => {
            process.detector.commit_allocation(w, res);
        },
        None => {},
    }
    proof {
        assert(process.mutexes() =~= old(process).mutexes().update(id as int, process.mutexes()[id as int]));
        process.lemma_wf_after_growth(old(process));
        assert(release_done(
            old(process).detector(),
            tid as int,
            res as int,
            old(process).detector().can_release(tid as int, res as int),
            d,
        ));
    }
    woken
}

/// Task `tid` unlocks mutex `id`; ownership passes to the first waiter, which is woken.
/// -1 for an unknown handle.
pub fn sys_mutex_unlock(process: &mut Process, tid: usize, mutex_id: usize) -> (o: SysOutcome)
    requires
        old(process).wf(),
    ensures
        final(process).wf(),
        mutex_id >= old(process).mutexes().len() ==> o == resumed(-1isize) && final(process).unchanged(old(process)),
        mutex_id < old(process).mutexes().len() ==> {
            let m = old(process).mutexes()[mutex_id as int];
            &&& o == (SysOutcome { ret: 0, next: Next::Resume, wake: unlock_woken(m) })
            &&& mutex_frame(*old(process), *final(process), mutex_id as int)
            &&& exists|d: DeadLockDetector|
                #![trigger release_done(old(process).detector(), tid as int, m.resource() as int, old(process).detector().can_release(tid as int, m.resource() as int), d)]
                release_done(
                    old(process).detector(),
                    tid as int,
                    m.resource() as int,
                    old(process).detector().can_release(tid as int, m.resource() as int),
                    d,
                ) && mutex_released(d, m, mutex_id as int, *final(process))
        },
{
    if mutex_id >= process.mutex_list.len() {
        return resume(-1);
    }
    let woken = release_mutex(process, tid, mutex_id);
    SysOutcome { ret: 0, next: Next::Resume, wake: woken }
}

/// The outcome of `down` on semaphore `s` at handle `id`, with the tracker in state `d`
/// before: a grant is committed to the tracker; a parked caller changes nothing there.
pub open spec fn semaphore_acquired(
    d: DeadLockDetector,
    s: Semaphore,
    tid: usize,
    id: int,
    o: SysOutcome,
    new: Process,
) -> bool {
    &&& down_step(s, tid, down_answer(s), new.semaphores()[id])
    &&& down_answer(s) == Acquire::Granted ==> o == resumed(0) && commit_done(
        d,
        tid as int,
        s.resource() as int,
        d.can_commit(tid as int, s.resource() as int),
        new.detector(),
    )
    &&& down_answer(s) == Acquire::Parked ==> o == (SysOutcome {
        ret: 0,
        next: Next::Block,
        wake: None,
    }) && new.detector().same_state(&d)
}

/// Semaphore `id` exists and a request by `tid` on it fits the tracker's counters.
pub open spec fn semaphore_down_ok(p: Process, tid: usize, id: usize) -> bool {
    &&& id < p.semaphores().len()
    &&& tid < usize::MAX
    &&& p.detector().need_at(tid as int, p.semaphores()[id as int].resource() as int) < usize::MAX
}

/// Task `tid` takes a unit of semaphore `id`. The request goes to the tracker first:
/// when it would make the state unsafe the call returns `DEAD` and nothing changes.
/// Otherwise the caller is granted a unit or parked. -1 for an unknown handle.
pub fn sys_semaphore_down(process: &mut Process, tid: usize, sem_id: usize) -> (o: SysOutcome)
    requires
        old(process).wf(),
    ensures
        final(process).wf(),
        !semaphore_down_ok(*old(process), tid, sem_id) ==> o == resumed(-1isize) && final(process).unchanged(old(process)),
        semaphore_down_ok(*old(process), tid, sem_id) ==> {
            let sm = old(process).semaphores()[sem_id as int];
            &&& (o.ret == DEAD) == (old(process).detector().detecting() && !old(process).detector().request_is_safe(tid as int, sm.resource() as int))
            &&& o.ret == DEAD ==> o == resumed(DEAD) && final(process).unchanged(old(process))
            &&& o.ret != DEAD ==> semaphore_frame(*old(process), *final(process), sem_id as int)
                && exists|d: DeadLockDetector|
                #![trigger request_done(old(process).detector(), tid as int, sm.resource() as int, Safety::Safe, d)]
                request_done(
                    old(process).detector(),
                    tid as int,
                    sm.resource() as int,
                    Safety::Safe,
                    d,
                ) && semaphore_acquired(d, sm, tid, sem_id as int, o, *final(process))
        },
{
    if sem_id >= process.semaphore_list.len() || tid == usize::MAX {
        return resume(-1);
    }
    let res = process.semaphore_list[sem_id].resource_id();
    let count = process.detector.resource_count_exec();
    proof {
        assert(process.semaphores()[sem_id as int].resource() < process.detector().resource_count());
        assert(res < count);
    }
    if process.detector.need_of(tid, res) == usize::MAX {
        return resume(-1);
    }
    let s = process.detector.request(tid, res);
    if s == Safety::Unsafe {
        return resume(DEAD);
    }
    proof {
        process.lemma_wf_after_growth(old(process));
    }
    let ghost d = process.detector();
    let a = process.semaphore_list[sem_id].down(tid);
    let o = match a {
        Acquire::Granted => {
            process.detector.commit_allocation(tid, res);
            resume(0)
        },
        _ => SysOutcome { ret: 0, next: Next::Block, wake: None },
    };
    proof {
        assert(process.semaphores() =~= old(process).semaphores().update(sem_id as int, process.semaphores()[sem_id as int]));
        process.lemma_wf_after_growth(old(process));
        assert(request_done(old(process).detector(), tid as int, res as int, Safety::Safe, d));
    }
    o
}

/// Semaphore `id` exists and has room for a returned unit.
pub open spec fn semaphore_up_ok(p: Process, id: usize) -> bool {
    &&& id < p.semaphores().len()
    &&& (p.semaphores()[id as int].waiters().len() > 0 || p.semaphores()[id as int].count()
        < usize::MAX)
}

/// Task `tid` returns a unit of semaphore `id`: the tracker takes it back from `tid`,
/// then hands it to the first waiter, which is woken. -1 for an unknown handle or a
/// count that cannot grow.
pub fn sys_semaphore_up(process: &mut Process, tid: usize, sem_id: usize) -> (o: SysOutcome)
    requires
        old(process).wf(),
    ensures
        final(process).wf(),
        !semaphore_up_ok(*old(process), sem_id) ==> o == resumed(-1isize) && final(process).unchanged(old(process)),
        semaphore_up_ok(*old(process), sem_id) ==> {
            let sm = old(process).semaphores()[sem_id as int];
            &&& o == (SysOutcome { ret: 0, next: Next::Resume, wake: up_woken(sm) })
            &&& up_step(sm, up_woken(sm), final(process).semaphores()[sem_id as int])
            &&& semaphore_frame(*old(process), *final(process), sem_id as int)
            &&& exists|d: DeadLockDetector|
                #![trigger release_done(old(process).detector(), tid as int, sm.resource() as int, old(process).detector().can_release(tid as int, sm.resource() as int), d)]
                release_done(
                    old(process).detector(),
                    tid as int,
                    sm.resource() as int,
                    old(process).detector().can_release(tid as int, sm.resource() as int),
                    d,
                ) && match up_woken(sm) {
                    Some(w) => commit_done(
                        d,
                        w as int,
                        sm.resource() as int,
                        d.can_commit(w as int, sm.resource() as int),
                        final(process).detector(),
                    ),
                    None => final(process).detector().same_state(&d),
                }
        },
{
    if sem_id >= process.semaphore_list.len() || !process.semaphore_list[sem_id].can_up() {
        return resume(-1);
    }
    let res = process.semaphore_list[sem_id].resource_id();
    process.detector.release(tid, res);
    let ghost d = process.detector();
    let woken = process.semaphore_list[sem_id].up();
    match woken {
        Some(w) => {
            process.detector.commit_allocation(w, res);
        },
        None => {},
    }
    proof {
        assert(process.semaphores() =~= old(process).semaphores().update(sem_id as int, process.semaphores()[sem_id as int]));
        process.lemma_wf_after_growth(old(process));
        assert(release_done(
            old(process).detector(),
            tid as int,
            res as int,
            old(process).detector().can_release(tid as int, res as int),
            d,
        ));
    }
    SysOutcome { ret: 0, next: Next::Resume, wake: woken }
}

/// Condition variable `id` exists.
pub open spec fn condvar_ok(p: Process, id: usize) -> bool {
    id < p.condvars().len() && p.condvars()[id as int].is_some()
}

/// Wakes the task that has waited longest on condition variable `id`; it re-acquires
/// its mutex through `sys_mutex_lock` when it runs. -1 for an unknown handle.
pub fn sys_condvar_signal(process: &mut Process, condvar_id: usize) -> (o: SysOutcome)
    requires
        old(process).wf(),
    ensures
        final(process).wf(),
        !condvar_ok(*old(process), condvar_id) ==> o == resumed(-1isize) && final(process).unchanged(old(process)),
        condvar_ok(*old(process), condvar_id) ==> {
            let c = old(process).condvars()[condvar_id as int].unwrap();
            &&& o == (SysOutcome { ret: 0, next: Next::Resume, wake: signal_woken(c) })
            &&& final(process).condvars()[condvar_id as int].is_some()
            &&& signal_step(c, signal_woken(c), final(process).condvars()[condvar_id as int].unwrap())
            &&& final(process).condvars() == old(process).condvars().update(condvar_id as int, final(process).condvars()[condvar_id as int])
            &&& final(process).detector() == old(process).detector()
            &&& final(process).mutexes() == old(process).mutexes()
            &&& final(process).semaphores() == old(process).semaphores()
            &&& final(process).threads() == old(process).threads()
        },
{
    if condvar_id >= process.condvar_list.len() || process.condvar_list[condvar_id].is_none() {
        return resume(-1);
    }
    let slot = process.condvar_list[condvar_id].take();
    let mut c = slot.unwrap();
    let woken = c.signal();
    process.condvar_list.set(condvar_id, Some(c));
    proof {
        assert(process.condvars() =~= old(process).condvars().update(condvar_id as int, process.condvars()[condvar_id as int]));
        process.lemma_wf_after_growth(old(process));
    }
    SysOutcome { ret: 0, next: Next::Resume, wake: woken }
}

/// Task `tid` waits on condition variable `cid`: it gives mutex `mid` back, as
/// `sys_mutex_unlock` does, joins the tail of the wait list and blocks. -1 for an
/// unknown handle.
pub fn sys_condvar_wait(process: &mut Process, tid: usize, condvar_id: usize, mutex_id: usize) -> (o:
    SysOutcome)
    requires
        old(process).wf(),
    ensures
        final(process).wf(),
        !(condvar_ok(*old(process), condvar_id) && mutex_id < old(process).mutexes().len()) ==> o
            == resumed(-1isize) && final(process).unchanged(old(process)),
        condvar_ok(*old(process), condvar_id) && mutex_id < old(process).mutexes().len() ==> {
            let c = old(process).condvars()[condvar_id as int].unwrap();
            let m = old(process).mutexes()[mutex_id as int];
            &&& o == (SysOutcome { ret: 0, next: Next::Block, wake: unlock_woken(m) })
            &&& final(process).condvars()[condvar_id as int].is_some()
            &&& final(process).condvars()[condvar_id as int].unwrap().waiters() == c.waiters().push(tid)
            &&& final(process).condvars() == old(process).condvars().update(condvar_id as int, final(process).condvars()[condvar_id as int])
            &&& final(process).mutexes() == old(process).mutexes().update(mutex_id as int, final(process).mutexes()[mutex_id as int])
            &&& final(process).semaphores() == old(process).semaphores()
            &&& final(process).threads() == old(process).threads()
            &&& exists|d: DeadLockDetector|
                #![trigger release_done(old(process).detector(), tid as int, m.resource() as int, old(process).detector().can_release(tid as int, m.resource() as int), d)]
                release_done(
                    old(process).detector(),
                    tid as int,
                    m.resource() as int,
                    old(process).detector().can_release(tid as int, m.resource() as int),
                    d,
                ) && mutex_released(d, m, mutex_id as int, *final(process))
        },
{
    if condvar_id >= process.condvar_list.len() || process.condvar_list[condvar_id].is_none()
        || mutex_id >= process.mutex_list.len() {
        return resume(-1);
    }
    let woken = release_mutex(process, tid, mutex_id);
    let ghost released_state = *process;
    let slot = process.condvar_list[condvar_id].take();
    let mut c = slot.unwrap();
    c.wait(tid);
    process.condvar_list.set(condvar_id, Some(c));
    proof {
        assert(process.condvars() =~= old(process).condvars().update(condvar_id as int, process.condvars()[condvar_id as int]));
        assert(process.mutexes() == released_state.mutexes());
        assert(process.detector() == released_state.detector());
        process.lemma_wf_after_growth(&released_state);
    }
    SysOutcome { ret: 0, next: Next::Block, wake: woken }
}

/// Turns deadlock checking on (`enabled == 1`), which also empties the tracker's rows
/// to one per thread, or off (`enabled == 0`). -1 when the process has no mutex and
/// no semaphore, or for any other value.
pub fn sys_enable_deadlock_detect(process: &mut Process, enabled: usize) -> (r: isize)
    requires
        old(process).wf(),
    ensures
        final(process).wf(),
        final(process).mutexes() == old(process).mutexes(),
        final(process).semaphores() == old(process).semaphores(),
        final(process).condvars() == old(process).condvars(),
        final(process).threads() == old(process).threads(),
        (old(process).mutexes().len() == 0 && old(process).semaphores().len() == 0) || enabled > 1
            ==> r == -1 && final(process).unchanged(old(process)),
        (old(process).mutexes().len() > 0 || old(process).semaphores().len() > 0) && enabled == 1
            ==> {
            let d0 = old(process).detector();
            let d = final(process).detector();
            &&& r == 0
            &&& d.detecting()
            &&& d.capacities() == d0.capacities()
            &&& d.available() == d0.capacities()
            &&& d.allocation() == zeros(old(process).threads() as int, d0.resource_count())
            &&& d.needs() == zeros(old(process).threads() as int, d0.resource_count())
        },
        (old(process).mutexes().len() > 0 || old(process).semaphores().len() > 0) && enabled == 0
            ==> {
            let d0 = old(process).detector();
            let d = final(process).detector();
            &&& r == 0
            &&& !d.detecting()
            &&& d.capacities() == d0.capacities()
            &&& d.available() == d0.available()
            &&& d.allocation() == d0.allocation()
            &&& d.needs() == d0.needs()
        },
{
    if process.mutex_list.len() == 0 && process.semaphore_list.len() == 0 {
        return -1;
    }
    if enabled == 1 {
        process.detector.enable(true);
        let n = process.threads;
        process.detector.reset(n);
    } else if enabled == 0 {
        process.detector.enable(false);
    } else {
        return -1;
    }
    proof {
        process.lemma_wf_after_growth(old(process));
    }
    0
}

/// When a task that sleeps `ms` milliseconds from `now_ms` wakes up.
pub fn sys_sleep(now_ms: usize, ms: usize) -> (expire_ms: usize)
    requires
        now_ms + ms <= usize::MAX,
    ensures
        expire_ms == now_ms + ms,
{
    now_ms + ms
}

/// The caller gives up the processor and stays ready.
pub fn sys_yield() -> (o: SysOutcome)
    ensures
        o == (SysOutcome { ret: 0, next: Next::Yield, wake: None }),
{
    SysOutcome { ret: 0, next: Next::Yield, wake: None }
}

} // verus!
