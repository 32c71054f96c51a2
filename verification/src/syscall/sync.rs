//! Mutexes, semaphores and condition variables, with deadlock avoidance.
use vstd::prelude::*;

use crate::config::{DEADLOCK_SIGNAL, MAX_LOCK, MAX_THREAD, WAIT_SIGNAL};
use crate::deadlock::{released, request_answer, request_applied};
use crate::process::{
    find_free, first_free, lemma_first_free, place_first_free, condvars_numbered, CondvarHandle, MutexHandle,
    ProcessControlBlockInner, SemaphoreHandle,
};

verus! {

/// Returns the moment, in milliseconds, at which a thread that sleeps `ms`
/// milliseconds from `now_ms` wakes up.
pub fn sys_sleep(now_ms: usize, ms: usize) -> (expire_ms: usize)
    requires
        now_ms + ms <= usize::MAX,
    ensures
        expire_ms == now_ms + ms,
{
    now_ms + ms
}

/// Creates a mutex for thread `tid`; returns its slot.
pub fn sys_mutex_create(inner: &mut ProcessControlBlockInner, tid: usize, blocking: bool) -> (r:
    isize)
    requires
        old(inner).wf(),
        tid < MAX_THREAD,
        old(inner).deadlock_detector.next_lock_id() < MAX_LOCK,
        old(inner).mutex_list@.len() < isize::MAX,
    ensures
        final(inner).wf(),
        r == first_free(old(inner).mutex_list@),
        final(inner).mutex_list@ == place_first_free(
            old(inner).mutex_list@,
            MutexHandle { id: old(inner).deadlock_detector.next_lock_id() as usize, blocking },
        ),
        final(inner).deadlock_detector.next_lock_id() == old(inner).deadlock_detector.next_lock_id()
            + 1,
{
    inner.create_mutex(tid, blocking)
}

/// Thread `tid` locks the mutex in slot `mutex_id`. With deadlock
/// detection on, the request goes to the detector, and when granting it
/// could deadlock the answer is `Err(DEADLOCK_SIGNAL)`; otherwise (and
/// always with detection off, which leaves the detector alone) the caller
/// locks the returned mutex (waiting for it if it is taken) and returns 0.
pub fn sys_mutex_lock(inner: &mut ProcessControlBlockInner, tid: usize, mutex_id: usize) -> (r:
    Result<MutexHandle, isize>)
    requires
        old(inner).wf(),
        tid < MAX_THREAD,
        mutex_id < old(inner).mutex_list@.len(),
        old(inner).mutex_list@[mutex_id as int] is Some,
        old(inner).enable_deadlock_detector ==> old(inner).deadlock_detector.need_view()[tid as int][old(
            inner,
        ).mutex_list@[mutex_id as int]->0.id as int] < usize::MAX,
    ensures
        final(inner).wf(),
        !old(inner).enable_deadlock_detector ==> {
            &&& r == Ok::<MutexHandle, isize>(old(inner).mutex_list@[mutex_id as int]->0)
            &&& *final(inner) == *old(inner)
        },
        old(inner).enable_deadlock_detector ==> {
            let m = old(inner).mutex_list@[mutex_id as int]->0;
            let d0 = old(inner).deadlock_detector;
            &&& request_applied(d0, final(inner).deadlock_detector, tid, m.id, false)
            &&& r == if request_answer(d0, tid, m.id, false) == DEADLOCK_SIGNAL {
                Err::<MutexHandle, isize>(DEADLOCK_SIGNAL as isize)
            } else {
                Ok::<MutexHandle, isize>(m)
            }
        },
        *final(inner) == (ProcessControlBlockInner {
            deadlock_detector: final(inner).deadlock_detector,
            ..*old(inner)
        }),
{
    let mutex = inner.mutex_lock(mutex_id);
    if !inner.enable_deadlock_detector {
        return Ok(mutex);
    }
    let id = mutex.id;
    let deadlock = inner.deadlock_detector.detect_deadlock(tid, id, false);
    if deadlock != DEADLOCK_SIGNAL {
        Ok(mutex)
    } else {
        Err(DEADLOCK_SIGNAL as isize)
    }
}

/// Thread `tid` unlocks the mutex in slot `mutex_id`: with deadlock
/// detection on, the detector takes the unit back; the caller then unlocks
/// the returned mutex and returns 0.
pub fn sys_mutex_unlock(inner: &mut ProcessControlBlockInner, tid: usize, mutex_id: usize) -> (r:
    MutexHandle)
    requires
        old(inner).wf(),
        tid < MAX_THREAD,
        mutex_id < old(inner).mutex_list@.len(),
        old(inner).mutex_list@[mutex_id as int] is Some,
        old(inner).enable_deadlock_detector ==> old(inner).deadlock_detector.allocation_view()[tid as int][old(
            inner,
        ).mutex_list@[mutex_id as int]->0.id as int] >= 1,
    ensures
        final(inner).wf(),
        r == old(inner).mutex_list@[mutex_id as int]->0,
        old(inner).enable_deadlock_detector ==> released(
            old(inner).deadlock_detector,
            final(inner).deadlock_detector,
            tid,
            r.id,
        ),
        !old(inner).enable_deadlock_detector ==> final(inner).deadlock_detector == old(
            inner,
        ).deadlock_detector,
        *final(inner) == (ProcessControlBlockInner {
            deadlock_detector: final(inner).deadlock_detector,
            ..*old(inner)
        }),
{
    let mutex = inner.mutex_lock(mutex_id);
    if inner.enable_deadlock_detector {
        inner.deadlock_detector.release(tid, mutex.id);
    }
    mutex
}

/// Creates a semaphore with `res_count` units for thread `tid`; returns its
/// slot.
pub fn sys_semaphore_create(inner: &mut ProcessControlBlockInner, tid: usize, res_count: usize) -> (r:
    isize)
    requires
        old(inner).wf(),
        tid < MAX_THREAD,
        old(inner).deadlock_detector.next_lock_id() < MAX_LOCK,
        old(inner).semaphore_list@.len() < isize::MAX,
    ensures
        final(inner).wf(),
        r == first_free(old(inner).semaphore_list@),
        final(inner).semaphore_list@ == place_first_free(
            old(inner).semaphore_list@,
            SemaphoreHandle {
                id: old(inner).deadlock_detector.next_lock_id() as usize,
                count: res_count,
            },
        ),
        final(inner).deadlock_detector.next_lock_id() == old(inner).deadlock_detector.next_lock_id()
            + 1,
{
    proof {
        lemma_first_free(inner.semaphore_list@);
    }
    let id = inner.create_semaphore(tid, res_count);
    id as isize
}

/// Thread `tid` gives back a unit of the semaphore in slot `sem_id`: with
/// deadlock detection on, the detector takes the unit back; the caller then
/// raises the returned semaphore and returns 0.
pub fn sys_semaphore_up(inner: &mut ProcessControlBlockInner, tid: usize, sem_id: usize) -> (r:
    SemaphoreHandle)
    requires
        old(inner).wf(),
        tid < MAX_THREAD,
        sem_id < old(inner).semaphore_list@.len(),
        old(inner).semaphore_list@[sem_id as int] is Some,
        old(inner).enable_deadlock_detector ==> old(inner).deadlock_detector.allocation_view()[tid as int][old(
            inner,
        ).semaphore_list@[sem_id as int]->0.id as int] >= 1,
    ensures
        final(inner).wf(),
        r == old(inner).semaphore_list@[sem_id as int]->0,
        old(inner).enable_deadlock_detector ==> released(
            old(inner).deadlock_detector,
            final(inner).deadlock_detector,
            tid,
            r.id,
        ),
        !old(inner).enable_deadlock_detector ==> final(inner).deadlock_detector == old(
            inner,
        ).deadlock_detector,
        *final(inner) == (ProcessControlBlockInner {
            deadlock_detector: final(inner).deadlock_detector,
            ..*old(inner)
        }),
{
    let sem = inner.semaphore(sem_id);
    if inner.enable_deadlock_detector {
        inner.deadlock_detector.release(tid, sem.id);
    }
    sem
}

/// What a thread that takes a semaphore does next.
#[derive(Clone, Copy, Debug, PartialEq, Eq, Structural)]
pub enum SemaphoreDown {
    /// Lower the semaphore and return 0.
    Acquire(SemaphoreHandle),
    /// Yield, then ask again with `retry` set.
    Wait,
    /// Return `DEADLOCK_SIGNAL`.
    Deadlock,
}

/// One round of thread `tid` taking a unit of the semaphore in slot
/// `sem_id` (`retry`: an earlier round answered `Wait`). With deadlock
/// detection off the thread just takes the semaphore, and the detector is
/// left alone.
pub fn sys_semaphore_down(
    inner: &mut ProcessControlBlockInner,
    tid: usize,
    sem_id: usize,
    retry: bool,
) -> (r: SemaphoreDown)
    requires
        old(inner).wf(),
        tid < MAX_THREAD,
        sem_id < old(inner).semaphore_list@.len(),
        old(inner).semaphore_list@[sem_id as int] is Some,
        old(inner).enable_deadlock_detector && !retry ==> old(inner).deadlock_detector.need_view()[tid as int][old(
            inner,
        ).semaphore_list@[sem_id as int]->0.id as int] < usize::MAX,
        old(inner).enable_deadlock_detector && retry ==> old(inner).deadlock_detector.need_view()[tid as int][old(
            inner,
        ).semaphore_list@[sem_id as int]->0.id as int] >= 1,
    ensures
        final(inner).wf(),
        !old(inner).enable_deadlock_detector ==> {
            &&& r == SemaphoreDown::Acquire(old(inner).semaphore_list@[sem_id as int]->0)
            &&& *final(inner) == *old(inner)
        },
        old(inner).enable_deadlock_detector ==> ({
            let sem = old(inner).semaphore_list@[sem_id as int]->0;
            let d0 = old(inner).deadlock_detector;
            let answer = request_answer(d0, tid, sem.id, retry);
            &&& request_applied(d0, final(inner).deadlock_detector, tid, sem.id, retry)
            &&& r == if answer == WAIT_SIGNAL {
                SemaphoreDown::Wait
            } else if answer == DEADLOCK_SIGNAL {
                SemaphoreDown::Deadlock
            } else {
                SemaphoreDown::Acquire(sem)
            }
        }),
        *final(inner) == (ProcessControlBlockInner {
            deadlock_detector: final(inner).deadlock_detector,
            ..*old(inner)
        }),
{
    let sem = inner.semaphore(sem_id);
    if !inner.enable_deadlock_detector {
        return SemaphoreDown::Acquire(sem);
    }
    let deadlock = inner.deadlock_detector.detect_deadlock(tid, sem.id, retry);
    if deadlock == WAIT_SIGNAL {
        SemaphoreDown::Wait
    } else if deadlock != DEADLOCK_SIGNAL {
        SemaphoreDown::Acquire(sem)
    } else {
        SemaphoreDown::Deadlock
    }
}

/// Creates a condition variable, known by the first free slot, in that
/// slot; returns the slot.
pub fn sys_condvar_create(inner: &mut ProcessControlBlockInner) -> (r: isize)
    requires
        old(inner).condvar_list@.len() < isize::MAX,
    ensures
        r == first_free(old(inner).condvar_list@),
        final(inner).condvar_list@ == place_first_free(
            old(inner).condvar_list@,
            CondvarHandle { id: r as usize },
        ),
        condvars_numbered(old(inner).condvar_list@) ==> condvars_numbered(final(inner).condvar_list@),
        *final(inner) == (ProcessControlBlockInner {
            condvar_list: final(inner).condvar_list,
            ..*old(inner)
        }),
{
    proof {
        lemma_first_free(inner.condvar_list@);
    }
    let id = match find_free(&inner.condvar_list) {
        Some(id) => {
            inner.condvar_list.set(id, Some(CondvarHandle { id }));
            id
        },
        None => {
            let id = inner.condvar_list.len();
            inner.condvar_list.push(Some(CondvarHandle { id }));
            id
        },
    };
    id as isize
}

/// The condition variable in slot `condvar_id`, for the caller to signal:
/// the one created in that slot.
pub fn sys_condvar_signal(inner: &ProcessControlBlockInner, condvar_id: usize) -> (r:
    CondvarHandle)
    requires
        condvar_id < inner.condvar_list@.len(),
        inner.condvar_list@[condvar_id as int] is Some,
    ensures
        inner.condvar_list@[condvar_id as int] == Some(r),
        condvars_numbered(inner.condvar_list@) ==> r.id == condvar_id,
{
    inner.condvar_list[condvar_id].unwrap()
}

/// The condition variable in slot `condvar_id` and the mutex in slot
/// `mutex_id`, for the caller to wait on.
pub fn sys_condvar_wait(inner: &ProcessControlBlockInner, condvar_id: usize, mutex_id: usize) -> (r:
    (CondvarHandle, MutexHandle))
    requires
        condvar_id < inner.condvar_list@.len(),
        inner.condvar_list@[condvar_id as int] is Some,
        mutex_id < inner.mutex_list@.len(),
        inner.mutex_list@[mutex_id as int] is Some,
    ensures
        inner.condvar_list@[condvar_id as int] == Some(r.0),
        inner.mutex_list@[mutex_id as int] == Some(r.1),
{
    let condvar = inner.condvar_list[condvar_id].unwrap();
    let mutex = inner.mutex_list[mutex_id].unwrap();
    (condvar, mutex)
}

/// Turns deadlock detection on; returns 0.
pub fn sys_enable_deadlock_detect(inner: &mut ProcessControlBlockInner, _enabled: usize) -> (r:
    isize)
    ensures
        r == 0,
        *final(inner) == (ProcessControlBlockInner {
            enable_deadlock_detector: true,
            ..*old(inner)
        }),
{
    inner.enable_detect_deadlock();
    0
}

} // verus!
