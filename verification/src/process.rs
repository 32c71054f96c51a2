//! The process control block and the tables of resources it owns.
use vstd::prelude::*;

use crate::config::{MAX_LOCK, MAX_THREAD};
use crate::deadlock::{matrix_set, DeadlockDetector};
use crate::mm::MemorySet;
use crate::recycle::{alloc_step, dealloc_step, live_ids, RecycleAllocator};
use vstd::bytes::{lemma_auto_spec_u64_to_from_le_bytes, spec_u64_to_le_bytes, u64_to_le_bytes};

verus! {

/// An open file as a descriptor table holds it: what it permits, and the
/// handle under which the file system knows it.
#[derive(Clone, Copy, Debug, PartialEq, Eq, Structural)]
pub struct OpenFile {
    pub readable: bool,
    pub writable: bool,
    pub handle: usize,
}

/// A mutex of the process: its lock identifier in the deadlock detector and
/// whether waiting threads block (or spin).
#[derive(Clone, Copy, Debug, PartialEq, Eq, Structural)]
pub struct MutexHandle {
    pub id: usize,
    pub blocking: bool,
}

/// A semaphore of the process: its lock identifier in the deadlock detector
/// and the number of units it was created with.
#[derive(Clone, Copy, Debug, PartialEq, Eq, Structural)]
pub struct SemaphoreHandle {
    pub id: usize,
    pub count: usize,
}

/// A condition variable of the process, known by the slot it was created
/// in; its queue of waiting threads is kept by the scheduler.
#[derive(Clone, Copy, Debug, PartialEq, Eq, Structural)]
pub struct CondvarHandle {
    pub id: usize,
}

/// Whether every condition variable sits in the slot it is known by.
pub open spec fn condvars_numbered(list: Seq<Option<CondvarHandle>>) -> bool {
    forall|i: int| 0 <= i < list.len() && (#[trigger] list[i]) is Some ==> list[i]->0.id == i
}

/// A thread of the process, known by its thread identifier.
#[derive(Clone, Copy, Debug, PartialEq, Eq, Structural)]
pub struct TaskHandle {
    pub tid: usize,
}

/// What a process knows of one of its children.
#[derive(Clone, Copy, Debug, PartialEq, Eq, Structural)]
pub struct ChildProcess {
    pub pid: usize,
    pub is_zombie: bool,
    pub exit_code: i32,
}

/// The index of the first empty slot of `s`, or `s.len()` when there is
/// none.
pub open spec fn first_free<T>(s: Seq<Option<T>>) -> int
    decreases s.len(),
{
    if s.len() == 0 {
        0
    } else if s[0] is None {
        0
    } else {
        1 + first_free(s.drop_first())
    }
}

/// The slot that `first_free` finds: empty, and after only full slots.
pub proof fn lemma_first_free<T>(s: Seq<Option<T>>)
    ensures
        0 <= first_free(s) <= s.len(),
        first_free(s) < s.len() ==> s[first_free(s)] is None,
        forall|j: int| 0 <= j < first_free(s) ==> #[trigger] s[j] is Some,
    decreases s.len(),
{
    if s.len() > 0 && s[0] is Some {
        lemma_first_free(s.drop_first());
        assert forall|j: int| 0 <= j < first_free(s) implies #[trigger] s[j] is Some by {
            if j > 0 {
                assert(s[j] == s.drop_first()[j - 1]);
            }
        }
    }
}

/// Index of the first empty slot of `v`, if any.
pub fn find_free<T>(v: &Vec<Option<T>>) -> (r: Option<usize>)
    ensures
        match r {
            Some(i) => i == first_free(v@) && i < v@.len(),
            None => first_free(v@) == v@.len(),
        },
{
    proof {
        lemma_first_free(v@);
    }
    let mut i: usize = 0;
    while i < v.len()
        invariant
            i <= v@.len(),
            forall|j: int| 0 <= j < i ==> #[trigger] v@[j] is Some,
            0 <= first_free(v@) <= v@.len(),
            first_free(v@) < v@.len() ==> v@[first_free(v@)] is None,
            forall|j: int| 0 <= j < first_free(v@) ==> #[trigger] v@[j] is Some,
        decreases v@.len() - i,
    {
        if v[i].is_none() {
            return Some(i);
        }
        i = i + 1;
    }
    None
}

/// `s` with `x` placed in its first empty slot, appended when it has none.
pub open spec fn place_first_free<T>(s: Seq<Option<T>>, x: T) -> Seq<Option<T>> {
    if first_free(s) < s.len() {
        s.update(first_free(s), Some(x))
    } else {
        s.push(Some(x))
    }
}

/// Puts `x` into the first empty slot of `v`, or appends it; returns the
/// slot.
fn place<T>(v: &mut Vec<Option<T>>, x: T) -> (i: usize)
    requires
        old(v)@.len() < usize::MAX,
    ensures
        i == first_free(old(v)@),
        final(v)@ == place_first_free(old(v)@, x),
{
    match find_free(v) {
        Some(i) => {
            v.set(i, Some(x));
            i
        },
        None => {
            v.push(Some(x));
            v.len() - 1
        },
    }
}

/// The mutable part of a process.
pub struct ProcessControlBlockInner {
    pub is_zombie: bool,
    pub memory_set: MemorySet,
    pub parent: Option<usize>,
    pub children: Vec<ChildProcess>,
    pub exit_code: i32,
    pub fd_table: Vec<Option<OpenFile>>,
    pub tasks: Vec<Option<TaskHandle>>,
    pub task_res_allocator: RecycleAllocator,
    pub mutex_list: Vec<Option<MutexHandle>>,
    pub semaphore_list: Vec<Option<SemaphoreHandle>>,
    pub condvar_list: Vec<Option<CondvarHandle>>,
    pub deadlock_detector: DeadlockDetector,
    pub enable_deadlock_detector: bool,
}

impl ProcessControlBlockInner {
    /// Whether the parts are consistent: the allocators are, and every
    /// mutex and semaphore is a lock that the deadlock detector handed out.
    pub open spec fn wf(&self) -> bool {
        &&& self.task_res_allocator.wf()
        &&& self.deadlock_detector.wf()
        &&& self.deadlock_detector.next_lock_id() <= MAX_LOCK
        &&& forall|i: int|
            0 <= i < self.mutex_list@.len() && (#[trigger] self.mutex_list@[i]) is Some
                ==> self.mutex_list@[i]->0.id < self.deadlock_detector.next_lock_id()
        &&& forall|i: int|
            0 <= i < self.semaphore_list@.len() && (#[trigger] self.semaphore_list@[i]) is Some
                ==> self.semaphore_list@[i]->0.id < self.deadlock_detector.next_lock_id()
    }

    /// The mutable part of a process that starts with address space
    /// `memory_set`, the open files `fd_table`, parent `parent` and no
    /// threads or locks.
    pub fn new(
        memory_set: MemorySet,
        fd_table: Vec<Option<OpenFile>>,
        parent: Option<usize>,
    ) -> (r: Self)
        ensures
            r.wf(),
            !r.is_zombie,
            r.memory_set == memory_set,
            r.parent == parent,
            r.children@.len() == 0,
            r.exit_code == 0,
            r.fd_table@ == fd_table@,
            r.tasks@.len() == 0,
            r.task_res_allocator@ == (0nat, Seq::<usize>::empty()),
            r.mutex_list@.len() == 0,
            r.semaphore_list@.len() == 0,
            r.condvar_list@.len() == 0,
            r.deadlock_detector.next_lock_id() == 1,
            !r.enable_deadlock_detector,
    {
        ProcessControlBlockInner {
            is_zombie: false,
            memory_set,
            parent,
            children: Vec::new(),
            exit_code: 0,
            fd_table,
            tasks: Vec::new(),
            task_res_allocator: RecycleAllocator::new(),
            mutex_list: Vec::new(),
            semaphore_list: Vec::new(),
            condvar_list: Vec::new(),
            deadlock_detector: DeadlockDetector::new(),
            enable_deadlock_detector: false,
        }
    }

    /// Records that child `pid` exited with `exit_code`: its record becomes
    /// a zombie that holds the code. Returns whether the process has such a
    /// child.
    pub fn record_child_exit(&mut self, pid: usize, exit_code: i32) -> (found: bool)
        ensures
            found == exists|j: int| 0 <= j < old(self).children@.len() && (#[trigger] old(
                self,
            ).children@[j]).pid == pid,
            final(self).children@.len() == old(self).children@.len(),
            forall|j: int|
                0 <= j < old(self).children@.len() ==> #[trigger] final(self).children@[j] == if old(
                    self,
                ).children@[j].pid == pid {
                    ChildProcess { pid, is_zombie: true, exit_code }
                } else {
                    old(self).children@[j]
                },
            *final(self) == (ProcessControlBlockInner { children: final(self).children, ..*old(self) }),
    {
        let ghost c0 = self.children@;
        let ghost s0 = *self;
        let mut found = false;
        let mut i: usize = 0;
        while i < self.children.len()
            invariant
                *self == (ProcessControlBlockInner { children: self.children, ..s0 }),
                i <= c0.len(),
                self.children@.len() == c0.len(),
                found == exists|j: int| 0 <= j < i && (#[trigger] c0[j]).pid == pid,
                forall|j: int|
                    0 <= j < c0.len() ==> #[trigger] self.children@[j] == if j < i && c0[j].pid == pid {
                        ChildProcess { pid, is_zombie: true, exit_code }
                    } else {
                        c0[j]
                    },
            decreases c0.len() - i,
        {
            if self.children[i].pid == pid {
                self.children.set(i, ChildProcess { pid, is_zombie: true, exit_code });
                found = true;
            }
            i = i + 1;
        }
        found
    }

    /// The value that identifies the page table of the process.
    pub fn get_user_token(&self) -> (r: usize)
        ensures
            r == self.memory_set.spec_token(),
    {
        self.memory_set.token()
    }

    /// Finds the lowest free file descriptor, growing the table by one empty
    /// slot when all are taken.
    pub fn alloc_fd(&mut self) -> (fd: usize)
        requires
            old(self).fd_table@.len() < usize::MAX,
        ensures
            fd == first_free(old(self).fd_table@),
            fd < final(self).fd_table@.len(),
            final(self).fd_table@ == if fd < old(self).fd_table@.len() {
                old(self).fd_table@
            } else {
                old(self).fd_table@.push(None)
            },
            final(self).fd_table@[fd as int] is None,
            final(self).wf() == old(self).wf(),
            *final(self) == (ProcessControlBlockInner { fd_table: final(self).fd_table, ..*old(self) }),
    {
        proof {
            lemma_first_free(self.fd_table@);
        }
        match find_free(&self.fd_table) {
            Some(fd) => fd,
            None => {
                self.fd_table.push(None);
                self.fd_table.len() - 1
            },
        }
    }

    /// Hands out a thread identifier.
    pub fn alloc_tid(&mut self) -> (tid: usize)
        requires
            old(self).wf(),
            old(self).task_res_allocator.can_alloc(),
        ensures
            final(self).wf(),
            (final(self).task_res_allocator@, tid) == alloc_step(old(self).task_res_allocator@),
            !live_ids(old(self).task_res_allocator@).contains(tid),
            *final(self) == (ProcessControlBlockInner {
                task_res_allocator: final(self).task_res_allocator,
                ..*old(self)
            }),
    {
        self.task_res_allocator.allocate()
    }

    /// Takes back thread identifier `tid`.
    pub fn dealloc_tid(&mut self, tid: usize)
        requires
            old(self).wf(),
            live_ids(old(self).task_res_allocator@).contains(tid),
        ensures
            final(self).wf(),
            final(self).task_res_allocator@ == dealloc_step(old(self).task_res_allocator@, tid),
            *final(self) == (ProcessControlBlockInner {
                task_res_allocator: final(self).task_res_allocator,
                ..*old(self)
            }),
    {
        self.task_res_allocator.deallocate(tid)
    }

    /// Number of thread slots of the process.
    pub fn thread_count(&self) -> (n: usize)
        ensures
            n == self.tasks@.len(),
    {
        self.tasks.len()
    }

    /// The thread in slot `tid`, which must hold one.
    pub fn get_task(&self, tid: usize) -> (t: TaskHandle)
        requires
            tid < self.tasks@.len(),
            self.tasks@[tid as int] is Some,
        ensures
            self.tasks@[tid as int] == Some(t),
    {
        self.tasks[tid].unwrap()
    }

    /// Turns deadlock detection on.
    pub fn enable_detect_deadlock(&mut self)
        ensures
            *final(self) == (ProcessControlBlockInner {
                enable_deadlock_detector: true,
                ..*old(self)
            }),
    {
        self.enable_deadlock_detector = true;
    }

    /// Creates a mutex, registered with the deadlock detector as a lock with
    /// one unit, in the first free slot of the mutex list; returns the slot.
    pub fn create_mutex(&mut self, tid: usize, blocking: bool) -> (r: isize)
        requires
            old(self).wf(),
            tid < MAX_THREAD,
            old(self).deadlock_detector.next_lock_id() < MAX_LOCK,
            old(self).mutex_list@.len() < isize::MAX,
        ensures
            final(self).wf(),
            r == first_free(old(self).mutex_list@),
            final(self).mutex_list@ == place_first_free(
                old(self).mutex_list@,
                MutexHandle { id: old(self).deadlock_detector.next_lock_id() as usize, blocking },
            ),
            lock_registered(
                old(self).deadlock_detector,
                final(self).deadlock_detector,
                tid,
                1,
            ),
            *final(self) == (ProcessControlBlockInner {
                mutex_list: final(self).mutex_list,
                deadlock_detector: final(self).deadlock_detector,
                ..*old(self)
            }),
    {
        proof {
            lemma_first_free(self.mutex_list@);
        }
        let mutex_id = self.deadlock_detector.alloc_id(tid, 1);
        let mutex = MutexHandle { id: mutex_id, blocking };
        let slot = place(&mut self.mutex_list, mutex);
        slot as isize
    }

    /// The mutex in slot `mutex_id`, which must hold one.
    pub fn mutex_lock(&self, mutex_id: usize) -> (m: MutexHandle)
        requires
            mutex_id < self.mutex_list@.len(),
            self.mutex_list@[mutex_id as int] is Some,
        ensures
            self.mutex_list@[mutex_id as int] == Some(m),
    {
        self.mutex_list[mutex_id].unwrap()
    }

    /// Creates a semaphore with `res_count` units, registered with the
    /// deadlock detector, in the first free slot of the semaphore list;
    /// returns the slot.
    pub fn create_semaphore(&mut self, tid: usize, res_count: usize) -> (r: usize)
        requires
            old(self).wf(),
            tid < MAX_THREAD,
            old(self).deadlock_detector.next_lock_id() < MAX_LOCK,
            old(self).semaphore_list@.len() < usize::MAX,
        ensures
            final(self).wf(),
            r == first_free(old(self).semaphore_list@),
            final(self).semaphore_list@ == place_first_free(
                old(self).semaphore_list@,
                SemaphoreHandle {
                    id: old(self).deadlock_detector.next_lock_id() as usize,
                    count: res_count,
                },
            ),
            lock_registered(
                old(self).deadlock_detector,
                final(self).deadlock_detector,
                tid,
                res_count,
            ),
            *final(self) == (ProcessControlBlockInner {
                semaphore_list: final(self).semaphore_list,
                deadlock_detector: final(self).deadlock_detector,
                ..*old(self)
            }),
    {
        let sem_id = self.deadlock_detector.alloc_id(tid, res_count);
        let sem = SemaphoreHandle { id: sem_id, count: res_count };
        place(&mut self.semaphore_list, sem)
    }

    /// The semaphore in slot `sem_id`, which must hold one.
    pub fn semaphore(&self, sem_id: usize) -> (s: SemaphoreHandle)
        requires
            sem_id < self.semaphore_list@.len(),
            self.semaphore_list@[sem_id as int] is Some,
        ensures
            self.semaphore_list@[sem_id as int] == Some(s),
    {
        self.semaphore_list[sem_id].unwrap()
    }
}

proof fn lemma_args_prefix_mono(args: Seq<Seq<u8>>, i: int, j: int)
    requires
        0 <= i <= j,
    ensures
        0 <= args_prefix(args, i) <= args_prefix(args, j),
    decreases j,
{
    if i < j {
        lemma_args_prefix_mono(args, i, j - 1);
    } else if i > 0 {
        lemma_args_prefix_mono(args, i - 1, j - 1);
    }
}

proof fn lemma_strings_image_len(args: Seq<Seq<u8>>, k: int)
    requires
        0 <= k <= args.len(),
    ensures
        strings_image(args, k).len() == args_prefix(args, args.len() as int) - args_prefix(args, k),
    decreases args.len() - k,
{
    if k < args.len() {
        lemma_strings_image_len(args, k + 1);
    }
}

proof fn lemma_strings_image_prefix(args: Seq<Seq<u8>>, j: int, k: int)
    requires
        0 <= j <= k <= args.len(),
    ensures
        strings_image(args, k).len() <= strings_image(args, j).len(),
        strings_image(args, j).subrange(0, strings_image(args, k).len() as int) == strings_image(
            args,
            k,
        ),
    decreases k - j,
{
    if j < k {
        lemma_strings_image_prefix(args, j + 1, k);
        let sk = strings_image(args, k);
        let s1 = strings_image(args, j + 1);
        assert(strings_image(args, j).subrange(0, sk.len() as int) =~= s1.subrange(
            0,
            sk.len() as int,
        ));
    } else {
        assert(strings_image(args, j).subrange(0, strings_image(args, k).len() as int)
            =~= strings_image(args, k));
    }
}

proof fn lemma_words_image(ws: Seq<u64>, k: int)
    requires
        0 <= k < ws.len(),
    ensures
        words_image(ws).len() == 8 * ws.len(),
        words_image(ws).subrange(8 * k, 8 * k + 8) == spec_u64_to_le_bytes(ws[k]),
    decreases ws.len(),
{
    lemma_auto_spec_u64_to_from_le_bytes();
    lemma_words_image_len(ws);
    let prev = ws.drop_last();
    if k == ws.len() - 1 {
        lemma_words_image_len(prev);
        assert(words_image(ws).subrange(8 * k, 8 * k + 8) =~= spec_u64_to_le_bytes(ws[k]));
    } else {
        lemma_words_image(prev, k);
        assert(words_image(ws).subrange(8 * k, 8 * k + 8) =~= words_image(prev).subrange(
            8 * k,
            8 * k + 8,
        ));
    }
}

proof fn lemma_words_image_len(ws: Seq<u64>)
    ensures
        words_image(ws).len() == 8 * ws.len(),
    decreases ws.len(),
{
    lemma_auto_spec_u64_to_from_le_bytes();
    if ws.len() > 0 {
        lemma_words_image_len(ws.drop_last());
    }
}

/// In the stack that `exec` builds, pointer `i` of the argument array holds
/// the address of argument `i`, and there lie the bytes of argument `i`
/// followed by a zero byte.
pub proof fn lemma_exec_args_in_place(top: int, args: Seq<Seq<u8>>, i: int)
    requires
        0 <= i < args.len(),
    ensures
        ({
            let img = stack_image(top, args);
            let floor = args_floor(top, args);
            let p = arg_ptr(top, args, i) - floor;
            let w = argv_base(top, args.len() as int) - floor + 8 * i;
            &&& img.subrange(p, p + args[i].len()) == args[i]
            &&& img[p + args[i].len()] == 0
            &&& img.subrange(w, w + 8) == spec_u64_to_le_bytes(arg_ptr(top, args, i) as u64)
        }),
{
    let n = args.len() as int;
    let s0 = strings_image(args, 0);
    let si = strings_image(args, i);
    let s1 = strings_image(args, i + 1);
    let ws = argv_words(top, args);
    let img = stack_image(top, args);
    let floor = args_floor(top, args);
    let p = arg_ptr(top, args, i) - floor;
    lemma_strings_image_len(args, 0);
    lemma_strings_image_len(args, i + 1);
    lemma_strings_image_prefix(args, 0, i);
    lemma_args_prefix_mono(args, 0, 0);
    assert(p == s1.len());
    assert(si == s1 + args[i] + seq![0u8]);
    assert(img.subrange(p, p + args[i].len()) =~= si.subrange(p, p + args[i].len()));
    assert(si.subrange(p, p + args[i].len()) =~= args[i]);
    assert(img[p + args[i].len()] == si[p + args[i].len()]);
    lemma_words_image(ws, i);
    let w = argv_base(top, n) - floor + 8 * i;
    assert(w == s0.len() + 8 * i);
    assert(img.subrange(w, w + 8) =~= words_image(ws).subrange(8 * i, 8 * i + 8));
}

/// `d1` is `d0` after a new lock with `count` free units was registered for
/// thread `tid`: it took the next lock identifier.
pub open spec fn lock_registered(
    d0: DeadlockDetector,
    d1: DeadlockDetector,
    tid: usize,
    count: usize,
) -> bool {
    let id = d0.next_lock_id() as int;
    &&& d1.next_lock_id() == d0.next_lock_id() + 1
    &&& d1.available_view() == d0.available_view().update(id, count)
    &&& d1.allocation_view() == d0.allocation_view()
    &&& d1.need_view() == matrix_set(d0.need_view(), tid as int, id, 0)
}

/// The registers a thread starts with in user mode.
#[derive(Clone, Copy, Debug, PartialEq, Eq, Structural)]
pub struct TrapContext {
    /// Where execution starts.
    pub sepc: usize,
    /// User stack pointer.
    pub sp: usize,
    /// First argument register.
    pub x10: usize,
    /// Second argument register.
    pub x11: usize,
    /// Top of the thread's kernel stack.
    pub kernel_sp: usize,
}

/// A program image loaded from an executable file: its address space, the
/// top of the user stack of its main thread and its entry point.
pub struct LoadedElf {
    pub memory_set: MemorySet,
    pub ustack_top: usize,
    pub entry_point: usize,
}

/// What `exec` leaves for the caller: the registers of the main thread and
/// the bytes to store in its user stack from `stack_base` on.
pub struct ExecImage {
    pub trap_cx: TrapContext,
    pub stack_base: usize,
    pub stack: Vec<u8>,
}

/// The arguments as byte strings.
pub open spec fn arg_bytes(args: Seq<Vec<u8>>) -> Seq<Seq<u8>> {
    args.map_values(|a: Vec<u8>| a@)
}

/// Bytes that the first `m` arguments take on the stack, each with its
/// terminating zero.
pub open spec fn args_prefix(args: Seq<Seq<u8>>, m: int) -> int
    decreases m,
{
    if m <= 0 {
        0
    } else {
        args_prefix(args, m - 1) + args[m - 1].len() + 1
    }
}

/// Address of the array of argument pointers: `n + 1` words below the top.
pub open spec fn argv_base(top: int, n: int) -> int {
    top - (n + 1) * 8
}

/// Address of argument `i`: below the pointer array, the arguments lie one
/// below the other, the first highest.
pub open spec fn arg_ptr(top: int, args: Seq<Seq<u8>>, i: int) -> int {
    argv_base(top, args.len() as int) - args_prefix(args, i + 1)
}

/// Lowest address of the arguments.
pub open spec fn args_floor(top: int, args: Seq<Seq<u8>>) -> int {
    argv_base(top, args.len() as int) - args_prefix(args, args.len() as int)
}

/// The arguments from `k` on, as they lie in memory from low to high
/// addresses: the last first, each followed by a zero byte.
pub open spec fn strings_image(args: Seq<Seq<u8>>, k: int) -> Seq<u8>
    decreases args.len() - k,
{
    if k >= args.len() || k < 0 {
        Seq::empty()
    } else {
        strings_image(args, k + 1) + args[k] + seq![0u8]
    }
}

/// The argument pointers, followed by a null pointer.
pub open spec fn argv_words(top: int, args: Seq<Seq<u8>>) -> Seq<u64> {
    Seq::new(
        (args.len() + 1) as nat,
        |k: int| if k < args.len() { arg_ptr(top, args, k) as u64 } else { 0u64 },
    )
}

/// Words in little-endian byte order, one after the other.
pub open spec fn words_image(ws: Seq<u64>) -> Seq<u8>
    decreases ws.len(),
{
    if ws.len() == 0 {
        Seq::empty()
    } else {
        words_image(ws.drop_last()) + spec_u64_to_le_bytes(ws.last())
    }
}

/// The bytes of the user stack from `args_floor` up to `top`.
pub open spec fn stack_image(top: int, args: Seq<Seq<u8>>) -> Seq<u8> {
    strings_image(args, 0) + words_image(argv_words(top, args))
}

/// A process: its identifier and its mutable part.
pub struct ProcessControlBlock {
    pub pid: usize,
    inner: ProcessControlBlockInner,
}

/// Whether `inner` is the mutable part of a process just created with
/// address space `ms`, descriptor table `fds` and parent `parent`, whose
/// main thread got identifier 0.
pub open spec fn is_new_process(
    inner: ProcessControlBlockInner,
    ms: MemorySet,
    fds: Seq<Option<OpenFile>>,
    parent: Option<usize>,
) -> bool {
    &&& inner.wf()
    &&& !inner.is_zombie
    &&& inner.memory_set == ms
    &&& inner.parent == parent
    &&& inner.children@.len() == 0
    &&& inner.exit_code == 0
    &&& inner.fd_table@ == fds
    &&& inner.tasks@ == seq![Some(TaskHandle { tid: 0 })]
    &&& inner.task_res_allocator@ == (1nat, Seq::<usize>::empty())
    &&& inner.mutex_list@.len() == 0
    &&& inner.semaphore_list@.len() == 0
    &&& inner.condvar_list@.len() == 0
    &&& inner.deadlock_detector.next_lock_id() == 1
    &&& !inner.enable_deadlock_detector
}

impl ProcessControlBlock {
    /// The identifier of the process.
    pub closed spec fn spec_pid(&self) -> usize {
        self.pid
    }

    /// The mutable part of the process.
    pub closed spec fn inner_view(&self) -> ProcessControlBlockInner {
        self.inner
    }

    /// Exclusive access to the mutable part of the process.
    pub fn inner_exclusive_access(&mut self) -> (r: &mut ProcessControlBlockInner)
        ensures
            *r == old(self).inner_view(),
            final(self).inner_view() == *final(r),
            final(self).spec_pid() == old(self).spec_pid(),
    {
        &mut self.inner
    }

    /// Replaces the program of a single-threaded process by `elf`, passing
    /// `args`: at the top of the user stack go the argument pointers and a
    /// null pointer, below them the argument strings, each ending in a zero
    /// byte. The main thread starts at the entry point with the argument
    /// count in `x10`, the pointer array in `x11` and the stack pointer
    /// below the strings, rounded down to a word.
    pub fn exec(&mut self, elf: LoadedElf, kernel_sp: usize, args: &Vec<Vec<u8>>) -> (r: ExecImage)
        requires
            old(self).inner_view().tasks@.len() == 1,
            elf.ustack_top >= (args@.len() + 1) * 8 + args_prefix(
                arg_bytes(args@),
                args@.len() as int,
            ),
        ensures
            ({
                let top = elf.ustack_top as int;
                let a = arg_bytes(args@);
                let floor = args_floor(top, a);
                &&& r.stack_base == floor
                &&& r.stack@ == stack_image(top, a)
                &&& r.trap_cx == TrapContext {
                    sepc: elf.entry_point,
                    sp: (floor - floor % 8) as usize,
                    x10: args@.len() as usize,
                    x11: argv_base(top, args@.len() as int) as usize,
                    kernel_sp,
                }
            }),
            final(self).spec_pid() == old(self).spec_pid(),
            final(self).inner_view() == (ProcessControlBlockInner {
                memory_set: elf.memory_set,
                ..old(self).inner_view()
            }),
    {
        let ghost a = arg_bytes(args@);
        let ghost top = elf.ustack_top as int;
        let n = args.len();
        let ustack_top = elf.ustack_top;
        let entry_point = elf.entry_point;
        self.inner.memory_set = elf.memory_set;
        proof {
            lemma_args_prefix_mono(a, 0, n as int);
        }
        let mut user_sp = ustack_top - (n + 1) * 8;
        let argv_base_addr = user_sp;
        let mut ptrs: Vec<usize> = Vec::new();
        let mut i: usize = 0;
        while i < n
            invariant
                n == args@.len(),
                a == arg_bytes(args@),
                top == ustack_top,
                argv_base_addr == argv_base(top, n as int),
                i <= n,
                top >= (n + 1) * 8 + args_prefix(a, n as int),
                user_sp == argv_base(top, n as int) - args_prefix(a, i as int),
                ptrs@.len() == i,
                forall|k: int| 0 <= k < i ==> #[trigger] ptrs@[k] == arg_ptr(top, a, k),
            decreases n - i,
        {
            proof {
                lemma_args_prefix_mono(a, i as int + 1, n as int);
                assert(a[i as int] == args@[i as int]@);
            }
            user_sp = user_sp - (args[i].len() + 1);
            ptrs.push(user_sp);
            i = i + 1;
        }
        let floor = user_sp;
        let mut stack: Vec<u8> = Vec::new();
        let mut j: usize = n;
        while j > 0
            invariant
                n == args@.len(),
                a == arg_bytes(args@),
                j <= n,
                stack@ == strings_image(a, j as int),
            decreases j,
        {
            j = j - 1;
            let ghost s0 = stack@;
            let arg = &args[j];
            let mut c: usize = 0;
            while c < arg.len()
                invariant
                    c <= arg@.len(),
                    stack@ == s0 + arg@.subrange(0, c as int),
                decreases arg@.len() - c,
            {
                stack.push(arg[c]);
                proof {
                    assert(arg@.subrange(0, c + 1) =~= arg@.subrange(0, c as int).push(arg@[c as int]));
                    assert(stack@ =~= s0 + arg@.subrange(0, c + 1));
                }
                c = c + 1;
            }
            stack.push(0);
            proof {
                assert(a[j as int] == args@[j as int]@);
                assert(arg@.subrange(0, arg@.len() as int) =~= arg@);
                assert(stack@ =~= strings_image(a, j as int));
            }
        }
        let ghost strs = stack@;
        proof {
            lemma_auto_spec_u64_to_from_le_bytes();
        }
        let mut k: usize = 0;
        while k < n
            invariant
                n == args@.len(),
                a == arg_bytes(args@),
                top == ustack_top,
                k <= n,
                ptrs@.len() == n,
                forall|q: int| 0 <= q < n ==> #[trigger] ptrs@[q] == arg_ptr(top, a, q),
                stack@ == strs + words_image(argv_words(top, a).take(k as int)),
            decreases n - k,
        {
            let mut w = u64_to_le_bytes(ptrs[k] as u64);
            let ghost s0 = stack@;
            stack.append(&mut w);
            proof {
                let ws = argv_words(top, a);
                assert(ws.take(k + 1).drop_last() =~= ws.take(k as int));
                assert(ws.take(k + 1).last() == ptrs@[k as int] as u64);
                assert(stack@ =~= strs + words_image(ws.take(k + 1)));
            }
            k = k + 1;
        }
        let mut w = u64_to_le_bytes(0);
        stack.append(&mut w);
        proof {
            let ws = argv_words(top, a);
            assert(ws.drop_last() =~= ws.take(n as int));
            assert(stack@ =~= stack_image(top, a));
        }
        user_sp = user_sp - user_sp % 8;
        ExecImage {
            trap_cx: TrapContext {
                sepc: entry_point,
                sp: user_sp,
                x10: n,
                x11: argv_base_addr,
                kernel_sp,
            },
            stack_base: floor,
            stack,
        }
    }

    /// A process running `elf`, with a fresh identifier from `pids`, the
    /// standard streams open, and a main thread with thread identifier 0
    /// that starts at the entry point with the stack pointer at the top of
    /// its user stack.
    pub fn new(
        pids: &mut RecycleAllocator,
        elf: LoadedElf,
        kernel_sp: usize,
        stdin: OpenFile,
        stdout: OpenFile,
    ) -> (r: (Self, TrapContext))
        requires
            old(pids).wf(),
            old(pids).can_alloc(),
        ensures
            final(pids).wf(),
            (final(pids)@, r.0.spec_pid()) == alloc_step(old(pids)@),
            !live_ids(old(pids)@).contains(r.0.spec_pid()),
            live_ids(final(pids)@) == live_ids(old(pids)@).insert(r.0.spec_pid()),
            is_new_process(
                r.0.inner_view(),
                elf.memory_set,
                seq![Some(stdin), Some(stdout), Some(stdout)],
                None,
            ),
            r.1 == (TrapContext {
                sepc: elf.entry_point,
                sp: elf.ustack_top,
                x10: 0,
                x11: 0,
                kernel_sp,
            }),
    {
        let pid = pids.allocate();
        let mut fd_table: Vec<Option<OpenFile>> = Vec::new();
        fd_table.push(Some(stdin));
        fd_table.push(Some(stdout));
        fd_table.push(Some(stdout));
        proof {
            assert(fd_table@ =~= seq![Some(stdin), Some(stdout), Some(stdout)]);
        }
        let mut inner = ProcessControlBlockInner::new(elf.memory_set, fd_table, None);
        let tid = inner.alloc_tid();
        inner.tasks.push(Some(TaskHandle { tid }));
        proof {
            assert(inner.tasks@ =~= seq![Some(TaskHandle { tid: 0 })]);
        }
        let trap_cx = TrapContext {
            sepc: elf.entry_point,
            sp: elf.ustack_top,
            x10: 0,
            x11: 0,
            kernel_sp,
        };
        (ProcessControlBlock { pid, inner }, trap_cx)
    }

    /// Copies a single-threaded process: the child gets a fresh identifier
    /// from `pids`, the address space `child_ms` (a copy of the parent's),
    /// the parent's open files and a main thread with identifier 0; the
    /// parent records the child.
    pub fn fork(&mut self, pids: &mut RecycleAllocator, child_ms: MemorySet) -> (child: Self)
        requires
            old(pids).wf(),
            old(pids).can_alloc(),
            old(self).inner_view().tasks@.len() == 1,
        ensures
            final(pids).wf(),
            (final(pids)@, child.spec_pid()) == alloc_step(old(pids)@),
            !live_ids(old(pids)@).contains(child.spec_pid()),
            live_ids(final(pids)@) == live_ids(old(pids)@).insert(child.spec_pid()),
            live_ids(old(pids)@).contains(old(self).spec_pid()) ==> child.spec_pid()
                != old(self).spec_pid(),
            is_new_process(
                child.inner_view(),
                child_ms,
                old(self).inner_view().fd_table@,
                Some(old(self).spec_pid()),
            ),
            final(self).spec_pid() == old(self).spec_pid(),
            final(self).inner_view() == (ProcessControlBlockInner {
                children: final(self).inner_view().children,
                ..old(self).inner_view()
            }),
            final(self).inner_view().children@ == old(self).inner_view().children@.push(
                ChildProcess { pid: child.spec_pid(), is_zombie: false, exit_code: 0 },
            ),
    {
        let pid = pids.allocate();
        let mut new_fd_table: Vec<Option<OpenFile>> = Vec::new();
        let mut i: usize = 0;
        while i < self.inner.fd_table.len()
            invariant
                i <= self.inner.fd_table@.len(),
                new_fd_table@ == self.inner.fd_table@.take(i as int),
            decreases self.inner.fd_table@.len() - i,
        {
            new_fd_table.push(self.inner.fd_table[i]);
            proof {
                assert(self.inner.fd_table@.take(i + 1) =~= self.inner.fd_table@.take(i as int).push(
                    self.inner.fd_table@[i as int],
                ));
            }
            i = i + 1;
        }
        proof {
            assert(self.inner.fd_table@.take(i as int) =~= self.inner.fd_table@);
        }
        let mut inner = ProcessControlBlockInner::new(child_ms, new_fd_table, Some(self.pid));
        let tid = inner.alloc_tid();
        inner.tasks.push(Some(TaskHandle { tid }));
        proof {
            assert(inner.tasks@ =~= seq![Some(TaskHandle { tid: 0 })]);
        }
        self.inner.children.push(ChildProcess { pid, is_zombie: false, exit_code: 0 });
        ProcessControlBlock { pid, inner }
    }

    /// Starts `elf` as a new child process, with a fresh identifier from
    /// `pids`, the standard streams open and a main thread with identifier
    /// 0; the parent records the child.
    pub fn spawn(
        &mut self,
        pids: &mut RecycleAllocator,
        elf: LoadedElf,
        kernel_sp: usize,
        stdin: OpenFile,
        stdout: OpenFile,
    ) -> (r: (Self, TrapContext))
        requires
            old(pids).wf(),
            old(pids).can_alloc(),
        ensures
            final(pids).wf(),
            (final(pids)@, r.0.spec_pid()) == alloc_step(old(pids)@),
            !live_ids(old(pids)@).contains(r.0.spec_pid()),
            live_ids(final(pids)@) == live_ids(old(pids)@).insert(r.0.spec_pid()),
            is_new_process(
                r.0.inner_view(),
                elf.memory_set,
                seq![Some(stdin), Some(stdout), Some(stdout)],
                Some(old(self).spec_pid()),
            ),
            r.1 == (TrapContext {
                sepc: elf.entry_point,
                sp: elf.ustack_top,
                x10: 0,
                x11: 0,
                kernel_sp,
            }),
            final(self).spec_pid() == old(self).spec_pid(),
            final(self).inner_view() == (ProcessControlBlockInner {
                children: final(self).inner_view().children,
                ..old(self).inner_view()
            }),
            final(self).inner_view().children@ == old(self).inner_view().children@.push(
                ChildProcess { pid: r.0.spec_pid(), is_zombie: false, exit_code: 0 },
            ),
    {
        let (mut child, trap_cx) = ProcessControlBlock::new(pids, elf, kernel_sp, stdin, stdout);
        child.inner.parent = Some(self.pid);
        self.inner.children.push(ChildProcess { pid: child.pid, is_zombie: false, exit_code: 0 });
        (child, trap_cx)
    }

    /// The identifier of the process.
    pub fn getpid(&self) -> (r: usize)
        ensures
            r == self.spec_pid(),
    {
        self.pid
    }
}

} // verus!
