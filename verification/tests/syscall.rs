use rcore_os::config::DEADLOCK_SIGNAL;
use rcore_os::io::{PhysMemory, TimeVal, SerializeToBytes};
use rcore_os::mm::{FrameAllocator, MemorySet, PageTable, PageTableEntry, PTE_A, PTE_R, PTE_U, PTE_V, PTE_W, PTE_X};
use rcore_os::process::{
    ChildProcess, LoadedElf, OpenFile, ProcessControlBlock, ProcessControlBlockInner, TrapContext,
};
use rcore_os::recycle::RecycleAllocator;
use rcore_os::syscall::fs::{
    fill_stat, sys_close, sys_fstat, sys_linkat, sys_open, sys_read, sys_unlinkat, sys_write,
    Stat, STAT_MODE_DIR, STAT_MODE_FILE, STAT_MODE_NULL,
};
use rcore_os::syscall::process::{
    sys_exec, sys_fork, sys_get_time, sys_getpid, sys_mmap, sys_munmap, sys_sbrk, sys_set_priority,
    sys_spawn, sys_trace, sys_waitpid, MMapProt, MMapProtError, MapPermission,
};
use rcore_os::syscall::sync::{
    sys_condvar_create, sys_condvar_signal, sys_condvar_wait, sys_enable_deadlock_detect,
    sys_mutex_create, sys_mutex_lock, sys_mutex_unlock, sys_semaphore_create,
    sys_semaphore_down, sys_semaphore_up, sys_sleep, SemaphoreDown,
};
use rcore_os::vfs::{EasyFileSystem, Fstat, Inode};

fn file(readable: bool, writable: bool, handle: usize) -> OpenFile {
    OpenFile { readable, writable, handle }
}

fn inner_with(fds: Vec<Option<OpenFile>>) -> ProcessControlBlockInner {
    ProcessControlBlockInner::new(MemorySet::new(1), fds, None)
}

fn elf(token: usize) -> LoadedElf {
    LoadedElf { memory_set: MemorySet::new(token), ustack_top: 0x10000, entry_point: 0x1000 }
}

// ---- files ----

#[test]
fn read_and_write_check_the_descriptor() {
    let inner = inner_with(vec![Some(file(true, false, 0)), Some(file(false, true, 1)), None]);
    assert_eq!(sys_read(&inner, 0), Ok(file(true, false, 0)));
    assert_eq!(sys_read(&inner, 1), Err(-1));
    assert_eq!(sys_write(&inner, 1), Ok(file(false, true, 1)));
    assert_eq!(sys_write(&inner, 0), Err(-1));
    assert_eq!(sys_write(&inner, 2), Err(-1));
    assert_eq!(sys_read(&inner, 7), Err(-1));
}

#[test]
fn open_takes_the_lowest_free_descriptor() {
    let mut inner = inner_with(vec![Some(file(true, false, 0)), None]);
    assert_eq!(sys_open(&mut inner, Some(file(true, true, 5))), 1);
    assert_eq!(sys_open(&mut inner, Some(file(true, true, 6))), 2);
    assert_eq!(sys_open(&mut inner, None), -1);
    assert_eq!(inner.fd_table.len(), 3);
    assert_eq!(sys_fstat(&inner, 2), Some(file(true, true, 6)));
    assert_eq!(sys_fstat(&inner, 3), None);
}

#[test]
fn close_then_open_reuses_the_descriptor() {
    let mut inner = inner_with(vec![Some(file(true, false, 0)), Some(file(true, false, 1))]);
    assert_eq!(sys_close(&mut inner, 0), 0);
    assert_eq!(sys_close(&mut inner, 0), -1);
    assert_eq!(sys_close(&mut inner, 9), -1);
    assert_eq!(sys_open(&mut inner, Some(file(false, true, 2))), 0);
}

#[test]
fn fill_stat_sets_mode_links_and_inode() {
    let mut st = Stat { dev: 3, ino: 0, mode: 0, nlink: 0 };
    fill_stat(&mut st, Some(Fstat { ref_count: 2, is_dir: false, inode_id: 4 }));
    assert_eq!(st, Stat { dev: 3, ino: 4, mode: STAT_MODE_FILE, nlink: 2 });
    fill_stat(&mut st, Some(Fstat { ref_count: 1, is_dir: true, inode_id: 0 }));
    assert_eq!(st.mode, STAT_MODE_DIR);
    fill_stat(&mut st, None);
    assert_eq!(st, Stat { dev: 3, ino: 0, mode: STAT_MODE_NULL, nlink: 1 });
}

#[test]
fn linkat_and_unlinkat_in_the_root() {
    let mut fs = EasyFileSystem::new();
    let a = Inode::new(0).create(&mut fs, b"a").unwrap();
    assert_eq!(sys_linkat(&mut fs, b"a", b"b"), 0);
    assert_eq!(a.fstat(&fs).ref_count, 2);
    assert_eq!(sys_linkat(&mut fs, b"a", b"b"), -1);
    assert_eq!(sys_linkat(&mut fs, b"zz", b"c"), -1);
    assert_eq!(sys_unlinkat(&mut fs, b"b"), 0);
    assert_eq!(a.fstat(&fs).ref_count, 1);
    assert_eq!(sys_unlinkat(&mut fs, b"zz"), -1);
}

// ---- memory and processes ----

#[test]
fn protection_bits_convert() {
    assert_eq!(MMapProt::try_from(0usize), Err(MMapProtError::InvalidBits(0)));
    assert_eq!(MMapProt::try_from(8usize), Err(MMapProtError::InvalidBits(8)));
    assert_eq!(MMapProt::try_from(9usize), Err(MMapProtError::InvalidBits(9)));
    assert_eq!(MMapProt::try_from(3usize), Ok(MMapProt { bits: 3 }));
    let all = MapPermission::try_from(MMapProt { bits: 7 }).unwrap();
    assert_eq!(all.bits, PTE_R | PTE_W | PTE_X | PTE_U);
    assert_eq!(all.bits, 30);
    assert_eq!(MapPermission::try_from(MMapProt { bits: 1 }).unwrap().bits, 18);
}

#[test]
fn mmap_rounds_the_length_up() {
    let mut ms = MemorySet::new(0);
    let mut frames = FrameAllocator::new(8);
    assert_eq!(sys_mmap(&mut ms, &mut frames, 0x1000, 0x1001, 3), 0);
    assert_eq!(frames.free_frames(), 6);
    let e = ms.page_table().translate(2).unwrap();
    assert_eq!(e.flags, PTE_R | PTE_W | PTE_U | PTE_V);
    assert_eq!(sys_mmap(&mut ms, &mut frames, 0x2000, 10, 1), -1);
    assert_eq!(sys_mmap(&mut ms, &mut frames, 0x5000, 10, 0), -1);
    assert_eq!(sys_mmap(&mut ms, &mut frames, 0x5001, 10, 1), -1);
    assert_eq!(sys_munmap(&mut ms, &mut frames, 0x1000, 0x1800), 0);
    assert_eq!(frames.free_frames(), 8);
    assert_eq!(sys_munmap(&mut ms, &mut frames, 0x1000, 0x1000), -1);
}

#[test]
fn get_time_writes_seconds_and_microseconds() {
    let mut pt = PageTable::new();
    pt.map(1, PageTableEntry { ppn: 0, flags: PTE_V | PTE_R | PTE_U | PTE_A });
    let mut mem = PhysMemory::new(1);
    assert_eq!(sys_get_time(&pt, &mut mem, 0x1008, 3_000_042), 0);
    let mut bytes = Vec::new();
    for i in 8..24 {
        bytes.push(mem.read_byte(0, i));
    }
    assert_eq!(TimeVal::from_bytes(&bytes), Some(TimeVal { sec: 3, usec: 42 }));
    // an unmapped address leaves memory untouched
    assert_eq!(sys_get_time(&pt, &mut mem, 0x5000, 7), 0);
}

#[test]
fn trace_reads_writes_and_counts() {
    let mut pt = PageTable::new();
    pt.map(1, PageTableEntry { ppn: 0, flags: PTE_V | PTE_R | PTE_U | PTE_A });
    let mut mem = PhysMemory::new(1);
    assert_eq!(sys_trace(&pt, &mut mem, 1, 0x1004, 0x1ab, 0), 0);
    assert_eq!(mem.read_byte(0, 4), 0xab);
    assert_eq!(sys_trace(&pt, &mut mem, 0, 0x1004, 0, 0), 0xab);
    assert_eq!(sys_trace(&pt, &mut mem, 2, 64, 0, 5), 5);
    assert_eq!(sys_trace(&pt, &mut mem, 3, 0x1004, 0, 5), -1);
    assert_eq!(sys_trace(&pt, &mut mem, 0, 0x3000, 0, 0), -1);
    assert_eq!(sys_trace(&pt, &mut mem, 1, 0x3000, 1, 0), -1);
    // addresses past the top of the address space are refused too
    assert_eq!(sys_trace(&pt, &mut mem, 0, (1usize << 39) + 0x1004, 0, 0), -1);
    assert_eq!(sys_trace(&pt, &mut mem, 1, usize::MAX, 1, 0), -1);
    assert_eq!(sys_get_time(&pt, &mut mem, usize::MAX - 3, 7), 0);
    assert_eq!(mem.read_byte(0, 4), 0xab);
}

#[test]
fn waitpid_reaps_exited_children() {
    let mut inner = inner_with(vec![]);
    assert_eq!(sys_waitpid(&mut inner, -1), (-1, None));
    inner.children.push(ChildProcess { pid: 3, is_zombie: false, exit_code: 0 });
    inner.children.push(ChildProcess { pid: 4, is_zombie: true, exit_code: 7 });
    assert_eq!(sys_waitpid(&mut inner, 5), (-1, None));
    assert_eq!(sys_waitpid(&mut inner, 3), (-2, None));
    assert_eq!(sys_waitpid(&mut inner, -1), (4, Some(7)));
    assert_eq!(inner.children.len(), 1);
    assert_eq!(sys_waitpid(&mut inner, -1), (-2, None));
}

#[test]
fn set_priority_needs_at_least_two() {
    let mut prio = 16usize;
    assert_eq!(sys_set_priority(&mut prio, 1), -1);
    assert_eq!(prio, 16);
    assert_eq!(sys_set_priority(&mut prio, 2), 2);
    assert_eq!(prio, 2);
}

#[test]
fn sbrk_reports_the_old_break() {
    assert_eq!(sys_sbrk(Some(0x4000)), 0x4000);
    assert_eq!(sys_sbrk(None), -1);
}

#[test]
fn sleep_wakes_later() {
    assert_eq!(sys_sleep(100, 25), 125);
}

#[test]
fn fork_returns_the_child_with_a_zero_result() {
    let mut pids = RecycleAllocator::new();
    let stdin = file(true, false, 0);
    let stdout = file(false, true, 1);
    let (mut parent, cx) = ProcessControlBlock::new(&mut pids, elf(1), 0x100, stdin, stdout);
    assert_eq!(sys_getpid(&parent), 0);
    let parent_cx = TrapContext { x10: 99, ..cx };
    let (pid, child, child_cx) = sys_fork(&mut parent, &mut pids, MemorySet::new(2), parent_cx, 0x200);
    assert_eq!(pid, 1);
    assert_eq!(sys_getpid(&child), 1);
    assert_eq!(child_cx, TrapContext { x10: 0, kernel_sp: 0x200, ..parent_cx });
}

#[test]
fn exec_and_spawn_fail_without_a_program() {
    let mut pids = RecycleAllocator::new();
    let stdin = file(true, false, 0);
    let stdout = file(false, true, 1);
    let (mut p, _) = ProcessControlBlock::new(&mut pids, elf(1), 0x100, stdin, stdout);
    let mut mem = PhysMemory::new(4);
    let (r, img) = sys_exec(&mut p, None, 0x100, &vec![], &mut mem);
    assert_eq!(r, -1);
    assert!(img.is_none());
    let (r, child) = sys_spawn(&mut p, &mut pids, None, 0x100, stdin, stdout);
    assert_eq!(r, -1);
    assert!(child.is_none());
    let (r, child) = sys_spawn(&mut p, &mut pids, Some(elf(3)), 0x300, stdin, stdout);
    assert_eq!(r, 1);
    assert_eq!(child.unwrap().1.kernel_sp, 0x300);
    // the new program's stack page, 0xF000..0x10000, is mapped
    let mut ms = MemorySet::new(4);
    let mut frames = FrameAllocator::new(4);
    assert_eq!(ms.mmap(&mut frames, 15, 16, PTE_R | PTE_W | PTE_U), Ok(()));
    let ppn = ms.page_table().translate(15).unwrap().ppn;
    let loaded = LoadedElf { memory_set: ms, ustack_top: 0x10000, entry_point: 0x1000 };
    let (r, img) = sys_exec(&mut p, Some(loaded), 0x100, &vec![b"x".to_vec()], &mut mem);
    assert_eq!(r, 0);
    let img = img.unwrap();
    assert_eq!(img.trap_cx.x10, 1);
    assert_eq!(img.stack_base, 0xFFEE);
    assert_eq!(p.inner_exclusive_access().get_user_token(), 4);
    // the argument and its pointer are in memory
    assert_eq!(mem.read_byte(ppn, 0xFEE), b'x');
    assert_eq!(mem.read_byte(ppn, 0xFEF), 0);
    assert_eq!(mem.read_byte(ppn, 0xFF0), 0xEE);
    assert_eq!(mem.read_byte(ppn, 0xFF1), 0xFF);
}

// ---- synchronisation ----

#[test]
fn mutex_lock_and_unlock() {
    let mut inner = inner_with(vec![]);
    assert_eq!(sys_mutex_create(&mut inner, 0, true), 0);
    let m = sys_mutex_lock(&mut inner, 0, 0).unwrap();
    assert_eq!(m.id, 1);
    assert_eq!(sys_mutex_unlock(&mut inner, 0, 0), m);
    assert_eq!(sys_mutex_lock(&mut inner, 1, 0), Ok(m));
}

#[test]
fn crossed_mutexes_report_deadlock() {
    let mut inner = inner_with(vec![]);
    assert_eq!(sys_enable_deadlock_detect(&mut inner, 1), 0);
    assert_eq!(sys_mutex_create(&mut inner, 0, true), 0);
    assert_eq!(sys_mutex_create(&mut inner, 0, true), 1);
    assert!(sys_mutex_lock(&mut inner, 0, 0).is_ok());
    assert!(sys_mutex_lock(&mut inner, 1, 1).is_ok());
    // thread 0 now asks for mutex 1: it has to wait, which is still safe
    assert!(sys_mutex_lock(&mut inner, 0, 1).is_ok());
    assert_eq!(sys_mutex_lock(&mut inner, 1, 0), Err(DEADLOCK_SIGNAL as isize));
}

#[test]
fn semaphore_down_waits_then_acquires() {
    let mut inner = inner_with(vec![]);
    assert_eq!(sys_enable_deadlock_detect(&mut inner, 1), 0);
    assert_eq!(sys_semaphore_create(&mut inner, 0, 1), 0);
    let s = inner.semaphore(0);
    assert_eq!(sys_semaphore_down(&mut inner, 0, 0, false), SemaphoreDown::Acquire(s));
    assert_eq!(sys_semaphore_down(&mut inner, 1, 0, false), SemaphoreDown::Wait);
    assert_eq!(sys_semaphore_down(&mut inner, 1, 0, true), SemaphoreDown::Wait);
    assert_eq!(sys_semaphore_up(&mut inner, 0, 0), s);
    assert_eq!(sys_semaphore_down(&mut inner, 1, 0, true), SemaphoreDown::Acquire(s));
}

#[test]
fn crossed_semaphores_report_deadlock() {
    let mut inner = inner_with(vec![]);
    assert_eq!(sys_enable_deadlock_detect(&mut inner, 1), 0);
    assert_eq!(sys_semaphore_create(&mut inner, 0, 1), 0);
    assert_eq!(sys_semaphore_create(&mut inner, 0, 1), 1);
    assert!(matches!(sys_semaphore_down(&mut inner, 0, 0, false), SemaphoreDown::Acquire(_)));
    assert!(matches!(sys_semaphore_down(&mut inner, 1, 1, false), SemaphoreDown::Acquire(_)));
    assert_eq!(sys_semaphore_down(&mut inner, 0, 1, false), SemaphoreDown::Wait);
    assert_eq!(sys_semaphore_down(&mut inner, 1, 0, false), SemaphoreDown::Deadlock);
}

#[test]
fn without_detection_every_request_is_let_through() {
    let mut inner = inner_with(vec![]);
    assert_eq!(sys_mutex_create(&mut inner, 0, true), 0);
    assert_eq!(sys_mutex_create(&mut inner, 0, true), 1);
    let a = inner.mutex_lock(0);
    let b = inner.mutex_lock(1);
    assert_eq!(sys_mutex_lock(&mut inner, 0, 0), Ok(a));
    assert_eq!(sys_mutex_lock(&mut inner, 1, 1), Ok(b));
    assert_eq!(sys_mutex_lock(&mut inner, 0, 1), Ok(b));
    assert_eq!(sys_mutex_lock(&mut inner, 1, 0), Ok(a));
    assert_eq!(sys_semaphore_create(&mut inner, 0, 1), 0);
    let s = inner.semaphore(0);
    assert_eq!(sys_semaphore_down(&mut inner, 0, 0, false), SemaphoreDown::Acquire(s));
    assert_eq!(sys_semaphore_down(&mut inner, 1, 0, false), SemaphoreDown::Acquire(s));
}

#[test]
fn condvars_take_free_slots() {
    let mut inner = inner_with(vec![]);
    assert_eq!(sys_condvar_create(&mut inner), 0);
    assert_eq!(sys_condvar_create(&mut inner), 1);
    inner.condvar_list[0] = None;
    assert_eq!(sys_condvar_create(&mut inner), 0);
    assert_eq!(sys_mutex_create(&mut inner, 0, false), 0);
    assert_eq!(sys_condvar_signal(&inner, 1).id, 1);
    assert_eq!(sys_condvar_signal(&inner, 0).id, 0);
    let (c, m) = sys_condvar_wait(&inner, 1, 0);
    assert_eq!(c.id, 1);
    assert!(!m.blocking);
}

#[test]
fn enabling_detection_returns_zero() {
    let mut inner = inner_with(vec![]);
    assert_eq!(sys_enable_deadlock_detect(&mut inner, 1), 0);
    assert!(inner.enable_deadlock_detector);
}

#[test]
fn an_exited_child_can_be_reaped() {
    let mut inner = inner_with(vec![]);
    inner.children.push(ChildProcess { pid: 3, is_zombie: false, exit_code: 0 });
    inner.children.push(ChildProcess { pid: 4, is_zombie: false, exit_code: 0 });
    assert_eq!(sys_waitpid(&mut inner, 4), (-2, None));
    assert!(!inner.record_child_exit(9, 1));
    assert!(inner.record_child_exit(4, 12));
    assert_eq!(inner.children[1], ChildProcess { pid: 4, is_zombie: true, exit_code: 12 });
    assert_eq!(sys_waitpid(&mut inner, -1), (4, Some(12)));
    assert_eq!(inner.children, vec![ChildProcess { pid: 3, is_zombie: false, exit_code: 0 }]);
}
