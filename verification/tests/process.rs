use rcore_os::mm::MemorySet;
use rcore_os::process::{
    find_free, ChildProcess, LoadedElf, MutexHandle, OpenFile, ProcessControlBlock,
    ProcessControlBlockInner, SemaphoreHandle, TaskHandle, TrapContext,
};
use rcore_os::recycle::RecycleAllocator;

fn stdin() -> OpenFile {
    OpenFile { readable: true, writable: false, handle: 0 }
}

fn stdout() -> OpenFile {
    OpenFile { readable: false, writable: true, handle: 1 }
}

fn elf(token: usize) -> LoadedElf {
    LoadedElf { memory_set: MemorySet::new(token), ustack_top: 0x10000, entry_point: 0x1000 }
}

fn fresh_inner(fds: Vec<Option<OpenFile>>) -> ProcessControlBlockInner {
    ProcessControlBlockInner::new(MemorySet::new(9), fds, None)
}

#[test]
fn find_free_gives_the_lowest_empty_slot() {
    assert_eq!(find_free(&vec![Some(1u8), None, None]), Some(1));
    assert_eq!(find_free(&vec![Some(1u8), Some(2)]), None);
    assert_eq!(find_free::<u8>(&vec![]), None);
}

#[test]
fn alloc_fd_reuses_a_hole_before_growing() {
    let mut inner = fresh_inner(vec![Some(stdin()), None, Some(stdout())]);
    assert_eq!(inner.alloc_fd(), 1);
    assert_eq!(inner.fd_table.len(), 3);
    inner.fd_table[1] = Some(stdout());
    assert_eq!(inner.alloc_fd(), 3);
    assert_eq!(inner.fd_table.len(), 4);
    assert_eq!(inner.fd_table[3], None);
}

#[test]
fn new_inner_is_empty() {
    let inner = fresh_inner(vec![]);
    assert_eq!(inner.get_user_token(), 9);
    assert_eq!(inner.thread_count(), 0);
    assert!(!inner.is_zombie);
    assert!(!inner.enable_deadlock_detector);
    assert_eq!(inner.parent, None);
}

#[test]
fn thread_ids_are_recycled() {
    let mut inner = fresh_inner(vec![]);
    assert_eq!(inner.alloc_tid(), 0);
    assert_eq!(inner.alloc_tid(), 1);
    inner.dealloc_tid(0);
    assert_eq!(inner.alloc_tid(), 0);
    assert_eq!(inner.alloc_tid(), 2);
}

#[test]
fn mutexes_and_semaphores_take_the_first_free_slot() {
    let mut inner = fresh_inner(vec![]);
    assert_eq!(inner.create_mutex(0, true), 0);
    assert_eq!(inner.create_mutex(0, false), 1);
    let first = inner.mutex_lock(0);
    let second = inner.mutex_lock(1);
    assert!(first.blocking);
    assert!(!second.blocking);
    assert_eq!(second.id, first.id + 1);
    inner.mutex_list[0] = None;
    assert_eq!(inner.create_mutex(0, false), 0);
    assert_eq!(inner.mutex_lock(0), MutexHandle { id: second.id + 1, blocking: false });

    assert_eq!(inner.create_semaphore(0, 3), 0);
    assert_eq!(inner.semaphore(0), SemaphoreHandle { id: second.id + 2, count: 3 });
    inner.enable_detect_deadlock();
    assert!(inner.enable_deadlock_detector);
}

#[test]
fn new_process_opens_the_standard_streams() {
    let mut pids = RecycleAllocator::new();
    let (mut p, cx) = ProcessControlBlock::new(&mut pids, elf(3), 0x8000, stdin(), stdout());
    assert_eq!(p.getpid(), 0);
    assert_eq!(cx, TrapContext { sepc: 0x1000, sp: 0x10000, x10: 0, x11: 0, kernel_sp: 0x8000 });
    let inner = p.inner_exclusive_access();
    assert_eq!(inner.fd_table, vec![Some(stdin()), Some(stdout()), Some(stdout())]);
    assert_eq!(inner.tasks, vec![Some(TaskHandle { tid: 0 })]);
    assert_eq!(inner.get_task(0), TaskHandle { tid: 0 });
    assert_eq!(inner.get_user_token(), 3);
}

#[test]
fn fork_copies_files_and_records_the_child() {
    let mut pids = RecycleAllocator::new();
    let (mut parent, _) = ProcessControlBlock::new(&mut pids, elf(3), 0x8000, stdin(), stdout());
    parent.inner_exclusive_access().fd_table.push(None);
    let mut child = parent.fork(&mut pids, MemorySet::new(4));
    assert_eq!(child.getpid(), 1);
    let ci = child.inner_exclusive_access();
    assert_eq!(ci.parent, Some(0));
    assert_eq!(ci.fd_table, vec![Some(stdin()), Some(stdout()), Some(stdout()), None]);
    assert_eq!(ci.get_user_token(), 4);
    assert_eq!(ci.tasks, vec![Some(TaskHandle { tid: 0 })]);
    assert_eq!(
        parent.inner_exclusive_access().children,
        vec![ChildProcess { pid: 1, is_zombie: false, exit_code: 0 }]
    );
}

#[test]
fn spawn_starts_a_child_with_the_standard_streams() {
    let mut pids = RecycleAllocator::new();
    let (mut parent, _) = ProcessControlBlock::new(&mut pids, elf(3), 0x8000, stdin(), stdout());
    parent.inner_exclusive_access().fd_table.push(None);
    let (mut child, cx) = parent.spawn(&mut pids, elf(5), 0x9000, stdin(), stdout());
    assert_eq!(child.getpid(), 1);
    assert_eq!(cx.kernel_sp, 0x9000);
    let ci = child.inner_exclusive_access();
    assert_eq!(ci.parent, Some(0));
    assert_eq!(ci.fd_table.len(), 3);
    assert_eq!(parent.inner_exclusive_access().children.len(), 1);
}

#[test]
fn exec_lays_out_the_arguments() {
    let mut pids = RecycleAllocator::new();
    let (mut p, _) = ProcessControlBlock::new(&mut pids, elf(3), 0x8000, stdin(), stdout());
    let args = vec![b"ab".to_vec(), b"c".to_vec()];
    let img = p.exec(elf(7), 0x7000, &args);
    assert_eq!(img.stack_base, 0xFFE3);
    assert_eq!(
        img.trap_cx,
        TrapContext { sepc: 0x1000, sp: 0xFFE0, x10: 2, x11: 0xFFE8, kernel_sp: 0x7000 }
    );
    let mut expected: Vec<u8> = b"c\0ab\0".to_vec();
    expected.extend_from_slice(&0xFFE5u64.to_le_bytes());
    expected.extend_from_slice(&0xFFE3u64.to_le_bytes());
    expected.extend_from_slice(&0u64.to_le_bytes());
    assert_eq!(img.stack, expected);
    assert_eq!(p.inner_exclusive_access().get_user_token(), 7);
}

#[test]
fn exec_without_arguments() {
    let mut pids = RecycleAllocator::new();
    let (mut p, _) = ProcessControlBlock::new(&mut pids, elf(3), 0x8000, stdin(), stdout());
    let img = p.exec(elf(7), 0x7000, &vec![]);
    assert_eq!(img.stack_base, 0xFFF8);
    assert_eq!(img.trap_cx.sp, 0xFFF8);
    assert_eq!(img.trap_cx.x10, 0);
    assert_eq!(img.stack, vec![0u8; 8]);
}
