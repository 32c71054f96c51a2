# rcore_os

The decision-making core of a small RISC-V teaching kernel, written in Verus
and proved against its contracts.

- `src/recycle.rs`: identifier allocator that hands back freed identifiers
  first (process, thread and frame numbers).
- `src/deadlock.rs`: the banker's-algorithm deadlock detector behind mutexes
  and semaphores.
- `src/mm.rs`: page arithmetic, page tables, the frame allocator, user
  address ranges split into physical pieces, `mmap` / `munmap`.
- `src/io.rs`: copying values to and from user memory that may cross pages.
- `src/process.rs`: process control blocks: descriptor tables, threads,
  locks, `fork`, `exec` (with the argument layout on the user stack), `spawn`.
- `src/vfs.rs`: the inode layer of the file system: directories, links,
  file contents.
- `src/syscall/`: the system calls over those pieces.
- `app/`: what only the machine can do: SBI calls, and carrying out what
  the system calls decide through the scheduler, the lock objects and user
  memory.

Laws that span several operations (an identifier freed is the next one handed
out, `munmap` undoes `mmap`, a read gives back what a write wrote, link counts
stay exact, granting then releasing a lock restores the detector) are public
proof functions next to the operations they speak of.
