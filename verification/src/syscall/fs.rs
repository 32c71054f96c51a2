//! File-related system calls.
use vstd::prelude::*;

use crate::process::{first_free, lemma_first_free, OpenFile, ProcessControlBlockInner};
use crate::vfs::{find_pos, link_added, link_dropped, EasyFileSystem, Fstat, Inode};

verus! {

/// Kind of a file, as user space sees it.
pub const STAT_MODE_NULL: u32 = 0;

/// A directory.
pub const STAT_MODE_DIR: u32 = 0o040000;

/// A regular file.
pub const STAT_MODE_FILE: u32 = 0o100000;

/// Status of a file, laid out as user space expects it.
#[derive(Clone, Copy, Debug, PartialEq, Eq, Structural)]
pub struct Stat {
    pub dev: u64,
    pub ino: u64,
    pub mode: u32,
    pub nlink: u32,
}

/// The open file behind descriptor `fd`, if any.
pub open spec fn fd_file(inner: ProcessControlBlockInner, fd: usize) -> Option<OpenFile> {
    if fd < inner.fd_table@.len() {
        inner.fd_table@[fd as int]
    } else {
        None
    }
}

/// Checks that `fd` names a file open for writing; the caller then writes
/// the user buffer to the returned file and returns the byte count.
pub fn sys_write(inner: &ProcessControlBlockInner, fd: usize) -> (r: Result<OpenFile, isize>)
    ensures
        r == match fd_file(*inner, fd) {
            Some(f) => if f.writable {
                Ok::<OpenFile, isize>(f)
            } else {
                Err::<OpenFile, isize>(-1isize)
            },
            None => Err::<OpenFile, isize>(-1isize),
        },
{
    if fd >= inner.fd_table.len() {
        return Err(-1);
    }
    match inner.fd_table[fd] {
        Some(file) => {
            if !file.writable {
                return Err(-1);
            }
            Ok(file)
        },
        None => Err(-1),
    }
}

/// Checks that `fd` names a file open for reading; the caller then reads
/// from the returned file into the user buffer and returns the byte count.
pub fn sys_read(inner: &ProcessControlBlockInner, fd: usize) -> (r: Result<OpenFile, isize>)
    ensures
        r == match fd_file(*inner, fd) {
            Some(f) => if f.readable {
                Ok::<OpenFile, isize>(f)
            } else {
                Err::<OpenFile, isize>(-1isize)
            },
            None => Err::<OpenFile, isize>(-1isize),
        },
{
    if fd >= inner.fd_table.len() {
        return Err(-1);
    }
    match inner.fd_table[fd] {
        Some(file) => {
            if !file.readable {
                return Err(-1);
            }
            Ok(file)
        },
        None => Err(-1),
    }
}

/// Installs `opened`, the file that the file system opened (none when it
/// could not), under the lowest free descriptor; returns the descriptor, or
/// -1.
pub fn sys_open(inner: &mut ProcessControlBlockInner, opened: Option<OpenFile>) -> (r: isize)
    requires
        old(inner).fd_table@.len() < isize::MAX,
    ensures
        match opened {
            Some(f) => {
                &&& r == first_free(old(inner).fd_table@)
                &&& final(inner).fd_table@ == if r < old(inner).fd_table@.len() {
                    old(inner).fd_table@.update(r as int, Some(f))
                } else {
                    old(inner).fd_table@.push(Some(f))
                }
            },
            None => r == -1 && final(inner).fd_table@ == old(inner).fd_table@,
        },
        *final(inner) == (ProcessControlBlockInner { fd_table: final(inner).fd_table, ..*old(inner) }),
{
    match opened {
        Some(file) => {
            proof {
                lemma_first_free(inner.fd_table@);
            }
            let fd = inner.alloc_fd();
            inner.fd_table.set(fd, Some(file));
            fd as isize
        },
        None => -1,
    }
}

/// Closes descriptor `fd`: 0, or -1 when it is not open.
pub fn sys_close(inner: &mut ProcessControlBlockInner, fd: usize) -> (r: isize)
    ensures
        fd_file(*old(inner), fd) is None ==> r == -1 && final(inner).fd_table@ == old(
            inner,
        ).fd_table@,
        fd_file(*old(inner), fd) is Some ==> r == 0 && final(inner).fd_table@ == old(
            inner,
        ).fd_table@.update(fd as int, None),
        *final(inner) == (ProcessControlBlockInner { fd_table: final(inner).fd_table, ..*old(inner) }),
{
    if fd >= inner.fd_table.len() {
        return -1;
    }
    if inner.fd_table[fd].is_none() {
        return -1;
    }
    inner.fd_table.set(fd, None);
    0
}

/// The open file behind `fd`, whose status the caller asks the file system
/// for; none (and the call returns -1) when `fd` is not open.
pub fn sys_fstat(inner: &ProcessControlBlockInner, fd: usize) -> (r: Option<OpenFile>)
    ensures
        r == fd_file(*inner, fd),
{
    if fd < inner.fd_table.len() {
        inner.fd_table[fd]
    } else {
        None
    }
}

/// Fills the user's `st` from what the file system reported; a file it
/// could not report on gets mode `STAT_MODE_NULL`. The other fields stay.
pub fn fill_stat(st: &mut Stat, stat: Option<Fstat>)
    ensures
        match stat {
            None => *final(st) == (Stat { mode: STAT_MODE_NULL, ..*old(st) }),
            Some(s) => *final(st) == (Stat {
                ino: s.inode_id as u64,
                nlink: s.ref_count,
                mode: if s.is_dir {
                    STAT_MODE_DIR
                } else {
                    STAT_MODE_FILE
                },
                ..*old(st)
            }),
        },
{
    match stat {
        None => {
            st.mode = STAT_MODE_NULL;
        },
        Some(s) => {
            st.ino = s.inode_id as u64;
            st.nlink = s.ref_count;
            if s.is_dir {
                st.mode = STAT_MODE_DIR;
            } else {
                st.mode = STAT_MODE_FILE;
            }
        },
    }
}

/// Links `new_name` to the file that `old_name` names, both in the root
/// directory: 0, or -1 when `new_name` is taken or `old_name` is not there.
pub fn sys_linkat(fs: &mut EasyFileSystem, old_name: &[u8], new_name: &[u8]) -> (r: isize)
    requires
        old(fs).wf(),
        find_pos(old(fs).entries_of(0), old_name@) matches Some(i) ==> old(fs).inodes@[old(
            fs,
        ).entries_of(0)[i].1 as int].ref_count < u32::MAX,
    ensures
        final(fs).wf(),
        ({
            let es = old(fs).entries_of(0);
            if find_pos(es, new_name@) is Some || find_pos(es, old_name@) is None {
                r == -1 && *final(fs) == *old(fs)
            } else {
                &&& r == 0
                &&& link_added(*old(fs), *final(fs), 0, new_name@, es[find_pos(es, old_name@)->0].1)
            }
        }),
{
    let root = Inode::new(0);
    root.linkat(fs, new_name, old_name) as isize
}

/// Removes the link `name` from the root directory: 0, or -1 when it is
/// not there.
pub fn sys_unlinkat(fs: &mut EasyFileSystem, name: &[u8]) -> (r: isize)
    requires
        old(fs).wf(),
        find_pos(old(fs).entries_of(0), name@) matches Some(i) ==> old(fs).inodes@[old(
            fs,
        ).entries_of(0)[i].1 as int].ref_count >= 1,
    ensures
        final(fs).wf(),
        ({
            let es = old(fs).entries_of(0);
            match find_pos(es, name@) {
                None => r == -1 && *final(fs) == *old(fs),
                Some(i) => r == 0 && link_dropped(*old(fs), *final(fs), 0, i),
            }
        }),
{
    let root = Inode::new(0);
    root.unlink_at(fs, name) as isize
}

/// After descriptor `fd` is closed, the next file opened gets `fd` or a
/// lower descriptor.
pub proof fn lemma_close_then_open_reuses(table: Seq<Option<OpenFile>>, fd: int)
    requires
        0 <= fd < table.len(),
    ensures
        first_free(table.update(fd, None)) <= fd,
{
    let t1 = table.update(fd, None);
    lemma_first_free(t1);
    if first_free(t1) > fd {
        assert(t1[fd] is Some);
    }
}

} // verus!
