//! Process-related system calls: memory mapping, time, tracing, waiting
//! for children, priorities.
use vstd::prelude::*;

use crate::io::{
    copy_to_user, gather, lemma_range_segments_valid, memory_wf, pt_in_memory, read, read_flags,
    segments_used, serialize_struct, write_flags, write_segments, PhysMemory,
    SerializeToBytes, TimeVal,
};
use crate::process::{
    arg_bytes, args_floor, args_prefix, argv_base, is_new_process, stack_image, ChildProcess, ExecImage, LoadedElf, OpenFile,
    ProcessControlBlock, ProcessControlBlockInner, TrapContext,
};
use crate::recycle::{alloc_step, live_ids, RecycleAllocator};
use crate::mm::{
    page_count, range_authorized, range_mapped, range_segments, translate_va_to_pa, walkable, PageTable,
    addr_space_fits, ceil, frames_consistent, map_request_ok, mapped_fresh, mmap, page_ceil,
    request_pages, unmap, unmap_request_ok, unmapped, va_of, FrameAllocator, MemorySet, PTE_R,
    PTE_U, PTE_V, PTE_W, PTE_X,
};

verus! {

/// Why the protection bits of a mapping request were refused.
#[derive(Clone, Copy, Debug, PartialEq, Eq, Structural)]
pub enum MMapProtError {
    InvalidBits(usize),
}

/// Protection bits of a mapping request: readable 1, writable 2,
/// executable 4.
#[derive(Clone, Copy, Debug, PartialEq, Eq, Structural)]
pub struct MMapProt {
    pub bits: u8,
}

/// Readable.
pub const PROT_R: u8 = 1;
/// Writable.
pub const PROT_W: u8 = 2;
/// Executable.
pub const PROT_X: u8 = 4;

/// Permission bits of a mapping, as page table entries hold them.
#[derive(Clone, Copy, Debug, PartialEq, Eq, Structural)]
pub struct MapPermission {
    pub bits: u8,
}

/// The protection bits `val` are accepted when some are set and no other
/// bit is.
pub open spec fn prot_from_bits(val: usize) -> Result<MMapProt, MMapProtError> {
    if val == 0 || val >= 8 {
        Err(MMapProtError::InvalidBits(val))
    } else {
        Ok(MMapProt { bits: val as u8 })
    }
}

/// Each protection bit becomes the matching page permission bit, and the
/// page is made accessible from user mode.
pub open spec fn permission_of(prot: MMapProt) -> MapPermission {
    MapPermission {
        bits: (if prot.bits & PROT_R != 0 { PTE_R } else { 0u8 }) | (if prot.bits & PROT_W != 0 {
            PTE_W
        } else {
            0u8
        }) | (if prot.bits & PROT_X != 0 { PTE_X } else { 0u8 }) | PTE_U,
    }
}

impl vstd::std_specs::convert::TryFromSpecImpl<usize> for MMapProt {
    open spec fn obeys_try_from_spec() -> bool {
        true
    }

    open spec fn try_from_spec(v: usize) -> Result<MMapProt, MMapProtError> {
        prot_from_bits(v)
    }
}

impl TryFrom<usize> for MMapProt {
    type Error = MMapProtError;

    /// Accepts the values whose bits are among the three protection bits,
    /// and not none of them.
    fn try_from(val: usize) -> (r: Result<MMapProt, MMapProtError>) {
        if val == 0 {
            return Err(MMapProtError::InvalidBits(val));
        }
        let mask: usize = 0x7;
        if (val & !mask) != 0 {
            assert(val >= 8) by (bit_vector)
                requires
                    val & !0x7usize != 0,
            ;
            return Err(MMapProtError::InvalidBits(val));
        }
        assert(val < 8 && val & 0x7usize == val) by (bit_vector)
            requires
                val & !0x7usize == 0,
        ;
        Ok(MMapProt { bits: (val & mask) as u8 })
    }
}

impl vstd::std_specs::convert::TryFromSpecImpl<MMapProt> for MapPermission {
    open spec fn obeys_try_from_spec() -> bool {
        true
    }

    open spec fn try_from_spec(v: MMapProt) -> Result<MapPermission, MMapProtError> {
        Ok(permission_of(v))
    }
}

impl TryFrom<MMapProt> for MapPermission {
    type Error = MMapProtError;

    /// The page permission for protection bits `prot`; never refused.
    fn try_from(prot: MMapProt) -> (r: Result<MapPermission, MMapProtError>) {
        let r: u8 = if prot.bits & PROT_R != 0 {
            PTE_R
        } else {
            0
        };
        let w: u8 = if prot.bits & PROT_W != 0 {
            PTE_W
        } else {
            0
        };
        let x: u8 = if prot.bits & PROT_X != 0 {
            PTE_X
        } else {
            0
        };
        Ok(MapPermission { bits: r | w | x | PTE_U })
    }
}

/// Maps `len` bytes (rounded up to whole pages) at `start` with protection
/// bits `prot`: 0, or -1 when the bits, the alignment, an already mapped
/// page or the free memory refuse it.
pub fn sys_mmap(
    ms: &mut MemorySet,
    frames: &mut FrameAllocator,
    start: usize,
    len: usize,
    prot: usize,
) -> (r: isize)
    requires
        old(frames).wf(),
        frames_consistent(old(ms)@, old(frames).live_frames()),
        addr_space_fits(),
    ensures
        final(frames).wf(),
        frames_consistent(final(ms)@, final(frames).live_frames()),
        final(ms).spec_token() == old(ms).spec_token(),
        ({
            let len2 = page_ceil(va_of(len as int)) as usize;
            let ok = prot_from_bits(prot) is Ok && map_request_ok(
                old(ms)@,
                old(frames).free_count(),
                start,
                len2,
            );
            let (s, e) = request_pages(start, len2);
            &&& r == if ok {
                0isize
            } else {
                -1isize
            }
            &&& ok ==> mapped_fresh(
                old(ms)@,
                old(frames).live_frames(),
                final(ms)@,
                final(frames).live_frames(),
                s,
                e,
                permission_of(prot_from_bits(prot)->Ok_0).bits,
            ) && final(frames).free_count() == old(frames).free_count() - (e - s)
            &&& !ok ==> final(ms)@ == old(ms)@ && *final(frames) == *old(frames)
        }),
        r == 0 ==> ({
            let (s, e) = request_pages(start, page_ceil(va_of(len as int)) as usize);
            forall|v: usize|
                s <= v < e ==> {
                    let f = #[trigger] final(ms)@[v].flags;
                    &&& (f & PTE_R != 0) <==> (prot & 1 != 0)
                    &&& (f & PTE_W != 0) <==> (prot & 2 != 0)
                    &&& (f & PTE_X != 0) <==> (prot & 4 != 0)
                    &&& f & PTE_U != 0
                    &&& f & PTE_V != 0
                }
        }),
{
    let ghost prot0 = prot;
    let len = ceil(len);
    let prot_result = MMapProt::try_from(prot);
    let prot = match prot_result {
        Ok(p) => p,
        Err(_) => {
            return -1;
        },
    };
    let map_perm: Result<MapPermission, MMapProtError> = prot.try_into();
    let map_perm = match map_perm {
        Ok(p) => p,
        Err(_) => {
            return -1;
        },
    };
    match mmap(ms, frames, start, len, map_perm.bits) {
        Ok(_) => {
            proof {
                let (s, e) = request_pages(start, len);
                assert forall|v: usize| s <= v < e implies {
                    let f = #[trigger] ms@[v].flags;
                    &&& (f & PTE_R != 0) <==> (prot0 & 1 != 0)
                    &&& (f & PTE_W != 0) <==> (prot0 & 2 != 0)
                    &&& (f & PTE_X != 0) <==> (prot0 & 4 != 0)
                    &&& f & PTE_U != 0
                    &&& f & PTE_V != 0
                } by {
                    lemma_mapped_flags(prot0, ms@[v].flags);
                }
            }
            0
        },
        Err(_) => -1,
    }
}

/// A page mapped for the protection bits `prot` carries each of the bits
/// readable, writable, executable exactly when `prot` asks for it, and is
/// valid and accessible from user mode.
proof fn lemma_mapped_flags(prot: usize, f: u8)
    requires
        prot_from_bits(prot) is Ok,
        f == permission_of(prot_from_bits(prot)->Ok_0).bits | PTE_V,
    ensures
        (f & PTE_R != 0) <==> (prot & 1 != 0),
        (f & PTE_W != 0) <==> (prot & 2 != 0),
        (f & PTE_X != 0) <==> (prot & 4 != 0),
        f & PTE_U != 0,
        f & PTE_V != 0,
{
    let mp = prot_from_bits(prot)->Ok_0;
    let p = permission_of(mp).bits;
    lemma_permission_bits(mp);
    let b = mp.bits;
    assert(b == prot as u8);
    assert(1 <= prot < 8);
    assert(((b & 1 != 0) <==> (prot & 1 != 0)) && ((b & 2 != 0) <==> (prot & 2 != 0)) && ((b & 4
        != 0) <==> (prot & 4 != 0))) by (bit_vector)
        requires
            1 <= prot < 8,
            b == prot as u8,
    ;
    assert((((p | 1) & 2 != 0) <==> (p & 2 != 0)) && (((p | 1) & 4 != 0) <==> (p & 4 != 0)) && (((p
        | 1) & 8 != 0) <==> (p & 8 != 0)) && ((p & 16 != 0) ==> (p | 1) & 16 != 0) && (p | 1) & 1
        != 0) by (bit_vector);
}

/// Unmaps `len` bytes (rounded up to whole pages) at `start`: 0, or -1 when
/// the alignment or a page that is not mapped refuses it.
pub fn sys_munmap(ms: &mut MemorySet, frames: &mut FrameAllocator, start: usize, len: usize) -> (r:
    isize)
    requires
        old(frames).wf(),
        frames_consistent(old(ms)@, old(frames).live_frames()),
        addr_space_fits(),
    ensures
        final(frames).wf(),
        frames_consistent(final(ms)@, final(frames).live_frames()),
        final(ms).spec_token() == old(ms).spec_token(),
        ({
            let len2 = page_ceil(va_of(len as int)) as usize;
            let ok = unmap_request_ok(old(ms)@, start, len2);
            let (s, e) = request_pages(start, len2);
            &&& r == if ok {
                0isize
            } else {
                -1isize
            }
            &&& ok ==> unmapped(
                old(ms)@,
                old(frames).live_frames(),
                final(ms)@,
                final(frames).live_frames(),
                s,
                e,
            ) && final(frames).free_count() == old(frames).free_count() + (e - s)
            &&& !ok ==> final(ms)@ == old(ms)@ && *final(frames) == *old(frames)
        }),
{
    let len = ceil(len);
    match unmap(ms, frames, start, len) {
        Ok(_) => 0,
        Err(_) => -1,
    }
}

/// The time `us` microseconds, split into seconds and microseconds.
pub open spec fn time_val_of(us: usize) -> TimeVal {
    TimeVal { sec: us / 1_000_000, usec: us % 1_000_000 }
}

/// The time written for a timer reading of `us` microseconds encodes it
/// exactly: fewer than a million microseconds, and the seconds and
/// microseconds add up to `us`.
pub proof fn lemma_time_val_encodes(us: usize)
    ensures
        time_val_of(us).usec < 1_000_000,
        time_val_of(us).sec * 1_000_000 + time_val_of(us).usec == us,
{
}

/// Each protection bit asked for (readable, writable, executable) is set
/// in the page permission exactly when it was asked for, whatever the
/// other bits; the page is always accessible from user mode and never
/// marked valid, global, accessed or dirty by the permission itself.
pub proof fn lemma_permission_bits(prot: MMapProt)
    ensures
        (permission_of(prot).bits & PTE_R != 0) <==> (prot.bits & 1 != 0),
        (permission_of(prot).bits & PTE_W != 0) <==> (prot.bits & 2 != 0),
        (permission_of(prot).bits & PTE_X != 0) <==> (prot.bits & 4 != 0),
        permission_of(prot).bits & PTE_U != 0,
        permission_of(prot).bits & 0xe1u8 == 0,
{
    let b = prot.bits;
    let r: u8 = if b & 1 != 0 { 2 } else { 0 };
    let w: u8 = if b & 2 != 0 { 4 } else { 0 };
    let x: u8 = if b & 4 != 0 { 8 } else { 0 };
    let p = permission_of(prot).bits;
    assert(p == r | w | x | 16u8);
    assert(((r | w | x | 16u8) & 2 != 0) <==> (b & 1 != 0)) by (bit_vector)
        requires
            r == if b & 1 != 0 { 2u8 } else { 0u8 },
            w == if b & 2 != 0 { 4u8 } else { 0u8 },
            x == if b & 4 != 0 { 8u8 } else { 0u8 },
    ;
    assert(((r | w | x | 16u8) & 4 != 0) <==> (b & 2 != 0)) by (bit_vector)
        requires
            r == if b & 1 != 0 { 2u8 } else { 0u8 },
            w == if b & 2 != 0 { 4u8 } else { 0u8 },
            x == if b & 4 != 0 { 8u8 } else { 0u8 },
    ;
    assert(((r | w | x | 16u8) & 8 != 0) <==> (b & 4 != 0)) by (bit_vector)
        requires
            r == if b & 1 != 0 { 2u8 } else { 0u8 },
            w == if b & 2 != 0 { 4u8 } else { 0u8 },
            x == if b & 4 != 0 { 8u8 } else { 0u8 },
    ;
    assert((r | w | x | 16u8) & 16 != 0 && (r | w | x | 16u8) & 0xe1u8 == 0) by (bit_vector)
        requires
            r == 2u8 || r == 0u8,
            w == 4u8 || w == 0u8,
            x == 8u8 || x == 0u8,
    ;
}

/// Writes the time `us` (microseconds, read from the timer) as a `TimeVal`
/// to user address `ts`, page by page as far as the pages are mapped;
/// returns 0.
pub fn sys_get_time(pt: &PageTable, mem: &mut PhysMemory, ts: usize, us: usize) -> (r: isize)
    requires
        memory_wf(old(mem)@),
        pt_in_memory(pt@, old(mem)@.len()),
    ensures
        r == 0,
        memory_wf(final(mem)@),
        final(mem)@.len() == old(mem)@.len(),
        ({
            let segs = range_segments(pt@, ts as int, 16);
            final(mem)@ == write_segments(
                old(mem)@,
                segs,
                time_val_of(us).spec_bytes(),
                segments_used(segs, 16, 0),
            )
        }),
        exists|t: TimeVal|
            #![trigger t.spec_bytes()]
            {
                let segs = range_segments(pt@, ts as int, 16);
                &&& t.usec < 1_000_000
                &&& t.sec * 1_000_000 + t.usec == us
                &&& final(mem)@ == write_segments(old(mem)@, segs, t.spec_bytes(), segments_used(segs, 16, 0))
            },
{
    let pa = translate_va_to_pa(pt, ts, 16);
    proof {
        if range_mapped(pt@, ts as int, 16) {
            lemma_range_segments_valid(pt@, mem@, ts as int, 16);
        }
    }
    let t = TimeVal { sec: us / 1_000_000, usec: us % 1_000_000 };
    proof {
        t.lemma_round_trip();
    }
    let _ = serialize_struct(&t, &pa, mem);
    proof {
        lemma_time_val_encodes(us);
        let tv = time_val_of(us);
        assert(tv.spec_bytes() == t.spec_bytes());
    }
    0
}

/// Whether a `sys_waitpid` for `pid` waits for child `c`: -1 waits for any.
pub open spec fn waits_for(pid: isize, c: ChildProcess) -> bool {
    pid == -1 || pid as usize == c.pid
}

/// Index of the first child that is a zombie and waited for, or the number
/// of children when there is none.
pub open spec fn first_zombie(children: Seq<ChildProcess>, pid: isize) -> int
    decreases children.len(),
{
    if children.len() == 0 {
        0
    } else if children[0].is_zombie && waits_for(pid, children[0]) {
        0
    } else {
        1 + first_zombie(children.drop_first(), pid)
    }
}

proof fn lemma_first_zombie(children: Seq<ChildProcess>, pid: isize)
    ensures
        0 <= first_zombie(children, pid) <= children.len(),
        first_zombie(children, pid) < children.len() ==> children[first_zombie(
            children,
            pid,
        )].is_zombie && waits_for(pid, children[first_zombie(children, pid)]),
        forall|j: int|
            0 <= j < first_zombie(children, pid) ==> !((#[trigger] children[j]).is_zombie
                && waits_for(pid, children[j])),
    decreases children.len(),
{
    if children.len() > 0 && !(children[0].is_zombie && waits_for(pid, children[0])) {
        lemma_first_zombie(children.drop_first(), pid);
        assert forall|j: int| 0 <= j < first_zombie(children, pid) implies !((#[trigger] children[
            j]).is_zombie && waits_for(pid, children[j])) by {
            if j > 0 {
                assert(children[j] == children.drop_first()[j - 1]);
            }
        }
    }
}

/// Reaps a child that `pid` names (-1: any): returns -1 when no child is
/// waited for, -2 when none of those has exited yet, else removes the first
/// exited one and returns its identifier with its exit code, which the
/// caller stores for the user.
pub fn sys_waitpid(inner: &mut ProcessControlBlockInner, pid: isize) -> (r: (isize, Option<i32>))
    ensures
        ({
            let children = old(inner).children@;
            let k = first_zombie(children, pid);
            if !(exists|j: int| 0 <= j < children.len() && waits_for(pid, #[trigger] children[j])) {
                &&& r == (-1isize, None::<i32>)
                &&& final(inner).children@ == children
            } else if k == children.len() {
                &&& r == (-2isize, None::<i32>)
                &&& final(inner).children@ == children
            } else {
                &&& r == (children[k].pid as isize, Some(children[k].exit_code))
                &&& final(inner).children@ == children.remove(k)
            }
        }),
        *final(inner) == (ProcessControlBlockInner { children: final(inner).children, ..*old(inner) }),
{
    proof {
        lemma_first_zombie(inner.children@, pid);
    }
    let mut any = false;
    let mut i: usize = 0;
    while i < inner.children.len() && !any
        invariant
            i <= inner.children@.len(),
            any ==> exists|j: int|
                0 <= j < inner.children@.len() && waits_for(pid, #[trigger] inner.children@[j]),
            !any ==> forall|j: int| 0 <= j < i ==> !waits_for(pid, #[trigger] inner.children@[j]),
        decreases inner.children@.len() - i + if any {
            0int
        } else {
            1
        },
    {
        let c = inner.children[i];
        if pid == -1 || pid as usize == c.pid {
            any = true;
        } else {
            i = i + 1;
        }
    }
    if !any {
        return (-1, None);
    }
    let mut idx: usize = 0;
    let mut found = false;
    while idx < inner.children.len() && !found
        invariant
            idx <= inner.children@.len(),
            found ==> idx == first_zombie(inner.children@, pid) && idx < inner.children@.len(),
            !found ==> forall|j: int|
                0 <= j < idx ==> !((#[trigger] inner.children@[j]).is_zombie && waits_for(
                    pid,
                    inner.children@[j],
                )),
            0 <= first_zombie(inner.children@, pid) <= inner.children@.len(),
            first_zombie(inner.children@, pid) < inner.children@.len() ==> inner.children@[first_zombie(
                inner.children@,
                pid,
            )].is_zombie && waits_for(pid, inner.children@[first_zombie(inner.children@, pid)]),
            forall|j: int|
                0 <= j < first_zombie(inner.children@, pid) ==> !((#[trigger] inner.children@[
                    j]).is_zombie && waits_for(pid, inner.children@[j])),
        decreases inner.children@.len() - idx + if found {
            0int
        } else {
            1
        },
    {
        let c = inner.children[idx];
        if c.is_zombie && (pid == -1 || pid as usize == c.pid) {
            found = true;
        } else {
            idx = idx + 1;
        }
    }
    if found {
        let child = inner.children.remove(idx);
        let found_pid = child.pid;
        let exit_code = child.exit_code;
        (found_pid as isize, Some(exit_code))
    } else {
        proof {
            let k = first_zombie(inner.children@, pid);
            if k < inner.children@.len() {
                assert(!(inner.children@[k].is_zombie && waits_for(pid, inner.children@[k])));
            }
        }
        (-2, None)
    }
}

/// Answers a request to move the program break, given what moving it
/// gave: the old break when it moved, none when it could not.
pub fn sys_sbrk(old_brk: Option<usize>) -> (r: isize)
    ensures
        r == match old_brk {
            Some(b) => b as isize,
            None => -1isize,
        },
{
    match old_brk {
        Some(b) => b as isize,
        None => -1,
    }
}

/// The identifier of the calling process.
pub fn sys_getpid(pcb: &ProcessControlBlock) -> (r: isize)
    ensures
        r == pcb.spec_pid() as isize,
{
    pcb.getpid() as isize
}

/// Sets the scheduling priority held in `prio_slot` to `prio`, which must
/// be at least 2; returns `prio`, or -1.
pub fn sys_set_priority(prio_slot: &mut usize, prio: isize) -> (r: isize)
    ensures
        prio < 2 ==> r == -1 && *final(prio_slot) == *old(prio_slot),
        prio >= 2 ==> r == prio && *final(prio_slot) == prio as usize,
{
    if prio < 2 {
        -1
    } else {
        *prio_slot = prio as usize;
        prio
    }
}

/// Trace requests: 0 reads the user byte at `id`, 1 writes `data` (its low
/// byte) there, 2 reports `call_count`, the number of calls of system call
/// `id` so far; others are refused with -1, as are reads and writes of
/// pages without the needed permission bits.
pub fn sys_trace(
    pt: &PageTable,
    mem: &mut PhysMemory,
    trace_request: usize,
    id: usize,
    data: usize,
    call_count: isize,
) -> (r: isize)
    requires
        memory_wf(old(mem)@),
        pt_in_memory(pt@, old(mem)@.len()),
    ensures
        memory_wf(final(mem)@),
        final(mem)@.len() == old(mem)@.len(),
        trace_request == 0 ==> final(mem)@ == old(mem)@ && r == if range_authorized(
            pt@,
            id as int,
            1,
            read_flags(),
        ) {
            gather(old(mem)@, range_segments(pt@, id as int, 1))[0] as isize
        } else {
            -1isize
        },
        trace_request == 1 ==> if range_authorized(pt@, id as int, 1, write_flags()) {
            &&& r == 0
            &&& final(mem)@ == write_segments(
                old(mem)@,
                range_segments(pt@, id as int, 1),
                seq![data as u8],
                segments_used(range_segments(pt@, id as int, 1), 1, 0),
            )
        } else {
            r == -1 && final(mem)@ == old(mem)@
        },
        trace_request == 2 ==> r == call_count && final(mem)@ == old(mem)@,
        trace_request > 2 ==> r == -1 && final(mem)@ == old(mem)@,
{
    let len: usize = 1;
    let data = data as u8;
    if trace_request == 0 {
        let res: Result<u8, crate::io::AccessError> = read(pt, mem, id, len);
        match res {
            Ok(v) => v as isize,
            Err(_) => -1,
        }
    } else if trace_request == 1 {
        match crate::io::write(&data, pt, mem, id, len) {
            Ok(_) => 0,
            Err(_) => -1,
        }
    } else if trace_request == 2 {
        call_count
    } else {
        -1
    }
}

/// Forks the calling single-threaded process: the child gets the address
/// space `child_ms` (a copy of the parent's) and the parent's registers
/// `parent_cx`, except that it sees 0 as the result of the call and has its
/// own kernel stack. Returns the child's identifier, the child and its
/// registers.
pub fn sys_fork(
    current: &mut ProcessControlBlock,
    pids: &mut RecycleAllocator,
    child_ms: MemorySet,
    parent_cx: TrapContext,
    child_kernel_sp: usize,
) -> (r: (isize, ProcessControlBlock, TrapContext))
    requires
        old(pids).wf(),
        old(pids).can_alloc(),
        old(current).inner_view().tasks@.len() == 1,
    ensures
        final(pids).wf(),
        (final(pids)@, r.1.spec_pid()) == alloc_step(old(pids)@),
        !live_ids(old(pids)@).contains(r.1.spec_pid()),
        live_ids(old(pids)@).contains(old(current).spec_pid()) ==> r.1.spec_pid() != old(
            current,
        ).spec_pid(),
        r.0 == r.1.spec_pid() as isize,
        is_new_process(
            r.1.inner_view(),
            child_ms,
            old(current).inner_view().fd_table@,
            Some(old(current).spec_pid()),
        ),
        r.2 == (TrapContext { x10: 0, kernel_sp: child_kernel_sp, ..parent_cx }),
        final(current).spec_pid() == old(current).spec_pid(),
        final(current).inner_view().children@ == old(current).inner_view().children@.push(
            ChildProcess { pid: r.1.spec_pid(), is_zombie: false, exit_code: 0 },
        ),
{
    let child = current.fork(pids, child_ms);
    let new_pid = child.getpid();
    let child_cx = TrapContext { x10: 0, kernel_sp: child_kernel_sp, ..parent_cx };
    (new_pid as isize, child, child_cx)
}

/// Replaces the program of the calling single-threaded process by the
/// program that the file system loaded (none when the file could not be
/// opened: -1), and stores the arguments on its user stack in `mem`;
/// returns 0 and what `exec` prepared. The stack pages of the new program
/// must be mapped.
pub fn sys_exec(
    current: &mut ProcessControlBlock,
    loaded: Option<LoadedElf>,
    kernel_sp: usize,
    args: &Vec<Vec<u8>>,
    mem: &mut PhysMemory,
) -> (r: (isize, Option<ExecImage>))
    requires
        old(current).inner_view().tasks@.len() == 1,
        memory_wf(old(mem)@),
        loaded matches Some(elf) ==> elf.ustack_top >= (args@.len() + 1) * 8 + args_prefix(
            arg_bytes(args@),
            args@.len() as int,
        ),
        loaded matches Some(elf) ==> pt_in_memory(elf.memory_set@, old(mem)@.len()),
        loaded matches Some(elf) ==> range_mapped(
            elf.memory_set@,
            args_floor(elf.ustack_top as int, arg_bytes(args@)),
            stack_image(elf.ustack_top as int, arg_bytes(args@)).len() as int,
        ),
    ensures
        memory_wf(final(mem)@),
        loaded is None ==> final(mem)@ == old(mem)@,
        loaded is Some ==> ({
            let ms = loaded->0.memory_set@;
            let top = loaded->0.ustack_top as int;
            let a = arg_bytes(args@);
            let floor = args_floor(top, a);
            let len = stack_image(top, a).len() as int;
            final(mem)@ == write_segments(
                old(mem)@,
                range_segments(ms, floor, len),
                stack_image(top, a),
                page_count(floor, len),
            )
        }),
        loaded is None ==> r.0 == -1 && r.1 is None && *final(current) == *old(current),
        loaded is Some ==> r.0 == 0 && r.1 is Some && final(current).inner_view()
            == (ProcessControlBlockInner {
            memory_set: loaded->0.memory_set,
            ..old(current).inner_view()
        }),
        loaded is Some ==> ({
            let top = loaded->0.ustack_top as int;
            let a = arg_bytes(args@);
            let floor = args_floor(top, a);
            let img = r.1->0;
            &&& img.stack_base == floor
            &&& img.stack@ == stack_image(top, a)
            &&& img.trap_cx == (TrapContext {
                sepc: loaded->0.entry_point,
                sp: (floor - floor % 8) as usize,
                x10: args@.len() as usize,
                x11: argv_base(top, args@.len() as int) as usize,
                kernel_sp,
            })
        }),
        final(current).spec_pid() == old(current).spec_pid(),
{
    match loaded {
        Some(elf) => {
            let image = current.exec(elf, kernel_sp, args);
            let inner = current.inner_exclusive_access();
            let _stored = copy_to_user(inner.memory_set.page_table(), mem, image.stack_base, &image.stack);
            (0, Some(image))
        },
        None => (-1, None),
    }
}

/// Starts the program that the file system loaded (none when the file
/// could not be opened: -1) as a new child of the calling process; returns
/// the child's identifier, the child and its registers.
pub fn sys_spawn(
    current: &mut ProcessControlBlock,
    pids: &mut RecycleAllocator,
    loaded: Option<LoadedElf>,
    kernel_sp: usize,
    stdin: OpenFile,
    stdout: OpenFile,
) -> (r: (isize, Option<(ProcessControlBlock, TrapContext)>))
    requires
        old(pids).wf(),
        old(pids).can_alloc(),
    ensures
        final(pids).wf(),
        final(current).spec_pid() == old(current).spec_pid(),
        loaded is None ==> r.0 == -1 && r.1 is None && *final(current) == *old(current),
        loaded is None ==> *final(pids) == *old(pids),
        loaded is Some ==> {
            &&& r.1 is Some
            &&& (final(pids)@, (r.1->0).0.spec_pid()) == alloc_step(old(pids)@)
            &&& !live_ids(old(pids)@).contains((r.1->0).0.spec_pid())
            &&& r.0 == (r.1->0).0.spec_pid() as isize
            &&& is_new_process(
                (r.1->0).0.inner_view(),
                loaded->0.memory_set,
                seq![Some(stdin), Some(stdout), Some(stdout)],
                Some(old(current).spec_pid()),
            )
            &&& final(current).inner_view().children@ == old(current).inner_view().children@.push(
                ChildProcess { pid: (r.1->0).0.spec_pid(), is_zombie: false, exit_code: 0 },
            )
        },
{
    match loaded {
        Some(elf) => {
            let (child, cx) = current.spawn(pids, elf, kernel_sp, stdin, stdout);
            let new_pid = child.getpid();
            (new_pid as isize, Some((child, cx)))
        },
        None => (-1, None),
    }
}

} // verus!
