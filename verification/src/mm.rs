//! Virtual addresses, page tables and the user address space.
use vstd::prelude::*;
use vstd::std_specs::hash::group_hash_axioms;
use std::collections::HashMap;

use crate::config::{PAGE_SIZE, VA_WIDTH_SV39};
use crate::recycle::{live_ids, RecycleAllocator};

verus! {

broadcast use group_hash_axioms;

/// One past the largest Sv39 virtual address.
pub open spec fn va_limit() -> int {
    0x80_0000_0000
}

/// The machine word holds every Sv39 virtual address (true of the 64-bit
/// machines the kernel runs on).
pub open spec fn addr_space_fits() -> bool {
    va_limit() <= usize::MAX
}

/// A `usize` read as a virtual address keeps its low 39 bits.
pub open spec fn va_of(v: int) -> int {
    v % va_limit()
}

/// Smallest multiple of the page size at or above `va`.
pub open spec fn page_ceil(va: int) -> int {
    ((va + PAGE_SIZE - 1) / (PAGE_SIZE as int)) * PAGE_SIZE
}

/// Largest multiple of the page size at or below `va`.
pub open spec fn page_floor(va: int) -> int {
    (va / (PAGE_SIZE as int)) * PAGE_SIZE
}

/// Whether `va` lies on a page boundary.
pub open spec fn page_aligned(va: int) -> bool {
    va % (PAGE_SIZE as int) == 0
}

/// A page boundary lies at or below `va`, and the next at or above it,
/// less than a page away; both are multiples of the page size, at most a
/// page apart, and equal exactly when `va` is on a boundary.
pub proof fn lemma_page_bounds(va: int)
    requires
        0 <= va,
    ensures
        page_floor(va) <= va <= page_ceil(va),
        va - page_floor(va) < PAGE_SIZE,
        page_ceil(va) - va < PAGE_SIZE,
        page_aligned(page_floor(va)),
        page_aligned(page_ceil(va)),
        page_aligned(va) ==> page_floor(va) == va && page_ceil(va) == va,
        page_ceil(va) <= page_floor(va) + PAGE_SIZE,
        page_ceil(va) == page_floor(va) <==> page_aligned(va),
{
}

/// The low 39 bits of `v`, as a virtual address.
pub fn virt_addr(v: usize) -> (va: usize)
    ensures
        va == va_of(v as int),
{
    let x = v as u64;
    assert(x & 0x7f_ffff_ffffu64 == x % 0x80_0000_0000u64) by (bit_vector);
    let low = x & 0x7f_ffff_ffffu64;
    assert(low <= x);
    low as usize
}

/// Rounds `v`, read as a virtual address, up to a page boundary.
pub fn ceil(v: usize) -> (r: usize)
    requires
        page_ceil(va_of(v as int)) <= usize::MAX,
    ensures
        r == page_ceil(va_of(v as int)),
{
    let va = virt_addr(v);
    if va == 0 {
        0
    } else {
        ((va - 1 + PAGE_SIZE) / PAGE_SIZE) * PAGE_SIZE
    }
}

/// Rounds `v`, read as a virtual address, down to a page boundary.
pub fn floor(v: usize) -> (r: usize)
    ensures
        r == page_floor(va_of(v as int)),
{
    let va = virt_addr(v);
    (va / PAGE_SIZE) * PAGE_SIZE
}


/// Valid.
pub const PTE_V: u8 = 1;
/// Readable.
pub const PTE_R: u8 = 2;
/// Writable.
pub const PTE_W: u8 = 4;
/// Executable.
pub const PTE_X: u8 = 8;
/// Accessible from user mode.
pub const PTE_U: u8 = 16;
/// Global.
pub const PTE_G: u8 = 32;
/// Accessed.
pub const PTE_A: u8 = 64;
/// Dirty.
pub const PTE_D: u8 = 128;

/// A leaf entry of a page table: the physical page and the flag bits.
#[derive(Clone, Copy, Debug, PartialEq, Eq, Structural)]
pub struct PageTableEntry {
    pub ppn: usize,
    pub flags: u8,
}

/// The map from virtual to physical pages of one address space.
pub struct PageTable {
    entries: HashMap<usize, PageTableEntry>,
}

impl View for PageTable {
    type V = Map<usize, PageTableEntry>;

    closed spec fn view(&self) -> Map<usize, PageTableEntry> {
        self.entries@
    }
}

/// What a page table gives for virtual page `vpn`.
pub open spec fn lookup(pt: Map<usize, PageTableEntry>, vpn: usize) -> Option<PageTableEntry> {
    if pt.contains_key(vpn) {
        Some(pt[vpn])
    } else {
        None
    }
}

impl PageTable {
    /// A page table that maps nothing.
    pub fn new() -> (r: Self)
        ensures
            r@ == Map::<usize, PageTableEntry>::empty(),
    {
        PageTable { entries: HashMap::new() }
    }

    /// Maps virtual page `vpn` by `pte`.
    pub fn map(&mut self, vpn: usize, pte: PageTableEntry)
        ensures
            final(self)@ == old(self)@.insert(vpn, pte),
    {
        self.entries.insert(vpn, pte);
    }

    /// Removes the entry of virtual page `vpn`.
    pub fn unmap(&mut self, vpn: usize)
        ensures
            final(self)@ == old(self)@.remove(vpn),
    {
        self.entries.remove(&vpn);
    }

    /// The entry of virtual page `vpn`, if any.
    pub fn translate(&self, vpn: usize) -> (r: Option<PageTableEntry>)
        ensures
            r == lookup(self@, vpn),
    {
        match self.entries.get(&vpn) {
            Some(pte) => Some(*pte),
            None => None,
        }
    }
}


/// Number of pages that the byte range `[ptr, ptr + len)` touches.
pub open spec fn page_count(ptr: int, len: int) -> int {
    if len <= 0 {
        0
    } else {
        (ptr + len - 1) / (PAGE_SIZE as int) - ptr / (PAGE_SIZE as int) + 1
    }
}

/// The `k`-th virtual page that the range starting at `ptr` touches.
pub open spec fn nth_page(ptr: int, k: int) -> usize {
    (ptr / (PAGE_SIZE as int) + k) as usize
}

/// Whether every page that `[ptr, ptr + len)` touches is mapped; a range
/// that reaches past the top of the Sv39 address space is not.
pub open spec fn range_mapped(pt: Map<usize, PageTableEntry>, ptr: int, len: int) -> bool {
    &&& walkable(ptr, len)
    &&& forall|k: int| 0 <= k < page_count(ptr, len) ==> #[trigger] pt.contains_key(nth_page(ptr, k))
}

/// The entries of the pages that `[ptr, ptr + len)` touches, in order; none
/// if one of them is not mapped.
pub open spec fn range_entries(
    pt: Map<usize, PageTableEntry>,
    ptr: int,
    len: int,
) -> Seq<PageTableEntry> {
    if range_mapped(pt, ptr, len) {
        Seq::new(page_count(ptr, len) as nat, |k: int| pt[nth_page(ptr, k)])
    } else {
        Seq::empty()
    }
}

/// Whether a byte range can be walked page by page: it stays below the top
/// of the Sv39 address space.
pub open spec fn walkable(ptr: int, len: int) -> bool {
    &&& addr_space_fits()
    &&& ptr + len < va_limit()
}

/// Whether `[ptr, ptr + len)` stays below the top of the Sv39 address
/// space (on a machine whose word holds its addresses).
pub(crate) fn in_va_range(ptr: usize, len: usize) -> (r: bool)
    ensures
        r == walkable(ptr as int, len as int),
{
    let limit: u64 = 0x80_0000_0000;
    if (usize::MAX as u64) < limit {
        return false;
    }
    (ptr as u64) < limit && (len as u64) < limit - (ptr as u64)
}

/// Collects the page table entries of the pages that `[ptr, ptr + len)`
/// touches; gives none as soon as one page is not mapped, and none for a
/// range past the top of the address space.
pub fn translate_entries(pt: &PageTable, ptr: usize, len: usize) -> (v: Vec<PageTableEntry>)
    ensures
        v@ == range_entries(pt@, ptr as int, len as int),
{
    let mut v: Vec<PageTableEntry> = Vec::new();
    if !in_va_range(ptr, len) {
        return v;
    }
    let mut start = ptr;
    let end = ptr + len;
    let ghost p0 = ptr as int / (PAGE_SIZE as int);
    let ghost n = page_count(ptr as int, len as int);
    while start < end
        invariant
            end == ptr + len,
            end < va_limit(),
            addr_space_fits(),
            p0 == ptr as int / (PAGE_SIZE as int),
            n == page_count(ptr as int, len as int),
            v@.len() <= n,
            v@.len() == 0 ==> start == ptr,
            v@.len() > 0 ==> start == if end < (p0 + v@.len()) * PAGE_SIZE {
                end as int
            } else {
                (p0 + v@.len()) * PAGE_SIZE
            },
            forall|j: int|
                0 <= j < v@.len() ==> #[trigger] lookup(pt@, nth_page(ptr as int, j)) == Some(
                    v@[j],
                ),
        decreases end - start,
    {
        let start_va = virt_addr(start);
        let vpn = start_va / PAGE_SIZE;
        let ghost k = v@.len() as int;
        assert(vpn == nth_page(ptr as int, k));
        match pt.translate(vpn) {
            None => {
                return Vec::new();
            },
            Some(pte) => {
                let ghost v0 = v@;
                v.push(pte);
                assert(forall|j: int| 0 <= j < k ==> v@[j] == v0[j]);
                let next = (vpn + 1) * PAGE_SIZE;
                let end_va = virt_addr(if end < next { end } else { next });
                start = end_va;
            },
        }
    }
    proof {
        assert(v@.len() == n);
        if range_mapped(pt@, ptr as int, len as int) {
            assert forall|j: int| 0 <= j < n implies #[trigger] v@[j] == pt@[nth_page(ptr as int, j)] by {
                assert(lookup(pt@, nth_page(ptr as int, j)) == Some(v@[j]));
            }
            assert(v@ =~= range_entries(pt@, ptr as int, len as int));
        } else {
            let k = choose|k: int| 0 <= k < n && !#[trigger] pt@.contains_key(nth_page(ptr as int, k));
            assert(lookup(pt@, nth_page(ptr as int, k)) == Some(v@[k]));
        }
    }
    v
}

/// The bytes `[start, end)` of physical page `ppn`.
#[derive(Clone, Copy, Debug, PartialEq, Eq, Structural)]
pub struct PhysSegment {
    pub ppn: usize,
    pub start: usize,
    pub end: usize,
}

/// The part of the `k`-th page touched by `[ptr, ptr + len)`, given the
/// physical page `ppn` it maps to.
pub open spec fn segment_of(ppn: usize, ptr: int, len: int, k: int) -> PhysSegment {
    let last = page_count(ptr, len) - 1;
    let tail = (ptr + len) % (PAGE_SIZE as int);
    PhysSegment {
        ppn,
        start: if k == 0 {
            (ptr % (PAGE_SIZE as int)) as usize
        } else {
            0
        },
        end: if k == last && tail != 0 {
            tail as usize
        } else {
            PAGE_SIZE
        },
    }
}

/// The physical pieces of `[ptr, ptr + len)`, page by page; none if one of
/// its pages is not mapped.
pub open spec fn range_segments(
    pt: Map<usize, PageTableEntry>,
    ptr: int,
    len: int,
) -> Seq<PhysSegment> {
    if range_mapped(pt, ptr, len) {
        Seq::new(
            page_count(ptr, len) as nat,
            |k: int| segment_of(pt[nth_page(ptr, k)].ppn, ptr, len, k),
        )
    } else {
        Seq::empty()
    }
}

/// Splits the user range `[ptr, ptr + len)` into its pieces in physical
/// memory, one per page, in order; gives none as soon as one page is not
/// mapped, and none for a range past the top of the address space.
pub fn translate_va_to_pa(pt: &PageTable, ptr: usize, len: usize) -> (v: Vec<PhysSegment>)
    ensures
        v@ == range_segments(pt@, ptr as int, len as int),
{
    let mut v: Vec<PhysSegment> = Vec::new();
    if !in_va_range(ptr, len) {
        return v;
    }
    let mut start = ptr;
    let end = ptr + len;
    let ghost p0 = ptr as int / (PAGE_SIZE as int);
    let ghost n = page_count(ptr as int, len as int);
    while start < end
        invariant
            end == ptr + len,
            end < va_limit(),
            addr_space_fits(),
            p0 == ptr as int / (PAGE_SIZE as int),
            n == page_count(ptr as int, len as int),
            v@.len() <= n,
            v@.len() == 0 ==> start == ptr,
            v@.len() > 0 ==> start == if end < (p0 + v@.len()) * PAGE_SIZE {
                end as int
            } else {
                (p0 + v@.len()) * PAGE_SIZE
            },
            forall|j: int|
                0 <= j < v@.len() ==> #[trigger] lookup(pt@, nth_page(ptr as int, j)) is Some
                    && v@[j] == segment_of(
                    lookup(pt@, nth_page(ptr as int, j))->0.ppn,
                    ptr as int,
                    len as int,
                    j,
                ),
        decreases end - start,
    {
        let start_va = virt_addr(start);
        let vpn = start_va / PAGE_SIZE;
        let ghost k = v@.len() as int;
        assert(vpn == nth_page(ptr as int, k));
        match pt.translate(vpn) {
            None => {
                return Vec::new();
            },
            Some(pte) => {
                let next = (vpn + 1) * PAGE_SIZE;
                let end_va = virt_addr(if end < next { end } else { next });
                let seg = if end_va % PAGE_SIZE == 0 {
                    PhysSegment { ppn: pte.ppn, start: start_va % PAGE_SIZE, end: PAGE_SIZE }
                } else {
                    PhysSegment {
                        ppn: pte.ppn,
                        start: start_va % PAGE_SIZE,
                        end: end_va % PAGE_SIZE,
                    }
                };
                let ghost v0 = v@;
                v.push(seg);
                assert(forall|j: int| 0 <= j < k ==> v@[j] == v0[j]);
                start = end_va;
            },
        }
    }
    proof {
        assert(v@.len() == n);
        if range_mapped(pt@, ptr as int, len as int) {
            assert forall|j: int| 0 <= j < n implies #[trigger] v@[j] == segment_of(
                pt@[nth_page(ptr as int, j)].ppn,
                ptr as int,
                len as int,
                j,
            ) by {
                assert(lookup(pt@, nth_page(ptr as int, j)) is Some);
            }
            assert(v@ =~= range_segments(pt@, ptr as int, len as int));
        } else {
            let k = choose|k: int| 0 <= k < n && !#[trigger] pt@.contains_key(nth_page(ptr as int, k));
            assert(lookup(pt@, nth_page(ptr as int, k)) is Some);
        }
    }
    v
}

/// Whether every page of `[ptr, ptr + len)` is mapped with all the flag
/// bits in `flags`; an empty range never qualifies.
pub open spec fn range_authorized(
    pt: Map<usize, PageTableEntry>,
    ptr: int,
    len: int,
    flags: u8,
) -> bool {
    let entries = range_entries(pt, ptr, len);
    &&& entries.len() > 0
    &&& forall|k: int| 0 <= k < entries.len() ==> (#[trigger] entries[k]).flags & flags == flags
}

/// Checks that every page of `[ptr, ptr + len)` is mapped with all the
/// flag bits in `auth_flags` (so a range past the top of the address space
/// fails).
pub fn auth_check(pt: &PageTable, ptr: usize, len: usize, auth_flags: u8) -> (ok: bool)
    ensures
        ok == range_authorized(pt@, ptr as int, len as int, auth_flags),
{
    let pte_list = translate_entries(pt, ptr, len);
    if pte_list.len() == 0 {
        return false;
    }
    let mut i: usize = 0;
    while i < pte_list.len()
        invariant
            i <= pte_list@.len(),
            pte_list@ == range_entries(pt@, ptr as int, len as int),
            forall|k: int| 0 <= k < i ==> (#[trigger] pte_list@[k]).flags & auth_flags == auth_flags,
        decreases pte_list@.len() - i,
    {
        if pte_list[i].flags & auth_flags != auth_flags {
            proof {
                let entries = range_entries(pt@, ptr as int, len as int);
                assert(entries[i as int] == pte_list@[i as int]);
            }
            return false;
        }
        i = i + 1;
    }
    true
}

/// Hands out the physical frames `[0, end)`.
pub struct FrameAllocator {
    ids: RecycleAllocator,
    end: usize,
}

impl FrameAllocator {
    /// Frames handed out and not given back.
    pub closed spec fn live_frames(&self) -> Set<usize> {
        live_ids(self.ids@)
    }

    /// How many frames can still be handed out.
    pub closed spec fn free_count(&self) -> nat {
        (self.ids@.1.len() + (self.end - self.ids@.0)) as nat
    }

    /// One past the last frame.
    pub closed spec fn frame_end(&self) -> usize {
        self.end
    }

    pub closed spec fn wf(&self) -> bool {
        &&& self.ids.wf()
        &&& self.ids@.0 <= self.end
    }

    /// Every live frame lies below the end of physical memory.
    pub proof fn lemma_live_below_end(&self, ppn: usize)
        requires
            self.wf(),
            self.live_frames().contains(ppn),
        ensures
            ppn < self.frame_end(),
    {
    }

    /// An allocator of the frames `[0, end)`, none of them handed out.
    pub fn new(end: usize) -> (r: Self)
        ensures
            r.wf(),
            r.live_frames() == Set::<usize>::empty(),
            r.free_count() == end,
            r.frame_end() == end,
    {
        let r = FrameAllocator { ids: RecycleAllocator::new(), end };
        assert(r.live_frames() =~= Set::<usize>::empty());
        r
    }

    /// How many frames can still be handed out.
    pub fn free_frames(&self) -> (n: usize)
        requires
            self.wf(),
        ensures
            n == self.free_count(),
    {
        proof {
            crate::recycle::lemma_recycled_len(self.ids@);
        }
        self.ids.recycled_len() + (self.end - self.ids.next_fresh())
    }

    /// Hands out a frame, if one is free.
    pub fn frame_alloc(&mut self) -> (r: Option<usize>)
        requires
            old(self).wf(),
        ensures
            final(self).wf(),
            final(self).frame_end() == old(self).frame_end(),
            match r {
                Some(ppn) => {
                    &&& old(self).free_count() > 0
                    &&& !old(self).live_frames().contains(ppn)
                    &&& ppn < old(self).frame_end()
                    &&& final(self).live_frames() == old(self).live_frames().insert(ppn)
                    &&& final(self).free_count() == old(self).free_count() - 1
                },
                None => {
                    &&& old(self).free_count() == 0
                    &&& *final(self) == *old(self)
                },
            },
    {
        if self.ids.recycled_len() == 0 && self.ids.next_fresh() == self.end {
            return None;
        }
        let ppn = self.ids.allocate();
        Some(ppn)
    }

    /// Takes back frame `ppn`.
    pub fn frame_dealloc(&mut self, ppn: usize)
        requires
            old(self).wf(),
            old(self).live_frames().contains(ppn),
        ensures
            final(self).wf(),
            final(self).frame_end() == old(self).frame_end(),
            final(self).live_frames() == old(self).live_frames().remove(ppn),
            final(self).free_count() == old(self).free_count() + 1,
    {
        self.ids.deallocate(ppn);
    }
}

/// Why a change of the address space was refused.
#[derive(Clone, Copy, Debug, PartialEq, Eq, Structural)]
pub enum MmapError {
    /// The length is not a multiple of the page size.
    UnalignedLength,
    /// The start address is not on a page boundary.
    UnalignedStart,
    /// A page of the range is mapped already.
    AlreadyMapped,
    /// A page of the range is not mapped.
    NotMapped,
    /// Not enough free physical frames.
    OutOfMemory,
}

/// The virtual pages `[s, e)`.
pub open spec fn vpn_range(s: usize, e: usize) -> Set<usize> {
    Set::new(|v: usize| s <= v < e)
}

/// Whether no page of `[s, e)` is mapped.
pub open spec fn range_free(pt: Map<usize, PageTableEntry>, s: usize, e: usize) -> bool {
    forall|v: usize| s <= v < e ==> !#[trigger] pt.contains_key(v)
}

/// Whether every page of `[s, e)` is mapped.
pub open spec fn range_all_mapped(pt: Map<usize, PageTableEntry>, s: usize, e: usize) -> bool {
    forall|v: usize| s <= v < e ==> #[trigger] pt.contains_key(v)
}

/// The frames that the pages `[s, e)` are mapped to.
pub open spec fn frames_of(pt: Map<usize, PageTableEntry>, s: usize, e: usize) -> Set<usize> {
    Set::new(|p: usize| exists|v: usize| s <= v < e && pt.contains_key(v) && #[trigger] pt[v].ppn == p)
}

/// Whether every mapped page has a live frame of its own.
pub open spec fn frames_consistent(pt: Map<usize, PageTableEntry>, live: Set<usize>) -> bool {
    &&& forall|v: usize| #[trigger] pt.contains_key(v) ==> live.contains(pt[v].ppn)
    &&& forall|v1: usize, v2: usize|
        #[trigger] pt.contains_key(v1) && #[trigger] pt.contains_key(v2) && v1 != v2 ==> pt[v1].ppn
            != pt[v2].ppn
}

/// Pages `[s, e)`, free in `pt0`, are mapped in `pt1` with flags
/// `perm | PTE_V`, each to a frame that was not live; the other entries
/// stay, and the new frames become live.
pub open spec fn mapped_fresh(
    pt0: Map<usize, PageTableEntry>,
    live0: Set<usize>,
    pt1: Map<usize, PageTableEntry>,
    live1: Set<usize>,
    s: usize,
    e: usize,
    perm: u8,
) -> bool {
    &&& pt1.dom() == pt0.dom().union(vpn_range(s, e))
    &&& forall|v: usize| #[trigger] pt0.contains_key(v) ==> pt1[v] == pt0[v]
    &&& forall|v: usize|
        s <= v < e ==> (#[trigger] pt1[v]).flags == perm | PTE_V && !live0.contains(pt1[v].ppn)
    &&& live1 == live0.union(frames_of(pt1, s, e))
}

/// Pages `[s, e)` of `pt0` are gone in `pt1` and their frames are no longer
/// live.
pub open spec fn unmapped(
    pt0: Map<usize, PageTableEntry>,
    live0: Set<usize>,
    pt1: Map<usize, PageTableEntry>,
    live1: Set<usize>,
    s: usize,
    e: usize,
) -> bool {
    &&& pt1 == pt0.remove_keys(vpn_range(s, e))
    &&& live1 == live0.difference(frames_of(pt0, s, e))
}

/// Unmapping a range that was just mapped restores the page table and the
/// set of live frames.
pub proof fn lemma_munmap_undoes_mmap(
    pt0: Map<usize, PageTableEntry>,
    live0: Set<usize>,
    pt1: Map<usize, PageTableEntry>,
    live1: Set<usize>,
    pt2: Map<usize, PageTableEntry>,
    live2: Set<usize>,
    s: usize,
    e: usize,
    perm: u8,
)
    requires
        range_free(pt0, s, e),
        mapped_fresh(pt0, live0, pt1, live1, s, e, perm),
        unmapped(pt1, live1, pt2, live2, s, e),
    ensures
        range_all_mapped(pt1, s, e),
        pt2 == pt0,
        live2 == live0,
{
    assert(pt2 =~= pt0) by {
        assert forall|v: usize| pt2.contains_key(v) implies pt2[v] == pt0[v] by {
            assert(pt0.contains_key(v));
        }
    }
    assert(live2 =~= live0) by {
        assert forall|p: usize| live0.contains(p) implies !frames_of(pt1, s, e).contains(p) by {
            if frames_of(pt1, s, e).contains(p) {
                let w = choose|w: usize| s <= w < e && pt1.contains_key(w) && #[trigger] pt1[w].ppn == p;
                assert(!live0.contains(pt1[w].ppn));
            }
        }
    }
}

/// A range that was just mapped is mapped in full.
pub proof fn lemma_mmap_maps_range(
    pt0: Map<usize, PageTableEntry>,
    live0: Set<usize>,
    pt1: Map<usize, PageTableEntry>,
    live1: Set<usize>,
    s: usize,
    e: usize,
    perm: u8,
)
    requires
        mapped_fresh(pt0, live0, pt1, live1, s, e, perm),
    ensures
        range_all_mapped(pt1, s, e),
        !range_free(pt1, s, e) || s >= e,
{
    if s < e {
        assert(pt1.contains_key(s));
    }
}

/// Outcome of mapping pages `[s, e)` with permission `perm`: refused when
/// one is mapped already or too few frames are free, else `mapped_fresh`.
pub open spec fn mmap_outcome(
    pt0: Map<usize, PageTableEntry>,
    live0: Set<usize>,
    free0: nat,
    pt1: Map<usize, PageTableEntry>,
    live1: Set<usize>,
    free1: nat,
    s: usize,
    e: usize,
    perm: u8,
    r: Result<(), MmapError>,
) -> bool {
    if !range_free(pt0, s, e) {
        &&& r == Err::<(), MmapError>(MmapError::AlreadyMapped)
        &&& pt1 == pt0 && live1 == live0 && free1 == free0
    } else if free0 < e - s {
        &&& r == Err::<(), MmapError>(MmapError::OutOfMemory)
        &&& pt1 == pt0 && live1 == live0 && free1 == free0
    } else {
        &&& r == Ok::<(), MmapError>(())
        &&& mapped_fresh(pt0, live0, pt1, live1, s, e, perm)
        &&& free1 == free0 - (e - s)
    }
}

/// Outcome of unmapping pages `[s, e)`: refused when one is not mapped,
/// else `unmapped`.
pub open spec fn munmap_outcome(
    pt0: Map<usize, PageTableEntry>,
    live0: Set<usize>,
    free0: nat,
    pt1: Map<usize, PageTableEntry>,
    live1: Set<usize>,
    free1: nat,
    s: usize,
    e: usize,
    r: Result<(), MmapError>,
) -> bool {
    if !range_all_mapped(pt0, s, e) {
        &&& r == Err::<(), MmapError>(MmapError::NotMapped)
        &&& pt1 == pt0 && live1 == live0 && free1 == free0
    } else {
        &&& r == Ok::<(), MmapError>(())
        &&& unmapped(pt0, live0, pt1, live1, s, e)
        &&& free1 == free0 + (e - s)
    }
}

/// First virtual page, and one past the last, of the user range of `len`
/// bytes at `start`, both read as virtual addresses.
pub open spec fn request_pages(start: usize, len: usize) -> (usize, usize) {
    (
        (va_of(start as int) / PAGE_SIZE as int) as usize,
        ((va_of(start as int) + va_of(len as int)) / PAGE_SIZE as int) as usize,
    )
}

/// Whether mapping `len` bytes at `start` succeeds: both lie on page
/// boundaries, no page of the range is mapped, and enough frames are free.
pub open spec fn map_request_ok(
    pt: Map<usize, PageTableEntry>,
    free: nat,
    start: usize,
    len: usize,
) -> bool {
    let (s, e) = request_pages(start, len);
    &&& page_aligned(va_of(len as int))
    &&& page_aligned(va_of(start as int))
    &&& range_free(pt, s, e)
    &&& free >= e - s
}

/// Whether unmapping `len` bytes at `start` succeeds: both lie on page
/// boundaries and every page of the range is mapped.
pub open spec fn unmap_request_ok(pt: Map<usize, PageTableEntry>, start: usize, len: usize) -> bool {
    let (s, e) = request_pages(start, len);
    &&& page_aligned(va_of(len as int))
    &&& page_aligned(va_of(start as int))
    &&& range_all_mapped(pt, s, e)
}

/// The user address space of a process.
pub struct MemorySet {
    token: usize,
    page_table: PageTable,
}

impl View for MemorySet {
    type V = Map<usize, PageTableEntry>;

    closed spec fn view(&self) -> Map<usize, PageTableEntry> {
        self.page_table@
    }
}

impl MemorySet {
    /// The value that identifies the page table to the hardware.
    pub closed spec fn spec_token(&self) -> usize {
        self.token
    }

    /// An address space, identified by `token`, with nothing mapped.
    pub fn new(token: usize) -> (r: Self)
        ensures
            r@ == Map::<usize, PageTableEntry>::empty(),
            r.spec_token() == token,
    {
        MemorySet { token, page_table: PageTable::new() }
    }

    /// The value that identifies the page table to the hardware.
    pub fn token(&self) -> (r: usize)
        ensures
            r == self.spec_token(),
    {
        self.token
    }

    /// The page table of this address space.
    pub fn page_table(&self) -> (r: &PageTable)
        ensures
            r@ == self@,
    {
        &self.page_table
    }

    /// Maps the pages `[start_vpn, end_vpn)` with permission bits `perm`,
    /// each to a fresh frame; refuses when one of them is mapped already or
    /// too few frames are free.
    pub fn mmap(
        &mut self,
        frames: &mut FrameAllocator,
        start_vpn: usize,
        end_vpn: usize,
        perm: u8,
    ) -> (r: Result<(), MmapError>)
        requires
            old(frames).wf(),
            frames_consistent(old(self)@, old(frames).live_frames()),
            start_vpn <= end_vpn,
        ensures
            final(frames).wf(),
            final(frames).frame_end() == old(frames).frame_end(),
            frames_consistent(final(self)@, final(frames).live_frames()),
            final(self).spec_token() == old(self).spec_token(),
            mmap_outcome(
                old(self)@,
                old(frames).live_frames(),
                old(frames).free_count(),
                final(self)@,
                final(frames).live_frames(),
                final(frames).free_count(),
                start_vpn,
                end_vpn,
                perm,
                r,
            ),
            !range_free(old(self)@, start_vpn, end_vpn) ==> {
                &&& r == Err::<(), MmapError>(MmapError::AlreadyMapped)
                &&& final(self)@ == old(self)@
                &&& *final(frames) == *old(frames)
            },
            range_free(old(self)@, start_vpn, end_vpn) && old(frames).free_count() < end_vpn
                - start_vpn ==> {
                &&& r == Err::<(), MmapError>(MmapError::OutOfMemory)
                &&& final(self)@ == old(self)@
                &&& *final(frames) == *old(frames)
            },
            range_free(old(self)@, start_vpn, end_vpn) && old(frames).free_count() >= end_vpn
                - start_vpn ==> {
                &&& r == Ok::<(), MmapError>(())
                &&& mapped_fresh(
                    old(self)@,
                    old(frames).live_frames(),
                    final(self)@,
                    final(frames).live_frames(),
                    start_vpn,
                    end_vpn,
                    perm,
                )
                &&& final(frames).free_count() == old(frames).free_count() - (end_vpn - start_vpn)
            },
    {
        let mut vpn = start_vpn;
        while vpn < end_vpn
            invariant
                start_vpn <= vpn <= end_vpn,
                frames.wf(),
                frames_consistent(self@, frames.live_frames()),
                self@ == old(self)@,
                *frames == *old(frames),
                self.spec_token() == old(self).spec_token(),
                forall|v: usize| start_vpn <= v < vpn ==> !#[trigger] self@.contains_key(v),
            decreases end_vpn - vpn,
        {
            if self.page_table.translate(vpn).is_some() {
                return Err(MmapError::AlreadyMapped);
            }
            vpn = vpn + 1;
        }
        if frames.free_frames() < end_vpn - start_vpn {
            return Err(MmapError::OutOfMemory);
        }
        let ghost pt0 = self@;
        let ghost live0 = frames.live_frames();
        let ghost free0 = frames.free_count();
        let mut vpn = start_vpn;
        while vpn < end_vpn
            invariant
                start_vpn <= vpn <= end_vpn,
                range_free(pt0, start_vpn, end_vpn),
                free0 >= end_vpn - start_vpn,
                frames.wf(),
                frames.frame_end() == old(frames).frame_end(),
                self.spec_token() == old(self).spec_token(),
                frames.free_count() == free0 - (vpn - start_vpn),
                frames_consistent(self@, frames.live_frames()),
                self@.dom() == pt0.dom().union(vpn_range(start_vpn, vpn)),
                forall|v: usize| #[trigger] pt0.contains_key(v) ==> self@[v] == pt0[v],
                forall|v: usize|
                    start_vpn <= v < vpn ==> (#[trigger] self@[v]).flags == perm | PTE_V
                        && !live0.contains(self@[v].ppn),
                frames.live_frames() == live0.union(frames_of(self@, start_vpn, vpn)),
            decreases end_vpn - vpn,
        {
            let ghost pt1 = self@;
            let ghost live1 = frames.live_frames();
            let ppn = match frames.frame_alloc() {
                Some(ppn) => ppn,
                None => {
                    return Err(MmapError::OutOfMemory);
                },
            };
            self.page_table.map(vpn, PageTableEntry { ppn, flags: perm | PTE_V });
            proof {
                assert(!pt1.contains_key(vpn));
                assert(self@.dom() =~= pt0.dom().union(vpn_range(start_vpn, (vpn + 1) as usize)));
                assert(frames.live_frames() =~= live0.union(
                    frames_of(self@, start_vpn, (vpn + 1) as usize),
                )) by {
                    assert forall|p: usize| frames.live_frames().contains(p) <==> live0.union(
                        frames_of(self@, start_vpn, (vpn + 1) as usize),
                    ).contains(p) by {
                        if frames_of(pt1, start_vpn, vpn).contains(p) {
                            let w = choose|w: usize|
                                start_vpn <= w < vpn && pt1.contains_key(w) && #[trigger] pt1[w].ppn
                                    == p;
                            assert(self@[w] == pt1[w]);
                        }
                        if frames_of(self@, start_vpn, (vpn + 1) as usize).contains(p) {
                            let w = choose|w: usize|
                                start_vpn <= w < vpn + 1 && self@.contains_key(w) && #[trigger] self@[w].ppn
                                    == p;
                            if w != vpn {
                                assert(self@[w] == pt1[w]);
                                assert(frames_of(pt1, start_vpn, vpn).contains(p));
                            }
                        }
                        if p == ppn {
                            assert(self@[vpn].ppn == p);
                        }
                    }
                }
            }
            vpn = vpn + 1;
        }
        Ok(())
    }

    /// Unmaps the pages `[start_vpn, end_vpn)` and gives their frames back;
    /// refuses when one of them is not mapped.
    pub fn munmap(&mut self, frames: &mut FrameAllocator, start_vpn: usize, end_vpn: usize) -> (r:
        Result<(), MmapError>)
        requires
            old(frames).wf(),
            frames_consistent(old(self)@, old(frames).live_frames()),
            start_vpn <= end_vpn,
        ensures
            final(frames).wf(),
            final(frames).frame_end() == old(frames).frame_end(),
            frames_consistent(final(self)@, final(frames).live_frames()),
            final(self).spec_token() == old(self).spec_token(),
            munmap_outcome(
                old(self)@,
                old(frames).live_frames(),
                old(frames).free_count(),
                final(self)@,
                final(frames).live_frames(),
                final(frames).free_count(),
                start_vpn,
                end_vpn,
                r,
            ),
            !range_all_mapped(old(self)@, start_vpn, end_vpn) ==> {
                &&& r == Err::<(), MmapError>(MmapError::NotMapped)
                &&& final(self)@ == old(self)@
                &&& *final(frames) == *old(frames)
            },
            range_all_mapped(old(self)@, start_vpn, end_vpn) ==> {
                &&& r == Ok::<(), MmapError>(())
                &&& unmapped(
                    old(self)@,
                    old(frames).live_frames(),
                    final(self)@,
                    final(frames).live_frames(),
                    start_vpn,
                    end_vpn,
                )
                &&& final(frames).free_count() == old(frames).free_count() + (end_vpn - start_vpn)
            },
    {
        let mut vpn = start_vpn;
        while vpn < end_vpn
            invariant
                start_vpn <= vpn <= end_vpn,
                frames.wf(),
                frames_consistent(self@, frames.live_frames()),
                self@ == old(self)@,
                *frames == *old(frames),
                self.spec_token() == old(self).spec_token(),
                forall|v: usize| start_vpn <= v < vpn ==> #[trigger] self@.contains_key(v),
            decreases end_vpn - vpn,
        {
            if self.page_table.translate(vpn).is_none() {
                return Err(MmapError::NotMapped);
            }
            vpn = vpn + 1;
        }
        let ghost pt0 = self@;
        let ghost live0 = frames.live_frames();
        let ghost free0 = frames.free_count();
        let mut vpn = start_vpn;
        while vpn < end_vpn
            invariant
                start_vpn <= vpn <= end_vpn,
                range_all_mapped(pt0, start_vpn, end_vpn),
                frames_consistent(pt0, live0),
                frames.wf(),
                frames.frame_end() == old(frames).frame_end(),
                self.spec_token() == old(self).spec_token(),
                frames.free_count() == free0 + (vpn - start_vpn),
                frames_consistent(self@, frames.live_frames()),
                self@ == pt0.remove_keys(vpn_range(start_vpn, vpn)),
                frames.live_frames() == live0.difference(frames_of(pt0, start_vpn, vpn)),
            decreases end_vpn - vpn,
        {
            let ghost pt1 = self@;
            let ghost live1 = frames.live_frames();
            let pte = match self.page_table.translate(vpn) {
                Some(pte) => pte,
                None => {
                    proof {
                        assert(pt0.contains_key(vpn));
                    }
                    return Err(MmapError::NotMapped);
                },
            };
            proof {
                assert(pt0.contains_key(vpn));
                assert(pt1.contains_key(vpn));
                assert(pte == pt0[vpn]);
            }
            self.page_table.unmap(vpn);
            frames.frame_dealloc(pte.ppn);
            proof {
                assert(self@ =~= pt0.remove_keys(vpn_range(start_vpn, (vpn + 1) as usize)));
                assert(frames.live_frames() =~= live0.difference(
                    frames_of(pt0, start_vpn, (vpn + 1) as usize),
                )) by {
                    assert forall|p: usize| frames.live_frames().contains(p) <==> live0.difference(
                        frames_of(pt0, start_vpn, (vpn + 1) as usize),
                    ).contains(p) by {
                        if frames_of(pt0, start_vpn, (vpn + 1) as usize).contains(p) {
                            let w = choose|w: usize|
                                start_vpn <= w < vpn + 1 && pt0.contains_key(w) && #[trigger] pt0[w].ppn
                                    == p;
                            if w != vpn {
                                assert(frames_of(pt0, start_vpn, vpn).contains(p));
                            }
                        }
                        if p == pte.ppn && live0.contains(p) {
                            assert(frames_of(pt0, start_vpn, (vpn + 1) as usize).contains(p));
                        }
                        if frames_of(pt0, start_vpn, vpn).contains(p) {
                            let w = choose|w: usize|
                                start_vpn <= w < vpn && pt0.contains_key(w) && #[trigger] pt0[w].ppn
                                    == p;
                            assert(frames_of(pt0, start_vpn, (vpn + 1) as usize).contains(p));
                        }
                    }
                }
                assert forall|v: usize| #[trigger] self@.contains_key(v) implies frames.live_frames().contains(
                    self@[v].ppn,
                ) by {
                    assert(pt1.contains_key(v) && v != vpn);
                    assert(pt1[v].ppn != pt1[vpn].ppn);
                }
            }
            vpn = vpn + 1;
        }
        proof {
            assert(frames_of(pt0, start_vpn, end_vpn) =~= frames_of(pt0, start_vpn, vpn));
        }
        Ok(())
    }
}

/// Maps the user range of `len` bytes at `start` with permission
/// `map_perm`; both must lie on page boundaries (read as virtual
/// addresses).
pub fn mmap(
    ms: &mut MemorySet,
    frames: &mut FrameAllocator,
    start: usize,
    len: usize,
    map_perm: u8,
) -> (r: Result<(), MmapError>)
    requires
        old(frames).wf(),
        frames_consistent(old(ms)@, old(frames).live_frames()),
        addr_space_fits(),
    ensures
        final(frames).wf(),
        final(frames).frame_end() == old(frames).frame_end(),
        frames_consistent(final(ms)@, final(frames).live_frames()),
        final(ms).spec_token() == old(ms).spec_token(),
        !page_aligned(va_of(len as int)) ==> {
            &&& r == Err::<(), MmapError>(MmapError::UnalignedLength)
            &&& final(ms)@ == old(ms)@
            &&& *final(frames) == *old(frames)
        },
        page_aligned(va_of(len as int)) && !page_aligned(va_of(start as int)) ==> {
            &&& r == Err::<(), MmapError>(MmapError::UnalignedStart)
            &&& final(ms)@ == old(ms)@
            &&& *final(frames) == *old(frames)
        },
        r is Err ==> final(ms)@ == old(ms)@ && *final(frames) == *old(frames),
        page_aligned(va_of(len as int)) && page_aligned(va_of(start as int)) ==> mmap_outcome(
            old(ms)@,
            old(frames).live_frames(),
            old(frames).free_count(),
            final(ms)@,
            final(frames).live_frames(),
            final(frames).free_count(),
            (va_of(start as int) / PAGE_SIZE as int) as usize,
            ((va_of(start as int) + va_of(len as int)) / PAGE_SIZE as int) as usize,
            map_perm,
            r,
        ),
{
    let len_va = virt_addr(len);
    if len_va % PAGE_SIZE != 0 {
        return Err(MmapError::UnalignedLength);
    }
    let start_va = virt_addr(start);
    if start_va % PAGE_SIZE != 0 {
        return Err(MmapError::UnalignedStart);
    }
    let end_va = start_va + len_va;
    ms.mmap(frames, start_va / PAGE_SIZE, end_va / PAGE_SIZE, map_perm)
}

/// Unmaps the user range of `len` bytes at `start`; both must lie on page
/// boundaries (read as virtual addresses).
pub fn unmap(ms: &mut MemorySet, frames: &mut FrameAllocator, start: usize, len: usize) -> (r:
    Result<(), MmapError>)
    requires
        old(frames).wf(),
        frames_consistent(old(ms)@, old(frames).live_frames()),
        addr_space_fits(),
    ensures
        final(frames).wf(),
        final(frames).frame_end() == old(frames).frame_end(),
        frames_consistent(final(ms)@, final(frames).live_frames()),
        final(ms).spec_token() == old(ms).spec_token(),
        !page_aligned(va_of(len as int)) ==> {
            &&& r == Err::<(), MmapError>(MmapError::UnalignedLength)
            &&& final(ms)@ == old(ms)@
            &&& *final(frames) == *old(frames)
        },
        page_aligned(va_of(len as int)) && !page_aligned(va_of(start as int)) ==> {
            &&& r == Err::<(), MmapError>(MmapError::UnalignedStart)
            &&& final(ms)@ == old(ms)@
            &&& *final(frames) == *old(frames)
        },
        r is Err ==> final(ms)@ == old(ms)@ && *final(frames) == *old(frames),
        page_aligned(va_of(len as int)) && page_aligned(va_of(start as int)) ==> munmap_outcome(
            old(ms)@,
            old(frames).live_frames(),
            old(frames).free_count(),
            final(ms)@,
            final(frames).live_frames(),
            final(frames).free_count(),
            (va_of(start as int) / PAGE_SIZE as int) as usize,
            ((va_of(start as int) + va_of(len as int)) / PAGE_SIZE as int) as usize,
            r,
        ),
{
    let len_va = virt_addr(len);
    if len_va % PAGE_SIZE != 0 {
        return Err(MmapError::UnalignedLength);
    }
    let start_va = virt_addr(start);
    if start_va % PAGE_SIZE != 0 {
        return Err(MmapError::UnalignedStart);
    }
    let end_va = start_va + len_va;
    ms.munmap(frames, start_va / PAGE_SIZE, end_va / PAGE_SIZE)
}

} // verus!
