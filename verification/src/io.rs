//! Copying plain values between the kernel and user memory.
use vstd::prelude::*;
use vstd::slice::slice_subrange;
use vstd::bytes::{
    lemma_auto_spec_u64_to_from_le_bytes, spec_u64_from_le_bytes, spec_u64_to_le_bytes,
    u64_from_le_bytes, u64_to_le_bytes,
};

use crate::config::PAGE_SIZE;
use crate::mm::{
    auth_check, nth_page, page_count, range_authorized, range_mapped, range_segments,
    segment_of, translate_va_to_pa, walkable, PageTable, PageTableEntry, PhysSegment, PTE_A,
    PTE_R, PTE_U, PTE_V,
};

verus! {

/// Values that are copied to and from user memory byte for byte, in their
/// in-memory layout.
pub trait SerializeToBytes: Sized + Copy {
    /// Size of the value in bytes.
    spec fn spec_size() -> nat;

    /// The bytes of the value.
    spec fn spec_bytes(&self) -> Seq<u8>;

    /// The value that `bytes` hold.
    spec fn spec_from_bytes(bytes: Seq<u8>) -> Self;

    /// The bytes of the value.
    fn as_bytes(&self) -> (r: Vec<u8>)
        ensures
            r@ == self.spec_bytes(),
            r@.len() == Self::spec_size(),
    ;

    /// The value that `bytes` hold; none unless they have the right size.
    fn from_bytes(bytes: &[u8]) -> (r: Option<Self>)
        ensures
            bytes@.len() != Self::spec_size() ==> r is None,
            bytes@.len() == Self::spec_size() ==> r == Some(Self::spec_from_bytes(bytes@)),
    ;

    /// Reading back the bytes of a value gives the value.
    proof fn lemma_round_trip(&self)
        ensures
            Self::spec_from_bytes(self.spec_bytes()) == *self,
            self.spec_bytes().len() == Self::spec_size(),
    ;
}

impl SerializeToBytes for u8 {
    open spec fn spec_size() -> nat {
        1
    }

    open spec fn spec_bytes(&self) -> Seq<u8> {
        seq![*self]
    }

    open spec fn spec_from_bytes(bytes: Seq<u8>) -> u8 {
        bytes[0]
    }

    fn as_bytes(&self) -> (r: Vec<u8>) {
        let mut v: Vec<u8> = Vec::new();
        v.push(*self);
        proof {
            assert(v@ =~= seq![*self]);
        }
        v
    }

    fn from_bytes(bytes: &[u8]) -> (r: Option<u8>) {
        if bytes.len() != 1 {
            None
        } else {
            Some(bytes[0])
        }
    }

    proof fn lemma_round_trip(&self) {
    }
}

/// A point in time: seconds and microseconds.
#[derive(Clone, Copy, Debug, PartialEq, Eq, Structural)]
pub struct TimeVal {
    pub sec: usize,
    pub usec: usize,
}

impl SerializeToBytes for TimeVal {
    open spec fn spec_size() -> nat {
        16
    }

    open spec fn spec_bytes(&self) -> Seq<u8> {
        spec_u64_to_le_bytes(self.sec as u64) + spec_u64_to_le_bytes(self.usec as u64)
    }

    open spec fn spec_from_bytes(bytes: Seq<u8>) -> TimeVal {
        TimeVal {
            sec: spec_u64_from_le_bytes(bytes.subrange(0, 8)) as usize,
            usec: spec_u64_from_le_bytes(bytes.subrange(8, 16)) as usize,
        }
    }

    fn as_bytes(&self) -> (r: Vec<u8>) {
        proof {
            lemma_auto_spec_u64_to_from_le_bytes();
        }
        let mut v = u64_to_le_bytes(self.sec as u64);
        let mut w = u64_to_le_bytes(self.usec as u64);
        v.append(&mut w);
        v
    }

    fn from_bytes(bytes: &[u8]) -> (r: Option<TimeVal>) {
        if bytes.len() != 16 {
            return None;
        }
        let sec = u64_from_le_bytes(slice_subrange(bytes, 0, 8));
        let usec = u64_from_le_bytes(slice_subrange(bytes, 8, 16));
        Some(TimeVal { sec: sec as usize, usec: usec as usize })
    }

    proof fn lemma_round_trip(&self) {
        lemma_auto_spec_u64_to_from_le_bytes();
        let b = self.spec_bytes();
        assert(b.subrange(0, 8) =~= spec_u64_to_le_bytes(self.sec as u64));
        assert(b.subrange(8, 16) =~= spec_u64_to_le_bytes(self.usec as u64));
    }
}

/// Physical memory: frame `ppn` holds bytes `[ppn * PAGE_SIZE, (ppn + 1) *
/// PAGE_SIZE)`.
pub struct PhysMemory {
    frames: Vec<Vec<u8>>,
}

impl View for PhysMemory {
    type V = Seq<Seq<u8>>;

    closed spec fn view(&self) -> Seq<Seq<u8>> {
        self.frames@.map_values(|f: Vec<u8>| f@)
    }
}

/// Whether every frame of `mem` holds one page.
pub open spec fn memory_wf(mem: Seq<Seq<u8>>) -> bool {
    forall|p: int| 0 <= p < mem.len() ==> (#[trigger] mem[p]).len() == PAGE_SIZE
}

/// Whether a segment lies within one frame of `mem`.
pub open spec fn segment_valid(mem: Seq<Seq<u8>>, seg: PhysSegment) -> bool {
    &&& seg.ppn < mem.len()
    &&& seg.start <= seg.end <= PAGE_SIZE
}

/// Number of bytes of a segment.
pub open spec fn seg_len(seg: PhysSegment) -> int {
    seg.end - seg.start
}

/// Number of bytes of the first `k` segments.
pub open spec fn prefix_len(segs: Seq<PhysSegment>, k: int) -> int
    decreases k,
{
    if k <= 0 {
        0
    } else {
        prefix_len(segs, k - 1) + seg_len(segs[k - 1])
    }
}

/// The bytes the segments hold, one after the other.
pub open spec fn gather(mem: Seq<Seq<u8>>, segs: Seq<PhysSegment>) -> Seq<u8>
    decreases segs.len(),
{
    if segs.len() == 0 {
        Seq::empty()
    } else {
        let seg = segs.last();
        gather(mem, segs.drop_last()) + mem[seg.ppn as int].subrange(seg.start as int, seg.end as int)
    }
}

/// `frame` with the bytes from `at` on replaced by `data`.
pub open spec fn overwrite(frame: Seq<u8>, at: int, data: Seq<u8>) -> Seq<u8> {
    Seq::new(frame.len(), |i: int| if at <= i < at + data.len() { data[i - at] } else { frame[i] })
}

/// Memory after the first `k` segments received, in order, the next bytes
/// of `bytes` as far as they reach.
pub open spec fn write_segments(
    mem: Seq<Seq<u8>>,
    segs: Seq<PhysSegment>,
    bytes: Seq<u8>,
    k: int,
) -> Seq<Seq<u8>>
    decreases k,
{
    if k <= 0 {
        mem
    } else {
        let m = write_segments(mem, segs, bytes, k - 1);
        let seg = segs[k - 1];
        let off = vstd::math::min(bytes.len() as int, prefix_len(segs, k - 1));
        let n = vstd::math::min(seg_len(seg), bytes.len() - off);
        m.update(
            seg.ppn as int,
            overwrite(m[seg.ppn as int], seg.start as int, bytes.subrange(off, off + n)),
        )
    }
}

/// How many segments the copy of `total` bytes uses, looking from segment
/// `k` on: it stops after the first segment that completes the copy.
pub open spec fn segments_used(segs: Seq<PhysSegment>, total: int, k: int) -> int
    decreases segs.len() - k,
{
    if k >= segs.len() {
        segs.len() as int
    } else if prefix_len(segs, k + 1) >= total {
        k + 1
    } else {
        segments_used(segs, total, k + 1)
    }
}

proof fn lemma_segments_used_skip(segs: Seq<PhysSegment>, total: int, k: int)
    requires
        0 <= k <= segs.len(),
        forall|j: int| 1 <= j <= k ==> #[trigger] prefix_len(segs, j) < total,
    ensures
        segments_used(segs, total, 0) == segments_used(segs, total, k),
    decreases k,
{
    if k > 0 {
        lemma_segments_used_skip(segs, total, k - 1);
        assert(prefix_len(segs, k) < total);
    }
}

impl PhysMemory {
    /// `n` frames of zeros.
    pub fn new(n: usize) -> (r: Self)
        ensures
            memory_wf(r@),
            r@.len() == n,
            forall|p: int, i: int| 0 <= p < n && 0 <= i < PAGE_SIZE ==> #[trigger] r@[p][i] == 0,
    {
        let mut frames: Vec<Vec<u8>> = Vec::new();
        let mut p: usize = 0;
        while p < n
            invariant
                p <= n,
                frames@.len() == p,
                forall|q: int| 0 <= q < p ==> (#[trigger] frames@[q])@.len() == PAGE_SIZE,
                forall|q: int, i: int| 0 <= q < p && 0 <= i < PAGE_SIZE ==> #[trigger] frames@[q]@[i] == 0,
            decreases n - p,
        {
            let mut f: Vec<u8> = Vec::new();
            let mut i: usize = 0;
            while i < PAGE_SIZE
                invariant
                    i <= PAGE_SIZE,
                    f@.len() == i,
                    forall|j: int| 0 <= j < i ==> #[trigger] f@[j] == 0,
                decreases PAGE_SIZE - i,
            {
                f.push(0);
                i = i + 1;
            }
            frames.push(f);
            p = p + 1;
        }
        let r = PhysMemory { frames };
        proof {
            assert forall|q: int| 0 <= q < r@.len() implies (#[trigger] r@[q]).len() == PAGE_SIZE by {
                assert(r@[q] == r.frames@[q]@);
            }
            assert forall|q: int, i: int| 0 <= q < n && 0 <= i < PAGE_SIZE implies #[trigger] r@[q][i] == 0 by {
                assert(r@[q] == r.frames@[q]@);
            }
        }
        r
    }

    /// Number of frames.
    pub fn frame_count(&self) -> (n: usize)
        ensures
            n == self@.len(),
    {
        self.frames.len()
    }

    /// Byte `off` of frame `ppn`.
    pub fn read_byte(&self, ppn: usize, off: usize) -> (b: u8)
        requires
            memory_wf(self@),
            ppn < self@.len(),
            off < PAGE_SIZE,
        ensures
            b == self@[ppn as int][off as int],
    {
        proof {
            assert(self@[ppn as int] == self.frames@[ppn as int]@);
        }
        self.frames[ppn][off]
    }

    /// Sets byte `off` of frame `ppn` to `b`.
    pub fn write_byte(&mut self, ppn: usize, off: usize, b: u8)
        requires
            memory_wf(old(self)@),
            ppn < old(self)@.len(),
            off < PAGE_SIZE,
        ensures
            final(self)@ == old(self)@.update(
                ppn as int,
                old(self)@[ppn as int].update(off as int, b),
            ),
            memory_wf(final(self)@),
    {
        let ghost m0 = self@;
        proof {
            assert(m0[ppn as int] == self.frames@[ppn as int]@);
        }
        self.frames[ppn][off] = b;
        proof {
            assert(self@ =~= m0.update(ppn as int, m0[ppn as int].update(off as int, b)));
        }
    }
}

/// Whether every segment lies within one frame of `mem`.
pub open spec fn segments_valid(mem: Seq<Seq<u8>>, segs: Seq<PhysSegment>) -> bool {
    forall|k: int| 0 <= k < segs.len() ==> segment_valid(mem, #[trigger] segs[k])
}

proof fn lemma_prefix_len_mono(segs: Seq<PhysSegment>, i: int, j: int)
    requires
        0 <= i <= j <= segs.len(),
        forall|k: int| 0 <= k < segs.len() ==> (#[trigger] segs[k]).start <= segs[k].end,
    ensures
        0 <= prefix_len(segs, i) <= prefix_len(segs, j),
    decreases j,
{
    if i < j {
        lemma_prefix_len_mono(segs, i, j - 1);
        assert(segs[j - 1].start <= segs[j - 1].end);
    } else if i > 0 {
        lemma_prefix_len_mono(segs, i - 1, j - 1);
        assert(segs[j - 1].start <= segs[j - 1].end);
    }
}

/// Writes the bytes of `s` into the segments `pa_range` of physical memory,
/// in order, each taking as many as fit, and stops after the segment that
/// takes the last byte; returns the total size of the segments used.
pub fn serialize_struct<S: SerializeToBytes>(
    s: &S,
    pa_range: &Vec<PhysSegment>,
    mem: &mut PhysMemory,
) -> (size: usize)
    requires
        memory_wf(old(mem)@),
        segments_valid(old(mem)@, pa_range@),
        prefix_len(pa_range@, pa_range@.len() as int) <= usize::MAX,
    ensures
        memory_wf(final(mem)@),
        final(mem)@.len() == old(mem)@.len(),
        ({
            let bytes = s.spec_bytes();
            let used = segments_used(pa_range@, bytes.len() as int, 0);
            &&& final(mem)@ == write_segments(old(mem)@, pa_range@, bytes, used)
            &&& size == prefix_len(pa_range@, used)
        }),
{
    let bytes = s.as_bytes();
    write_bytes_to_segments(&bytes, pa_range, mem)
}

/// Writes `bytes` into the segments `pa_range` of physical memory, in
/// order, each taking as many as fit, and stops after the segment that
/// takes the last byte; returns the total size of the segments used.
fn write_bytes_to_segments(
    bytes: &Vec<u8>,
    pa_range: &Vec<PhysSegment>,
    mem: &mut PhysMemory,
) -> (size: usize)
    requires
        memory_wf(old(mem)@),
        segments_valid(old(mem)@, pa_range@),
        prefix_len(pa_range@, pa_range@.len() as int) <= usize::MAX,
    ensures
        memory_wf(final(mem)@),
        final(mem)@.len() == old(mem)@.len(),
        ({
            let used = segments_used(pa_range@, bytes@.len() as int, 0);
            &&& final(mem)@ == write_segments(old(mem)@, pa_range@, bytes@, used)
            &&& size == prefix_len(pa_range@, used)
        }),
{
    let ghost segs = pa_range@;
    let ghost total = bytes@.len() as int;
    let ghost mem0 = mem@;
    proof {
        assert forall|k: int| 0 <= k < segs.len() implies (#[trigger] segs[k]).start <= segs[k].end by {
            assert(segment_valid(mem0, segs[k]));
        }
    }
    let mut serialized_size: usize = 0;
    let mut bytes_written: usize = 0;
    let mut i: usize = 0;
    let mut done = false;
    while i < pa_range.len() && !done
        invariant
            segs == pa_range@,
            total == bytes@.len(),
            memory_wf(mem@),
            mem@.len() == mem0.len(),
            segments_valid(mem0, segs),
            forall|k: int| 0 <= k < segs.len() ==> (#[trigger] segs[k]).start <= segs[k].end,
            prefix_len(segs, segs.len() as int) <= usize::MAX,
            i <= segs.len(),
            serialized_size == prefix_len(segs, i as int),
            bytes_written == vstd::math::min(total, prefix_len(segs, i as int)),
            mem@ == write_segments(mem0, segs, bytes@, i as int),
            forall|j: int| 1 <= j <= i && (!done || j < i) ==> #[trigger] prefix_len(segs, j) < total,
            done ==> i >= 1 && prefix_len(segs, i as int) >= total,
        decreases segs.len() - i + if done {
            0int
        } else {
            1
        },
    {
        let seg = pa_range[i];
        proof {
            assert(segment_valid(mem0, seg));
            lemma_prefix_len_mono(segs, i as int + 1, segs.len() as int);
            lemma_prefix_len_mono(segs, i as int, i as int + 1);
        }
        let seg_len = seg.end - seg.start;
        serialized_size = serialized_size + seg_len;
        let remaining = bytes.len() - bytes_written;
        let len = if seg_len < remaining {
            seg_len
        } else {
            remaining
        };
        let ghost m1 = mem@;
        proof {
            assert(overwrite(m1[seg.ppn as int], seg.start as int, bytes@.subrange(
                bytes_written as int,
                bytes_written as int,
            )) =~= m1[seg.ppn as int]);
            assert(m1.update(seg.ppn as int, m1[seg.ppn as int]) =~= m1);
        }
        let mut j: usize = 0;
        while j < len
            invariant
                j <= len,
                len <= seg_len,
                seg_len == seg.end - seg.start,
                seg.start <= seg.end <= PAGE_SIZE,
                seg.ppn < m1.len(),
                bytes_written + len <= bytes.len(),
                memory_wf(m1),
                memory_wf(mem@),
                mem@ == m1.update(
                    seg.ppn as int,
                    overwrite(
                        m1[seg.ppn as int],
                        seg.start as int,
                        bytes@.subrange(bytes_written as int, bytes_written + j),
                    ),
                ),
            decreases len - j,
        {
            let ghost m2 = mem@;
            mem.write_byte(seg.ppn, seg.start + j, bytes[bytes_written + j]);
            proof {
                assert(overwrite(
                    m1[seg.ppn as int],
                    seg.start as int,
                    bytes@.subrange(bytes_written as int, bytes_written + j + 1),
                ) =~= overwrite(
                    m1[seg.ppn as int],
                    seg.start as int,
                    bytes@.subrange(bytes_written as int, bytes_written + j),
                ).update(seg.start + j, bytes@[bytes_written + j]));
                assert(mem@ =~= m1.update(
                    seg.ppn as int,
                    overwrite(
                        m1[seg.ppn as int],
                        seg.start as int,
                        bytes@.subrange(bytes_written as int, bytes_written + j + 1),
                    ),
                ));
            }
            j = j + 1;
        }
        bytes_written = bytes_written + len;
        if bytes_written >= bytes.len() {
            done = true;
        }
        i = i + 1;
    }
    proof {
        if done {
            lemma_segments_used_skip(segs, total, i as int - 1);
        } else {
            lemma_segments_used_skip(segs, total, i as int);
        }
    }
    serialized_size
}

/// Copies `bytes` to the user range at `ptr` through the page table,
/// whatever the permission bits of its pages: true when every page of the
/// range is mapped, false (with nothing written) otherwise.
pub fn copy_to_user(pt: &PageTable, mem: &mut PhysMemory, ptr: usize, bytes: &Vec<u8>) -> (ok: bool)
    requires
        memory_wf(old(mem)@),
        pt_in_memory(pt@, old(mem)@.len()),
    ensures
        memory_wf(final(mem)@),
        final(mem)@.len() == old(mem)@.len(),
        ok == range_mapped(pt@, ptr as int, bytes@.len() as int),
        ok ==> final(mem)@ == write_segments(
            old(mem)@,
            range_segments(pt@, ptr as int, bytes@.len() as int),
            bytes@,
            page_count(ptr as int, bytes@.len() as int),
        ),
        !ok ==> final(mem)@ == old(mem)@,
{
    let len = bytes.len();
    if !crate::mm::in_va_range(ptr, len) {
        return false;
    }
    let segs = translate_va_to_pa(pt, ptr, len);
    if len > 0 && segs.len() == 0 {
        proof {
            assert(page_count(ptr as int, len as int) > 0);
        }
        return false;
    }
    proof {
        if len == 0 {
            assert(range_mapped(pt@, ptr as int, 0));
        }
        lemma_range_segments_valid(pt@, mem@, ptr as int, len as int);
        lemma_segments_used_all(pt@, ptr as int, len as int);
        assert(segs@.len() == page_count(ptr as int, len as int));
    }
    let _ = write_bytes_to_segments(bytes, &segs, mem);
    true
}

/// Whether every page table entry points into `mem`.
pub open spec fn pt_in_memory(pt: Map<usize, PageTableEntry>, frames: nat) -> bool {
    forall|v: usize| #[trigger] pt.contains_key(v) ==> pt[v].ppn < frames
}

/// The pieces of a user range cover exactly its bytes: the first `k` hold
/// the bytes up to the `k`-th page boundary after `ptr`, or to the end.
pub proof fn lemma_range_segments_cover(
    pt: Map<usize, PageTableEntry>,
    ptr: int,
    len: int,
    k: int,
)
    requires
        0 <= ptr,
        0 <= len,
        range_mapped(pt, ptr, len),
        0 <= k <= page_count(ptr, len),
    ensures
        prefix_len(range_segments(pt, ptr, len), k) == if k == 0 {
            0
        } else {
            vstd::math::min(ptr + len, (ptr / PAGE_SIZE as int + k) * PAGE_SIZE) - ptr
        },
    decreases k,
{
    let segs = range_segments(pt, ptr, len);
    let n = page_count(ptr, len);
    let p0 = ptr / PAGE_SIZE as int;
    if k > 0 {
        lemma_range_segments_cover(pt, ptr, len, k - 1);
        let seg = segs[k - 1];
        assert(seg == segment_of(pt[nth_page(ptr, k - 1)].ppn, ptr, len, k - 1));
        let tail = (ptr + len) % PAGE_SIZE as int;
        assert(n == (ptr + len - 1) / PAGE_SIZE as int - p0 + 1);
        if k - 1 == n - 1 {
            assert((ptr + len) <= (p0 + k) * PAGE_SIZE);
            if tail != 0 {
                assert(ptr + len == (p0 + k - 1) * PAGE_SIZE + tail);
            } else {
                assert(ptr + len == (p0 + k) * PAGE_SIZE);
            }
        } else {
            assert((p0 + k) * PAGE_SIZE < ptr + len);
        }
        if k - 1 == 0 {
            assert(ptr == p0 * PAGE_SIZE + ptr % PAGE_SIZE as int);
        }
    }
}

/// The pieces of a mapped user range lie within the frames of memory, and
/// together hold `len` bytes.
pub proof fn lemma_range_segments_valid(
    pt: Map<usize, PageTableEntry>,
    mem: Seq<Seq<u8>>,
    ptr: int,
    len: int,
)
    requires
        0 <= ptr,
        0 <= len,
        pt_in_memory(pt, mem.len()),
        range_mapped(pt, ptr, len),
    ensures
        segments_valid(mem, range_segments(pt, ptr, len)),
        prefix_len(range_segments(pt, ptr, len), page_count(ptr, len)) == len,
{
    let segs = range_segments(pt, ptr, len);
    let n = page_count(ptr, len);
    let p0 = ptr / PAGE_SIZE as int;
    assert forall|k: int| 0 <= k < segs.len() implies segment_valid(mem, #[trigger] segs[k]) by {
        assert(pt.contains_key(nth_page(ptr, k)));
        let tail = (ptr + len) % PAGE_SIZE as int;
        if k == 0 && k == n - 1 && tail != 0 {
            assert(ptr + len == (ptr + len - 1) / PAGE_SIZE as int * PAGE_SIZE + tail);
            assert(ptr == p0 * PAGE_SIZE + ptr % PAGE_SIZE as int);
        }
    }
    lemma_range_segments_cover(pt, ptr, len, n);
    if n > 0 {
        assert(ptr + len <= (p0 + n) * PAGE_SIZE);
    }
}

/// Why user memory could not be read or written.
#[derive(Clone, Copy, Debug, PartialEq, Eq, Structural)]
pub enum AccessError {
    /// A page of the range is not mapped with the needed permission bits.
    Unauthorized,
    /// The bytes do not have the size of the value.
    Malformed,
}

/// Flag bits a page needs so that the kernel reads from it on behalf of
/// the user: valid, readable, user.
pub open spec fn read_flags() -> u8 {
    PTE_V | PTE_R | PTE_U
}

/// Flag bits a page needs so that the kernel writes to it on behalf of the
/// user: valid, accessed, readable.
pub open spec fn write_flags() -> u8 {
    PTE_V | PTE_A | PTE_R
}

/// The bytes that the segments hold, one after the other.
fn gather_segments(mem: &PhysMemory, segs: &Vec<PhysSegment>) -> (data: Vec<u8>)
    requires
        memory_wf(mem@),
        segments_valid(mem@, segs@),
    ensures
        data@ == gather(mem@, segs@),
{
    let mut data: Vec<u8> = Vec::new();
    let mut i: usize = 0;
    while i < segs.len()
        invariant
            memory_wf(mem@),
            segments_valid(mem@, segs@),
            i <= segs@.len(),
            data@ == gather(mem@, segs@.take(i as int)),
        decreases segs@.len() - i,
    {
        let seg = segs[i];
        proof {
            assert(segment_valid(mem@, seg));
        }
        let ghost d0 = data@;
        let mut off = seg.start;
        while off < seg.end
            invariant
                memory_wf(mem@),
                seg.ppn < mem@.len(),
                seg.start <= off <= seg.end <= PAGE_SIZE,
                data@ == d0 + mem@[seg.ppn as int].subrange(seg.start as int, off as int),
            decreases seg.end - off,
        {
            let b = mem.read_byte(seg.ppn, off);
            data.push(b);
            proof {
                assert(mem@[seg.ppn as int].subrange(seg.start as int, off + 1) =~= mem@[seg.ppn as int].subrange(seg.start as int, off as int).push(b));
                assert(data@ =~= d0 + mem@[seg.ppn as int].subrange(seg.start as int, off + 1));
            }
            off = off + 1;
        }
        proof {
            assert(segs@.take(i + 1).drop_last() =~= segs@.take(i as int));
        }
        i = i + 1;
    }
    proof {
        assert(segs@.take(segs@.len() as int) =~= segs@);
    }
    data
}

/// Reads a value of type `S` from the `len` user bytes at `ptr`; every page
/// must be valid, readable and accessible from user mode.
pub fn read<S: SerializeToBytes>(pt: &PageTable, mem: &PhysMemory, ptr: usize, len: usize) -> (r:
    Result<S, AccessError>)
    requires
        memory_wf(mem@),
        pt_in_memory(pt@, mem@.len()),
    ensures
        !range_authorized(pt@, ptr as int, len as int, read_flags()) ==> r == Err::<
            S,
            AccessError,
        >(AccessError::Unauthorized),
        range_authorized(pt@, ptr as int, len as int, read_flags()) ==> {
            let data = gather(mem@, range_segments(pt@, ptr as int, len as int));
            &&& data.len() == len
            &&& data.len() != S::spec_size() ==> r == Err::<S, AccessError>(AccessError::Malformed)
            &&& data.len() == S::spec_size() ==> r == Ok::<S, AccessError>(S::spec_from_bytes(data))
        },
{
    let flags = PTE_V | PTE_R | PTE_U;
    let auth = auth_check(pt, ptr, len, flags);
    if !auth {
        return Err(AccessError::Unauthorized);
    }
    let pa_range = translate_va_to_pa(pt, ptr, len);
    proof {
        lemma_range_segments_valid(pt@, mem@, ptr as int, len as int);
        lemma_gather_len(mem@, pa_range@, pa_range@.len() as int);
        assert(pa_range@.take(pa_range@.len() as int) =~= pa_range@);
    }
    let data = gather_segments(mem, &pa_range);
    match S::from_bytes(data.as_slice()) {
        Some(v) => Ok(v),
        None => Err(AccessError::Malformed),
    }
}

/// The gathered bytes of the first `k` segments number their total length.
proof fn lemma_gather_len(mem: Seq<Seq<u8>>, segs: Seq<PhysSegment>, k: int)
    requires
        segments_valid(mem, segs),
        memory_wf(mem),
        0 <= k <= segs.len(),
    ensures
        gather(mem, segs.take(k)).len() == prefix_len(segs, k),
    decreases k,
{
    if k > 0 {
        lemma_gather_len(mem, segs, k - 1);
        assert(segs.take(k).drop_last() =~= segs.take(k - 1));
        assert(segment_valid(mem, segs[k - 1]));
    }
}

/// Writes the bytes of `s` to the `len` user bytes at `ptr`, piece by piece
/// (see `serialize_struct`); every page must be valid, accessed and
/// readable. Returns the size of the pieces used.
pub fn write<S: SerializeToBytes>(
    s: &S,
    pt: &PageTable,
    mem: &mut PhysMemory,
    ptr: usize,
    len: usize,
) -> (r: Result<usize, AccessError>)
    requires
        memory_wf(old(mem)@),
        pt_in_memory(pt@, old(mem)@.len()),
    ensures
        memory_wf(final(mem)@),
        final(mem)@.len() == old(mem)@.len(),
        !range_authorized(pt@, ptr as int, len as int, write_flags()) ==> {
            &&& r == Err::<usize, AccessError>(AccessError::Unauthorized)
            &&& final(mem)@ == old(mem)@
        },
        range_authorized(pt@, ptr as int, len as int, write_flags()) ==> {
            let segs = range_segments(pt@, ptr as int, len as int);
            let used = segments_used(segs, S::spec_size() as int, 0);
            &&& final(mem)@ == write_segments(old(mem)@, segs, s.spec_bytes(), used)
            &&& r == Ok::<usize, AccessError>(prefix_len(segs, used) as usize)
        },
{
    let flags = PTE_V | PTE_A | PTE_R;
    let auth = auth_check(pt, ptr, len, flags);
    if !auth {
        return Err(AccessError::Unauthorized);
    }
    let pa_range = translate_va_to_pa(pt, ptr, len);
    proof {
        lemma_range_segments_valid(pt@, mem@, ptr as int, len as int);
        s.lemma_round_trip();
    }
    let serialized_size = serialize_struct(s, &pa_range, mem);
    Ok(serialized_size)
}

/// Whether the pages of `[ptr, ptr + len)` map to pairwise distinct frames.
pub open spec fn frames_distinct(pt: Map<usize, PageTableEntry>, ptr: int, len: int) -> bool {
    forall|k1: int, k2: int|
        0 <= k1 < page_count(ptr, len) && 0 <= k2 < page_count(ptr, len) && k1 != k2 ==> #[trigger] pt[nth_page(
            ptr,
            k1,
        )].ppn != #[trigger] pt[nth_page(ptr, k2)].ppn
}

/// Whether the pieces of `[ptr, ptr + len)` in physical memory do not
/// overlap: two pages that share a frame use disjoint parts of it.
pub open spec fn pieces_disjoint(pt: Map<usize, PageTableEntry>, ptr: int, len: int) -> bool {
    forall|k1: int, k2: int|
        0 <= k1 < page_count(ptr, len) && 0 <= k2 < page_count(ptr, len) && k1 != k2 ==> {
            let s1 = #[trigger] segment_of(pt[nth_page(ptr, k1)].ppn, ptr, len, k1);
            let s2 = #[trigger] segment_of(pt[nth_page(ptr, k2)].ppn, ptr, len, k2);
            s1.ppn != s2.ppn || s1.end <= s2.start || s2.end <= s1.start
        }
}

/// The pieces of a range do not overlap when its pages are on distinct
/// frames, or when the range is no longer than a page.
proof fn lemma_pieces_disjoint(pt: Map<usize, PageTableEntry>, ptr: int, len: int)
    requires
        0 <= ptr,
        0 <= len,
        frames_distinct(pt, ptr, len) || len <= PAGE_SIZE,
    ensures
        pieces_disjoint(pt, ptr, len),
{
    let n = page_count(ptr, len);
    let p = PAGE_SIZE as int;
    assert forall|k1: int, k2: int|
        0 <= k1 < n && 0 <= k2 < n && k1 != k2 implies {
            let s1 = #[trigger] segment_of(pt[nth_page(ptr, k1)].ppn, ptr, len, k1);
            let s2 = #[trigger] segment_of(pt[nth_page(ptr, k2)].ppn, ptr, len, k2);
            s1.ppn != s2.ppn || s1.end <= s2.start || s2.end <= s1.start
        } by {
        if !frames_distinct(pt, ptr, len) {
            let p0 = ptr / p;
            assert((ptr + len - 1) / p <= p0 + 1) by (nonlinear_arith)
                requires
                    p == 4096,
                    0 <= ptr,
                    1 <= len <= p,
                    p0 == ptr / p,
            ;
            assert(n == 2);
            assert(ptr % p > 0 && (ptr + len) % p <= ptr % p && (ptr + len) % p != 0) by (nonlinear_arith)
                requires
                    p == 4096,
                    0 <= ptr,
                    1 <= len <= p,
                    p0 == ptr / p,
                    (ptr + len - 1) / p == p0 + 1,
            ;
        }
    }
}

/// The bytes of segment `seg` in `mem`.
pub open spec fn region(mem: Seq<Seq<u8>>, seg: PhysSegment) -> Seq<u8> {
    mem[seg.ppn as int].subrange(seg.start as int, seg.end as int)
}

/// A copy that fits exactly uses every piece of the range.
proof fn lemma_segments_used_all(pt: Map<usize, PageTableEntry>, ptr: int, len: int)
    requires
        0 <= ptr,
        0 <= len,
        range_mapped(pt, ptr, len),
    ensures
        segments_used(range_segments(pt, ptr, len), len, 0) == page_count(ptr, len),
{
    let segs = range_segments(pt, ptr, len);
    let n = page_count(ptr, len);
    if n > 0 {
        assert forall|j: int| 1 <= j <= n - 1 implies #[trigger] prefix_len(segs, j) < len by {
            lemma_range_segments_cover(pt, ptr, len, j);
            assert((ptr / PAGE_SIZE as int + j) * PAGE_SIZE <= ptr + len - 1);
        }
        lemma_segments_used_skip(segs, len, n - 1);
        lemma_range_segments_cover(pt, ptr, len, n);
        assert(ptr + len <= (ptr / PAGE_SIZE as int + n) * PAGE_SIZE);
    } else {
        assert(segs.len() == 0);
    }
}

/// After the first `m` pieces of the range received their share of `bytes`,
/// each of them holds its share.
proof fn lemma_written_regions(
    pt: Map<usize, PageTableEntry>,
    mem: Seq<Seq<u8>>,
    ptr: int,
    len: int,
    bytes: Seq<u8>,
    m: int,
)
    requires
        0 <= ptr,
        0 <= len,
        memory_wf(mem),
        pt_in_memory(pt, mem.len()),
        range_mapped(pt, ptr, len),
        pieces_disjoint(pt, ptr, len),
        bytes.len() == len,
        0 <= m <= page_count(ptr, len),
    ensures
        ({
            let segs = range_segments(pt, ptr, len);
            let w = write_segments(mem, segs, bytes, m);
            &&& memory_wf(w)
            &&& w.len() == mem.len()
            &&& forall|k: int|
                0 <= k < m ==> #[trigger] region(w, segs[k]) == bytes.subrange(
                    prefix_len(segs, k),
                    prefix_len(segs, k + 1),
                )
        }),
    decreases m,
{
    let segs = range_segments(pt, ptr, len);
    let n = page_count(ptr, len);
    lemma_range_segments_valid(pt, mem, ptr, len);
    if m > 0 {
        lemma_written_regions(pt, mem, ptr, len, bytes, m - 1);
        let w0 = write_segments(mem, segs, bytes, m - 1);
        let w = write_segments(mem, segs, bytes, m);
        let seg = segs[m - 1];
        assert(segment_valid(mem, seg));
        lemma_prefix_len_mono(segs, m - 1, m);
        lemma_prefix_len_mono(segs, m, n);
        let off = prefix_len(segs, m - 1);
        assert(w == w0.update(
            seg.ppn as int,
            overwrite(w0[seg.ppn as int], seg.start as int, bytes.subrange(off, off + seg_len(seg))),
        ));
        assert(memory_wf(w)) by {
            assert forall|q: int| 0 <= q < w.len() implies (#[trigger] w[q]).len() == PAGE_SIZE by {
                if q != seg.ppn {
                    assert(w[q] == w0[q]);
                }
            }
        }
        assert forall|k: int| 0 <= k < m implies #[trigger] region(w, segs[k]) == bytes.subrange(
            prefix_len(segs, k),
            prefix_len(segs, k + 1),
        ) by {
            if k == m - 1 {
                assert(prefix_len(segs, m) == off + seg_len(seg));
                assert(w[seg.ppn as int] == overwrite(
                    w0[seg.ppn as int],
                    seg.start as int,
                    bytes.subrange(off, off + seg_len(seg)),
                ));
                assert(w0[seg.ppn as int].len() == PAGE_SIZE);
                assert(region(w, seg) =~= bytes.subrange(off, off + seg_len(seg)));
            } else {
                let sk = segs[k];
                assert(sk == segment_of(pt[nth_page(ptr, k)].ppn, ptr, len, k));
                assert(seg == segment_of(pt[nth_page(ptr, m - 1)].ppn, ptr, len, m - 1));
                assert(segment_valid(mem, sk));
                if sk.ppn != seg.ppn {
                    assert(w[sk.ppn as int] == w0[sk.ppn as int]);
                } else {
                    assert(w0[seg.ppn as int].len() == PAGE_SIZE);
                    assert(region(w, sk) =~= region(w0, sk));
                }
                assert(region(w, sk) == region(w0, sk));
            }
        }
    }
}

proof fn lemma_gather_written(
    pt: Map<usize, PageTableEntry>,
    mem: Seq<Seq<u8>>,
    ptr: int,
    len: int,
    bytes: Seq<u8>,
    w: Seq<Seq<u8>>,
    m: int,
)
    requires
        0 <= ptr,
        0 <= len,
        memory_wf(mem),
        pt_in_memory(pt, mem.len()),
        range_mapped(pt, ptr, len),
        0 <= m <= page_count(ptr, len),
        forall|k: int|
            0 <= k < page_count(ptr, len) ==> #[trigger] region(w, range_segments(pt, ptr, len)[k])
                == bytes.subrange(
                prefix_len(range_segments(pt, ptr, len), k),
                prefix_len(range_segments(pt, ptr, len), k + 1),
            ),
        prefix_len(range_segments(pt, ptr, len), page_count(ptr, len)) <= bytes.len(),
    ensures
        gather(w, range_segments(pt, ptr, len).take(m)) == bytes.subrange(
            0,
            prefix_len(range_segments(pt, ptr, len), m),
        ),
    decreases m,
{
    let segs = range_segments(pt, ptr, len);
    let n = page_count(ptr, len);
    lemma_range_segments_valid(pt, mem, ptr, len);
    if m == 0 {
        assert(bytes.subrange(0, 0) =~= Seq::<u8>::empty());
    } else {
        lemma_gather_written(pt, mem, ptr, len, bytes, w, m - 1);
        lemma_prefix_len_mono(segs, m - 1, m);
        lemma_prefix_len_mono(segs, m, n);
        lemma_prefix_len_mono(segs, 0, m - 1);
        assert(segs.take(m).drop_last() =~= segs.take(m - 1));
        assert(segs.take(m).last() == segs[m - 1]);
        assert(region(w, segs[m - 1]) == bytes.subrange(prefix_len(segs, m - 1), prefix_len(segs, m)));
        assert(bytes.subrange(0, prefix_len(segs, m)) =~= bytes.subrange(0, prefix_len(segs, m - 1))
            + bytes.subrange(prefix_len(segs, m - 1), prefix_len(segs, m)));
    }
}

/// Reading a user range right after writing `bytes` to it, with the pages
/// of the range on distinct frames or the range no longer than a page,
/// gives `bytes` back.
pub proof fn lemma_read_after_write(
    pt: Map<usize, PageTableEntry>,
    mem: Seq<Seq<u8>>,
    ptr: int,
    len: int,
    bytes: Seq<u8>,
)
    requires
        0 <= ptr,
        0 <= len,
        memory_wf(mem),
        pt_in_memory(pt, mem.len()),
        range_mapped(pt, ptr, len),
        frames_distinct(pt, ptr, len) || len <= PAGE_SIZE,
        bytes.len() == len,
    ensures
        ({
            let segs = range_segments(pt, ptr, len);
            gather(write_segments(mem, segs, bytes, segments_used(segs, len, 0)), segs) == bytes
        }),
{
    let segs = range_segments(pt, ptr, len);
    let n = page_count(ptr, len);
    lemma_segments_used_all(pt, ptr, len);
    lemma_pieces_disjoint(pt, ptr, len);
    lemma_written_regions(pt, mem, ptr, len, bytes, n);
    lemma_range_segments_valid(pt, mem, ptr, len);
    let w = write_segments(mem, segs, bytes, n);
    lemma_gather_written(pt, mem, ptr, len, bytes, w, n);
    assert(segs.take(n) =~= segs);
    assert(bytes.subrange(0, len) =~= bytes);
}

/// A value written to a user range, with the pages of the range on
/// distinct frames or the value no longer than a page, reads back as the
/// same value.
pub proof fn lemma_value_read_after_write<S: SerializeToBytes>(
    s: S,
    pt: Map<usize, PageTableEntry>,
    mem: Seq<Seq<u8>>,
    ptr: int,
)
    requires
        0 <= ptr,
        memory_wf(mem),
        pt_in_memory(pt, mem.len()),
        range_mapped(pt, ptr, S::spec_size() as int),
        frames_distinct(pt, ptr, S::spec_size() as int) || S::spec_size() <= PAGE_SIZE,
    ensures
        ({
            let len = S::spec_size() as int;
            let segs = range_segments(pt, ptr, len);
            let w = write_segments(mem, segs, s.spec_bytes(), segments_used(segs, len, 0));
            S::spec_from_bytes(gather(w, segs)) == s
        }),
{
    s.lemma_round_trip();
    lemma_read_after_write(pt, mem, ptr, S::spec_size() as int, s.spec_bytes());
}

} // verus!
