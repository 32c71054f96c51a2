use rcore_os::mm::{
    auth_check, ceil, floor, mmap, translate_entries, translate_va_to_pa, unmap, virt_addr,
    FrameAllocator, MemorySet, MmapError, PageTable, PageTableEntry, PhysSegment, PTE_A, PTE_R,
    PTE_U, PTE_V, PTE_W,
};

fn pte(ppn: usize, flags: u8) -> PageTableEntry {
    PageTableEntry { ppn, flags }
}

#[test]
fn virtual_addresses_keep_39_bits() {
    assert_eq!(virt_addr(5), 5);
    assert_eq!(virt_addr((1usize << 39) + 7), 7);
}

#[test]
fn ceil_rounds_up_to_pages() {
    assert_eq!(ceil(0), 0);
    assert_eq!(ceil(1), 4096);
    assert_eq!(ceil(4096), 4096);
    assert_eq!(ceil(4097), 8192);
    assert_eq!(ceil((1usize << 39) + 1), 4096);
}

#[test]
fn floor_rounds_down_to_pages() {
    assert_eq!(floor(0), 0);
    assert_eq!(floor(4095), 0);
    assert_eq!(floor(4097), 4096);
    assert_eq!(floor((1usize << 39) + 5000), 4096);
}

fn two_page_table() -> PageTable {
    let mut pt = PageTable::new();
    pt.map(1, pte(5, PTE_V | PTE_R | PTE_U));
    pt.map(2, pte(7, PTE_V | PTE_R));
    pt
}

#[test]
fn page_table_maps_and_unmaps() {
    let mut pt = two_page_table();
    assert_eq!(pt.translate(1), Some(pte(5, PTE_V | PTE_R | PTE_U)));
    assert_eq!(pt.translate(3), None);
    pt.unmap(1);
    assert_eq!(pt.translate(1), None);
}

#[test]
fn entries_of_a_range() {
    let pt = two_page_table();
    let v = translate_entries(&pt, 4096 + 100, 4096);
    assert_eq!(v, vec![pte(5, PTE_V | PTE_R | PTE_U), pte(7, PTE_V | PTE_R)]);
    assert_eq!(translate_entries(&pt, 4096, 4096).len(), 1);
    assert!(translate_entries(&pt, 4096, 0).is_empty());
    assert!(translate_entries(&pt, 10, 10).is_empty());
    assert!(translate_entries(&pt, 3 * 4096 - 1, 2).is_empty());
}

#[test]
fn range_split_into_physical_pieces() {
    let pt = two_page_table();
    let v = translate_va_to_pa(&pt, 4096 + 4000, 200);
    assert_eq!(
        v,
        vec![
            PhysSegment { ppn: 5, start: 4000, end: 4096 },
            PhysSegment { ppn: 7, start: 0, end: 104 },
        ]
    );
    let w = translate_va_to_pa(&pt, 4096, 4096);
    assert_eq!(w, vec![PhysSegment { ppn: 5, start: 0, end: 4096 }]);
    let x = translate_va_to_pa(&pt, 4096 + 10, 20);
    assert_eq!(x, vec![PhysSegment { ppn: 5, start: 10, end: 30 }]);
    assert!(translate_va_to_pa(&pt, 0, 20).is_empty());
}

#[test]
fn authorization_needs_every_flag_on_every_page() {
    let pt = two_page_table();
    assert!(auth_check(&pt, 4096, 100, PTE_V | PTE_R | PTE_U));
    assert!(!auth_check(&pt, 4096, 5000, PTE_V | PTE_R | PTE_U));
    assert!(auth_check(&pt, 4096, 5000, PTE_V | PTE_R));
    assert!(!auth_check(&pt, 4096, 0, PTE_V));
    assert!(!auth_check(&pt, 0, 10, PTE_V));
}

#[test]
fn frame_allocator_hands_out_and_takes_back() {
    let mut f = FrameAllocator::new(2);
    assert_eq!(f.free_frames(), 2);
    assert_eq!(f.frame_alloc(), Some(0));
    assert_eq!(f.frame_alloc(), Some(1));
    assert_eq!(f.frame_alloc(), None);
    f.frame_dealloc(0);
    assert_eq!(f.free_frames(), 1);
    assert_eq!(f.frame_alloc(), Some(0));
}

#[test]
fn mmap_then_munmap() {
    let mut ms = MemorySet::new(42);
    let mut frames = FrameAllocator::new(16);
    assert_eq!(mmap(&mut ms, &mut frames, 0x1000, 0x2000, PTE_R | PTE_W | PTE_U), Ok(()));
    let e1 = ms.page_table().translate(1).unwrap();
    let e2 = ms.page_table().translate(2).unwrap();
    assert_eq!(e1.flags, PTE_R | PTE_W | PTE_U | PTE_V);
    assert_ne!(e1.ppn, e2.ppn);
    assert_eq!(ms.page_table().translate(3), None);
    assert_eq!(frames.free_frames(), 14);
    assert_eq!(
        mmap(&mut ms, &mut frames, 0x2000, 0x1000, PTE_R | PTE_U),
        Err(MmapError::AlreadyMapped)
    );
    assert_eq!(unmap(&mut ms, &mut frames, 0x1000, 0x2000), Ok(()));
    assert_eq!(ms.page_table().translate(1), None);
    assert_eq!(frames.free_frames(), 16);
    assert_eq!(unmap(&mut ms, &mut frames, 0x1000, 0x1000), Err(MmapError::NotMapped));
    assert_eq!(ms.token(), 42);
}

#[test]
fn mmap_refuses_unaligned_and_too_large() {
    let mut ms = MemorySet::new(0);
    let mut frames = FrameAllocator::new(1);
    assert_eq!(mmap(&mut ms, &mut frames, 0x1000, 100, PTE_R), Err(MmapError::UnalignedLength));
    assert_eq!(mmap(&mut ms, &mut frames, 0x1001, 0x1000, PTE_R), Err(MmapError::UnalignedStart));
    assert_eq!(mmap(&mut ms, &mut frames, 0x1000, 0x2000, PTE_R), Err(MmapError::OutOfMemory));
    assert_eq!(ms.page_table().translate(1), None);
    assert_eq!(unmap(&mut ms, &mut frames, 0x1000, 10), Err(MmapError::UnalignedLength));
    assert_eq!(unmap(&mut ms, &mut frames, 0x10, 0x1000), Err(MmapError::UnalignedStart));
}

#[test]
fn zero_length_mapping_succeeds() {
    let mut ms = MemorySet::new(0);
    let mut frames = FrameAllocator::new(1);
    assert_eq!(mmap(&mut ms, &mut frames, 0x1000, 0, PTE_R), Ok(()));
    assert_eq!(frames.free_frames(), 1);
    assert_eq!(ms.mmap(&mut frames, 3, 3, PTE_A), Ok(()));
}

#[test]
fn ranges_past_the_address_space_are_not_mapped() {
    let mut pt = PageTable::new();
    pt.map(1, pte(5, PTE_V | PTE_R | PTE_U));
    let top = 1usize << 39;
    assert!(!auth_check(&pt, top - 1, 1, PTE_V));
    assert!(!auth_check(&pt, top + 4096, 1, PTE_V));
    assert!(!auth_check(&pt, usize::MAX, 2, PTE_V));
    assert!(translate_va_to_pa(&pt, top + 4096, 10).is_empty());
    assert!(translate_entries(&pt, usize::MAX - 1, 5).is_empty());
}
