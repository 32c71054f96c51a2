use rcore_os::io::{read, serialize_struct, AccessError, PhysMemory, SerializeToBytes, TimeVal};
use rcore_os::mm::{PageTable, PageTableEntry, PhysSegment, PTE_A, PTE_R, PTE_U, PTE_V};

const ALL: u8 = PTE_V | PTE_R | PTE_U | PTE_A;

fn setup() -> (PageTable, PhysMemory) {
    let mut pt = PageTable::new();
    pt.map(1, PageTableEntry { ppn: 2, flags: ALL });
    pt.map(2, PageTableEntry { ppn: 3, flags: ALL });
    pt.map(3, PageTableEntry { ppn: 0, flags: PTE_V | PTE_R });
    (pt, PhysMemory::new(4))
}

#[test]
fn time_val_bytes_are_little_endian() {
    let tv = TimeVal { sec: 0x0102, usec: 7 };
    let b = tv.as_bytes();
    assert_eq!(b.len(), 16);
    assert_eq!(&b[0..8], &[2, 1, 0, 0, 0, 0, 0, 0]);
    assert_eq!(&b[8..16], &[7, 0, 0, 0, 0, 0, 0, 0]);
    assert_eq!(TimeVal::from_bytes(&b), Some(tv));
    assert_eq!(TimeVal::from_bytes(&b[0..15]), None);
}

#[test]
fn u8_round_trip() {
    assert_eq!(5u8.as_bytes(), vec![5]);
    assert_eq!(u8::from_bytes(&[9]), Some(9));
    assert_eq!(u8::from_bytes(&[9, 9]), None);
}

#[test]
fn serialize_struct_spreads_over_segments() {
    let mut mem = PhysMemory::new(2);
    let segs = vec![
        PhysSegment { ppn: 0, start: 10, end: 12 },
        PhysSegment { ppn: 1, start: 0, end: 100 },
        PhysSegment { ppn: 0, start: 0, end: 5 },
    ];
    let tv = TimeVal { sec: 0x0a0b, usec: 0x11 };
    let size = serialize_struct(&tv, &segs, &mut mem);
    assert_eq!(size, 102);
    assert_eq!(mem.read_byte(0, 10), 0x0b);
    assert_eq!(mem.read_byte(0, 11), 0x0a);
    assert_eq!(mem.read_byte(1, 6), 0x11);
    assert_eq!(mem.read_byte(1, 14), 0);
    assert_eq!(mem.read_byte(0, 0), 0);
}

#[test]
fn value_written_across_pages_reads_back() {
    let (pt, mut mem) = setup();
    let ptr = 4096 + 4090;
    let tv = TimeVal { sec: 123456, usec: 789 };
    assert_eq!(rcore_os::io::write(&tv, &pt, &mut mem, ptr, 16), Ok(16));
    assert_eq!(mem.read_byte(2, 4090), (123456 & 0xff) as u8);
    assert_eq!(mem.read_byte(3, 2), (789 & 0xff) as u8);
    assert_eq!(read::<TimeVal>(&pt, &mem, ptr, 16), Ok(tv));
}

#[test]
fn write_reports_the_size_of_the_pieces_used() {
    let (pt, mut mem) = setup();
    let tv = TimeVal { sec: 1, usec: 2 };
    assert_eq!(rcore_os::io::write(&tv, &pt, &mut mem, 4096, 4096), Ok(4096));
    assert_eq!(read::<TimeVal>(&pt, &mem, 4096, 16), Ok(tv));
}

#[test]
fn unmapped_or_unpermitted_pages_are_refused() {
    let (pt, mut mem) = setup();
    let tv = TimeVal { sec: 1, usec: 2 };
    assert_eq!(rcore_os::io::write(&tv, &pt, &mut mem, 5 * 4096, 16), Err(AccessError::Unauthorized));
    assert_eq!(read::<TimeVal>(&pt, &mem, 5 * 4096, 16), Err(AccessError::Unauthorized));
    // page 3 lacks the user bit, so it cannot be read for the user
    assert_eq!(read::<u8>(&pt, &mem, 3 * 4096, 1), Err(AccessError::Unauthorized));
    // nor written: it lacks the accessed bit
    assert_eq!(rcore_os::io::write(&7u8, &pt, &mut mem, 3 * 4096, 1), Err(AccessError::Unauthorized));
    assert_eq!(mem.read_byte(0, 0), 0);
}

#[test]
fn wrong_size_is_malformed() {
    let (pt, mem) = setup();
    assert_eq!(read::<TimeVal>(&pt, &mem, 4096, 8), Err(AccessError::Malformed));
    assert_eq!(read::<u8>(&pt, &mem, 4096, 1), Ok(0));
}

#[test]
fn copy_to_user_needs_mapped_pages_only() {
    let (pt, mut mem) = setup();
    // the range runs on into page 4, which is not mapped
    assert!(!rcore_os::io::copy_to_user(&pt, &mut mem, 3 * 4096 + 4094, &vec![1, 2, 3]));
    assert_eq!(mem.read_byte(0, 4094), 0);
    assert!(rcore_os::io::copy_to_user(&pt, &mut mem, 2 * 4096 + 4094, &vec![1, 2, 3]));
    assert_eq!(mem.read_byte(3, 4094), 1);
    assert_eq!(mem.read_byte(3, 4095), 2);
    assert_eq!(mem.read_byte(0, 0), 3);
    assert!(rcore_os::io::copy_to_user(&pt, &mut mem, 4096, &vec![]));
    assert!(!rcore_os::io::copy_to_user(&pt, &mut mem, usize::MAX, &vec![]));
    // page 3 lacks the user bit, but it is mapped, which is all a copy needs
    assert!(rcore_os::io::copy_to_user(&pt, &mut mem, 3 * 4096 + 1, &vec![9]));
    assert_eq!(mem.read_byte(0, 1), 9);
}

#[test]
fn value_reads_back_when_two_pages_share_a_frame() {
    let mut pt = PageTable::new();
    pt.map(1, PageTableEntry { ppn: 2, flags: ALL });
    pt.map(2, PageTableEntry { ppn: 2, flags: ALL });
    let mut mem = PhysMemory::new(4);
    let ptr = 4096 + 4090;
    let tv = TimeVal { sec: 0x1122334455, usec: 0x66 };
    assert_eq!(rcore_os::io::write(&tv, &pt, &mut mem, ptr, 16), Ok(16));
    assert_eq!(read::<TimeVal>(&pt, &mem, ptr, 16), Ok(tv));
}
