use rcore_os::vfs::{EasyFileSystem, Fstat, Inode};

fn root() -> Inode {
    Inode::new(0)
}

#[test]
fn create_then_find() {
    let mut fs = EasyFileSystem::new();
    assert_eq!(root().create(&mut fs, b"a"), Some(Inode { inode_id: 1 }));
    assert_eq!(root().create(&mut fs, b"b"), Some(Inode { inode_id: 2 }));
    assert_eq!(root().create(&mut fs, b"a"), None);
    assert_eq!(root().find(&fs, b"a"), Some(Inode { inode_id: 1 }));
    assert_eq!(root().find(&fs, b"b"), Some(Inode { inode_id: 2 }));
    assert_eq!(root().find(&fs, b"c"), None);
    assert_eq!(fs.inodes.len(), 3);
}

#[test]
fn fstat_reports_links_and_kind() {
    let mut fs = EasyFileSystem::new();
    let a = root().create(&mut fs, b"a").unwrap();
    assert_eq!(a.fstat(&fs), Fstat { ref_count: 1, is_dir: false, inode_id: 1 });
    assert_eq!(root().fstat(&fs), Fstat { ref_count: 1, is_dir: true, inode_id: 0 });
}

#[test]
fn linkat_adds_a_name_for_the_same_inode() {
    let mut fs = EasyFileSystem::new();
    let a = root().create(&mut fs, b"a").unwrap();
    assert_eq!(root().linkat(&mut fs, b"a2", b"a"), 0);
    assert_eq!(root().find(&fs, b"a2"), Some(a));
    assert_eq!(a.fstat(&fs).ref_count, 2);
    // a taken new name, or a missing old name, is refused
    assert_eq!(root().linkat(&mut fs, b"a2", b"a"), -1);
    assert_eq!(root().linkat(&mut fs, b"x", b"missing"), -1);
    assert_eq!(a.fstat(&fs).ref_count, 2);
    assert_eq!(root().ls(&fs), vec![b"a".to_vec(), b"a2".to_vec()]);
}

#[test]
fn unlink_at_drops_a_link_and_the_name() {
    let mut fs = EasyFileSystem::new();
    let a = root().create(&mut fs, b"a").unwrap();
    assert_eq!(root().linkat(&mut fs, b"a2", b"a"), 0);
    assert_eq!(root().unlink_at(&mut fs, b"a2"), 0);
    assert_eq!(a.fstat(&fs).ref_count, 1);
    assert_eq!(root().ls(&fs), vec![b"a".to_vec()]);
    assert_eq!(root().find(&fs, b"a2"), None);
    assert_eq!(root().find(&fs, b"a"), Some(a));
    assert_eq!(root().unlink_at(&mut fs, b"a2"), -1);
    assert_eq!(root().unlink_at(&mut fs, b"missing"), -1);
    // the name can be used again
    assert_eq!(root().linkat(&mut fs, b"a2", b"a"), 0);
    assert_eq!(a.fstat(&fs).ref_count, 2);
}

#[test]
fn links_are_counted_exactly() {
    // every inode but the root has as many links as entries naming it
    let mut fs = EasyFileSystem::new();
    let a = root().create(&mut fs, b"a").unwrap();
    let b = root().create(&mut fs, b"b").unwrap();
    assert_eq!(root().linkat(&mut fs, b"c", b"a"), 0);
    assert_eq!(root().linkat(&mut fs, b"d", b"a"), 0);
    assert_eq!(root().unlink_at(&mut fs, b"b"), 0);
    assert_eq!(a.fstat(&fs).ref_count, 3);
    assert_eq!(b.fstat(&fs).ref_count, 0);
}

#[test]
fn empty_directory_lists_nothing() {
    let fs = EasyFileSystem::new();
    assert!(root().ls(&fs).is_empty());
}

#[test]
fn write_then_read_gives_the_bytes_back() {
    let mut fs = EasyFileSystem::new();
    let a = root().create(&mut fs, b"a").unwrap();
    assert_eq!(a.write_at(&mut fs, 3, b"hello"), 5);
    let mut buf = [9u8; 5];
    assert_eq!(a.read_at(&fs, 3, &mut buf), 5);
    assert_eq!(&buf, b"hello");
    // the gap before the write is zero
    let mut all = [7u8; 10];
    assert_eq!(a.read_at(&fs, 0, &mut all), 8);
    assert_eq!(&all, &[0, 0, 0, b'h', b'e', b'l', b'l', b'o', 7, 7]);
}

#[test]
fn read_past_the_end_gets_nothing() {
    let mut fs = EasyFileSystem::new();
    let a = root().create(&mut fs, b"a").unwrap();
    assert_eq!(a.write_at(&mut fs, 0, b"xy"), 2);
    let mut buf = [1u8; 4];
    assert_eq!(a.read_at(&fs, 2, &mut buf), 0);
    assert_eq!(a.read_at(&fs, 100, &mut buf), 0);
    assert_eq!(buf, [1; 4]);
    assert_eq!(a.read_at(&fs, 1, &mut buf), 1);
    assert_eq!(buf, [b'y', 1, 1, 1]);
}

#[test]
fn overwrite_keeps_the_rest() {
    let mut fs = EasyFileSystem::new();
    let a = root().create(&mut fs, b"a").unwrap();
    assert_eq!(a.write_at(&mut fs, 0, b"abcdef"), 6);
    assert_eq!(a.write_at(&mut fs, 2, b"XY"), 2);
    let mut buf = [0u8; 6];
    assert_eq!(a.read_at(&fs, 0, &mut buf), 6);
    assert_eq!(&buf, b"abXYef");
}

#[test]
fn clear_empties_the_file() {
    let mut fs = EasyFileSystem::new();
    let a = root().create(&mut fs, b"a").unwrap();
    assert_eq!(a.write_at(&mut fs, 0, b"abc"), 3);
    a.clear(&mut fs);
    let mut buf = [0u8; 3];
    assert_eq!(a.read_at(&fs, 0, &mut buf), 0);
    assert_eq!(a.fstat(&fs).ref_count, 1);
}

#[test]
fn dropping_the_last_link_drops_the_contents() {
    let mut fs = EasyFileSystem::new();
    let a = root().create(&mut fs, b"a").unwrap();
    assert_eq!(a.write_at(&mut fs, 0, b"abc"), 3);
    assert_eq!(root().linkat(&mut fs, b"b", b"a"), 0);
    assert_eq!(root().unlink_at(&mut fs, b"a"), 0);
    let mut buf = [0u8; 3];
    assert_eq!(a.read_at(&fs, 0, &mut buf), 3);
    assert_eq!(root().unlink_at(&mut fs, b"b"), 0);
    assert_eq!(a.read_at(&fs, 0, &mut buf), 0);
}
