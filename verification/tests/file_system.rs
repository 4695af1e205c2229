use lh_mount::file_system::{read_size, xattr_answer, Broker, Inodes, MSource, XattrAnswer};

#[test]
fn inodes_are_handed_out_in_order() {
    let mut inodes = Inodes::new();
    assert!(inodes.has_room());
    assert_eq!(inodes.add_inode("/base"), 1);
    assert_eq!(inodes.add_or_create_inode("/base/a"), 2);
    assert_eq!(inodes.add_or_create_inode("/base/a"), 2);
    assert_eq!(inodes.next_handle(), 3);
    assert_eq!(inodes.add_or_create_inode("/base/b"), 4);
    assert_eq!(inodes.get_inode("/base/a"), Some(2));
    assert_eq!(inodes.get_inode("/base/c"), None);
    assert_eq!(inodes.get_path(4), Some("/base/b"));
    assert_eq!(inodes.get_path(3), None);
}

#[test]
fn inodes_are_forgotten_both_ways() {
    let mut inodes = Inodes::new();
    inodes.add_inode("/base");
    let a = inodes.add_inode("/base/a");
    inodes.unregister_ino(a);
    assert_eq!(inodes.get_path(a), None);
    assert_eq!(inodes.get_inode("/base/a"), None);
    assert_eq!(inodes.get_inode("/base"), Some(1));
    inodes.unregister_ino(77);
    assert_eq!(inodes.get_inode("/base"), Some(1));
}

#[test]
fn a_path_has_one_inode_at_a_time() {
    let mut inodes = Inodes::new();
    let first = inodes.add_inode("/base/a");
    let second = inodes.add_inode("/base/a");
    assert_eq!((first, second), (1, 2));
    assert_eq!(inodes.get_inode("/base/a"), Some(2));
    assert_eq!(inodes.get_path(1), None);
    assert_eq!(inodes.get_path(2), Some("/base/a"));
}

#[test]
fn a_renamed_file_keeps_its_inode() {
    let mut inodes = Inodes::new();
    let a = inodes.add_inode("/base/a");
    let b = inodes.add_inode("/base/b");
    inodes.rename_inode(a, "/base/c");
    assert_eq!(inodes.get_inode("/base/c"), Some(a));
    assert_eq!(inodes.get_inode("/base/a"), None);
    inodes.rename_inode(a, "/base/b");
    assert_eq!(inodes.get_inode("/base/b"), Some(a));
    assert_eq!(inodes.get_path(b), None);
    inodes.rename_inode(a, "/base/b");
    assert_eq!(inodes.get_path(a), Some("/base/b"));
    inodes.rename_inode(99, "/base/z");
    assert_eq!(inodes.get_inode("/base/z"), None);
}

#[test]
fn reads_stop_at_the_end_of_the_file() {
    assert_eq!(read_size(10, 100, 0), 10);
    assert_eq!(read_size(10, 100, 95), 5);
    assert_eq!(read_size(10, 100, 100), 0);
    assert_eq!(read_size(10, 100, 200), 0);
    assert_eq!(read_size(0, 100, 0), 0);
    assert_eq!(read_size(u32::MAX, u64::MAX, 0), u32::MAX as u64);
}

#[test]
fn extended_attributes_are_sized_first() {
    assert_eq!(xattr_answer(0, 17), XattrAnswer::Size(17));
    assert_eq!(xattr_answer(17, 17), XattrAnswer::Data);
    assert_eq!(xattr_answer(20, 17), XattrAnswer::Data);
    assert_eq!(xattr_answer(16, 17), XattrAnswer::Range);
}

#[test]
fn sources_are_numbered_and_chained() {
    let mut broker = Broker::new();
    assert!(broker.has_room());
    let first = broker.map_name_to_id("file0".to_string(), None).unwrap();
    assert!(matches!(first, MSource::Value(ref p) if p == "file0"));
    let second = broker.map_name_to_id("file1".to_string(), Some("file0".to_string())).unwrap();
    assert!(matches!(second, MSource::Parent { parent_ids: 0, ref own } if own == "file1"));
    let third = broker.get_program("file2".to_string(), Some("file1".to_string())).unwrap();
    assert!(matches!(third.m_source, MSource::Parent { parent_ids: 1, .. }));
    assert_eq!(broker.get_name(0), Some("file0"));
    assert_eq!(broker.get_name(2), Some("file2"));
    assert_eq!(broker.get_name(3), None);
    assert_eq!(broker.get_id("file1"), Some(1));
    assert_eq!(broker.get_id("nothing"), None);
    assert!(broker.map_name_to_id("x".to_string(), Some("nothing".to_string())).is_none());
    assert_eq!(broker.get_name(3), None);
    // A name that is its own source, and a name numbered twice.
    let own = broker.map_name_to_id("self".to_string(), Some("self".to_string())).unwrap();
    assert!(matches!(own, MSource::Parent { parent_ids: 3, .. }));
    broker.map_name_to_id("file0".to_string(), None).unwrap();
    assert_eq!(broker.get_id("file0"), Some(4));
    assert_eq!(broker.get_name(0), Some("file0"));
}
