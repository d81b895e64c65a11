use fs_layout::inode::{FileType, Inode};

#[test]
fn new_file_inode() {
    let i = Inode::new_file(1, 10, 512);
    assert_eq!(i.ino, 1);
    assert_eq!(i.file_type, FileType::RegularFile);
    assert_eq!(i.size, 512);
    assert_eq!(i.block_count(), 1);
    assert!(i.is_file());
    assert!(!i.is_dir());
}

#[test]
fn new_dir_inode() {
    let i = Inode::new_dir(2, 20);
    assert_eq!(i.file_type, FileType::Directory);
    assert_eq!(i.link_count, 2);
    assert!(i.is_dir());
}

#[test]
fn add_blocks() {
    let mut i = Inode::empty(3);
    assert_eq!(i.block_count(), 0);
    i.add_block(5);
    i.add_block(6);
    i.add_block(5); // duplicate ignored
    assert_eq!(i.block_count(), 2);
}

#[test]
fn link_unlink_cycle() {
    let mut i = Inode::new_file(4, 10, 100);
    i.link();
    assert_eq!(i.link_count, 2);
    assert!(!i.unlink());
    assert_eq!(i.link_count, 1);
    assert!(i.unlink()); // reaches zero
}

#[test]
fn unlink_at_zero_stays_zero() {
    let mut i = Inode::empty(7);
    assert!(i.unlink());
    assert_eq!(i.link_count, 0);
    i.link();
    assert!(i.unlink());
}

#[test]
fn constructor_fields() {
    let f = Inode::new_file(1, 10, 512);
    assert_eq!(f.blocks, vec![10]);
    assert_eq!(f.link_count, 1);
    assert_eq!(f.permissions, 0o644);
    let d = Inode::new_dir(2, 20);
    assert_eq!(d.size, 0);
    assert_eq!(d.blocks, vec![20]);
    assert_eq!(d.permissions, 0o755);
    assert!(!d.is_file());
    let e = Inode::empty(3);
    assert_eq!(e.ino, 3);
    assert_eq!(e.file_type, FileType::RegularFile);
    assert_eq!(e.size, 0);
    assert_eq!(e.link_count, 0);
    assert_eq!(e.permissions, 0o644);
}

#[test]
fn add_block_keeps_order() {
    let mut i = Inode::new_file(1, 10, 0);
    i.add_block(3);
    i.add_block(10);
    i.add_block(8);
    i.add_block(3);
    assert_eq!(i.blocks, vec![10, 3, 8]);
    assert_eq!(i.ino, 1);
    assert_eq!(i.link_count, 1);
}

#[test]
fn symlink_is_neither() {
    let mut i = Inode::empty(5);
    i.file_type = FileType::SymbolicLink;
    assert!(!i.is_dir());
    assert!(!i.is_file());
}
