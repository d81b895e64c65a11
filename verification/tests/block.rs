use fs_layout::block::{Block, BLOCK_SIZE};

#[test]
fn new_block_zeroed() {
    let b = Block::new(0);
    assert_eq!(b.data.len(), BLOCK_SIZE as usize);
    assert!(b.data.iter().all(|&x| x == 0));
}

#[test]
fn with_data() {
    let b = Block::with_data(1, &[1, 2, 3]);
    assert_eq!(&b.data[0..3], &[1, 2, 3]);
    assert_eq!(b.data[3], 0);
}

#[test]
fn write_read_roundtrip() {
    let mut b = Block::new(0);
    b.write_at(10, &[0xAA, 0xBB, 0xCC]).unwrap();
    let read = b.read_at(10, 3);
    assert_eq!(read, vec![0xAA, 0xBB, 0xCC]);
}

#[test]
fn write_out_of_bounds() {
    let mut b = Block::new(0);
    assert!(b.write_at(BLOCK_SIZE as usize, &[1]).is_err());
}

#[test]
fn partial_write() {
    let mut b = Block::new(0);
    let written = b.write_at(BLOCK_SIZE as usize - 2, &[1, 2, 3, 4]).unwrap();
    assert_eq!(written, 2);
}

#[test]
fn used_bytes() {
    let b = Block::with_data(0, &[1, 2, 3]);
    assert_eq!(b.used_bytes(), 3);
}

#[test]
fn write_error_message() {
    let mut b = Block::new(3);
    assert_eq!(b.write_at(5000, &[1, 2]), Err("Offset out of bounds".to_string()));
    assert_eq!(b.used_bytes(), 0);
}

#[test]
fn partial_write_keeps_tail_and_rest() {
    let mut b = Block::new(0);
    b.write_at(BLOCK_SIZE as usize - 2, &[1, 2, 3, 4]).unwrap();
    assert_eq!(b.read_at(BLOCK_SIZE as usize - 2, 10), vec![1, 2]);
    assert_eq!(b.data.len(), BLOCK_SIZE as usize);
    assert_eq!(b.used_bytes(), 2);
}

#[test]
fn write_leaves_other_bytes() {
    let mut b = Block::with_data(9, &[7, 7, 7, 7, 7]);
    assert_eq!(b.write_at(1, &[0, 5]), Ok(2));
    assert_eq!(b.read_at(0, 6), vec![7, 0, 5, 7, 7, 0]);
    assert_eq!(b.index(), 9);
}

#[test]
fn read_past_end_is_empty() {
    let b = Block::with_data(0, &[1, 2, 3]);
    assert_eq!(b.read_at(BLOCK_SIZE as usize, 4), Vec::<u8>::new());
    assert_eq!(b.read_at(2, 0), Vec::<u8>::new());
    assert_eq!(b.read_at(BLOCK_SIZE as usize - 1, 100).len(), 1);
}

#[test]
fn with_data_truncates() {
    let big = vec![9u8; BLOCK_SIZE as usize + 10];
    let b = Block::with_data(2, &big);
    assert_eq!(b.data.len(), BLOCK_SIZE as usize);
    assert_eq!(b.used_bytes(), BLOCK_SIZE as usize);
    assert_eq!(b.index(), 2);
}

#[test]
fn with_data_reads_back() {
    let b = Block::with_data(0, &[4, 0, 6]);
    assert_eq!(b.read_at(0, 3), vec![4, 0, 6]);
    assert_eq!(b.used_bytes(), 2);
}
