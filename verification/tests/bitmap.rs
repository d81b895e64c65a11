use fs_layout::bitmap::BlockBitmap;

#[test]
fn new_all_free() {
    let bm = BlockBitmap::new(10);
    assert_eq!(bm.free_count(), 10);
    assert_eq!(bm.used_count(), 0);
}

#[test]
fn allocate_sequential() {
    let mut bm = BlockBitmap::new(3);
    assert_eq!(bm.allocate(), Some(0));
    assert_eq!(bm.allocate(), Some(1));
    assert_eq!(bm.allocate(), Some(2));
    assert_eq!(bm.allocate(), None); // full
}

#[test]
fn free_and_reuse() {
    let mut bm = BlockBitmap::new(2);
    bm.allocate();
    bm.allocate();
    bm.free(0);
    assert_eq!(bm.allocate(), Some(0));
}

#[test]
fn allocate_specific() {
    let mut bm = BlockBitmap::new(5);
    assert!(bm.allocate_specific(3));
    assert!(bm.is_allocated(3));
    assert!(!bm.is_allocated(0));
}

#[test]
fn double_allocate_fails() {
    let mut bm = BlockBitmap::new(5);
    bm.allocate_specific(2);
    assert!(!bm.allocate_specific(2));
}

#[test]
fn free_unallocated_fails() {
    let mut bm = BlockBitmap::new(5);
    assert!(!bm.free(0)); // not allocated
}

#[test]
fn out_of_bounds() {
    let bm = BlockBitmap::new(5);
    assert!(!bm.is_allocated(10));
}

#[test]
fn allocate_skips_allocated_blocks() {
    let mut bm = BlockBitmap::new(4);
    assert!(bm.allocate_specific(0));
    assert!(bm.allocate_specific(1));
    assert!(bm.allocate_specific(3));
    assert_eq!(bm.allocate(), Some(2));
    assert_eq!(bm.allocate(), None);
    assert_eq!(bm.free_count(), 0);
    assert_eq!(bm.used_count(), 4);
}

#[test]
fn allocate_specific_out_of_range_fails() {
    let mut bm = BlockBitmap::new(5);
    assert!(!bm.allocate_specific(5));
    assert!(!bm.free(7));
    assert_eq!(bm.free_count(), 5);
}

#[test]
fn claim_then_release_restores_counts() {
    let mut bm = BlockBitmap::new(6);
    assert!(bm.allocate_specific(4));
    assert_eq!(bm.free_count(), 5);
    assert_eq!(bm.used_count(), 1);
    assert!(bm.free(4));
    assert_eq!(bm.free_count(), 6);
    assert_eq!(bm.used_count(), 0);
    assert!(!bm.is_allocated(4));
    assert!(!bm.free(4));
}

#[test]
fn empty_bitmap() {
    let mut bm = BlockBitmap::new(0);
    assert_eq!(bm.total(), 0);
    assert_eq!(bm.allocate(), None);
    assert_eq!(bm.free_count(), 0);
    assert_eq!(bm.used_count(), 0);
}

#[test]
fn total_is_fixed() {
    let mut bm = BlockBitmap::new(7);
    bm.allocate();
    bm.allocate_specific(5);
    assert_eq!(bm.total(), 7);
    assert_eq!(bm.free_count() + bm.used_count(), 7);
}
