use buddy_alloc::buddy::{page_allocator, AllocError};

/// Seeded scenario on 8 base pages (max order 3): an order-1 allocation
/// splits the pool down and returns index 0, leaving an order-1 block at 2
/// and an order-2 block at 4; freeing index 0 merges everything back into
/// the single full-pool block.
#[test]
fn seeded_scenario_eight_pages() {
    let mut a = page_allocator::new(3);
    assert_eq!(a.num_pages(), 8);

    assert_eq!(a.allocate(1), Some(0));
    assert_eq!(a.node_order(0), 1);
    assert!(!a.node_is_free(0));
    assert_eq!(a.free_list_head(0), None);
    assert_eq!(a.free_list_head(1), Some(2));
    assert_eq!(a.free_list_head(2), Some(4));
    assert_eq!(a.free_list_head(3), None);

    assert_eq!(a.free(0), Ok(()));
    assert_eq!(a.free_list_head(0), None);
    assert_eq!(a.free_list_head(1), None);
    assert_eq!(a.free_list_head(2), None);
    assert_eq!(a.free_list_head(3), Some(0));
    assert!(a.node_is_free(0));
    assert_eq!(a.node_order(0), 3);
}

/// Allocating and immediately freeing restores the free-list state.
#[test]
fn alloc_free_round_trip() {
    let mut a = page_allocator::new(2);
    let before: Vec<Option<usize>> = (0..=2).map(|o| a.free_list_head(o)).collect();

    let i = a.allocate(0).unwrap();
    assert_eq!(a.free(i), Ok(()));
    let after: Vec<Option<usize>> = (0..=2).map(|o| a.free_list_head(o)).collect();
    assert_eq!(before, after);

    let j = a.allocate(1).unwrap();
    assert_eq!(a.free(j), Ok(()));
    let after2: Vec<Option<usize>> = (0..=2).map(|o| a.free_list_head(o)).collect();
    assert_eq!(before, after2);
}

/// Freeing two buddies, in either order, leaves one block of the next
/// order and no order-0 entries.
#[test]
fn buddy_blocks_coalesce() {
    let mut a = page_allocator::new(2);
    let x = a.allocate(0).unwrap();
    let y = a.allocate(0).unwrap();
    assert_eq!(y, x ^ 1);

    assert_eq!(a.free(y), Ok(()));
    assert_eq!(a.free(x), Ok(()));
    assert_eq!(a.free_list_head(0), None);
    assert_eq!(a.free_list_head(1), None);
    assert_eq!(a.free_list_head(2), Some(0));

    // The other call order coalesces just the same.
    let mut b = page_allocator::new(2);
    let x2 = b.allocate(0).unwrap();
    let y2 = b.allocate(0).unwrap();
    assert_eq!(b.free(x2), Ok(()));
    assert_eq!(b.free(y2), Ok(()));
    assert_eq!(b.free_list_head(0), None);
    assert_eq!(b.free_list_head(1), None);
    assert_eq!(b.free_list_head(2), Some(0));
}

/// Every returned index carries exactly the requested order and is aligned
/// to the block size.
#[test]
fn returned_blocks_have_requested_order_and_alignment() {
    let mut a = page_allocator::new(3);
    let i2 = a.allocate(2).unwrap();
    assert_eq!(a.node_order(i2), 2);
    assert_eq!(i2 % 4, 0);

    let i1 = a.allocate(1).unwrap();
    assert_eq!(a.node_order(i1), 1);
    assert_eq!(i1 % 2, 0);

    let i0 = a.allocate(0).unwrap();
    assert_eq!(a.node_order(i0), 0);
}

/// Once all pages are handed out, every further allocation is refused
/// until something is freed.
#[test]
fn exhaustion_then_recovery() {
    let mut a = page_allocator::new(2);
    let mut got = Vec::new();
    for _ in 0..4 {
        let i = a.allocate(0).unwrap();
        assert!(!got.contains(&i));
        got.push(i);
    }
    assert_eq!(a.allocate(0), None);
    assert_eq!(a.allocate(1), None);
    assert_eq!(a.allocate(2), None);

    assert_eq!(a.free(got[0]), Ok(()));
    assert_eq!(a.allocate(0), Some(got[0]));
}

/// One `alloc(max_order)` also exhausts the pool.
#[test]
fn single_top_order_allocation_exhausts() {
    let mut a = page_allocator::new(3);
    assert_eq!(a.allocate(3), Some(0));
    assert_eq!(a.allocate(0), None);
    assert_eq!(a.allocate(3), None);
}

/// A double free is rejected and leaves the free lists untouched.
#[test]
fn double_free_detected() {
    let mut a = page_allocator::new(2);
    let i = a.allocate(0).unwrap();
    assert_eq!(a.free(i), Ok(()));
    let heads: Vec<Option<usize>> = (0..=2).map(|o| a.free_list_head(o)).collect();
    assert_eq!(a.free(i), Err(AllocError::AlreadyFree));
    let heads2: Vec<Option<usize>> = (0..=2).map(|o| a.free_list_head(o)).collect();
    assert_eq!(heads, heads2);
}

/// Freeing a page that was never handed out is rejected too: after
/// seeding, every node still reads as free.
#[test]
fn freeing_unallocated_page_rejected() {
    let mut a = page_allocator::new(3);
    assert_eq!(a.free(5), Err(AllocError::AlreadyFree));
}

/// `init` re-seeds the pool: afterwards the whole pool is one free block.
#[test]
fn init_reseeds_pool() {
    let mut a = page_allocator::new(3);
    a.allocate(1).unwrap();
    a.allocate(0).unwrap();
    a.init();
    assert_eq!(a.free_list_head(3), Some(0));
    assert_eq!(a.allocate(3), Some(0));
}
