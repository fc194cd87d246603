use page_store::buddy_allocator::BuddyAllocator;
use page_store::grouped_bitmap::U64GroupedBitMapMut;
use page_store::layout::DatabaseLayout;
use page_store::math::{ceil_log2, exp2, floor_log2};
use page_store::Error;

#[test]
fn order_of_sizes() {
    for (x, k) in [(0, 0), (1, 0), (2, 1), (3, 2), (4, 2), (5, 3), (8, 3), (9, 4), (1025, 11)] {
        assert_eq!(ceil_log2(x), k);
    }
    for (x, k) in [(1, 0), (2, 1), (3, 1), (4, 2), (7, 2), (8, 3)] {
        assert_eq!(floor_log2(x), k);
    }
    assert_eq!(exp2(10), 1024);
}

#[test]
fn bitmap() {
    let mut data = vec![0u8; U64GroupedBitMapMut::required_bytes(65)];
    assert_eq!(data.len(), 16);
    let mut map = U64GroupedBitMapMut::new(&mut data);
    assert_eq!(map.len(), 128);
    map.set(0);
    map.set(9);
    map.set(64);
    assert!(map.get(9) && map.get(64) && !map.get(8));
    map.clear(0);
    assert!(!map.get(0));
    assert_eq!(data[0], 0);
    assert_eq!(data[1], 2);
    assert_eq!(data[8], 1);
}

#[test]
fn buddy_allocator_splits_and_merges() {
    let mut mem = vec![0u8; BuddyAllocator::required_space(16)];
    let allocator = BuddyAllocator::init_new(&mut mem, 16, 16, 3);
    assert_eq!(allocator.count_free_pages(&mem), 16);
    let a = allocator.allocate(&mut mem, 0).unwrap();
    let b = allocator.allocate(&mut mem, 1).unwrap();
    assert_eq!((a, b), (0, 1));
    assert_eq!(allocator.count_free_pages(&mem), 13);
    assert_eq!(allocator.allocate(&mut mem, 3), Ok(1));
    assert_eq!(allocator.allocate(&mut mem, 3), Err(Error::OutOfSpace));
    allocator.free(&mut mem, a, 0);
    allocator.free(&mut mem, b, 1);
    assert_eq!(allocator.allocate(&mut mem, 3), Ok(0));
    assert_eq!(allocator.count_free_pages(&mem), 0);
}

#[test]
fn buddy_allocator_has_a_largest_order() {
    let mut mem = vec![0u8; BuddyAllocator::required_space(16)];
    let allocator = BuddyAllocator::init_new(&mut mem, 16, 16, 3);
    assert_eq!(allocator.allocate(&mut mem, 4), Err(Error::OutOfSpace));
    assert_eq!(allocator.allocate(&mut mem, 100), Err(Error::OutOfSpace));
}

#[test]
fn buddy_allocator_takes_given_blocks() {
    let mut mem = vec![0u8; BuddyAllocator::required_space(10)];
    let allocator = BuddyAllocator::init_new(&mut mem, 10, 10, 3);
    allocator.record_alloc(&mut mem, 1, 2);
    assert_eq!(allocator.count_free_pages(&mem), 6);
    assert!(allocator.is_block_taken(&mem, 5, 0));
    assert!(!allocator.is_page_free(&mem, 4));
    assert!(allocator.is_page_free(&mem, 9));
    assert!(allocator.is_block(9, 0));
    assert!(!allocator.is_block(10, 0));
    assert!(!allocator.is_block(1, 3));
    assert!(allocator.holds_state(&mem));
}

#[test]
fn buddy_allocator_grows() {
    let mut mem = vec![0u8; BuddyAllocator::required_space(16)];
    let mut allocator = BuddyAllocator::init_new(&mut mem, 5, 16, 4);
    assert_eq!(allocator.count_free_pages(&mem), 5);
    let page = allocator.allocate(&mut mem, 2).unwrap();
    allocator.resize(&mut mem, 16);
    assert_eq!(allocator.count_free_pages(&mem), 12);
    assert_eq!(allocator.allocate(&mut mem, 3), Ok(1));
    allocator.free(&mut mem, page, 2);
    assert_eq!(allocator.allocate(&mut mem, 3), Ok(0));
}

#[test]
fn state_is_recognised() {
    let mut mem = vec![0u8; BuddyAllocator::required_space(8)];
    let allocator = BuddyAllocator::init_new(&mut mem, 8, 8, 3);
    assert!(allocator.holds_state(&mem));
    // A free block inside a free block
    let mut damaged = mem.clone();
    damaged[1] |= 1;
    assert!(!allocator.holds_state(&damaged));
    // A free block where there is no page
    let smaller = BuddyAllocator::new(7, 8, 3);
    assert!(!smaller.holds_state(&mem));
    // Two halves that were not merged
    let mut halves = vec![0u8; mem.len()];
    halves[0] = 0b1100;
    assert!(!allocator.holds_state(&halves));
    let mut half = vec![0u8; mem.len()];
    half[0] = 0b0100;
    assert!(allocator.holds_state(&half));
}

#[test]
fn layout_with_several_regions() {
    // Regions of 16 pages of 64 bytes: a region header is one page, so a region is 17 pages
    let layout = DatabaseLayout::calculate(10_000, 10_000, 1024, 64).unwrap();
    assert_eq!(layout.region_pages, 16);
    assert_eq!(layout.region_header_bytes, 64);
    assert_eq!(layout.header_bytes, 448);
    assert_eq!(layout.num_full_regions, 8);
    assert_eq!(layout.trailing_pages, 12);
    assert_eq!(layout.num_regions(), 9);
    assert_eq!(layout.max_order, 4);
    assert_eq!(layout.region_base_address(0), 448);
    assert_eq!(layout.region_base_address(2), 448 + 2 * 17 * 64);
    assert_eq!(layout.usable_bytes(), 140 * 64);
    assert_eq!(layout.len(), 448 + 8 * 17 * 64 + 13 * 64);
    assert!(layout.is_calculated(10_000, 1024, 64));
    assert!(!layout.is_calculated(10_000, 2048, 64));
    assert_eq!(layout.region_layout(8).num_pages(), 12);
    assert_eq!(layout.region_layout(7).num_pages(), 16);
    assert_eq!(layout.full_region_layout().data_section(), 64..17 * 64);
}

#[test]
fn layout_is_no_larger_than_wanted() {
    let small = DatabaseLayout::calculate(10_000, 100, 1024, 64).unwrap();
    assert_eq!(small.num_full_regions, 0);
    assert_eq!(small.trailing_pages, 10);
    // A rest of fewer than ten pages is left out
    let wanted = DatabaseLayout::calculate(10_000, 20 * 64, 1024, 64).unwrap();
    assert_eq!(wanted.num_full_regions, 1);
    assert_eq!(wanted.trailing_pages, 0);
    assert_eq!(wanted.trailing_region_layout(), None);
    // A layout is the one for just what it has room for
    let again = DatabaseLayout::calculate(10_000, wanted.usable_bytes(), 1024, 64).unwrap();
    assert_eq!(again, wanted);
}

#[test]
fn layout_needs_room() {
    assert_eq!(DatabaseLayout::calculate(1000, 1000, 1024, 64), Err(Error::OutOfSpace));
    assert_eq!(DatabaseLayout::calculate(10_000, 1000, 640, 64), Err(Error::OutOfSpace));
}
