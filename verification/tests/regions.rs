use page_store::action::{
    Action, AllocateEvent, AllocatorEvent, CloseEvent, CommitEvent, RepairEvent,
};
use page_store::header::{MetadataAccessor, FILE_FORMAT_VERSION};
use page_store::layout::DatabaseLayout;
use page_store::opening::{OpenAction, OpenEvent};
use page_store::page_manager::TransactionalMemory;
use page_store::page_number::PageNumber;
use page_store::Error;

const CAPACITY: usize = 10_000;
const REGION: usize = 1024;
const PAGE: usize = 64;

/// A file of small regions: 16 pages of 64 bytes each.
fn file(desired: usize) -> TransactionalMemory {
    let layout = DatabaseLayout::calculate(CAPACITY, desired, REGION, PAGE).unwrap();
    let mut metadata = MetadataAccessor::new(vec![0u8; layout.len()]);
    metadata.mark_present(&layout);
    metadata.mark_beyond(&layout);
    metadata.init_regions(&layout);
    metadata.set_page_size(PAGE);
    metadata.set_max_capacity(CAPACITY);
    metadata.set_region_max_usable_bytes(REGION);
    for _ in 0..2 {
        let mut slot = metadata.secondary_slot_mut();
        slot.set_data_section_layout(&layout);
        slot.set_version(FILE_FORMAT_VERSION);
        metadata.swap_primary();
    }
    metadata.set_magic_number();
    let mut opening = TransactionalMemory::new(CAPACITY, None, PAGE, true).unwrap();
    assert_eq!(opening.step(OpenEvent::Mapped(Ok(metadata.mmap))), OpenAction::Finish);
    let (mem, sound) = opening.finish();
    assert!(sound);
    mem
}

fn allocate(mem: &mut TransactionalMemory, size: usize) -> Result<PageNumber, Error> {
    assert!(mem.is_request(size));
    let mut event = AllocateEvent::Start;
    loop {
        match mem.allocate(size, event) {
            Action::Flush => event = AllocateEvent::Flushed(Ok(())),
            Action::Resize(_) => event = AllocateEvent::Resized(Ok(())),
            Action::Done(result) => return result,
        }
    }
}

fn rollback(mem: &mut TransactionalMemory) {
    let mut event = AllocatorEvent::Start;
    loop {
        match mem.rollback_uncommited_writes(event) {
            Action::Flush => event = AllocatorEvent::Flushed(Ok(())),
            action => {
                assert_eq!(action, Action::Done(Ok(())));
                return;
            }
        }
    }
}

fn commit(mem: &mut TransactionalMemory) {
    for event in [
        CommitEvent::Start,
        CommitEvent::SlotFlushed(Ok(())),
        CommitEvent::PrimaryFlushed(Ok(())),
    ] {
        mem.commit(None, None, 1, false, event);
    }
}

/// Closes the file and opens it again.
fn reopen(mut mem: TransactionalMemory) -> TransactionalMemory {
    for event in [
        CloseEvent::Start,
        CloseEvent::Flushed(Ok(())),
        CloseEvent::CleanFlushed(Ok(())),
    ] {
        mem.close(event);
    }
    let mut opening = TransactionalMemory::new(CAPACITY, None, PAGE, true).unwrap();
    opening.step(OpenEvent::Mapped(Ok(mem.metadata.mmap)));
    let (mem, sound) = opening.finish();
    assert!(sound);
    assert_eq!(mem.needs_repair(), Ok(false));
    mem
}

#[test]
fn regions_are_filled_in_order() {
    let mut mem = file(CAPACITY);
    assert_eq!(mem.layout.num_regions(), 9);
    assert_eq!(mem.count_free_pages(), Ok(140));
    for i in 0..140u32 {
        let page = allocate(&mut mem, PAGE).unwrap();
        assert_eq!(page.region, i / 16);
        if page.region < 8 {
            assert_eq!(page, PageNumber::new(i / 16, i % 16, 0));
        }
    }
    assert_eq!(allocate(&mut mem, PAGE), Err(Error::OutOfSpace));
    assert_eq!(mem.count_free_pages(), Ok(0));
    for region in 0..9 {
        assert!(mem.metadata.is_marked(&mem.layout, region));
    }
}

#[test]
fn marked_region_is_passed_over_until_a_page_is_freed() {
    let mut mem = file(CAPACITY);
    for _ in 0..17 {
        allocate(&mut mem, PAGE).unwrap();
    }
    assert!(mem.metadata.is_marked(&mem.layout, 0));
    assert!(!mem.metadata.is_marked(&mem.layout, 1));
    let page = PageNumber::new(0, 5, 0);
    assert_eq!(mem.free(page, AllocatorEvent::Start), Action::Done(Ok(())));
    assert!(!mem.metadata.is_marked(&mem.layout, 0));
    assert_eq!(allocate(&mut mem, PAGE), Ok(page));
}

#[test]
fn block_is_taken_from_the_first_region_that_has_one() {
    let mut mem = file(CAPACITY);
    allocate(&mut mem, PAGE).unwrap();
    assert_eq!(allocate(&mut mem, 16 * PAGE), Ok(PageNumber::new(1, 0, 4)));
    assert_eq!(allocate(&mut mem, 8 * PAGE), Ok(PageNumber::new(0, 1, 3)));
}

#[test]
fn file_grows_by_a_region() {
    let mut mem = file(16 * PAGE);
    assert_eq!(mem.layout.num_regions(), 1);
    let len = mem.layout.len();
    for _ in 0..16 {
        allocate(&mut mem, PAGE).unwrap();
    }
    assert_eq!(mem.layout.len(), len);
    assert_eq!(allocate(&mut mem, PAGE), Ok(PageNumber::new(1, 0, 0)));
    assert_eq!(mem.layout.num_full_regions(), 2);
    assert_eq!(mem.layout.len(), len + 17 * PAGE);
    assert_eq!(mem.metadata.mmap.len(), mem.layout.len());
    assert_eq!(mem.count_free_pages(), Ok(140 - 17));
}

#[test]
fn file_fills_out_its_last_region() {
    // One full region and one of 10 pages
    let mut mem = file(26 * PAGE);
    assert_eq!(mem.layout.trailing_pages, 10);
    for _ in 0..26 {
        allocate(&mut mem, PAGE).unwrap();
    }
    assert_eq!(allocate(&mut mem, PAGE), Ok(PageNumber::new(1, 10, 0)));
    assert_eq!(mem.layout.num_full_regions(), 2);
    assert_eq!(mem.layout.trailing_pages, 0);
    // With less room than twice the request, the file gets a region more
    let mut mem = file(26 * PAGE);
    for _ in 0..3 {
        allocate(&mut mem, 8 * PAGE).unwrap();
    }
    assert_eq!(allocate(&mut mem, 8 * PAGE), Ok(PageNumber::new(1, 1, 3)));
    assert_eq!(mem.layout.num_full_regions(), 2);
    assert_eq!(mem.layout.trailing_pages, 10);
}

#[test]
fn pages_of_other_regions_are_kept() {
    let mut mem = file(16 * PAGE);
    let mut pages: Vec<PageNumber> = vec![];
    for i in 0..100u8 {
        let page = allocate(&mut mem, PAGE).unwrap();
        mem.get_page_mut(page).memory_mut().fill(i);
        pages.push(page);
    }
    for (i, page) in pages.iter().enumerate() {
        assert!(mem.get_page(*page).memory().iter().all(|b| *b == i as u8));
    }
}

#[test]
fn rollback_in_several_regions() {
    let mut mem = file(CAPACITY);
    for _ in 0..20 {
        allocate(&mut mem, PAGE).unwrap();
    }
    commit(&mut mem);
    let count = mem.count_free_pages();
    for _ in 0..60 {
        allocate(&mut mem, PAGE).unwrap();
    }
    mem.free(PageNumber::new(0, 2, 0), AllocatorEvent::Start);
    rollback(&mut mem);
    assert_eq!(mem.count_free_pages(), count);
    assert!(mem.is_in_use(PageNumber::new(0, 2, 0)));
    assert!(!mem.is_in_use(PageNumber::new(1, 4, 0)));
    assert_eq!(allocate(&mut mem, PAGE), Ok(PageNumber::new(1, 4, 0)));
}

#[test]
fn rollback_of_a_growth_by_regions_takes_them_away() {
    let mut mem = file(16 * PAGE);
    let layout = mem.layout;
    let first = allocate(&mut mem, PAGE).unwrap();
    commit(&mut mem);
    let count = mem.count_free_pages();
    for _ in 0..30 {
        allocate(&mut mem, PAGE).unwrap();
    }
    assert_eq!(mem.layout.num_regions(), 2);
    assert!(!mem.metadata.is_marked(&mem.layout, 1));
    rollback(&mut mem);
    assert_eq!(mem.layout, layout);
    assert_eq!(mem.regional_allocators.as_ref().unwrap().len(), 1);
    assert_eq!(mem.count_free_pages(), count);
    assert!(mem.metadata.is_marked(&mem.layout, 1));
    assert!(!mem.metadata.is_marked(&mem.layout, 0));
    assert!(mem.is_in_use(first));
    // There is nothing left to roll back, and the memory works
    let image = mem.metadata.mmap.clone();
    rollback(&mut mem);
    assert!(mem.metadata.mmap == image);
    for i in 1..16 {
        assert_eq!(allocate(&mut mem, PAGE), Ok(PageNumber::new(0, i, 0)));
    }
    assert_eq!(allocate(&mut mem, PAGE), Ok(PageNumber::new(1, 0, 0)));
    commit(&mut mem);
    assert_eq!(mem.count_free_pages(), Ok(140 - 17));
}

#[test]
fn reopening_after_regions_were_rolled_back() {
    let mut mem = file(16 * PAGE);
    let layout = mem.layout;
    for _ in 0..40 {
        allocate(&mut mem, PAGE).unwrap();
    }
    rollback(&mut mem);
    let mut mem = reopen(mem);
    assert_eq!(mem.layout, layout);
    assert_eq!(mem.count_free_pages(), Ok(140));
    for i in 0..17 {
        assert_eq!(allocate(&mut mem, PAGE), Ok(PageNumber::new(i / 16, i % 16, 0)));
    }
}

#[test]
fn reopening_after_regions_were_added_and_not_committed() {
    let mut mem = file(26 * PAGE);
    let layout = mem.layout;
    for _ in 0..40 {
        allocate(&mut mem, PAGE).unwrap();
    }
    mem.free(PageNumber::new(1, 4, 0), AllocatorEvent::Start);
    assert_eq!(mem.layout.num_regions(), 3);
    let mut mem = reopen(mem);
    assert_eq!(mem.layout, layout);
    // Only the page that was freed is free; the file can grow by all pages that it does not have
    assert_eq!(mem.count_free_pages(), Ok(140 - 26 + 1));
    assert!(!mem.metadata.is_marked(&mem.layout, 2));
    assert_eq!(allocate(&mut mem, PAGE), Ok(PageNumber::new(1, 4, 0)));
    assert!(mem.metadata.is_marked(&mem.layout, 2));
    assert_eq!(allocate(&mut mem, PAGE), Ok(PageNumber::new(1, 10, 0)));
}

#[test]
fn repair_takes_pages_of_all_regions() {
    let mut mem = file(CAPACITY);
    let pages = [PageNumber::new(0, 0, 4), PageNumber::new(3, 1, 1), PageNumber::new(8, 11, 0)];
    assert!(mem.are_disjoint_blocks(&pages));
    for event in [
        RepairEvent::Start,
        RepairEvent::Flushed(Ok(())),
        RepairEvent::StateFlushed(Ok(())),
        RepairEvent::CleanFlushed(Ok(())),
    ] {
        mem.repair_allocator(&pages, event);
    }
    // Sixteen pages, two and one are taken
    assert_eq!(mem.count_free_pages(), Ok(140 - 19));
    for page in pages {
        assert!(mem.is_in_use(page));
    }
    assert!(!mem.needs_repair().unwrap());
}
