use page_store::action::{
    Action, AllocateEvent, AllocatorEvent, CloseAction, CloseEvent, CommitAction, CommitEvent,
    RepairAction, RepairEvent,
};
use page_store::header::{
    ALLOCATOR_STATE_DIRTY, DB_HEADER_SIZE, DB_SIZE_OFFSET, FILE_FORMAT_VERSION, GOD_BYTE_OFFSET,
    MAGICNUMBER,
};
use page_store::layout::MIN_USABLE_PAGES;
use page_store::opening::{OpenAction, OpenEvent, OpenStage};
use page_store::page_manager::TransactionalMemory;
use page_store::page_number::PageNumber;
use page_store::Error;

const PAGE: usize = 4096;

fn open(
    file: Vec<u8>,
    max_capacity: usize,
    requested_page_size: Option<usize>,
    dynamic_growth: bool,
) -> Result<TransactionalMemory, Error> {
    let mut opening =
        TransactionalMemory::new(max_capacity, requested_page_size, PAGE, dynamic_growth)?;
    let mut action = opening.step(OpenEvent::Mapped(Ok(file)));
    loop {
        match action {
            OpenAction::Finish => {
                assert!(opening.metadata.is_openable());
                let (mem, sound) = opening.finish();
                assert!(sound);
                return Ok(mem);
            }
            OpenAction::Fail(e) => return Err(e),
            OpenAction::Resize(_) | OpenAction::Flush => {
                action = opening.step(OpenEvent::Finished(Ok(())));
            }
        }
    }
}

fn create(max_capacity: usize) -> TransactionalMemory {
    open(vec![], max_capacity, None, true).unwrap()
}

fn allocate(mem: &mut TransactionalMemory, size: usize) -> Result<PageNumber, Error> {
    assert!(mem.is_request(size));
    let mut event = AllocateEvent::Start;
    loop {
        match mem.allocate(size, event) {
            Action::Flush => event = AllocateEvent::Flushed(Ok(())),
            Action::Resize(_) => event = AllocateEvent::Resized(Ok(())),
            Action::Done(result) => return result,
        }
    }
}

fn free(mem: &mut TransactionalMemory, page: PageNumber) {
    assert!(mem.is_in_use(page));
    let mut event = AllocatorEvent::Start;
    loop {
        match mem.free(page, event) {
            Action::Flush => event = AllocatorEvent::Flushed(Ok(())),
            action => {
                assert_eq!(action, Action::Done(Ok(())));
                return;
            }
        }
    }
}

fn free_if_uncommitted(mem: &mut TransactionalMemory, page: PageNumber) -> bool {
    let mut event = AllocatorEvent::Start;
    loop {
        match mem.free_if_uncommitted(page, event) {
            Action::Flush => event = AllocatorEvent::Flushed(Ok(())),
            Action::Done(result) => return result.unwrap(),
            _ => unreachable!(),
        }
    }
}

fn rollback(mem: &mut TransactionalMemory) {
    let mut event = AllocatorEvent::Start;
    loop {
        match mem.rollback_uncommited_writes(event) {
            Action::Flush => event = AllocatorEvent::Flushed(Ok(())),
            action => {
                assert_eq!(action, Action::Done(Ok(())));
                return;
            }
        }
    }
}

fn commit(mem: &mut TransactionalMemory, root: Option<PageNumber>, id: u64) {
    assert_eq!(
        mem.commit(root, None, id, false, CommitEvent::Start),
        CommitAction::FlushSlot { eventual: false }
    );
    assert_eq!(
        mem.commit(root, None, id, false, CommitEvent::SlotFlushed(Ok(()))),
        CommitAction::FlushPrimary { eventual: false }
    );
    assert_eq!(
        mem.commit(root, None, id, false, CommitEvent::PrimaryFlushed(Ok(()))),
        CommitAction::Done(Ok(()))
    );
}

fn repair(mem: &mut TransactionalMemory, pages: &[PageNumber]) {
    assert!(mem.are_disjoint_blocks(pages));
    let mut event = RepairEvent::Start;
    loop {
        match mem.repair_allocator(pages, event) {
            RepairAction::FlushMark => event = RepairEvent::Flushed(Ok(())),
            RepairAction::FlushState => event = RepairEvent::StateFlushed(Ok(())),
            RepairAction::FlushClean => event = RepairEvent::CleanFlushed(Ok(())),
            RepairAction::Done(result) => return result.unwrap(),
        }
    }
}

/// Closes the file and returns its content.
fn close(mut mem: TransactionalMemory) -> Vec<u8> {
    let mut event = CloseEvent::Start;
    loop {
        match mem.close(event) {
            CloseAction::FlushSlot => event = CloseEvent::SlotFlushed(Ok(())),
            CloseAction::FlushPrimary => event = CloseEvent::PrimaryFlushed(Ok(())),
            CloseAction::Flush { commit_failed } => {
                assert!(!commit_failed);
                event = CloseEvent::Flushed(Ok(()));
            }
            CloseAction::FlushClean => event = CloseEvent::CleanFlushed(Ok(())),
            CloseAction::Done => return mem.metadata.mmap,
        }
    }
}

#[test]
fn repair_allocator() {
    let max_size = 1024 * 1024;
    let mut db = create(max_size);
    let root = allocate(&mut db, 5).unwrap();
    db.get_page_mut(root).memory_mut()[..5].copy_from_slice(b"hello");
    commit(&mut db, Some(root), 1);
    let free_pages = db.count_free_pages().unwrap();
    rollback(&mut db);
    let mut file = close(db);

    file[GOD_BYTE_OFFSET] |= ALLOCATOR_STATE_DIRTY;

    let mem = open(file, max_size, None, true).unwrap();
    assert!(mem.needs_repair().unwrap());
    let file = mem.metadata.mmap;

    let mut db2 = open(file, max_size, None, true).unwrap();
    repair(&mut db2, &[root]);
    assert!(!db2.needs_repair().unwrap());
    assert_eq!(free_pages, db2.count_free_pages().unwrap());
    assert_eq!(&db2.get_page(root).memory()[..5], b"hello");
    let root2 = allocate(&mut db2, 6).unwrap();
    assert_ne!(root, root2);
    db2.get_page_mut(root2).memory_mut()[..6].copy_from_slice(b"hello2");
    commit(&mut db2, Some(root2), 2);
    assert_eq!(db2.get_data_root(), Some(root2));
}

#[test]
fn too_small_db() {
    let result = open(vec![], 1, None, true);
    assert!(matches!(result, Err(Error::OutOfSpace)));

    let result = open(vec![], 1024, None, true);
    assert!(matches!(result, Err(Error::OutOfSpace)));

    let result = open(vec![], MIN_USABLE_PAGES * PAGE - 1, None, true);
    assert!(matches!(result, Err(Error::OutOfSpace)));
}

#[test]
fn smallest_db() {
    open(vec![], DB_HEADER_SIZE + (MIN_USABLE_PAGES + 2) * PAGE, None, true).unwrap();
}

#[test]
fn magic_number() {
    // Test compliance with some, but not all, provisions recommended by
    // IETF Memo "Care and Feeding of Magic Numbers"

    // Test that magic number is not valid utf-8
    assert!(std::str::from_utf8(&MAGICNUMBER).is_err());
    // Test there is a octet with high-bit set
    assert!(MAGICNUMBER.iter().any(|x| *x & 0x80 != 0));
    // Test there is a non-printable ASCII character
    assert!(MAGICNUMBER.iter().any(|x| *x < 0x20 || *x > 0x7E));
    // Test there is a printable ASCII character
    assert!(MAGICNUMBER.iter().any(|x| *x >= 0x20 && *x <= 0x7E));
    // Test there is a printable ISO-8859 that's non-ASCII printable
    assert!(MAGICNUMBER.iter().any(|x| *x >= 0xA0));
    // Test there is a ISO-8859 control character other than 0x09, 0x0A, 0x0C, 0x0D
    assert!(MAGICNUMBER.iter().any(|x| *x < 0x09
        || *x == 0x0B
        || (0x0E <= *x && *x <= 0x1F)
        || (0x7F <= *x && *x <= 0x9F)));
}

#[test]
fn room_for_header_but_not_for_database() {
    // Enough by the first test of the size, but without room for the allocators
    let result = open(vec![], DB_HEADER_SIZE + MIN_USABLE_PAGES * PAGE, None, true);
    assert!(matches!(result, Err(Error::OutOfSpace)));
}

#[test]
fn new_file_is_written_in_order() {
    let mut opening = TransactionalMemory::new(1024 * 1024, None, PAGE, false).unwrap();
    assert_eq!(opening.step(OpenEvent::Mapped(Ok(vec![]))), OpenAction::Resize(DB_HEADER_SIZE));
    let layout = opening.calculate_layout().unwrap();
    assert_eq!(
        opening.step(OpenEvent::Finished(Ok(()))),
        OpenAction::Resize(layout.len())
    );
    assert_eq!(opening.stage, OpenStage::SizingFile);
    assert_eq!(opening.step(OpenEvent::Finished(Ok(()))), OpenAction::Flush);
    // The header is blank, but for the mark
    assert!(opening.metadata.get_allocator_dirty());
    assert_eq!(opening.metadata.get_magic_number(), [0u8; 9]);
    assert_eq!(opening.metadata.mmap.len(), layout.len());
    assert_eq!(opening.step(OpenEvent::Finished(Ok(()))), OpenAction::Flush);
    // All is there, but for the magic number
    assert!(!opening.metadata.get_allocator_dirty());
    assert_eq!(opening.metadata.get_magic_number(), [0u8; 9]);
    assert_eq!(opening.metadata.get_page_size(), PAGE);
    assert_eq!(opening.metadata.get_max_capacity(), 1024 * 1024);
    assert_eq!(opening.metadata.get_region_max_usable_bytes(), 1024 * 1024);
    assert_eq!(opening.metadata.primary_slot().get_version(), FILE_FORMAT_VERSION);
    assert_eq!(opening.metadata.secondary_slot().get_version(), FILE_FORMAT_VERSION);
    assert_eq!(opening.metadata.primary_slot().get_data_section_layout(), layout);
    assert_eq!(opening.step(OpenEvent::Finished(Ok(()))), OpenAction::Flush);
    assert_eq!(opening.metadata.get_magic_number(), MAGICNUMBER);
    assert_eq!(opening.step(OpenEvent::Finished(Ok(()))), OpenAction::Finish);
    assert!(opening.metadata.is_sound());
    let (mem, sound) = opening.finish();
    assert!(sound);
    assert_eq!(mem.get_data_root(), None);
    assert_eq!(mem.get_freed_root(), None);
    assert_eq!(mem.get_last_committed_transaction_id(), Ok(0));
    assert_eq!(mem.get_page_size(), PAGE);
}

#[test]
fn unfinished_file_is_written_anew() {
    let mut opening = TransactionalMemory::new(1024 * 1024, None, PAGE, true).unwrap();
    opening.step(OpenEvent::Mapped(Ok(vec![])));
    while opening.stage != OpenStage::FlushingState {
        opening.step(OpenEvent::Finished(Ok(())));
    }
    let file = opening.metadata.mmap;
    let mem = open(file, 1024 * 1024, None, true).unwrap();
    assert_eq!(mem.count_free_pages(), create(1024 * 1024).count_free_pages());
}

#[test]
fn opening_reports_errors() {
    for failing in 0..6 {
        let mut opening = TransactionalMemory::new(1024 * 1024, None, PAGE, true).unwrap();
        let mut step = 0;
        let mut action = if failing == 0 {
            opening.step(OpenEvent::Mapped(Err(Error::Io)))
        } else {
            opening.step(OpenEvent::Mapped(Ok(vec![])))
        };
        while !matches!(action, OpenAction::Fail(_)) {
            step += 1;
            let outcome = if step == failing { Err(Error::Io) } else { Ok(()) };
            action = opening.step(OpenEvent::Finished(outcome));
        }
        assert_eq!(step, failing);
        assert_eq!(action, OpenAction::Fail(Error::Io));
        assert_eq!(opening.stage, OpenStage::Failed);
    }
}

#[test]
fn sizes_of_a_new_file() {
    // One region of 256 pages at most; the file itself starts with the room for all of them that
    // the capacity leaves: a page of file header and a page of region header come off
    let mem = open(vec![], 1024 * 1024, None, false).unwrap();
    assert_eq!(mem.layout.num_full_regions, 0);
    assert_eq!(mem.layout.trailing_pages, 254);
    assert_eq!(mem.layout.header_bytes, PAGE);
    assert_eq!(mem.layout.region_header_bytes, PAGE);
    assert_eq!(mem.layout.len(), 1024 * 1024);
    assert_eq!(mem.count_free_pages(), Ok(254));
    // A file that grows on demand starts with room for 1 MiB
    let mem = open(vec![], 64 * 1024 * 1024, None, true).unwrap();
    assert_eq!(mem.layout.usable_bytes(), 1024 * 1024);
}

#[test]
fn page_size_of_the_file_is_kept() {
    let file = close(open(vec![], 1024 * 1024, Some(512), true).unwrap());
    let mem = open(file, 1024 * 1024, None, true).unwrap();
    assert_eq!(mem.get_page_size(), 512);
}

#[test]
fn damaged_files_are_not_sound() {
    let mut mem = create(1024 * 1024);
    let root = allocate(&mut mem, 1).unwrap();
    commit(&mut mem, Some(root), 4);
    let file = close(mem);
    assert_eq!(file[GOD_BYTE_OFFSET], 0);
    let check = |at: usize, value: u8, openable: bool| {
        let mut damaged = file.clone();
        assert_ne!(damaged[at], value);
        damaged[at] = value;
        let mut opening = TransactionalMemory::new(1024 * 1024, None, PAGE, true).unwrap();
        assert_eq!(
            opening.step(OpenEvent::Mapped(Ok(damaged.clone()))),
            OpenAction::Finish
        );
        assert_eq!(opening.metadata.is_openable(), openable);
        if openable {
            assert!(!opening.metadata.is_sound());
            // The last commit can be read nonetheless
            let (mem, sound) = opening.finish();
            assert!(!sound);
            assert_eq!(mem.get_data_root(), Some(root));
            assert_eq!(mem.get_last_committed_transaction_id(), Ok(4));
            assert_eq!(mem.needs_repair(), Ok(false));
            assert_eq!(mem.metadata.mmap, damaged);
        }
    };
    // The version of either slot
    check(128, 99, false);
    check(256, 99, false);
    // The page size
    check(9, 200, false);
    check(9, 13, true);
    // The layout
    check(128 + 32 + 56, 1, true);
    check(128 + 32 + 23, 255, false);
    check(128 + 32 + 32, 200, false);
    // The state of the allocator of the first region
    check(PAGE + 1, 255, true);
}

#[test]
fn header_of_a_new_file() {
    let mem = create(1024 * 1024);
    let header = &mem.metadata.mmap[..DB_HEADER_SIZE];
    assert_eq!(header[GOD_BYTE_OFFSET], 1);
    assert!(header[11..16].iter().all(|b| *b == 0));
    assert!(header[32..128].iter().all(|b| *b == 0));
    for slot in [128, 256] {
        assert_eq!(header[slot], FILE_FORMAT_VERSION);
        assert!(header[slot + 1..slot + 32].iter().all(|b| *b == 0));
        assert!(header[slot + 96..slot + 128].iter().all(|b| *b == 0));
    }
}

#[test]
fn capacity_is_looked_at_before_it_is_computed_with() {
    // Ten pages of this size do not fit into the capacity, whatever it is
    let result = TransactionalMemory::new(usize::MAX / 2 + 6, Some(1 << 60), PAGE, true);
    assert!(matches!(result, Err(Error::OutOfSpace)));
}

#[test]
fn commit_writes_its_fields_and_no_other_byte() {
    let mut mem = create(1024 * 1024);
    let page = allocate(&mut mem, 1).unwrap();
    let other = PageNumber::new(3, 7, 2);
    commit(&mut mem, Some(other), 1);
    commit(&mut mem, Some(other), 2);
    // Padding of the slot that is written next
    mem.metadata.mmap[128 + 5] = 0xAB;
    mem.metadata.mmap[128 + 100] = 0xCD;
    let before = mem.metadata.mmap.clone();
    assert_eq!(before[GOD_BYTE_OFFSET], 3);
    mem.commit(None, Some(page), 0x0102, false, CommitEvent::Start);
    let written = mem.metadata.mmap.clone();
    let mut expected = before.clone();
    // The root is gone, its number stays
    expected[128 + 1] = 0;
    expected[128 + 2] = 1;
    expected[128 + 16..128 + 24].copy_from_slice(&page.encode().to_le_bytes());
    expected[128 + 24..128 + 32].copy_from_slice(&[2, 1, 0, 0, 0, 0, 0, 0]);
    assert!(written == expected);
    mem.commit(None, Some(page), 0x0102, false, CommitEvent::SlotFlushed(Ok(())));
    expected[GOD_BYTE_OFFSET] = 2;
    assert!(mem.metadata.mmap == expected);
}

#[test]
fn commit_is_read_back() {
    let mut mem = create(1024 * 1024);
    let page = allocate(&mut mem, 100).unwrap();
    assert!(mem.uncommitted(page));
    let other = PageNumber::new(3, 7, 2);
    assert_eq!(
        mem.commit(Some(page), Some(other), 42, false, CommitEvent::Start),
        CommitAction::FlushSlot { eventual: false }
    );
    // Not visible yet
    assert_eq!(mem.get_data_root(), None);
    assert_eq!(
        mem.commit(Some(page), Some(other), 42, false, CommitEvent::SlotFlushed(Ok(()))),
        CommitAction::FlushPrimary { eventual: false }
    );
    assert_eq!(
        mem.commit(Some(page), Some(other), 42, false, CommitEvent::PrimaryFlushed(Ok(()))),
        CommitAction::Done(Ok(()))
    );
    assert_eq!(mem.get_data_root(), Some(page));
    assert_eq!(mem.get_freed_root(), Some(other));
    assert_eq!(mem.get_last_committed_transaction_id(), Ok(42));
    assert!(!mem.uncommitted(page));
    assert!(mem.log_since_commit.is_empty());
}

#[test]
fn eventual_commit_asks_for_eventual_flushes() {
    let mut mem = create(1024 * 1024);
    assert_eq!(
        mem.commit(None, None, 1, true, CommitEvent::Start),
        CommitAction::FlushSlot { eventual: true }
    );
    assert_eq!(
        mem.commit(None, None, 1, true, CommitEvent::SlotFlushed(Ok(()))),
        CommitAction::FlushPrimary { eventual: true }
    );
    assert_eq!(
        mem.commit(None, None, 1, true, CommitEvent::PrimaryFlushed(Ok(()))),
        CommitAction::Done(Ok(()))
    );
}

#[test]
fn failed_flush_leaves_the_last_commit() {
    let mut mem = create(1024 * 1024);
    let first = allocate(&mut mem, 1).unwrap();
    commit(&mut mem, Some(first), 1);
    let second = allocate(&mut mem, 1).unwrap();
    mem.commit(Some(second), None, 2, false, CommitEvent::Start);
    assert_eq!(
        mem.commit(Some(second), None, 2, false, CommitEvent::SlotFlushed(Err(Error::Io))),
        CommitAction::Done(Err(Error::Io))
    );
    assert_eq!(mem.get_data_root(), Some(first));
    assert_eq!(mem.get_last_committed_transaction_id(), Ok(1));
    assert!(mem.uncommitted(second));
    // What a reader of the file finds
    let reopened = open(mem.metadata.mmap, 1024 * 1024, None, true).unwrap();
    assert_eq!(reopened.get_data_root(), Some(first));
}

#[test]
fn non_durable_commit_is_visible_but_not_primary() {
    let mut mem = create(1024 * 1024);
    let first = allocate(&mut mem, 1).unwrap();
    commit(&mut mem, Some(first), 1);
    let second = allocate(&mut mem, 1).unwrap();
    assert_eq!(mem.non_durable_commit(Some(second), Some(first), 2), Ok(()));
    assert_eq!(mem.get_data_root(), Some(second));
    assert_eq!(mem.get_freed_root(), Some(first));
    assert_eq!(mem.get_last_committed_transaction_id(), Ok(2));
    assert!(!mem.uncommitted(second));
    assert_eq!(mem.metadata.primary_slot().get_root_page(), Some(first));
    // Closing makes it durable
    let reopened = open(close(mem), 1024 * 1024, None, true).unwrap();
    assert_eq!(reopened.get_data_root(), Some(second));
    assert_eq!(reopened.get_last_committed_transaction_id(), Ok(2));
    assert!(!reopened.needs_repair().unwrap());
}

#[test]
fn close_reports_a_failed_commit() {
    let mut mem = create(1024 * 1024);
    mem.non_durable_commit(None, None, 1).unwrap();
    assert_eq!(mem.close(CloseEvent::Start), CloseAction::FlushSlot);
    assert_eq!(
        mem.close(CloseEvent::SlotFlushed(Err(Error::Io))),
        CloseAction::Flush { commit_failed: true }
    );
    assert_eq!(mem.close(CloseEvent::Flushed(Err(Error::Io))), CloseAction::Done);

    let mut mem = create(1024 * 1024);
    mem.non_durable_commit(None, None, 1).unwrap();
    mem.close(CloseEvent::Start);
    assert_eq!(mem.close(CloseEvent::SlotFlushed(Ok(()))), CloseAction::FlushPrimary);
    assert_eq!(
        mem.close(CloseEvent::PrimaryFlushed(Err(Error::Io))),
        CloseAction::Flush { commit_failed: true }
    );
}

#[test]
fn reopened_file_is_the_same() {
    let mut mem = create(1024 * 1024);
    let page = allocate(&mut mem, 3 * PAGE).unwrap();
    assert_eq!(page.page_order, 2);
    mem.get_page_mut(page).memory_mut().fill(7);
    commit(&mut mem, Some(page), 9);
    let free = mem.count_free_pages().unwrap();
    let layout = mem.layout;
    let mut mem = open(close(mem), 1024 * 1024, None, true).unwrap();
    assert!(!mem.needs_repair().unwrap());
    assert_eq!(mem.count_free_pages(), Ok(free));
    assert_eq!(mem.layout, layout);
    assert_eq!(mem.get_data_root(), Some(page));
    let bytes = mem.get_page(page);
    assert_eq!(bytes.get_page_number(), page);
    assert_eq!(bytes.memory().len(), 4 * PAGE);
    assert!(bytes.memory().iter().all(|b| *b == 7));
    // The page is still taken
    let next = allocate(&mut mem, 4 * PAGE).unwrap();
    assert_ne!(next, page);
}

#[test]
fn file_that_was_not_closed_needs_repair() {
    let mut mem = create(1024 * 1024);
    allocate(&mut mem, 1).unwrap();
    let mem = open(mem.metadata.mmap, 1024 * 1024, None, true).unwrap();
    assert!(mem.needs_repair().unwrap());
    assert!(mem.regional_allocators.is_none());
}

#[test]
fn first_change_asks_for_a_flush() {
    let mut mem = create(1024 * 1024);
    assert!(!mem.needs_repair().unwrap());
    let before = mem.metadata.mmap.clone();
    assert_eq!(mem.allocate(1, AllocateEvent::Start), Action::Flush);
    assert!(mem.needs_repair().unwrap());
    // Nothing but the mark has changed
    let changed: Vec<usize> =
        (0..before.len()).filter(|i| before[*i] != mem.metadata.mmap[*i]).collect();
    assert_eq!(changed, vec![GOD_BYTE_OFFSET]);
    assert_eq!(
        mem.allocate(1, AllocateEvent::Flushed(Err(Error::Io))),
        Action::Done(Err(Error::Io))
    );
    assert_eq!(mem.log_since_commit.len(), 0);
    assert!(matches!(mem.allocate(1, AllocateEvent::Start), Action::Done(Ok(_))));
}

#[test]
fn allocation_sizes() {
    let mut mem = create(16 * 1024 * 1024);
    for (size, order) in [
        (0, 0),
        (1, 0),
        (PAGE, 0),
        (PAGE + 1, 1),
        (2 * PAGE, 1),
        (2 * PAGE + 1, 2),
        (5 * PAGE, 3),
        (64 * PAGE, 6),
    ] {
        let page = allocate(&mut mem, size).unwrap();
        assert_eq!(page.page_order, order);
        assert!(mem.get_page(page).memory().len() >= size);
    }
}

#[test]
fn allocations_are_apart() {
    let mut mem = create(1024 * 1024);
    let mut pages: Vec<PageNumber> = vec![];
    for size in [1, 3 * PAGE, 1, 2 * PAGE, PAGE] {
        pages.push(allocate(&mut mem, size).unwrap());
    }
    for (i, page) in pages.iter().enumerate() {
        mem.get_page_mut(*page).memory_mut().fill(i as u8 + 1);
    }
    for (i, page) in pages.iter().enumerate() {
        assert!(mem.get_page(*page).memory().iter().all(|b| *b == i as u8 + 1));
    }
    assert!(mem.are_disjoint_blocks(&pages));
}

#[test]
fn count_follows_allocation_and_free() {
    let mut mem = create(1024 * 1024);
    let all = mem.count_free_pages().unwrap();
    let page = allocate(&mut mem, 4 * PAGE).unwrap();
    assert_eq!(mem.count_free_pages(), Ok(all - 4));
    let single = allocate(&mut mem, 1).unwrap();
    assert_eq!(mem.count_free_pages(), Ok(all - 5));
    free(&mut mem, page);
    assert_eq!(mem.count_free_pages(), Ok(all - 1));
    free(&mut mem, single);
    assert_eq!(mem.count_free_pages(), Ok(all));
}

#[test]
fn freed_page_is_zero_and_is_given_again() {
    let mut mem = create(1024 * 1024);
    let page = allocate(&mut mem, PAGE).unwrap();
    let other = allocate(&mut mem, PAGE).unwrap();
    mem.get_page_mut(page).memory_mut().fill(9);
    mem.get_page_mut(other).memory_mut().fill(8);
    free(&mut mem, page);
    assert!(mem.get_page(page).memory().iter().all(|b| *b == 0));
    assert!(mem.get_page(other).memory().iter().all(|b| *b == 8));
    assert_eq!(allocate(&mut mem, PAGE), Ok(page));
}

#[test]
fn free_reports_a_failed_flush() {
    let mut mem = create(1024 * 1024);
    let page = allocate(&mut mem, 1).unwrap();
    commit(&mut mem, Some(page), 1);
    let mut mem = open(close(mem), 1024 * 1024, None, true).unwrap();
    let count = mem.count_free_pages();
    assert_eq!(mem.free(page, AllocatorEvent::Start), Action::Flush);
    assert_eq!(
        mem.free(page, AllocatorEvent::Flushed(Err(Error::Io))),
        Action::Done(Err(Error::Io))
    );
    assert_eq!(mem.count_free_pages(), count);
    assert!(mem.is_in_use(page));
}

#[test]
fn free_if_uncommitted_frees_only_uncommitted_pages() {
    let mut mem = create(1024 * 1024);
    let all = mem.count_free_pages().unwrap();
    let committed = allocate(&mut mem, PAGE).unwrap();
    commit(&mut mem, Some(committed), 1);
    let page = allocate(&mut mem, PAGE).unwrap();
    assert!(free_if_uncommitted(&mut mem, page));
    assert!(!mem.uncommitted(page));
    assert_eq!(mem.count_free_pages(), Ok(all - 1));
    mem.get_page_mut(committed).memory_mut().fill(6);
    assert!(!free_if_uncommitted(&mut mem, committed));
    assert_eq!(mem.count_free_pages(), Ok(all - 1));
    assert!(mem.is_in_use(committed));
    assert!(mem.get_page(committed).memory().iter().all(|b| *b == 6));
    // A file that was just opened has no uncommitted pages, and the first call asks for no flush
    let mut mem = open(close(mem), 1024 * 1024, None, true).unwrap();
    assert_eq!(
        mem.free_if_uncommitted(committed, AllocatorEvent::Start),
        Action::Done(Ok(false))
    );
    assert_eq!(mem.log_since_commit.len(), 0);
}

#[test]
fn rollback_undoes_everything() {
    let mut mem = create(1024 * 1024);
    let first = allocate(&mut mem, PAGE).unwrap();
    let second = allocate(&mut mem, 2 * PAGE).unwrap();
    commit(&mut mem, Some(first), 1);
    let count = mem.count_free_pages();
    let third = allocate(&mut mem, 8 * PAGE).unwrap();
    free(&mut mem, second);
    let fourth = allocate(&mut mem, PAGE).unwrap();
    assert!(free_if_uncommitted(&mut mem, fourth));
    rollback(&mut mem);
    assert_eq!(mem.count_free_pages(), count);
    assert!(mem.is_in_use(first));
    assert!(mem.is_in_use(second));
    assert!(!mem.is_in_use(third));
    assert!(!mem.uncommitted(third));
    assert_eq!(mem.log_since_commit.len(), 0);
    assert_eq!(mem.get_data_root(), Some(first));
    assert_eq!(mem.get_last_committed_transaction_id(), Ok(1));
}

#[test]
fn rollback_after_non_durable_commit_goes_back_to_it() {
    let mut mem = create(1024 * 1024);
    let first = allocate(&mut mem, PAGE).unwrap();
    mem.non_durable_commit(Some(first), None, 1).unwrap();
    let second = allocate(&mut mem, PAGE).unwrap();
    rollback(&mut mem);
    assert!(mem.is_in_use(first));
    assert!(!mem.is_in_use(second));
    assert_eq!(mem.get_data_root(), Some(first));
}

#[test]
fn rollback_reports_a_failed_flush() {
    let mut mem = create(1024 * 1024);
    assert_eq!(mem.rollback_uncommited_writes(AllocatorEvent::Start), Action::Flush);
    assert_eq!(
        mem.rollback_uncommited_writes(AllocatorEvent::Flushed(Err(Error::Io))),
        Action::Done(Err(Error::Io))
    );
}

#[test]
fn full_region_is_marked_and_unmarked() {
    let mut mem = open(vec![], DB_HEADER_SIZE + 12 * PAGE, None, false).unwrap();
    let mut pages: Vec<PageNumber> = vec![];
    for _ in 0..10 {
        pages.push(allocate(&mut mem, 1).unwrap());
    }
    assert!(!mem.metadata.is_marked(&mem.layout, 0));
    assert_eq!(allocate(&mut mem, 1), Err(Error::OutOfSpace));
    assert!(mem.metadata.is_marked(&mem.layout, 0));
    assert_eq!(mem.count_free_pages(), Ok(0));
    free(&mut mem, pages[3]);
    assert!(!mem.metadata.is_marked(&mem.layout, 0));
    assert_eq!(allocate(&mut mem, 1), Ok(pages[3]));
}

#[test]
fn larger_request_does_not_mark_a_region() {
    let mut mem = open(vec![], DB_HEADER_SIZE + 12 * PAGE, None, false).unwrap();
    assert_eq!(allocate(&mut mem, 16 * PAGE), Err(Error::OutOfSpace));
    assert!(!mem.metadata.is_marked(&mem.layout, 0));
    assert!(allocate(&mut mem, 1).is_ok());
}

#[test]
fn file_grows_on_demand() {
    let max = 64 * 1024 * 1024;
    let mut mem = create(max);
    let available = mem.count_free_pages().unwrap();
    let len = mem.layout.len();
    let pages = mem.layout.usable_bytes() / PAGE;
    assert_eq!(pages, 256);
    for _ in 0..pages {
        allocate(&mut mem, 1).unwrap();
    }
    assert_eq!(mem.layout.len(), len);
    assert_eq!(mem.allocate(1, AllocateEvent::Start), Action::Resize(len + 256 * PAGE));
    assert!(matches!(mem.allocate(1, AllocateEvent::Resized(Ok(()))), Action::Done(Ok(_))));
    assert_eq!(mem.layout.usable_bytes(), 512 * PAGE);
    assert_eq!(mem.metadata.mmap.len(), mem.layout.len());
    // What is available is free pages and room to grow
    assert_eq!(mem.count_free_pages(), Ok(available - 257));
    // A large request makes the file grow by twice its size
    let page = allocate(&mut mem, 1024 * PAGE).unwrap();
    assert_eq!(page.page_order, 10);
    assert_eq!(mem.layout.usable_bytes(), (512 + 2048) * PAGE);
}

#[test]
fn failed_resize_is_reported() {
    let mut mem = create(64 * 1024 * 1024);
    let layout = mem.layout;
    let flush = mem.allocate(1024 * PAGE, AllocateEvent::Start);
    assert_eq!(flush, Action::Flush);
    assert!(matches!(
        mem.allocate(1024 * PAGE, AllocateEvent::Flushed(Ok(()))),
        Action::Resize(_)
    ));
    assert_eq!(
        mem.allocate(1024 * PAGE, AllocateEvent::Resized(Err(Error::Io))),
        Action::Done(Err(Error::Io))
    );
    assert_eq!(mem.layout, layout);
}

#[test]
fn file_does_not_outgrow_its_capacity() {
    let max = 4 * 1024 * 1024;
    let mut mem = create(max);
    let mut count = 0;
    while allocate(&mut mem, 1).is_ok() {
        count += 1;
    }
    assert!(mem.layout.len() <= max);
    assert_eq!(mem.count_free_pages(), Ok(0));
    assert_eq!(count * PAGE, mem.layout.usable_bytes());
    assert_eq!(allocate(&mut mem, 1), Err(Error::OutOfSpace));
}

#[test]
fn growth_keeps_pages() {
    let mut mem = create(64 * 1024 * 1024);
    let page = allocate(&mut mem, PAGE).unwrap();
    mem.get_page_mut(page).memory_mut().fill(5);
    allocate(&mut mem, 2048 * PAGE).unwrap();
    assert!(mem.get_page(page).memory().iter().all(|b| *b == 5));
    assert!(mem.is_in_use(page));
}

#[test]
fn rollback_takes_back_the_layout() {
    let mut mem = create(64 * 1024 * 1024);
    let layout = mem.layout;
    commit(&mut mem, None, 1);
    let available = mem.count_free_pages();
    allocate(&mut mem, 1024 * PAGE).unwrap();
    assert_ne!(mem.layout, layout);
    rollback(&mut mem);
    assert_eq!(mem.layout, layout);
    assert_eq!(mem.count_free_pages(), available);
    // The page that was rolled back can be had again
    assert!(allocate(&mut mem, 1024 * PAGE).is_ok());
}

#[test]
fn rollback_after_a_rollback_changes_nothing() {
    let mut mem = create(64 * 1024 * 1024);
    allocate(&mut mem, 1024 * PAGE).unwrap();
    rollback(&mut mem);
    let once = mem.metadata.mmap.clone();
    let layout = mem.layout;
    rollback(&mut mem);
    assert!(mem.metadata.mmap == once);
    assert_eq!(mem.layout, layout);
}

#[test]
fn reopening_after_a_growth_that_was_rolled_back() {
    let mut mem = create(64 * 1024 * 1024);
    let root = allocate(&mut mem, 1).unwrap();
    commit(&mut mem, Some(root), 1);
    let available = mem.count_free_pages();
    let layout = mem.layout;
    allocate(&mut mem, 1024 * PAGE).unwrap();
    rollback(&mut mem);
    let mut mem = open(close(mem), 64 * 1024 * 1024, None, true).unwrap();
    assert!(!mem.needs_repair().unwrap());
    assert_eq!(mem.layout, layout);
    assert_eq!(mem.count_free_pages(), available);
    assert!(allocate(&mut mem, 1024 * PAGE).is_ok());
}

#[test]
fn reopening_after_a_growth_that_was_not_committed() {
    let mut mem = create(64 * 1024 * 1024);
    let root = allocate(&mut mem, 1).unwrap();
    commit(&mut mem, Some(root), 1);
    let layout = mem.layout;
    let available = mem.count_free_pages().unwrap();
    let lost = allocate(&mut mem, 1).unwrap();
    let grown = allocate(&mut mem, 1024 * PAGE).unwrap();
    assert_ne!(mem.layout, layout);
    // The pages that the file gained are no part of the last commit; those that were taken are
    // still taken
    let file = close(mem);
    let mut mem = open(file.clone(), 64 * 1024 * 1024, None, true).unwrap();
    assert!(mem.metadata.mmap == file);
    assert!(!mem.trimmed);
    assert_eq!(mem.layout, layout);
    assert_eq!(mem.count_free_pages(), Ok(available - 1));
    assert!(mem.is_in_use(root));
    assert!(mem.is_in_use(lost));
    assert!(!mem.is_page(grown));
    let mut pages = 0;
    while mem.layout == layout {
        allocate(&mut mem, 1).unwrap();
        pages += 1;
    }
    assert_eq!(pages, layout.usable_bytes() / PAGE - 1);
}

#[test]
fn state_is_trimmed_only_under_the_mark() {
    let mut mem = create(64 * 1024 * 1024);
    let root = allocate(&mut mem, 1).unwrap();
    commit(&mut mem, Some(root), 1);
    allocate(&mut mem, 1024 * PAGE).unwrap();
    let file = close(mem);
    let reopened = || open(file.clone(), 64 * 1024 * 1024, None, true).unwrap();

    // The mark comes first, and is flushed, before anything else of the allocators changes
    let mut marked = file.clone();
    marked[GOD_BYTE_OFFSET] |= ALLOCATOR_STATE_DIRTY;
    let mut mem = reopened();
    assert_eq!(mem.allocate(1, AllocateEvent::Start), Action::Flush);
    assert!(mem.metadata.mmap == marked);
    assert!(matches!(mem.allocate(1, AllocateEvent::Flushed(Ok(()))), Action::Done(Ok(_))));
    assert!(mem.trimmed);
    let mut mem = reopened();
    assert_eq!(mem.rollback_uncommited_writes(AllocatorEvent::Start), Action::Flush);
    assert!(mem.metadata.mmap == marked);
    assert_eq!(
        mem.rollback_uncommited_writes(AllocatorEvent::Flushed(Ok(()))),
        Action::Done(Ok(()))
    );
    assert!(mem.trimmed);
    let mut mem = reopened();
    assert_eq!(mem.free(root, AllocatorEvent::Start), Action::Flush);
    assert!(!mem.trimmed);
    let region = PAGE..2 * PAGE;
    assert!(mem.metadata.mmap[region.clone()] == file[region]);
    assert_eq!(mem.free(root, AllocatorEvent::Flushed(Ok(()))), Action::Done(Ok(())));
    assert!(mem.trimmed);
    // What is not changed stays as it is
    let mut mem = reopened();
    mem.non_durable_commit(None, None, 7).unwrap();
    let file = close(mem);
    let mem = open(file.clone(), 64 * 1024 * 1024, None, true).unwrap();
    assert!(!mem.trimmed);
    assert_eq!(mem.get_last_committed_transaction_id(), Ok(7));
    // A flush of the mark that is cut short leaves a file that can be worked with
    let mut mem = open(file.clone(), 64 * 1024 * 1024, None, true).unwrap();
    mem.allocate(1, AllocateEvent::Start);
    for step in 1..20 {
        let torn = open(mix(&file, &mem.metadata.mmap, step), 64 * 1024 * 1024, None, true).unwrap();
        assert!(torn.needs_repair().unwrap() || torn.metadata.mmap == file);
    }
}

#[test]
fn file_without_allocators_stays_marked_when_it_is_closed() {
    let mut mem = create(1024 * 1024);
    allocate(&mut mem, 1).unwrap();
    let mem = open(mem.metadata.mmap, 1024 * 1024, None, true).unwrap();
    assert!(mem.needs_repair().unwrap());
    let file = close(mem);
    let mut mem = open(file, 1024 * 1024, None, true).unwrap();
    assert!(mem.needs_repair().unwrap());
    repair(&mut mem, &[]);
    let mem = open(close(mem), 1024 * 1024, None, true).unwrap();
    assert!(!mem.needs_repair().unwrap());
}

#[test]
fn failed_second_flush_after_a_non_durable_commit() {
    let mut mem = create(64 * 1024 * 1024);
    let first = allocate(&mut mem, 1024 * PAGE).unwrap();
    mem.non_durable_commit(Some(first), None, 1).unwrap();
    let second = allocate(&mut mem, 1).unwrap();
    mem.commit(Some(second), None, 2, false, CommitEvent::Start);
    mem.commit(Some(second), None, 2, false, CommitEvent::SlotFlushed(Ok(())));
    assert_eq!(
        mem.commit(Some(second), None, 2, false, CommitEvent::PrimaryFlushed(Err(Error::Io))),
        CommitAction::Done(Err(Error::Io))
    );
    // Reads are served from what is now the other slot
    assert_eq!(mem.get_data_root(), None);
    rollback(&mut mem);
    let third = allocate(&mut mem, 1).unwrap();
    commit(&mut mem, Some(third), 3);
    let mem = open(close(mem), 64 * 1024 * 1024, None, true).unwrap();
    assert_eq!(mem.get_data_root(), Some(third));
    assert!(!mem.needs_repair().unwrap());
}

#[test]
fn repair_takes_back_the_mark_of_a_full_region() {
    let mut mem = open(vec![], DB_HEADER_SIZE + 12 * PAGE, None, false).unwrap();
    let first = allocate(&mut mem, 1).unwrap();
    while allocate(&mut mem, 1).is_ok() {}
    assert!(mem.metadata.is_marked(&mem.layout, 0));
    commit(&mut mem, Some(first), 1);
    allocate(&mut mem, 1).unwrap_err();
    let capacity = DB_HEADER_SIZE + 12 * PAGE;
    let mut mem = open(mem.metadata.mmap, capacity, None, false).unwrap();
    assert!(mem.needs_repair().unwrap());
    repair(&mut mem, &[first]);
    assert!(!mem.metadata.is_marked(&mem.layout, 0));
    assert_eq!(mem.count_free_pages(), Ok(9));
    assert!(allocate(&mut mem, 1).is_ok());
}

#[test]
fn all_pages_can_be_had_and_given_back() {
    let mut mem = open(vec![], 64 * 1024, Some(64), false).unwrap();
    let all = mem.count_free_pages().unwrap();
    assert_eq!(all, mem.layout.usable_bytes() / 64);
    let mut pages: Vec<PageNumber> = vec![];
    while let Ok(page) = allocate(&mut mem, 64) {
        pages.push(page);
    }
    assert_eq!(pages.len(), all);
    for page in &pages {
        free(&mut mem, *page);
    }
    assert_eq!(mem.count_free_pages(), Ok(all));
}

#[test]
fn requests_that_cannot_be_computed_with() {
    let mem = create(64 * 1024 * 1024);
    assert!(mem.is_request(1024 * 1024));
    assert!(!mem.is_request(usize::MAX));
    assert!(!mem.is_request(usize::MAX - PAGE + 1));
}

#[test]
fn repair_leaves_the_given_pages_in_use() {
    let mut mem = create(1024 * 1024);
    let all = mem.count_free_pages().unwrap();
    let a = PageNumber::new(0, 1, 3);
    let b = PageNumber::new(0, 3, 0);
    repair(&mut mem, &[a, b]);
    assert_eq!(mem.count_free_pages(), Ok(all - 9));
    assert!(mem.is_in_use(a));
    assert!(mem.is_in_use(b));
    assert!(!mem.is_in_use(PageNumber::new(0, 2, 0)));
    assert!(!mem.are_disjoint_blocks(&[a, PageNumber::new(0, 8, 0)]));
    assert!(!mem.are_disjoint_blocks(&[PageNumber::new(1, 0, 0)]));
}

#[test]
fn repair_reports_failed_flushes() {
    let mut mem = create(1024 * 1024);
    assert_eq!(mem.repair_allocator(&[], RepairEvent::Start), RepairAction::FlushMark);
    assert_eq!(
        mem.repair_allocator(&[], RepairEvent::Flushed(Err(Error::Io))),
        RepairAction::Done(Err(Error::Io))
    );
    assert_eq!(
        mem.repair_allocator(&[], RepairEvent::StateFlushed(Err(Error::Io))),
        RepairAction::Done(Err(Error::Io))
    );
    assert_eq!(
        mem.repair_allocator(&[], RepairEvent::CleanFlushed(Err(Error::Io))),
        RepairAction::Done(Err(Error::Io))
    );
    assert!(mem.needs_repair().unwrap());
}

#[test]
fn pages_in_memory() {
    let mem = create(1024 * 1024);
    assert!(mem.is_in_memory(PageNumber::new(0, 253, 0)));
    assert!(!mem.is_in_memory(PageNumber::new(0, 254, 0)));
    assert!(!mem.is_in_memory(PageNumber::new(1, 0, 0)));
    assert!(!mem.is_in_memory(PageNumber::new(0, 0, 200)));
    assert!(!mem.is_in_memory(PageNumber::new(u32::MAX, u32::MAX, 20)));
}

#[test]
fn db_size_is_in_the_header() {
    let mem = create(1024 * 1024);
    let data = &mem.metadata.mmap[DB_SIZE_OFFSET..DB_SIZE_OFFSET + 8];
    assert_eq!(page_store::header::decode_db_size(data), 1024 * 1024);
}

/// A mix of two contents of a file: every `step`-th byte is from the second.
fn mix(before: &[u8], after: &[u8], step: usize) -> Vec<u8> {
    assert_eq!(before.len(), after.len());
    (0..before.len()).map(|i| if i % step == 0 { after[i] } else { before[i] }).collect()
}

#[test]
fn commit_that_is_cut_short_is_whole_or_not_there() {
    let mut mem = create(1024 * 1024);
    let first = allocate(&mut mem, 1).unwrap();
    commit(&mut mem, Some(first), 1);
    let second = allocate(&mut mem, 1).unwrap();
    let before = mem.metadata.mmap.clone();
    mem.commit(Some(second), Some(first), 2, false, CommitEvent::Start);
    let written = mem.metadata.mmap.clone();
    mem.commit(Some(second), Some(first), 2, false, CommitEvent::SlotFlushed(Ok(())));
    let swapped = mem.metadata.mmap.clone();
    for step in 1..20 {
        let file = mix(&before, &written, step);
        let found = open(file, 1024 * 1024, None, true).unwrap();
        assert_eq!(found.get_data_root(), Some(first));
        assert_eq!(found.get_last_committed_transaction_id(), Ok(1));
        assert!(found.needs_repair().unwrap());
        let file = mix(&written, &swapped, step);
        let found = open(file, 1024 * 1024, None, true).unwrap();
        if found.get_last_committed_transaction_id() == Ok(2) {
            assert_eq!(found.get_data_root(), Some(second));
            assert_eq!(found.get_freed_root(), Some(first));
        } else {
            assert_eq!(found.get_data_root(), Some(first));
            assert_eq!(found.get_freed_root(), None);
        }
    }
}

#[test]
fn creation_that_is_cut_short_starts_anew() {
    let mut opening = TransactionalMemory::new(64 * 1024, Some(64), PAGE, true).unwrap();
    opening.step(OpenEvent::Mapped(Ok(vec![7u8; 64 * 1024])));
    assert_eq!(opening.stage, OpenStage::FlushingMark);
    while opening.stage != OpenStage::FlushingMagic {
        let before = opening.metadata.mmap.clone();
        opening.step(OpenEvent::Finished(Ok(())));
        for step in 2..20 {
            let file = mix(&before, &opening.metadata.mmap, step);
            let mem = open(file, 64 * 1024, Some(64), true).unwrap();
            assert_eq!(mem.get_data_root(), None);
            assert!(!mem.needs_repair().unwrap());
            assert_eq!(mem.count_free_pages().unwrap(), mem.layout.usable_bytes() / 64);
        }
    }
}
