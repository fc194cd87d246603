use page_store::bytes::{read_u64, write_u64};
use page_store::header::{
    MetadataAccessor, TransactionAccessor, TransactionMutator, DB_HEADER_SIZE, GOD_BYTE_OFFSET,
    MAGICNUMBER, TRANSACTION_SIZE,
};
use page_store::layout::DatabaseLayout;
use page_store::page_number::PageNumber;

fn blank() -> MetadataAccessor {
    MetadataAccessor::new(vec![0u8; DB_HEADER_SIZE])
}

#[test]
fn numbers_are_little_endian() {
    let mut data = vec![0u8; 12];
    write_u64(&mut data, 2, 0x0102030405060708);
    assert_eq!(data, vec![0, 0, 8, 7, 6, 5, 4, 3, 2, 1, 0, 0]);
    assert_eq!(read_u64(&data, 2), 0x0102030405060708);
}

#[test]
fn slot_layout() {
    let mut data = vec![0u8; TRANSACTION_SIZE];
    let mut slot = TransactionMutator::new(&mut data);
    slot.set_version(3);
    slot.set_root_page(Some(PageNumber::new(2, 5, 1)));
    slot.set_freed_root(Some(PageNumber::new(0, 6, 0)));
    slot.set_last_committed_transaction_id(258);
    assert_eq!(data[0], 3);
    assert_eq!(data[1], 1);
    assert_eq!(data[2], 1);
    assert_eq!(data[8..16], [5, 0, 0, 0, 2, 0, 0, 8]);
    assert_eq!(data[16..24], [6, 0, 0, 0, 0, 0, 0, 0]);
    assert_eq!(data[24..32], [2, 1, 0, 0, 0, 0, 0, 0]);
    let slot = TransactionAccessor::new(&data);
    assert_eq!(slot.get_version(), 3);
    assert_eq!(slot.get_root_page(), Some(PageNumber::new(2, 5, 1)));
    assert_eq!(slot.get_freed_root_page(), Some(PageNumber::new(0, 6, 0)));
    assert_eq!(slot.get_last_committed_transaction_id(), 258);
}

#[test]
fn root_can_be_removed() {
    let mut data = vec![0u8; TRANSACTION_SIZE];
    let mut slot = TransactionMutator::new(&mut data);
    slot.set_root_page(Some(PageNumber::new(2, 5, 1)));
    slot.set_root_page(None);
    slot.set_freed_root(Some(PageNumber::new(2, 5, 1)));
    slot.set_freed_root(None);
    assert_eq!(TransactionAccessor::new(&data).get_root_page(), None);
    assert_eq!(TransactionAccessor::new(&data).get_freed_root_page(), None);
    // The number stays
    assert_eq!(data[8], 5);
}

#[test]
fn stored_layout_is_read_back() {
    let layout = DatabaseLayout::calculate(1024 * 1024, 500_000, 1024 * 1024, 4096).unwrap();
    let mut data = vec![0u8; TRANSACTION_SIZE];
    TransactionMutator::new(&mut data).set_data_section_layout(&layout);
    assert_eq!(TransactionAccessor::new(&data).get_data_section_layout(), layout);
    assert_eq!(layout.to_le_bytes().len(), DatabaseLayout::serialized_size());
}

#[test]
fn god_byte_flags_are_independent() {
    let mut metadata = blank();
    metadata.set_allocator_dirty(true);
    assert_eq!(metadata.mmap[GOD_BYTE_OFFSET], 2);
    metadata.swap_primary();
    assert_eq!(metadata.mmap[GOD_BYTE_OFFSET], 3);
    metadata.set_allocator_dirty(false);
    assert_eq!(metadata.mmap[GOD_BYTE_OFFSET], 1);
    assert!(!metadata.get_allocator_dirty());
    metadata.swap_primary();
    assert_eq!(metadata.mmap[GOD_BYTE_OFFSET], 0);
}

#[test]
fn swap_twice_is_nothing() {
    let mut metadata = blank();
    metadata.secondary_slot_mut().set_version(7);
    let before = metadata.mmap.clone();
    metadata.swap_primary();
    assert_eq!(metadata.primary_slot().get_version(), 7);
    metadata.swap_primary();
    assert_eq!(metadata.mmap, before);
}

#[test]
fn secondary_slot_is_the_other_one() {
    let mut metadata = blank();
    metadata.secondary_slot_mut().set_version(7);
    assert_eq!(metadata.mmap[256], 7);
    assert_eq!(metadata.primary_slot().get_version(), 0);
    assert_eq!(metadata.secondary_slot().get_version(), 7);
    metadata.swap_primary();
    metadata.secondary_slot_mut().set_version(8);
    assert_eq!(metadata.mmap[128], 8);
    assert_eq!(metadata.primary_slot().get_version(), 7);
    assert_eq!(metadata.secondary_slot().get_version(), 8);
}

#[test]
fn header_fields() {
    let mut metadata = blank();
    metadata.set_magic_number();
    metadata.set_page_size(4096);
    metadata.set_region_max_usable_bytes(0x0102);
    metadata.set_max_capacity(0x0304);
    assert_eq!(metadata.mmap[0..9], MAGICNUMBER);
    assert_eq!(metadata.mmap[9], 12);
    assert_eq!(metadata.mmap[16..18], [2, 1]);
    assert_eq!(metadata.mmap[24..26], [4, 3]);
    assert_eq!(metadata.get_magic_number(), MAGICNUMBER);
    assert_eq!(metadata.get_page_size(), 4096);
    assert_eq!(metadata.get_region_max_usable_bytes(), 0x0102);
    assert_eq!(metadata.get_max_capacity(), 0x0304);
}

#[test]
fn page_size_is_stored_as_its_exponent() {
    let mut metadata = blank();
    for (size, exponent) in [(1, 0), (2, 1), (512, 9), (12, 2), (0, usize::BITS as u8)] {
        metadata.set_page_size(size);
        assert_eq!(metadata.mmap[9], exponent);
    }
}

#[test]
fn mark_of_changes_is_set_once() {
    let mut metadata = blank();
    assert!(metadata.allocators_mut());
    assert!(!metadata.allocators_mut());
    assert!(metadata.get_allocator_dirty());
}

#[test]
fn page_number_round_trip() {
    for page in [
        PageNumber::new(0, 0, 0),
        PageNumber::new(1, 2, 3),
        PageNumber::new(0x07FF_FFFF, u32::MAX, 31),
    ] {
        assert_eq!(PageNumber::decode(page.encode()), page);
    }
    // The region keeps 27 bits
    assert_eq!(
        PageNumber::decode(PageNumber::new(0x0800_0001, 4, 2).encode()),
        PageNumber::new(1, 4, 2)
    );
    assert_eq!(PageNumber::serialized_size(), 8);
}

#[test]
fn page_address() {
    let range = PageNumber::new(2, 3, 1).address_range(1000, 10_000, 500, 64);
    assert_eq!(range, 21_884..22_012);
}
