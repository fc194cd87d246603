//! The header of the database file.
//!
//! The first 128 bytes:
//! - 9 bytes: magic number
//! - 1 byte: page size exponent
//! - 1 byte: god byte
//! - 5 bytes: padding to 64-bit aligned
//! - 8 bytes: region max usable bytes
//! - 8 bytes: database max size
//!
//! Commit slot 0, the next 128 bytes:
//! - 1 byte: version
//! - 1 byte: != 0 if root page is non-null
//! - 1 byte: != 0 if freed table root page is non-null
//! - 5 bytes: padding
//! - 8 bytes: root page
//! - 8 bytes: freed table root page
//! - 8 bytes: last committed transaction id
//! - 64 bytes: active database layout
//!
//! Commit slot 1, the next 128 bytes, has the form of slot 0. The god byte says which of the two is
//! the primary slot, and whether the allocator state in the file may be out of date.

use crate::bytes;
use crate::bytes::{copy_into, range_mut, read_u64, write_u64};
use crate::layout::DatabaseLayout;
use crate::math;
use crate::math::{exp2, trailing_zeros};
use crate::page_number::PageNumber;
use vstd::prelude::*;
use vstd::slice::slice_subrange;

verus! {

/// The version of the file format.
pub const FILE_FORMAT_VERSION: u8 = 100;

// Inspired by PNG's magic number
pub const MAGICNUMBER: [u8; 9] = [0x72, 0x65, 0x64, 0x62, 0x1A, 0x0A, 0xA9, 0x0D, 0x0A];

pub const PAGE_SIZE_OFFSET: usize = 9;

pub const GOD_BYTE_OFFSET: usize = PAGE_SIZE_OFFSET + 1;

pub const RESERVED: usize = 5;

pub const REGION_MAX_USABLE_OFFSET: usize = GOD_BYTE_OFFSET + 1 + RESERVED;

pub const DB_SIZE_OFFSET: usize = REGION_MAX_USABLE_OFFSET + 8;

pub const TRANSACTION_SIZE: usize = 128;

pub const TRANSACTION_0_OFFSET: usize = 128;

pub const TRANSACTION_1_OFFSET: usize = TRANSACTION_0_OFFSET + TRANSACTION_SIZE;

/// The bytes before the region allocator.
pub const DB_HEADER_SIZE: usize = TRANSACTION_1_OFFSET + TRANSACTION_SIZE;

// God byte flags
pub const PRIMARY_BIT: u8 = 1;

pub const ALLOCATOR_STATE_DIRTY: u8 = 2;

// Structure of each commit slot
pub const VERSION_OFFSET: usize = 0;

pub const ROOT_NON_NULL_OFFSET: usize = 1;

pub const FREED_ROOT_NON_NULL_OFFSET: usize = ROOT_NON_NULL_OFFSET + 1;

pub const PADDING: usize = 5;

pub const ROOT_PAGE_OFFSET: usize = FREED_ROOT_NON_NULL_OFFSET + 1 + PADDING;

pub const FREED_ROOT_OFFSET: usize = ROOT_PAGE_OFFSET + 8;

pub const TRANSACTION_ID_OFFSET: usize = FREED_ROOT_OFFSET + 8;

pub const DATA_LAYOUT_OFFSET: usize = TRANSACTION_ID_OFFSET + 8;

/// The root that a slot holds: the byte at `flag_at` says whether there is one, the number at `at`
/// which.
pub open spec fn root_at(slot: Seq<u8>, flag_at: int, at: int) -> Option<PageNumber> {
    if slot[flag_at] == 0 {
        None
    } else {
        Some(PageNumber::spec_decode(bytes::u64_at(slot, at)))
    }
}

/// `slot` with a root written to it.
pub open spec fn with_root(
    slot: Seq<u8>,
    flag_at: int,
    at: int,
    root: Option<PageNumber>,
) -> Seq<u8> {
    match root {
        Some(page) => bytes::with_u64(slot, at, page.spec_encode()).update(flag_at, 1),
        None => slot.update(flag_at, 0),
    }
}

/// What a commit slot says.
pub struct CommitSlot {
    pub version: u8,
    pub root: Option<PageNumber>,
    pub freed_root: Option<PageNumber>,
    pub transaction_id: u64,
    pub layout: DatabaseLayout,
}

/// The layout that the bytes of a slot hold.
pub open spec fn layout_at(slot: Seq<u8>) -> DatabaseLayout {
    DatabaseLayout::spec_from_le_bytes(
        slot.subrange(DATA_LAYOUT_OFFSET as int, DATA_LAYOUT_OFFSET + 64),
    )
}

/// The content of the bytes of a slot.
pub open spec fn commit_slot(slot: Seq<u8>) -> CommitSlot {
    CommitSlot {
        version: slot[VERSION_OFFSET as int],
        root: root_at(slot, ROOT_NON_NULL_OFFSET as int, ROOT_PAGE_OFFSET as int),
        freed_root: root_at(slot, FREED_ROOT_NON_NULL_OFFSET as int, FREED_ROOT_OFFSET as int),
        transaction_id: bytes::u64_at(slot, TRANSACTION_ID_OFFSET as int),
        layout: layout_at(slot),
    }
}

/// Whether a root can be stored so that it is read back.
pub open spec fn storable_root(root: Option<PageNumber>) -> bool {
    root is Some ==> root->0.storable()
}

/// What is read back of a root.
pub open spec fn stored_root(root: Option<PageNumber>) -> Option<PageNumber> {
    match root {
        Some(page) => Some(PageNumber::spec_decode(page.spec_encode())),
        None => None,
    }
}

/// A root that can be stored is read back as it was written, and what is read back can be stored.
pub proof fn lemma_stored_root(root: Option<PageNumber>)
    ensures
        storable_root(root) ==> stored_root(root) == root,
        storable_root(stored_root(root)),
{
    if let Some(page) = root {
        if page.storable() {
            page.lemma_encode_round_trip();
        }
    }
}

/// The root of a slot can be stored.
pub proof fn lemma_root_storable(slot: Seq<u8>, flag_at: int, at: int)
    ensures
        storable_root(root_at(slot, flag_at, at)),
{
    let x = bytes::u64_at(slot, at);
    assert(x as int / 0x0800_0000_0000_0000 < 32);
}

/// Reads a commit slot.
pub struct TransactionAccessor<'a> {
    pub mem: &'a [u8],
}

impl<'a> TransactionAccessor<'a> {
    pub open spec fn view(self) -> Seq<u8> {
        self.mem@
    }

    pub fn new(mem: &'a [u8]) -> (slot: Self)
        ensures
            slot@ == mem@,
    {
        TransactionAccessor { mem }
    }

    pub fn get_root_page(&self) -> (root: Option<PageNumber>)
        requires
            self@.len() == TRANSACTION_SIZE,
        ensures
            root == commit_slot(self@).root,
    {
        if self.mem[ROOT_NON_NULL_OFFSET] == 0 {
            None
        } else {
            Some(PageNumber::decode(read_u64(self.mem, ROOT_PAGE_OFFSET)))
        }
    }

    pub fn get_freed_root_page(&self) -> (root: Option<PageNumber>)
        requires
            self@.len() == TRANSACTION_SIZE,
        ensures
            root == commit_slot(self@).freed_root,
    {
        if self.mem[FREED_ROOT_NON_NULL_OFFSET] == 0 {
            None
        } else {
            Some(PageNumber::decode(read_u64(self.mem, FREED_ROOT_OFFSET)))
        }
    }

    pub fn get_last_committed_transaction_id(&self) -> (id: u64)
        requires
            self@.len() == TRANSACTION_SIZE,
        ensures
            id == commit_slot(self@).transaction_id,
    {
        read_u64(self.mem, TRANSACTION_ID_OFFSET)
    }

    pub fn get_data_section_layout(&self) -> (layout: DatabaseLayout)
        requires
            self@.len() == TRANSACTION_SIZE,
        ensures
            layout == commit_slot(self@).layout,
    {
        DatabaseLayout::from_le_bytes(
            slice_subrange(
                self.mem,
                DATA_LAYOUT_OFFSET,
                DATA_LAYOUT_OFFSET + DatabaseLayout::serialized_size(),
            ),
        )
    }

    pub fn get_version(&self) -> (version: u8)
        requires
            self@.len() == TRANSACTION_SIZE,
        ensures
            version == commit_slot(self@).version,
    {
        self.mem[VERSION_OFFSET]
    }
}

/// Writes a commit slot.
pub struct TransactionMutator<'a> {
    pub mem: &'a mut [u8],
}

/// What lies elsewhere in a slot is kept by a write.
proof fn lemma_slot_write(slot: Seq<u8>, after: Seq<u8>, start: int, end: int)
    requires
        slot.len() == TRANSACTION_SIZE,
        bytes::same_outside(slot, after, start, end),
        0 <= start <= end <= TRANSACTION_SIZE,
    ensures
        end <= ROOT_PAGE_OFFSET || start >= FREED_ROOT_OFFSET ==> bytes::u64_at(
            after,
            ROOT_PAGE_OFFSET as int,
        ) == bytes::u64_at(slot, ROOT_PAGE_OFFSET as int),
        end <= FREED_ROOT_OFFSET || start >= TRANSACTION_ID_OFFSET ==> bytes::u64_at(
            after,
            FREED_ROOT_OFFSET as int,
        ) == bytes::u64_at(slot, FREED_ROOT_OFFSET as int),
        end <= TRANSACTION_ID_OFFSET || start >= DATA_LAYOUT_OFFSET ==> bytes::u64_at(
            after,
            TRANSACTION_ID_OFFSET as int,
        ) == bytes::u64_at(slot, TRANSACTION_ID_OFFSET as int),
        end <= DATA_LAYOUT_OFFSET ==> layout_at(after) == layout_at(slot),
{
    if end <= ROOT_PAGE_OFFSET || start >= FREED_ROOT_OFFSET {
        bytes::lemma_u64_same(after, slot, ROOT_PAGE_OFFSET as int);
    }
    if end <= FREED_ROOT_OFFSET || start >= TRANSACTION_ID_OFFSET {
        bytes::lemma_u64_same(after, slot, FREED_ROOT_OFFSET as int);
    }
    if end <= TRANSACTION_ID_OFFSET || start >= DATA_LAYOUT_OFFSET {
        bytes::lemma_u64_same(after, slot, TRANSACTION_ID_OFFSET as int);
    }
    if end <= DATA_LAYOUT_OFFSET {
        assert(after.subrange(DATA_LAYOUT_OFFSET as int, DATA_LAYOUT_OFFSET + 64)
            =~= slot.subrange(DATA_LAYOUT_OFFSET as int, DATA_LAYOUT_OFFSET + 64));
    }
}

impl<'a> TransactionMutator<'a> {
    pub open spec fn view(self) -> Seq<u8> {
        self.mem@
    }

    pub fn new(mem: &'a mut [u8]) -> (slot: Self)
        ensures
            slot@ == old(mem)@,
            final(slot.mem)@ == final(mem)@,
    {
        TransactionMutator { mem }
    }

    pub fn set_root_page(&mut self, page_number: Option<PageNumber>)
        requires
            old(self)@.len() == TRANSACTION_SIZE,
        ensures
            final(self)@ == with_root(
                old(self)@,
                ROOT_NON_NULL_OFFSET as int,
                ROOT_PAGE_OFFSET as int,
                page_number,
            ),
            commit_slot(final(self)@) == (CommitSlot {
                root: stored_root(page_number),
                ..commit_slot(old(self)@)
            }),
            final(final(self).mem)@ == final(old(self).mem)@,
    {
        let ghost before = self.mem@;
        if let Some(num) = page_number {
            write_u64(self.mem, ROOT_PAGE_OFFSET, num.encode());
            let ghost between = self.mem@;
            self.mem[ROOT_NON_NULL_OFFSET] = 1;
            proof {
                bytes::lemma_u64_bytes_len(num.spec_encode());
                bytes::lemma_u64_round_trip(before, ROOT_PAGE_OFFSET as int, num.spec_encode());
                lemma_slot_write(
                    before,
                    between,
                    ROOT_PAGE_OFFSET as int,
                    FREED_ROOT_OFFSET as int,
                );
                lemma_slot_write(between, self.mem@, 1, 2);
            }
        } else {
            self.mem[ROOT_NON_NULL_OFFSET] = 0;
            proof {
                lemma_slot_write(before, self.mem@, 1, 2);
            }
        }
    }

    pub fn set_freed_root(&mut self, page_number: Option<PageNumber>)
        requires
            old(self)@.len() == TRANSACTION_SIZE,
        ensures
            final(self)@ == with_root(
                old(self)@,
                FREED_ROOT_NON_NULL_OFFSET as int,
                FREED_ROOT_OFFSET as int,
                page_number,
            ),
            commit_slot(final(self)@) == (CommitSlot {
                freed_root: stored_root(page_number),
                ..commit_slot(old(self)@)
            }),
            final(final(self).mem)@ == final(old(self).mem)@,
    {
        let ghost before = self.mem@;
        if let Some(num) = page_number {
            write_u64(self.mem, FREED_ROOT_OFFSET, num.encode());
            let ghost between = self.mem@;
            self.mem[FREED_ROOT_NON_NULL_OFFSET] = 1;
            proof {
                bytes::lemma_u64_bytes_len(num.spec_encode());
                bytes::lemma_u64_round_trip(before, FREED_ROOT_OFFSET as int, num.spec_encode());
                lemma_slot_write(
                    before,
                    between,
                    FREED_ROOT_OFFSET as int,
                    TRANSACTION_ID_OFFSET as int,
                );
                lemma_slot_write(between, self.mem@, 2, 3);
            }
        } else {
            self.mem[FREED_ROOT_NON_NULL_OFFSET] = 0;
            proof {
                lemma_slot_write(before, self.mem@, 2, 3);
            }
        }
    }

    pub fn set_last_committed_transaction_id(&mut self, transaction_id: u64)
        requires
            old(self)@.len() == TRANSACTION_SIZE,
        ensures
            final(self)@ == bytes::with_u64(
                old(self)@,
                TRANSACTION_ID_OFFSET as int,
                transaction_id,
            ),
            commit_slot(final(self)@) == (CommitSlot {
                transaction_id,
                ..commit_slot(old(self)@)
            }),
            final(final(self).mem)@ == final(old(self).mem)@,
    {
        let ghost before = self.mem@;
        write_u64(self.mem, TRANSACTION_ID_OFFSET, transaction_id);
        proof {
            bytes::lemma_u64_bytes_len(transaction_id);
            bytes::lemma_u64_round_trip(before, TRANSACTION_ID_OFFSET as int, transaction_id);
            lemma_slot_write(
                before,
                self.mem@,
                TRANSACTION_ID_OFFSET as int,
                DATA_LAYOUT_OFFSET as int,
            );
        }
    }

    pub fn set_data_section_layout(&mut self, layout: &DatabaseLayout)
        requires
            old(self)@.len() == TRANSACTION_SIZE,
        ensures
            final(self)@ == bytes::splice(
                old(self)@,
                DATA_LAYOUT_OFFSET as int,
                layout.spec_to_le_bytes(),
            ),
            commit_slot(final(self)@) == (CommitSlot {
                layout: *layout,
                ..commit_slot(old(self)@)
            }),
            final(final(self).mem)@ == final(old(self).mem)@,
    {
        let ghost before = self.mem@;
        let data = layout.to_le_bytes();
        proof {
            layout.lemma_round_trip();
        }
        copy_into(self.mem, DATA_LAYOUT_OFFSET, data.as_slice());
        proof {
            lemma_slot_write(
                before,
                self.mem@,
                DATA_LAYOUT_OFFSET as int,
                DATA_LAYOUT_OFFSET + 64,
            );
            assert(self.mem@.subrange(DATA_LAYOUT_OFFSET as int, DATA_LAYOUT_OFFSET + 64)
                =~= data@);
        }
    }

    pub fn set_version(&mut self, version: u8)
        requires
            old(self)@.len() == TRANSACTION_SIZE,
        ensures
            final(self)@ == old(self)@.update(VERSION_OFFSET as int, version),
            commit_slot(final(self)@) == (CommitSlot { version, ..commit_slot(old(self)@) }),
            final(final(self).mem)@ == final(old(self).mem)@,
    {
        let ghost before = self.mem@;
        self.mem[VERSION_OFFSET] = version;
        proof {
            lemma_slot_write(before, self.mem@, 0, 1);
        }
    }
}

/// Where a slot starts.
pub open spec fn slot_start(one: bool) -> int {
    if one {
        TRANSACTION_1_OFFSET as int
    } else {
        TRANSACTION_0_OFFSET as int
    }
}

/// The bytes of a slot.
pub open spec fn slot_bytes(image: Seq<u8>, one: bool) -> Seq<u8> {
    image.subrange(slot_start(one), slot_start(one) + TRANSACTION_SIZE)
}

/// Whether slot 1 is the primary slot.
pub open spec fn primary_is_one(image: Seq<u8>) -> bool {
    image[GOD_BYTE_OFFSET as int] & PRIMARY_BIT != 0
}

/// What the header of a file says.
pub struct Header {
    pub magic: Seq<u8>,
    pub page_size_exponent: u8,
    /// Whether slot 1 is the primary slot.
    pub primary_is_one: bool,
    /// Whether the allocator state in the file may be out of date.
    pub dirty: bool,
    pub region_max_usable_bytes: usize,
    pub max_capacity: usize,
    pub slot_0: CommitSlot,
    pub slot_1: CommitSlot,
}

impl Header {
    pub open spec fn primary(self) -> CommitSlot {
        if self.primary_is_one {
            self.slot_1
        } else {
            self.slot_0
        }
    }

    pub open spec fn secondary(self) -> CommitSlot {
        if self.primary_is_one {
            self.slot_0
        } else {
            self.slot_1
        }
    }

    /// The header with another content in the slot that is not primary.
    pub open spec fn with_secondary(self, slot: CommitSlot) -> Self {
        if self.primary_is_one {
            Header { slot_0: slot, ..self }
        } else {
            Header { slot_1: slot, ..self }
        }
    }
}

/// The content of the header of a file.
pub open spec fn header(image: Seq<u8>) -> Header {
    Header {
        magic: image.subrange(0, 9),
        page_size_exponent: image[PAGE_SIZE_OFFSET as int],
        primary_is_one: primary_is_one(image),
        dirty: image[GOD_BYTE_OFFSET as int] & ALLOCATOR_STATE_DIRTY != 0,
        region_max_usable_bytes: bytes::u64_at(image, REGION_MAX_USABLE_OFFSET as int) as usize,
        max_capacity: bytes::u64_at(image, DB_SIZE_OFFSET as int) as usize,
        slot_0: commit_slot(slot_bytes(image, false)),
        slot_1: commit_slot(slot_bytes(image, true)),
    }
}

/// The bytes of the header.
pub open spec fn header_bytes(image: Seq<u8>) -> Seq<u8> {
    image.subrange(0, DB_HEADER_SIZE as int)
}

/// No byte of the header changed, so it says what it said.
pub open spec fn header_kept(before: Seq<u8>, after: Seq<u8>) -> bool {
    &&& header_bytes(after) == header_bytes(before)
    &&& header(after) == header(before)
}

/// The file with its god byte replaced.
pub open spec fn with_god_byte(image: Seq<u8>, god: u8) -> Seq<u8> {
    image.update(GOD_BYTE_OFFSET as int, god)
}

/// The bytes of `slot` after a commit has written to it: the version, the padding, and the number
/// of a root that is null stay.
pub open spec fn slot_with(
    slot: Seq<u8>,
    data_root: Option<PageNumber>,
    freed_root: Option<PageNumber>,
    transaction_id: u64,
    layout: DatabaseLayout,
) -> Seq<u8> {
    let with_id = bytes::with_u64(slot, TRANSACTION_ID_OFFSET as int, transaction_id);
    let with_data = with_root(
        with_id,
        ROOT_NON_NULL_OFFSET as int,
        ROOT_PAGE_OFFSET as int,
        data_root,
    );
    let with_roots = with_root(
        with_data,
        FREED_ROOT_NON_NULL_OFFSET as int,
        FREED_ROOT_OFFSET as int,
        freed_root,
    );
    bytes::splice(with_roots, DATA_LAYOUT_OFFSET as int, layout.spec_to_le_bytes())
}

/// A slot that was written to is as long as it was.
pub proof fn lemma_slot_with_len(
    slot: Seq<u8>,
    data_root: Option<PageNumber>,
    freed_root: Option<PageNumber>,
    transaction_id: u64,
    layout: DatabaseLayout,
)
    requires
        slot.len() == TRANSACTION_SIZE,
    ensures
        slot_with(slot, data_root, freed_root, transaction_id, layout).len() == TRANSACTION_SIZE,
{
    bytes::lemma_u64_bytes_len(transaction_id);
    if let Some(page) = data_root {
        bytes::lemma_u64_bytes_len(page.spec_encode());
    }
    if let Some(page) = freed_root {
        bytes::lemma_u64_bytes_len(page.spec_encode());
    }
    layout.lemma_round_trip();
}

/// Files that agree on the bytes of the header keep it.
pub proof fn lemma_header_kept(before: Seq<u8>, after: Seq<u8>)
    requires
        before.len() >= DB_HEADER_SIZE,
        after.len() >= DB_HEADER_SIZE,
        forall|i: int| 0 <= i < DB_HEADER_SIZE ==> after[i] == before[i],
    ensures
        header_kept(before, after),
{
    lemma_header_same(after, before);
    assert(header_bytes(after) =~= header_bytes(before));
}

/// Files that agree on the bytes of the header have the same header.
pub proof fn lemma_header_same(a: Seq<u8>, b: Seq<u8>)
    requires
        a.len() >= DB_HEADER_SIZE,
        b.len() >= DB_HEADER_SIZE,
        forall|i: int| 0 <= i < DB_HEADER_SIZE ==> a[i] == b[i],
    ensures
        header(a) == header(b),
        slot_bytes(a, true) == slot_bytes(b, true),
        slot_bytes(a, false) == slot_bytes(b, false),
{
    assert(a.subrange(0, 9) =~= b.subrange(0, 9));
    bytes::lemma_u64_same(a, b, REGION_MAX_USABLE_OFFSET as int);
    bytes::lemma_u64_same(a, b, DB_SIZE_OFFSET as int);
    assert(slot_bytes(a, false) =~= slot_bytes(b, false));
    assert(slot_bytes(a, true) =~= slot_bytes(b, true));
}

/// What lies elsewhere in the header is kept by a write.
pub proof fn lemma_header_write(before: Seq<u8>, after: Seq<u8>, start: int, end: int)
    requires
        before.len() >= DB_HEADER_SIZE,
        bytes::same_outside(before, after, start, end),
        0 <= start <= end,
    ensures
        start >= 9 ==> header(after).magic == header(before).magic,
        end <= REGION_MAX_USABLE_OFFSET || start >= DB_SIZE_OFFSET ==> header(
            after,
        ).region_max_usable_bytes == header(before).region_max_usable_bytes,
        end <= DB_SIZE_OFFSET || start >= TRANSACTION_0_OFFSET ==> header(after).max_capacity
            == header(before).max_capacity,
        end <= TRANSACTION_0_OFFSET || start >= TRANSACTION_1_OFFSET ==> slot_bytes(after, false)
            == slot_bytes(before, false),
        end <= TRANSACTION_1_OFFSET || start >= DB_HEADER_SIZE ==> slot_bytes(after, true)
            == slot_bytes(before, true),
{
    if start >= 9 {
        assert(after.subrange(0, 9) =~= before.subrange(0, 9));
    }
    if end <= REGION_MAX_USABLE_OFFSET || start >= DB_SIZE_OFFSET {
        bytes::lemma_u64_same(after, before, REGION_MAX_USABLE_OFFSET as int);
    }
    if end <= DB_SIZE_OFFSET || start >= TRANSACTION_0_OFFSET {
        bytes::lemma_u64_same(after, before, DB_SIZE_OFFSET as int);
    }
    if end <= TRANSACTION_0_OFFSET || start >= TRANSACTION_1_OFFSET {
        assert(slot_bytes(after, false) =~= slot_bytes(before, false));
    }
    if end <= TRANSACTION_1_OFFSET || start >= DB_HEADER_SIZE {
        assert(slot_bytes(after, true) =~= slot_bytes(before, true));
    }
}

/// Writing the slot that is not primary changes that slot alone.
pub proof fn lemma_secondary_write(before: Seq<u8>, slot: Seq<u8>)
    requires
        before.len() >= DB_HEADER_SIZE,
        slot.len() == TRANSACTION_SIZE,
    ensures
        header(bytes::splice(before, slot_start(!primary_is_one(before)), slot)) == header(
            before,
        ).with_secondary(commit_slot(slot)),
{
    let at = slot_start(!primary_is_one(before));
    let after = bytes::splice(before, at, slot);
    lemma_header_write(before, after, at, at + TRANSACTION_SIZE);
    assert(slot_bytes(after, !primary_is_one(before)) =~= slot);
}

/// The largest size of a file whose bytes from `DB_SIZE_OFFSET` on are `data`.
pub fn decode_db_size(data: &[u8]) -> (size: usize)
    requires
        data@.len() == 8,
    ensures
        size == bytes::u64_at(data@, 0) as usize,
        forall|image: Seq<u8>|
            image.len() >= DB_HEADER_SIZE && data@ == #[trigger] image.subrange(
                DB_SIZE_OFFSET as int,
                DB_SIZE_OFFSET + 8,
            ) ==> size == header(image).max_capacity,
{
    assert(data@.subrange(0, 8) =~= data@);
    read_u64(data, 0) as usize
}

/// The memory of the file, with access to its header.
pub struct MetadataAccessor {
    pub mmap: Vec<u8>,
}

impl MetadataAccessor {
    /// The bytes of the file.
    pub open spec fn view(self) -> Seq<u8> {
        self.mmap@
    }

    /// Whether the memory has room for a header.
    pub open spec fn wf(self) -> bool {
        self@.len() >= DB_HEADER_SIZE
    }

    pub fn new(mmap: Vec<u8>) -> (metadata: Self)
        ensures
            metadata@ == mmap@,
    {
        MetadataAccessor { mmap }
    }

    fn slot(&self, one: bool) -> (slot: TransactionAccessor<'_>)
        requires
            self.wf(),
        ensures
            slot@ == slot_bytes(self@, one),
    {
        let start: usize = if one {
            TRANSACTION_1_OFFSET
        } else {
            TRANSACTION_0_OFFSET
        };
        TransactionAccessor::new(
            slice_subrange(self.mmap.as_slice(), start, start + TRANSACTION_SIZE),
        )
    }

    pub fn primary_slot(&self) -> (slot: TransactionAccessor<'_>)
        requires
            self.wf(),
        ensures
            slot@ == slot_bytes(self@, primary_is_one(self@)),
            slot@.len() == TRANSACTION_SIZE,
            commit_slot(slot@) == header(self@).primary(),
    {
        self.slot(self.mmap[GOD_BYTE_OFFSET] & PRIMARY_BIT != 0)
    }

    pub fn secondary_slot(&self) -> (slot: TransactionAccessor<'_>)
        requires
            self.wf(),
        ensures
            slot@ == slot_bytes(self@, !primary_is_one(self@)),
            slot@.len() == TRANSACTION_SIZE,
            commit_slot(slot@) == header(self@).secondary(),
    {
        self.slot(self.mmap[GOD_BYTE_OFFSET] & PRIMARY_BIT == 0)
    }

    /// The slot that is not primary, for writing. What is left there is what the file then holds.
    pub fn secondary_slot_mut(&mut self) -> (slot: TransactionMutator<'_>)
        requires
            old(self).wf(),
        ensures
            slot@ == slot_bytes(old(self)@, !primary_is_one(old(self)@)),
            slot@.len() == TRANSACTION_SIZE,
            commit_slot(slot@) == header(old(self)@).secondary(),
            final(slot.mem)@.len() == TRANSACTION_SIZE ==> final(self)@ == bytes::splice(
                old(self)@,
                slot_start(!primary_is_one(old(self)@)),
                final(slot.mem)@,
            ),
            final(slot.mem)@.len() == TRANSACTION_SIZE ==> header(final(self)@) == header(
                old(self)@,
            ).with_secondary(commit_slot(final(slot.mem)@)),
    {
        let ghost before = self@;
        let start: usize = if self.mmap[GOD_BYTE_OFFSET] & PRIMARY_BIT == 0 {
            TRANSACTION_1_OFFSET
        } else {
            TRANSACTION_0_OFFSET
        };
        let slot = TransactionMutator::new(
            range_mut(&mut self.mmap, start, start + TRANSACTION_SIZE),
        );
        proof {
            let at = slot_start(!primary_is_one(before));
            assert forall|content: Seq<u8>| content.len() == TRANSACTION_SIZE implies #[trigger] header(
                bytes::splice(before, at, content),
            ) == header(before).with_secondary(commit_slot(content)) by {
                lemma_secondary_write(before, content);
            }
        }
        slot
    }

    /// Makes the other slot the primary one.
    pub fn swap_primary(&mut self)
        requires
            old(self).wf(),
        ensures
            final(self)@ == with_god_byte(
                old(self)@,
                old(self)@[GOD_BYTE_OFFSET as int] ^ PRIMARY_BIT,
            ),
            header(final(self)@) == (Header {
                primary_is_one: !header(old(self)@).primary_is_one,
                ..header(old(self)@)
            }),
    {
        let ghost before = self@;
        let god: u8 = self.mmap[GOD_BYTE_OFFSET];
        if god & PRIMARY_BIT == 0 {
            self.mmap[GOD_BYTE_OFFSET] = god | PRIMARY_BIT;
        } else {
            self.mmap[GOD_BYTE_OFFSET] = god & !PRIMARY_BIT;
        }
        proof {
            assert(god & 1 == 0 ==> god | 1 == god ^ 1) by (bit_vector);
            assert(god & 1 != 0 ==> god & !1u8 == god ^ 1) by (bit_vector);
            assert((god ^ 1) & 1 != 0 <==> god & 1 == 0) by (bit_vector);
            assert((god ^ 1) & 2 == god & 2) by (bit_vector);
            lemma_header_write(before, self@, GOD_BYTE_OFFSET as int, GOD_BYTE_OFFSET + 1);
        }
    }

    pub fn get_max_capacity(&self) -> (max_size: usize)
        requires
            self.wf(),
        ensures
            max_size == header(self@).max_capacity,
    {
        read_u64(self.mmap.as_slice(), DB_SIZE_OFFSET) as usize
    }

    pub fn set_max_capacity(&mut self, max_size: usize)
        requires
            old(self).wf(),
        ensures
            final(self)@ == bytes::with_u64(old(self)@, DB_SIZE_OFFSET as int, max_size as u64),
            header(final(self)@) == (Header { max_capacity: max_size, ..header(old(self)@) }),
    {
        let ghost before = self@;
        write_u64(self.mmap.as_mut_slice(), DB_SIZE_OFFSET, max_size as u64);
        proof {
            bytes::lemma_u64_bytes_len(max_size as u64);
            bytes::lemma_u64_round_trip(before, DB_SIZE_OFFSET as int, max_size as u64);
            lemma_header_write(before, self@, DB_SIZE_OFFSET as int, DB_SIZE_OFFSET + 8);
        }
    }

    pub fn get_magic_number(&self) -> (magic: [u8; 9])
        requires
            self.wf(),
        ensures
            magic@ == header(self@).magic,
    {
        let m = &self.mmap;
        let magic = [m[0], m[1], m[2], m[3], m[4], m[5], m[6], m[7], m[8]];
        assert(magic@ =~= header(self@).magic);
        magic
    }

    pub fn set_magic_number(&mut self)
        requires
            old(self).wf(),
        ensures
            final(self)@ == bytes::splice(old(self)@, 0, MAGICNUMBER@),
            header(final(self)@) == (Header { magic: MAGICNUMBER@, ..header(old(self)@) }),
    {
        let ghost before = self@;
        let magic = MAGICNUMBER;
        copy_into(self.mmap.as_mut_slice(), 0, magic.as_slice());
        proof {
            lemma_header_write(before, self@, 0, 9);
            assert(self@.subrange(0, 9) =~= MAGICNUMBER@);
        }
    }

    pub fn get_page_size(&self) -> (page_size: usize)
        requires
            self.wf(),
            math::pow2(header(self@).page_size_exponent as int) <= usize::MAX,
        ensures
            page_size == math::pow2(header(self@).page_size_exponent as int),
    {
        exp2(self.mmap[PAGE_SIZE_OFFSET] as usize)
    }

    pub fn set_page_size(&mut self, page_size: usize)
        requires
            old(self).wf(),
        ensures
            header(final(self)@) == (Header {
                page_size_exponent: math::zeros_at_end(page_size as int) as u8,
                ..header(old(self)@)
            }),
            final(self)@ == old(self)@.update(
                PAGE_SIZE_OFFSET as int,
                math::zeros_at_end(page_size as int) as u8,
            ),
            math::is_power_of_two(page_size as int) ==> math::pow2(
                header(final(self)@).page_size_exponent as int,
            ) == page_size,
    {
        let ghost before = self@;
        let exponent: usize = trailing_zeros(page_size);
        self.mmap[PAGE_SIZE_OFFSET] = exponent as u8;
        proof {
            if math::is_power_of_two(page_size as int) {
                math::lemma_zeros_at_end(page_size as int);
            }
            lemma_header_write(before, self@, PAGE_SIZE_OFFSET as int, PAGE_SIZE_OFFSET + 1);
        }
    }

    pub fn get_region_max_usable_bytes(&self) -> (usable_size: usize)
        requires
            self.wf(),
        ensures
            usable_size == header(self@).region_max_usable_bytes,
    {
        read_u64(self.mmap.as_slice(), REGION_MAX_USABLE_OFFSET) as usize
    }

    pub fn set_region_max_usable_bytes(&mut self, usable_size: usize)
        requires
            old(self).wf(),
        ensures
            final(self)@ == bytes::with_u64(
                old(self)@,
                REGION_MAX_USABLE_OFFSET as int,
                usable_size as u64,
            ),
            header(final(self)@) == (Header {
                region_max_usable_bytes: usable_size,
                ..header(old(self)@)
            }),
    {
        let ghost before = self@;
        write_u64(self.mmap.as_mut_slice(), REGION_MAX_USABLE_OFFSET, usable_size as u64);
        proof {
            bytes::lemma_u64_bytes_len(usable_size as u64);
            bytes::lemma_u64_round_trip(
                before,
                REGION_MAX_USABLE_OFFSET as int,
                usable_size as u64,
            );
            lemma_header_write(
                before,
                self@,
                REGION_MAX_USABLE_OFFSET as int,
                DB_SIZE_OFFSET as int,
            );
        }
    }

    pub fn get_allocator_dirty(&self) -> (dirty: bool)
        requires
            self.wf(),
        ensures
            dirty == header(self@).dirty,
    {
        self.mmap[GOD_BYTE_OFFSET] & ALLOCATOR_STATE_DIRTY != 0
    }

    pub fn set_allocator_dirty(&mut self, dirty: bool)
        requires
            old(self).wf(),
        ensures
            final(self)@ == with_god_byte(
                old(self)@,
                if dirty {
                    old(self)@[GOD_BYTE_OFFSET as int] | ALLOCATOR_STATE_DIRTY
                } else {
                    old(self)@[GOD_BYTE_OFFSET as int] & !ALLOCATOR_STATE_DIRTY
                },
            ),
            header(final(self)@) == (Header { dirty, ..header(old(self)@) }),
    {
        let ghost before = self@;
        let god: u8 = self.mmap[GOD_BYTE_OFFSET];
        if dirty {
            self.mmap[GOD_BYTE_OFFSET] = god | ALLOCATOR_STATE_DIRTY;
        } else {
            self.mmap[GOD_BYTE_OFFSET] = god & !ALLOCATOR_STATE_DIRTY;
        }
        proof {
            assert((god | 2) & 2 != 0) by (bit_vector);
            assert((god & !2u8) & 2 == 0) by (bit_vector);
            assert((god | 2) & 1 == god & 1) by (bit_vector);
            assert((god & !2u8) & 1 == god & 1) by (bit_vector);
            lemma_header_write(before, self@, GOD_BYTE_OFFSET as int, GOD_BYTE_OFFSET + 1);
        }
    }
}

} // verus!
