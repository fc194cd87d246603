//! Opening a file, and giving a new one its first content.

use crate::buddy_allocator::BuddyAllocator;
use crate::bytes;
use crate::bytes::{extend_zero, fill_zero, range_mut};
use crate::error::Error;
use crate::header;
use crate::header::{MetadataAccessor, DB_HEADER_SIZE, FILE_FORMAT_VERSION, MAGICNUMBER};
use crate::layout;
use crate::layout::{DatabaseLayout, MIN_USABLE_PAGES};
use crate::math;
use crate::math::{ceil_log2, exp2};
use crate::page_manager;
use crate::page_manager::TransactionalMemory;
use crate::regions;
use vstd::prelude::*;

verus! {

/// Regions have a maximum size of 4GiB. A `4GiB - overhead` value is the largest that can be
/// represented, because the leaf node format uses 32bit offsets
pub const MAX_USABLE_REGION_SPACE: u64 = 4 * 1024 * 1024 * 1024;

/// The room that a file which grows on demand starts with.
pub const MIN_DESIRED_USABLE_BYTES: usize = 1024 * 1024;

/// The usable bytes of a region in a file of at most `capacity` bytes: the next power of two, up
/// to the limit.
pub open spec fn max_usable_region(capacity: int) -> int {
    let power = math::pow2(math::log2_ceil(capacity));
    if power < MAX_USABLE_REGION_SPACE {
        power
    } else {
        MAX_USABLE_REGION_SPACE as int
    }
}

/// The room that a new file is to have.
pub open spec fn starting_size(capacity: int, dynamic_growth: bool) -> int {
    if dynamic_growth {
        MIN_DESIRED_USABLE_BYTES as int
    } else {
        capacity
    }
}

/// What the opening of a file waits for.
#[derive(Debug, PartialEq, Eq, Structural, Clone, Copy)]
pub enum OpenStage {
    /// The content of the file.
    Mapping,
    /// A file that has room for the header.
    SizingHeader,
    /// A file that has room for the layout.
    SizingFile,
    /// The flush of a blank header.
    FlushingMark,
    /// The flush of the first content.
    FlushingState,
    /// The flush of the magic number.
    FlushingMagic,
    /// Nothing: the file can be used.
    Ready,
    /// Nothing: the file cannot be used.
    Failed,
}

/// What the caller is to do next.
#[derive(Debug, PartialEq, Eq)]
pub enum OpenAction {
    /// Make the file at least this long.
    Resize(usize),
    /// Bring the memory to the file and wait until it is stored there.
    Flush,
    /// Use the file.
    Finish,
    /// Give up.
    Fail(Error),
}

/// The opening of a file.
pub struct Opening {
    pub max_capacity: usize,
    pub requested_page_size: Option<usize>,
    /// The page size of a new file.
    pub page_size: usize,
    pub dynamic_growth: bool,
    pub metadata: MetadataAccessor,
    pub stage: OpenStage,
}

/// A new layout can name its pages.
proof fn lemma_names_fit(layout: DatabaseLayout, capacity: int, desired: int, page_size: int)
    requires
        layout::addressable(capacity, max_usable_region(capacity), page_size),
        layout.is_for(capacity, desired, max_usable_region(capacity), page_size),
    ensures
        page_manager::names_fit(layout),
{
    let m = max_usable_region(capacity);
    let pages = layout::full_pages(m, page_size);
    let len = layout::region_len(m, page_size);
    layout::lemma_div(m, page_size);
    layout::lemma_geometry(capacity, m, page_size);
    math::lemma_log2_ceil(capacity);
    let space = BuddyAllocator::spec_required_space(pages);
    let units = (space + page_size - 1) / page_size;
    layout::lemma_div(space + page_size - 1, page_size);
    assert(units >= 1) by (nonlinear_arith)
        requires
            units * page_size >= space,
            space >= 1,
            page_size >= 1,
    ;
    layout::lemma_mul_le(1, page_size, units, page_size);
    assert(len >= m);
    layout::lemma_div(capacity, len);
    let regions = capacity / len;
    if m < MAX_USABLE_REGION_SPACE {
        assert(regions <= 1) by (nonlinear_arith)
            requires
                regions * len <= capacity,
                capacity <= len,
                0 <= regions,
                1 <= len,
        ;
    } else {
        assert(regions * 0x1_0000_0000 <= regions * len) by (nonlinear_arith)
            requires
                0x1_0000_0000 <= len,
                0 <= regions,
        ;
        assert(capacity <= 0x8000_0000_0000_0000);
    }
    assert(page_size >= 1 && pages <= m);
}

impl Opening {
    /// Whether the request can be computed with.
    pub open spec fn request_ok(self) -> bool {
        &&& math::is_power_of_two(self.page_size as int)
        &&& DB_HEADER_SIZE + self.page_size * MIN_USABLE_PAGES <= self.max_capacity
        &&& self.max_capacity <= usize::MAX / 2 + 1
    }

    /// Whether a new file has room for a database.
    pub open spec fn has_room(self) -> bool {
        layout::has_room(
            self.max_capacity as int,
            max_usable_region(self.max_capacity as int),
            self.page_size as int,
        )
    }

    /// The layout of a new file.
    pub open spec fn new_layout(self) -> DatabaseLayout {
        DatabaseLayout::spec_calculate(
            self.max_capacity as int,
            starting_size(self.max_capacity as int, self.dynamic_growth),
            max_usable_region(self.max_capacity as int),
            self.page_size as int,
        )
    }

    /// The same request.
    pub open spec fn same_request(self, other: Self) -> bool {
        &&& self.max_capacity == other.max_capacity
        &&& self.requested_page_size == other.requested_page_size
        &&& self.page_size == other.page_size
        &&& self.dynamic_growth == other.dynamic_growth
    }

    fn max_usable_region_bytes(&self) -> (bytes: usize)
        requires
            self.request_ok(),
        ensures
            bytes == max_usable_region(self.max_capacity as int),
            bytes <= usize::MAX / 2 + 1,
    {
        let exponent: usize = ceil_log2(self.max_capacity);
        proof {
            math::lemma_usize_half();
            if exponent > usize::BITS - 1 {
                math::lemma_pow2_le(usize::BITS as int, exponent as int);
                math::lemma_pow2_step(usize::BITS as int);
            }
            math::lemma_pow2_le(exponent as int, usize::BITS - 1);
        }
        let power: usize = exp2(exponent);
        if (power as u64) < MAX_USABLE_REGION_SPACE {
            power
        } else {
            MAX_USABLE_REGION_SPACE as usize
        }
    }

    /// The layout of a new file, or an error if there is no room for one.
    pub fn calculate_layout(&self) -> (layout: Result<DatabaseLayout, Error>)
        requires
            self.request_ok(),
        ensures
            match layout {
                Ok(l) => {
                    &&& self.has_room()
                    &&& l == self.new_layout()
                    &&& l.valid()
                    &&& l.spec_len() <= self.max_capacity
                    &&& l.is_for(
                        self.max_capacity as int,
                        l.spec_usable_bytes(),
                        max_usable_region(self.max_capacity as int),
                        self.page_size as int,
                    )
                    &&& page_manager::names_fit(l)
                },
                Err(e) => e == Error::OutOfSpace && !self.has_room(),
            },
    {
        let max_usable_region_bytes: usize = self.max_usable_region_bytes();
        let starting_size: usize = if self.dynamic_growth {
            MIN_DESIRED_USABLE_BYTES
        } else {
            self.max_capacity
        };
        let layout = DatabaseLayout::calculate(
            self.max_capacity,
            starting_size,
            max_usable_region_bytes,
            self.page_size,
        )?;
        proof {
            let c = self.max_capacity as int;
            let m = max_usable_region_bytes as int;
            let d = starting_size as int;
            let p = self.page_size as int;
            layout.lemma_canonical(c, d, m, p);
            layout.lemma_calculated(c, d, m, p);
            lemma_names_fit(layout, c, d, p);
        }
        Ok(layout)
    }
}

/// The header holds nothing but the mark of out-of-date allocators.
pub open spec fn is_blank(image: Seq<u8>) -> bool {
    &&& image.len() >= DB_HEADER_SIZE
    &&& forall|i: int| #![trigger image[i]]
        0 <= i < DB_HEADER_SIZE ==> image[i] == (if i == header::GOD_BYTE_OFFSET {
            header::ALLOCATOR_STATE_DIRTY
        } else {
            0u8
        })
}

/// The bytes of a commit slot of a new file: the version, the layout, and zeros.
pub open spec fn first_slot_bytes(layout: DatabaseLayout) -> Seq<u8> {
    bytes::splice(
        Seq::new(header::TRANSACTION_SIZE as nat, |i: int| 0u8).update(
            header::VERSION_OFFSET as int,
            FILE_FORMAT_VERSION,
        ),
        header::DATA_LAYOUT_OFFSET as int,
        layout.spec_to_le_bytes(),
    )
}

/// What a commit slot of a new file holds.
pub open spec fn first_slot(layout: DatabaseLayout) -> header::CommitSlot {
    header::CommitSlot {
        version: FILE_FORMAT_VERSION,
        root: None,
        freed_root: None,
        transaction_id: 0,
        layout,
    }
}

proof fn lemma_blank_slot(image: Seq<u8>, one: bool)
    requires
        is_blank(image),
    ensures
        ({
            let slot = header::commit_slot(header::slot_bytes(image, one));
            slot.root is None && slot.freed_root is None && slot.transaction_id == 0
        }),
{
    let slot = header::slot_bytes(image, one);
    bytes::lemma_u64_zero(slot, header::TRANSACTION_ID_OFFSET as int);
}

proof fn lemma_blank(image: Seq<u8>)
    requires
        is_blank(image),
    ensures
        ({
            let h = header::header(image);
            &&& h.magic == Seq::new(9, |i: int| 0u8)
            &&& !h.primary_is_one
            &&& h.dirty
            &&& h.slot_0.root is None && h.slot_0.freed_root is None && h.slot_0.transaction_id == 0
            &&& h.slot_1.root is None && h.slot_1.freed_root is None && h.slot_1.transaction_id == 0
        }),
{
    assert(2u8 & 1 == 0 && 2u8 & 2 != 0) by (bit_vector);
    assert(header::header(image).magic =~= Seq::new(9, |i: int| 0u8));
    lemma_blank_slot(image, false);
    lemma_blank_slot(image, true);
}

/// The header of a new file before the commit slots are written.
pub open spec fn sizes_bytes(exponent: u8, region_max: u64, capacity: u64) -> Seq<u8> {
    let blank = Seq::new(DB_HEADER_SIZE as nat, |i: int| 0u8);
    bytes::with_u64(
        bytes::with_u64(
            blank.update(header::PAGE_SIZE_OFFSET as int, exponent),
            header::REGION_MAX_USABLE_OFFSET as int,
            region_max,
        ),
        header::DB_SIZE_OFFSET as int,
        capacity,
    )
}

/// Once the sizes are written, the header holds nothing but them.
proof fn lemma_sized(
    blank: Seq<u8>,
    state: Seq<u8>,
    sized: Seq<u8>,
    exponent: u8,
    region_max: u64,
    capacity: u64,
)
    requires
        is_blank(blank),
        state.len() == blank.len(),
        header::header_kept(blank, state),
        sized == bytes::with_u64(
            bytes::with_u64(
                header::with_god_byte(
                    state,
                    state[header::GOD_BYTE_OFFSET as int] & !header::ALLOCATOR_STATE_DIRTY,
                ).update(header::PAGE_SIZE_OFFSET as int, exponent),
                header::DB_SIZE_OFFSET as int,
                capacity,
            ),
            header::REGION_MAX_USABLE_OFFSET as int,
            region_max,
        ),
    ensures
        header::header_bytes(sized) == sizes_bytes(exponent, region_max, capacity),
{
    assert(2u8 & !2u8 == 0) by (bit_vector);
    bytes::lemma_u64_bytes_len(region_max);
    bytes::lemma_u64_bytes_len(capacity);
    assert forall|i: int| 0 <= i < DB_HEADER_SIZE implies #[trigger] state[i] == blank[i] by {
        assert(header::header_bytes(state)[i] == state[i]);
        assert(header::header_bytes(blank)[i] == blank[i]);
    }
    assert(header::header_bytes(sized) =~= sizes_bytes(exponent, region_max, capacity));
}

impl Opening {
    /// The header of a new file.
    pub open spec fn first_header(self, magic: Seq<u8>) -> header::Header {
        header::Header {
            magic,
            page_size_exponent: math::zeros_at_end(self.page_size as int) as u8,
            primary_is_one: true,
            dirty: false,
            region_max_usable_bytes: max_usable_region(self.max_capacity as int) as usize,
            max_capacity: self.max_capacity,
            slot_0: first_slot(self.new_layout()),
            slot_1: first_slot(self.new_layout()),
        }
    }

    /// The bytes of the header of a new file: the magic number, the sizes, the god byte that makes
    /// the second slot the primary one, the two slots, and zeros.
    pub open spec fn first_header_bytes(self, magic: Seq<u8>) -> Seq<u8> {
        let sizes = sizes_bytes(
            math::zeros_at_end(self.page_size as int) as u8,
            max_usable_region(self.max_capacity as int) as u64,
            self.max_capacity as u64,
        );
        let slot = first_slot_bytes(self.new_layout());
        let slots = bytes::splice(
            bytes::splice(sizes, header::TRANSACTION_0_OFFSET as int, slot),
            header::TRANSACTION_1_OFFSET as int,
            slot,
        );
        bytes::splice(header::with_god_byte(slots, header::PRIMARY_BIT), 0, magic)
    }

    /// The memory is that of a new file: an empty database, with every page free and no region
    /// marked as full.
    pub open spec fn is_new(self, magic: Seq<u8>) -> bool {
        let image = self.metadata@;
        let layout = self.new_layout();
        let allocators = regions::layout_allocators(layout);
        &&& header::header(image) == self.first_header(magic)
        &&& header::header_bytes(image) == self.first_header_bytes(magic)
        &&& page_manager::geometry_ok(image, layout)
        &&& regions::allocators_ok(image, layout, allocators)
        &&& regions::free_pages(image, layout, allocators) == regions::all_pages(layout)
        &&& forall|r: int|
            0 <= r < 8 * layout.tracker_bytes ==> #[trigger] regions::marked(image, layout, r) == (r
                >= layout.spec_num_regions())
    }

    /// The header after both slots were written and the first of them was made the primary one.
    proof fn lemma_first_header(self, sized: Seq<u8>, written: Seq<u8>)
        requires
            self.metadata.wf(),
            sized.len() == written.len() == self.metadata@.len(),
            header::header_bytes(sized) == sizes_bytes(
                math::zeros_at_end(self.page_size as int) as u8,
                max_usable_region(self.max_capacity as int) as u64,
                self.max_capacity as u64,
            ),
            ({
                let slot = header::slot_bytes(sized, true);
                let null_roots = bytes::with_u64(
                    slot.update(header::ROOT_NON_NULL_OFFSET as int, 0).update(
                        header::FREED_ROOT_NON_NULL_OFFSET as int,
                        0,
                    ),
                    header::TRANSACTION_ID_OFFSET as int,
                    0,
                );
                written == bytes::splice(
                    sized,
                    header::TRANSACTION_1_OFFSET as int,
                    bytes::splice(
                        null_roots,
                        header::DATA_LAYOUT_OFFSET as int,
                        self.new_layout().spec_to_le_bytes(),
                    ).update(header::VERSION_OFFSET as int, FILE_FORMAT_VERSION),
                )
            }),
            ({
                let swapped = header::with_god_byte(
                    written,
                    written[header::GOD_BYTE_OFFSET as int] ^ header::PRIMARY_BIT,
                );
                self.metadata@ == bytes::splice(
                    swapped,
                    header::TRANSACTION_0_OFFSET as int,
                    bytes::splice(
                        header::slot_bytes(swapped, false),
                        header::DATA_LAYOUT_OFFSET as int,
                        self.new_layout().spec_to_le_bytes(),
                    ).update(header::VERSION_OFFSET as int, FILE_FORMAT_VERSION),
                )
            }),
        ensures
            header::header_bytes(self.metadata@) == self.first_header_bytes(
                Seq::new(9, |i: int| 0u8),
            ),
    {
        let sizes = header::header_bytes(sized);
        bytes::lemma_u64_bytes_len(self.max_capacity as u64);
        bytes::lemma_u64_bytes_len(max_usable_region(self.max_capacity as int) as u64);
        bytes::lemma_zero_bytes();
        self.new_layout().lemma_round_trip();
        assert(0u8 ^ 1 == 1) by (bit_vector);
        assert forall|i: int| 0 <= i < DB_HEADER_SIZE implies #[trigger] sized[i] == sizes[i] by {}
        assert(header::header_bytes(self.metadata@) =~= self.first_header_bytes(
            Seq::new(9, |i: int| 0u8),
        ));
    }

    /// Blanks the header.
    fn blank_header(&mut self)
        requires
            old(self).metadata.wf(),
        ensures
            is_blank(final(self).metadata@),
            bytes::same_outside(
                old(self).metadata@,
                final(self).metadata@,
                0,
                DB_HEADER_SIZE as int,
            ),
            final(self).same_request(*old(self)),
            final(self).stage == old(self).stage,
    {
        // Explicitly zero the header
        fill_zero(range_mut(&mut self.metadata.mmap, 0, DB_HEADER_SIZE));
        proof {
            assert(0u8 & 2 == 0) by (bit_vector);
            assert(0u8 | 2 == 2) by (bit_vector);
        }
        self.metadata.allocators_mut();
    }

    /// Writes the first content of the file, but for the magic number.
    fn initialize(&mut self, layout: &DatabaseLayout)
        requires
            old(self).request_ok(),
            old(self).has_room(),
            *layout == old(self).new_layout(),
            layout.valid(),
            layout.is_for(
                old(self).max_capacity as int,
                layout.spec_usable_bytes(),
                max_usable_region(old(self).max_capacity as int),
                old(self).page_size as int,
            ),
            page_manager::names_fit(*layout),
            is_blank(old(self).metadata@),
            layout.spec_len() <= old(self).metadata@.len(),
        ensures
            final(self).is_new(Seq::new(9, |i: int| 0u8)),
            final(self).metadata@.len() == old(self).metadata@.len(),
            final(self).same_request(*old(self)),
            final(self).stage == old(self).stage,
    {
        let ghost before = self.metadata@;
        let ghost l = *layout;
        proof {
            l.lemma_region(0);
            lemma_blank(before);
        }
        // Initialize the region allocator
        self.metadata.mark_present(layout);
        self.metadata.mark_beyond(layout);
        let ghost marked = self.metadata@;
        // Initialize all the regional allocators
        let _allocators = self.metadata.init_regions(layout);
        let ghost state = self.metadata@;
        // Set the allocator to not dirty, because the allocator initialization above will have
        // dirtied it
        self.metadata.set_allocator_dirty(false);
        // Store the page & db size. These are immutable
        self.metadata.set_page_size(self.page_size);
        self.metadata.set_max_capacity(self.max_capacity);
        let max_usable_region_bytes: usize = self.max_usable_region_bytes();
        self.metadata.set_region_max_usable_bytes(max_usable_region_bytes);
        let ghost sized = self.metadata@;
        proof {
            lemma_sized(
                before,
                state,
                sized,
                math::zeros_at_end(self.page_size as int) as u8,
                max_usable_region_bytes as u64,
                self.max_capacity as u64,
            );
        }
        let mut mutator = self.metadata.secondary_slot_mut();
        mutator.set_root_page(None);
        mutator.set_freed_root(None);
        mutator.set_last_committed_transaction_id(0);
        mutator.set_data_section_layout(layout);
        mutator.set_version(FILE_FORMAT_VERSION);
        let ghost written = self.metadata@;
        // Make the state we just wrote the primary
        self.metadata.swap_primary();
        // Initialize the secondary allocator state
        let mut mutator = self.metadata.secondary_slot_mut();
        mutator.set_data_section_layout(layout);
        mutator.set_version(FILE_FORMAT_VERSION);
        proof {
            let image = self.metadata@;
            let allocators = regions::layout_allocators(l);
            bytes::lemma_u64_bytes_len(self.max_capacity as u64);
            bytes::lemma_u64_bytes_len(max_usable_region_bytes as u64);
            self.lemma_first_header(sized, written);
            regions::lemma_header_change(state, image, l);
            regions::lemma_allocators_same(state, image, l, allocators);
            assert forall|r: int| 0 <= r < 8 * l.tracker_bytes implies #[trigger] regions::marked(
                image,
                l,
                r,
            ) == (r >= l.spec_num_regions()) by {
                assert(regions::marked(marked, l, r) == regions::marked(image, l, r));
            }
        }
    }
}

/// What has happened to the opening of a file.
#[derive(Debug, PartialEq, Eq)]
pub enum OpenEvent {
    /// The content of the file was read.
    Mapped(Result<Vec<u8>, Error>),
    /// What was asked for was done.
    Finished(Result<(), Error>),
}

/// `after` is `image` with a blank header.
pub open spec fn blanked(image: Seq<u8>, after: Seq<u8>) -> bool {
    &&& is_blank(after)
    &&& bytes::same_outside(image, after, 0, DB_HEADER_SIZE as int)
}

/// The page size of a new file.
pub open spec fn chosen_page_size(requested: Option<usize>, default: usize) -> usize {
    match requested {
        Some(size) => size,
        None => default,
    }
}

/// Whether a file of at most `capacity` bytes is too small for any database of pages of this size.
pub open spec fn too_small(capacity: int, page_size: int) -> bool {
    capacity < DB_HEADER_SIZE + page_size * MIN_USABLE_PAGES
}

impl Opening {
    /// An opening of a file, for this request, that waits for the content of the file.
    pub open spec fn starts_for(
        self,
        max_capacity: usize,
        requested_page_size: Option<usize>,
        default_page_size: usize,
        dynamic_growth: bool,
    ) -> bool {
        &&& self.max_capacity == max_capacity
        &&& self.requested_page_size == requested_page_size
        &&& self.page_size == chosen_page_size(requested_page_size, default_page_size)
        &&& self.dynamic_growth == dynamic_growth
        &&& self.stage == OpenStage::Mapping
    }
}

impl TransactionalMemory {
    /// Starts to open a file. The page size is that of a new file; where none is requested, it is
    /// the default.
    pub fn new(
        max_capacity: usize,
        requested_page_size: Option<usize>,
        default_page_size: usize,
        dynamic_growth: bool,
    ) -> (opening: Result<Opening, Error>)
        requires
            ({
                let page_size = match requested_page_size {
                    Some(size) => size,
                    None => default_page_size,
                };
                &&& math::is_power_of_two(page_size as int)
                &&& DB_HEADER_SIZE + page_size * MIN_USABLE_PAGES <= usize::MAX
                &&& max_capacity >= DB_HEADER_SIZE + page_size * MIN_USABLE_PAGES ==> max_capacity
                    <= usize::MAX / 2 + 1
            }),
        ensures
            match opening {
                Ok(o) => {
                    &&& !too_small(
                        max_capacity as int,
                        chosen_page_size(requested_page_size, default_page_size) as int,
                    )
                    &&& o.starts_for(
                        max_capacity,
                        requested_page_size,
                        default_page_size,
                        dynamic_growth,
                    )
                    &&& o.wf()
                },
                Err(e) => {
                    &&& too_small(
                        max_capacity as int,
                        chosen_page_size(requested_page_size, default_page_size) as int,
                    )
                    &&& e == Error::OutOfSpace
                },
            },
    {
        let page_size: usize = match requested_page_size {
            Some(size) => size,
            None => default_page_size,
        };
        if max_capacity < DB_HEADER_SIZE + page_size * MIN_USABLE_PAGES {
            return Err(Error::OutOfSpace);
        }
        Ok(
            Opening {
                max_capacity,
                requested_page_size,
                page_size,
                dynamic_growth,
                metadata: MetadataAccessor::new(Vec::new()),
                stage: OpenStage::Mapping,
            },
        )
    }
}

impl Opening {
    /// The invariant.
    pub open spec fn wf(self) -> bool {
        let image = self.metadata@;
        &&& self.request_ok()
        &&& match self.stage {
            OpenStage::Mapping => true,
            OpenStage::SizingHeader => true,
            OpenStage::SizingFile => {
                &&& self.metadata.wf()
                &&& self.has_room()
            },
            OpenStage::FlushingMark => {
                &&& self.has_room()
                &&& is_blank(image)
                &&& self.new_layout().spec_len() <= image.len()
            },
            OpenStage::FlushingState => self.has_room() && self.is_new(
                Seq::new(9, |i: int| 0u8),
            ),
            OpenStage::FlushingMagic => self.has_room() && self.is_new(MAGICNUMBER@),
            OpenStage::Ready => {
                &&& self.metadata.wf()
                &&& header::header(image).magic == MAGICNUMBER@
            },
            OpenStage::Failed => true,
        }
    }

    /// What is done with a file of the content `image`: one that starts with the magic number is
    /// used as it is, any other gets a first content.
    pub open spec fn examined(self, image: Seq<u8>, after: Self, action: OpenAction) -> bool {
        if header::header(image).magic == MAGICNUMBER@ {
            &&& after.stage == OpenStage::Ready
            &&& after.metadata@ == image
            &&& action == OpenAction::Finish
        } else if !self.has_room() {
            &&& after.stage == OpenStage::Failed
            &&& after.metadata@ == image
            &&& action == OpenAction::Fail(Error::OutOfSpace)
        } else if image.len() < self.new_layout().spec_len() {
            &&& after.stage == OpenStage::SizingFile
            &&& after.metadata@ == image
            &&& action == OpenAction::Resize(self.new_layout().spec_len() as usize)
        } else {
            &&& after.stage == OpenStage::FlushingMark
            &&& blanked(image, after.metadata@)
            &&& action == OpenAction::Flush
        }
    }

    fn has_magic_number(&self) -> (yes: bool)
        requires
            self.metadata.wf(),
        ensures
            yes == (header::header(self.metadata@).magic == MAGICNUMBER@),
    {
        let magic = self.metadata.get_magic_number();
        let expected = MAGICNUMBER;
        let mut i: usize = 0;
        while i < 9
            invariant
                i <= 9,
                magic@ == header::header(self.metadata@).magic,
                expected@ == MAGICNUMBER@,
                forall|j: int| 0 <= j < i ==> magic@[j] == expected@[j],
            decreases 9 - i,
        {
            if magic[i] != expected[i] {
                assert(magic@[i as int] != expected@[i as int]);
                return false;
            }
            i = i + 1;
        }
        assert(magic@ =~= expected@);
        true
    }

    fn examine(&mut self) -> (action: OpenAction)
        requires
            old(self).request_ok(),
            old(self).metadata.wf(),
        ensures
            old(self).examined(old(self).metadata@, *final(self), action),
            final(self).same_request(*old(self)),
            final(self).wf(),
    {
        if self.has_magic_number() {
            self.stage = OpenStage::Ready;
            return OpenAction::Finish;
        }
        let layout = match self.calculate_layout() {
            Ok(layout) => layout,
            Err(e) => {
                self.stage = OpenStage::Failed;
                return OpenAction::Fail(e);
            },
        };
        if self.metadata.mmap.len() < layout.len() {
            self.stage = OpenStage::SizingFile;
            return OpenAction::Resize(layout.len());
        }
        self.blank_header();
        self.stage = OpenStage::FlushingMark;
        OpenAction::Flush
    }

    /// What one step of the opening does.
    pub open spec fn stepped(self, event: OpenEvent, after: Self, action: OpenAction) -> bool {
        let image = self.metadata@;
        match event {
            OpenEvent::Mapped(Ok(mmap)) => if mmap@.len() < DB_HEADER_SIZE {
                &&& after.stage == OpenStage::SizingHeader
                &&& after.metadata@ == mmap@
                &&& action == OpenAction::Resize(DB_HEADER_SIZE)
            } else {
                self.examined(mmap@, after, action)
            },
            OpenEvent::Mapped(Err(e)) => {
                &&& after.stage == OpenStage::Failed
                &&& action == OpenAction::Fail(e)
            },
            OpenEvent::Finished(Err(e)) => {
                &&& after.stage == OpenStage::Failed
                &&& after.metadata@ == image
                &&& action == OpenAction::Fail(e)
            },
            OpenEvent::Finished(Ok(_)) => match self.stage {
                OpenStage::SizingHeader => self.examined(
                    bytes::extended(image, DB_HEADER_SIZE as int),
                    after,
                    action,
                ),
                OpenStage::SizingFile => {
                    &&& after.stage == OpenStage::FlushingMark
                    &&& blanked(
                        bytes::extended(image, self.new_layout().spec_len()),
                        after.metadata@,
                    )
                    &&& action == OpenAction::Flush
                },
                OpenStage::FlushingMark => {
                    &&& after.stage == OpenStage::FlushingState
                    &&& after.is_new(Seq::new(9, |i: int| 0u8))
                    &&& after.metadata@.len() == image.len()
                    &&& action == OpenAction::Flush
                },
                OpenStage::FlushingState => {
                    &&& after.stage == OpenStage::FlushingMagic
                    &&& after.metadata@ == bytes::splice(image, 0, MAGICNUMBER@)
                    &&& after.is_new(MAGICNUMBER@)
                    &&& action == OpenAction::Flush
                },
                OpenStage::FlushingMagic => {
                    &&& after.stage == OpenStage::Ready
                    &&& after.metadata@ == image
                    &&& action == OpenAction::Finish
                },
                _ => false,
            },
        }
    }

    /// Goes on with the opening.
    pub fn step(&mut self, event: OpenEvent) -> (action: OpenAction)
        requires
            old(self).wf(),
            event is Mapped <==> old(self).stage == OpenStage::Mapping,
            old(self).stage != OpenStage::Ready,
            old(self).stage != OpenStage::Failed,
        ensures
            old(self).stepped(event, *final(self), action),
            final(self).same_request(*old(self)),
            final(self).wf(),
    {
        match event {
            OpenEvent::Mapped(Ok(mmap)) => {
                self.metadata = MetadataAccessor::new(mmap);
                if self.metadata.mmap.len() < DB_HEADER_SIZE {
                    self.stage = OpenStage::SizingHeader;
                    return OpenAction::Resize(DB_HEADER_SIZE);
                }
                self.examine()
            },
            OpenEvent::Mapped(Err(e)) => {
                self.stage = OpenStage::Failed;
                OpenAction::Fail(e)
            },
            OpenEvent::Finished(Err(e)) => {
                self.stage = OpenStage::Failed;
                OpenAction::Fail(e)
            },
            OpenEvent::Finished(Ok(_)) => self.go_on(),
        }
    }

    /// Blanks the header of a file that has got its length.
    fn start_content(&mut self)
        requires
            old(self).request_ok(),
            old(self).has_room(),
            old(self).metadata.wf(),
        ensures
            blanked(
                bytes::extended(old(self).metadata@, old(self).new_layout().spec_len()),
                final(self).metadata@,
            ),
            old(self).new_layout().spec_len() <= final(self).metadata@.len(),
            final(self).same_request(*old(self)),
            final(self).stage == old(self).stage,
    {
        if let Ok(layout) = self.calculate_layout() {
            extend_zero(&mut self.metadata.mmap, layout.len());
            self.blank_header();
        }
    }

    /// Writes the magic number. That is done only after the data structure is initialized and
    /// written to disk, to ensure that it's crash safe.
    fn seal(&mut self)
        requires
            old(self).is_new(Seq::new(9, |i: int| 0u8)),
        ensures
            final(self).metadata@ == bytes::splice(old(self).metadata@, 0, MAGICNUMBER@),
            final(self).is_new(MAGICNUMBER@),
            final(self).same_request(*old(self)),
            final(self).stage == old(self).stage,
    {
        let ghost before = self.metadata@;
        let ghost layout = self.new_layout();
        proof {
            layout.lemma_region(0);
        }
        self.metadata.set_magic_number();
        proof {
            assert forall|i: int| 0 <= i < DB_HEADER_SIZE implies #[trigger] before[i]
                == self.first_header_bytes(Seq::new(9, |j: int| 0u8))[i] by {
                assert(header::header_bytes(before)[i] == before[i]);
            }
            assert(header::header_bytes(self.metadata@) =~= self.first_header_bytes(MAGICNUMBER@));
            regions::lemma_header_change(before, self.metadata@, layout);
            regions::lemma_allocators_same(
                before,
                self.metadata@,
                layout,
                regions::layout_allocators(layout),
            );
            assert forall|r: int| 0 <= r < 8 * layout.tracker_bytes implies #[trigger] regions::marked(
                self.metadata@,
                layout,
                r,
            ) == regions::marked(before, layout, r) by {}
        }
    }

    fn go_on(&mut self) -> (action: OpenAction)
        requires
            old(self).wf(),
            old(self).stage != OpenStage::Mapping,
            old(self).stage != OpenStage::Ready,
            old(self).stage != OpenStage::Failed,
        ensures
            old(self).stepped(OpenEvent::Finished(Ok(())), *final(self), action),
            final(self).same_request(*old(self)),
            final(self).wf(),
    {
        match self.stage {
            OpenStage::SizingHeader => {
                extend_zero(&mut self.metadata.mmap, DB_HEADER_SIZE);
                self.examine()
            },
            OpenStage::SizingFile => {
                self.start_content();
                self.stage = OpenStage::FlushingMark;
                OpenAction::Flush
            },
            OpenStage::FlushingMark => {
                if let Ok(layout) = self.calculate_layout() {
                    self.initialize(&layout);
                }
                self.stage = OpenStage::FlushingState;
                OpenAction::Flush
            },
            OpenStage::FlushingState => {
                self.seal();
                self.stage = OpenStage::FlushingMagic;
                OpenAction::Flush
            },
            _ => {
                self.stage = OpenStage::Ready;
                OpenAction::Finish
            },
        }
    }
}

} // verus!
