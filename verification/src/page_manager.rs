//! The pages of the database file, and which of them are in use.

use crate::buddy_allocator::BuddyAllocator;
use crate::bytes;
use crate::header;
use crate::header::MetadataAccessor;
use crate::journal;
use crate::journal::AllocationOp;
use crate::layout;
use crate::layout::DatabaseLayout;
use crate::math;
use crate::page_number::PageNumber;
use crate::regions;
use std::collections::HashSet;
use vstd::prelude::*;

verus! {

/// The memory of an open file.
///
/// A transaction allocates and frees pages, writes to the pages that it allocated, and then commits
/// or is rolled back. Work outside the memory (flushing it to the file, resizing the file) is asked
/// for by an `Action`; the caller does it and calls again with what came of it.
pub struct TransactionalMemory {
    /// The keys of the pages allocated since the last commit.
    pub allocated_since_commit: HashSet<u128>,
    pub log_since_commit: Vec<AllocationOp>,
    /// None if the allocator state was out of date when the file was opened.
    pub regional_allocators: Option<Vec<BuddyAllocator>>,
    pub metadata: MetadataAccessor,
    pub layout: DatabaseLayout,
    /// Whether a non-durable commit has been made, so that reads are served from the slot that is
    /// not primary.
    pub read_from_secondary: bool,
    pub page_size: usize,
    pub region_size: usize,
    pub region_header_with_padding_size: usize,
    pub db_header_size: usize,
    /// Whether the allocator state says no more than the layout. The state in a file that was closed
    /// after it had grown, and before that was committed, has more pages than the last commit; they
    /// are taken out of it before the first change to the allocators.
    pub trimmed: bool,
    /// The pages that were free after the last commit, and those that the file has gained since.
    pub committed_free: Ghost<Set<(int, int)>>,
}

/// Whether the pages of a layout can be named by page numbers.
pub open spec fn names_fit(layout: DatabaseLayout) -> bool {
    &&& layout.region_pages <= 0x1_0000_0000
    &&& 8 * layout.tracker_bytes <= 0x1_0000_0000
}

/// Whether a layout is one of a file with this header.
pub open spec fn layout_fits(header: header::Header, layout: DatabaseLayout) -> bool {
    layout.is_for(
        header.max_capacity as int,
        layout.spec_usable_bytes(),
        header.region_max_usable_bytes as int,
        math::pow2(header.page_size_exponent as int),
    )
}

/// Whether the memory is that of a file with this layout.
pub open spec fn geometry_ok(image: Seq<u8>, layout: DatabaseLayout) -> bool {
    let header = header::header(image);
    &&& layout.valid()
    &&& layout::addressable(
        header.max_capacity as int,
        header.region_max_usable_bytes as int,
        math::pow2(header.page_size_exponent as int),
    )
    &&& layout_fits(header, layout)
    &&& layout.spec_len() <= image.len()
    &&& names_fit(layout)
}

/// Whether only regions without a free page are marked as full.
pub open spec fn marks_sound(
    image: Seq<u8>,
    layout: DatabaseLayout,
    free: Set<(int, int)>,
) -> bool {
    forall|r: int, p: int| #[trigger]
        free.contains((r, p)) ==> !regions::marked(image, layout, r)
}

impl TransactionalMemory {
    /// The bytes of the file.
    pub open spec fn image(self) -> Seq<u8> {
        self.metadata@
    }

    pub open spec fn header(self) -> header::Header {
        header::header(self.metadata@)
    }

    pub open spec fn has_allocators(self) -> bool {
        self.regional_allocators is Some
    }

    pub open spec fn allocators(self) -> Seq<BuddyAllocator> {
        self.regional_allocators->0@
    }

    /// The free pages.
    pub open spec fn free_set(self) -> Set<(int, int)> {
        let free = regions::free_pages(self.image(), self.layout, self.allocators());
        if self.trimmed {
            free
        } else {
            free.intersect(regions::all_pages(self.layout))
        }
    }

    /// The slot that reads are served from.
    pub open spec fn readable(self) -> header::CommitSlot {
        if self.read_from_secondary {
            self.header().secondary()
        } else {
            self.header().primary()
        }
    }

    /// Whether a page was allocated since the last commit.
    pub open spec fn is_uncommitted(self, page: PageNumber) -> bool {
        self.allocated_since_commit@.contains(page.spec_key())
    }

    /// The memory is that of a file with the current layout.
    pub open spec fn geometry(self) -> bool {
        &&& self.metadata.wf()
        &&& geometry_ok(self.image(), self.layout)
        &&& self.page_size == self.layout.page_size
        &&& self.region_size == self.layout.spec_region_len()
        &&& self.region_header_with_padding_size == self.layout.region_header_bytes
        &&& self.db_header_size == self.layout.header_bytes
    }

    /// The allocators hold what the log says; without allocators, and as long as the state is not
    /// trimmed, there is nothing in it.
    pub open spec fn allocation(self) -> bool {
        &&& !self.has_allocators() ==> self.trimmed && self.log_since_commit@.len() == 0
        &&& !self.trimmed ==> {
            &&& self.allocators() == regions::layout_allocators(self.layout)
            &&& regions::states_ok(
                self.image(),
                self.layout,
                regions::full_allocators(self.layout),
            )
            &&& self.log_since_commit@.len() == 0
            &&& self.committed_free@ == self.free_set()
        }
        &&& self.has_allocators() && self.trimmed ==> {
            &&& regions::allocators_ok(self.image(), self.layout, self.allocators())
            &&& journal::within(self.allocators(), self.log_since_commit@)
            &&& journal::replays(self.committed_free@, self.log_since_commit@)
            &&& journal::replay(self.committed_free@, self.log_since_commit@) == self.free_set()
        }
    }

    /// The slots are of the file format. The layouts of the primary slot and of the slot that reads
    /// are served from are ones of this file; unless there is a non-durable commit, the file has
    /// grown from the primary one. A file whose state is not trimmed has not grown.
    pub open spec fn committed_layout(self) -> bool {
        &&& self.header().slot_0.version == header::FILE_FORMAT_VERSION
        &&& self.header().slot_1.version == header::FILE_FORMAT_VERSION
        &&& geometry_ok(self.image(), self.header().primary().layout)
        &&& geometry_ok(self.image(), self.readable().layout)
        &&& !self.read_from_secondary ==> self.header().primary().layout.grows_to(self.layout)
        &&& self.read_from_secondary ==> self.has_allocators()
        &&& !self.trimmed ==> {
            &&& self.header().primary().layout == self.layout
            &&& self.readable().layout == self.layout
        }
    }

    /// Where there are no allocators, the file is marked as one whose allocator state is out of
    /// date.
    pub open spec fn state_known(self) -> bool {
        self.has_allocators() || self.header().dirty
    }

    /// The invariant.
    pub open spec fn wf(self) -> bool {
        &&& self.geometry()
        &&& self.allocation()
        &&& self.committed_layout()
    }

    /// Whether only regions without a free page are marked as full.
    pub open spec fn marks_sound(self) -> bool {
        marks_sound(self.image(), self.layout, self.free_set())
    }

    /// Nothing but the bytes of the file may differ.
    pub open spec fn same_but_image(self, other: Self) -> bool {
        &&& self.allocated_since_commit@ == other.allocated_since_commit@
        &&& self.log_since_commit@ == other.log_since_commit@
        &&& self.has_allocators() == other.has_allocators()
        &&& self.allocators() == other.allocators()
        &&& self.layout == other.layout
        &&& self.read_from_secondary == other.read_from_secondary
        &&& self.page_size == other.page_size
        &&& self.region_size == other.region_size
        &&& self.region_header_with_padding_size == other.region_header_with_padding_size
        &&& self.db_header_size == other.db_header_size
        &&& self.trimmed == other.trimmed
        &&& self.committed_free@ == other.committed_free@
    }

    /// Nothing differs.
    pub open spec fn unchanged(self, before: Self) -> bool {
        &&& self.same_but_image(before)
        &&& self.image() == before.image()
    }

    /// Only the mark of out-of-date allocators is new.
    pub open spec fn marked_dirty(self, before: Self) -> bool {
        &&& self.same_but_image(before)
        &&& self.header() == (header::Header { dirty: true, ..before.header() })
        &&& self.image() == header::with_god_byte(
            before.image(),
            before.image()[header::GOD_BYTE_OFFSET as int] | header::ALLOCATOR_STATE_DIRTY,
        )
    }

    /// The mark of out-of-date allocators of `before` is gone.
    pub open spec fn marked_clean(self, before: Self) -> bool {
        &&& self.same_but_image(before)
        &&& self.header() == (header::Header { dirty: false, ..before.header() })
        &&& self.image() == header::with_god_byte(
            before.image(),
            before.image()[header::GOD_BYTE_OFFSET as int] & !header::ALLOCATOR_STATE_DIRTY,
        )
    }

    /// Where a page starts.
    pub open spec fn page_address(self, page: PageNumber) -> int {
        page.address(
            self.db_header_size as int,
            self.region_size as int,
            self.region_header_with_padding_size as int,
            self.page_size as int,
        )
    }

    /// The bytes of a page.
    pub open spec fn page_bytes(self, page: PageNumber) -> Seq<u8> {
        self.image().subrange(
            self.page_address(page),
            self.page_address(page) + page.spec_page_size_bytes(self.page_size as int),
        )
    }

    /// Whether the memory holds all of a page.
    pub open spec fn page_in_memory(self, page: PageNumber) -> bool {
        self.page_address(page) + page.spec_page_size_bytes(self.page_size as int)
            <= self.image().len()
    }

    /// A region that an allocation of order `order` can be served from.
    pub open spec fn candidate(self, region: int, order: int) -> bool {
        &&& !regions::marked(self.image(), self.layout, region)
        &&& regions::next_block(self.image(), self.layout, self.allocators(), region, order)
            is Some
    }
}

impl TransactionalMemory {
    /// A memory whose header alone changed, and there not the sizes, still serves its allocators.
    pub proof fn lemma_header_only(self, before: Self)
        requires
            before.geometry(),
            self.same_but_image(before),
            bytes::same_outside(before.image(), self.image(), 0, header::DB_HEADER_SIZE as int),
            self.header().page_size_exponent == before.header().page_size_exponent,
            self.header().max_capacity == before.header().max_capacity,
            self.header().region_max_usable_bytes == before.header().region_max_usable_bytes,
        ensures
            self.geometry(),
            before.allocation() ==> self.allocation(),
            before.has_allocators() && before.allocation() ==> self.free_set()
                == before.free_set(),
            before.has_allocators() && before.allocation() ==> self.marks_sound()
                == before.marks_sound(),
            regions::data_kept(before.image(), self.image(), self.layout),
            regions::state_same(before.image(), self.image(), self.layout),
    {
        self.layout.lemma_region(0);
        regions::lemma_header_change(before.image(), self.image(), self.layout);
        if before.has_allocators() && before.allocation() {
            self.lemma_state_kept(before);
        }
    }

    /// A memory whose allocator bytes are what they were has the same pages free.
    pub proof fn lemma_state_kept(self, before: Self)
        requires
            before.geometry(),
            before.has_allocators(),
            before.allocation(),
            self.allocators() == before.allocators(),
            self.layout == before.layout,
            self.trimmed == before.trimmed,
            self.image().len() == before.image().len(),
            regions::state_same(before.image(), self.image(), before.layout),
        ensures
            self.free_set() == before.free_set(),
            self.marks_sound() == before.marks_sound(),
            before.trimmed ==> regions::allocators_ok(
                self.image(),
                self.layout,
                self.allocators(),
            ),
            !before.trimmed ==> regions::states_ok(
                self.image(),
                self.layout,
                regions::full_allocators(self.layout),
            ),
    {
        regions::lemma_state_same(before.image(), self.image(), self.layout, self.allocators());
        regions::lemma_state_same(
            before.image(),
            self.image(),
            self.layout,
            regions::full_allocators(self.layout),
        );
    }

    /// The allocators are those of the layout.
    pub proof fn lemma_allocators(self)
        requires
            self.geometry(),
            self.has_allocators(),
            self.allocation(),
        ensures
            self.allocators() == regions::layout_allocators(self.layout),
            self.free_set().subset_of(regions::all_pages(self.layout)),
    {
        if self.trimmed {
            regions::lemma_exact(self.image(), self.layout, self.allocators());
        }
    }

    /// Marking the allocators as up to date keeps the invariant.
    pub proof fn lemma_marked_clean(self, before: Self)
        requires
            before.geometry(),
            self.marked_clean(before),
        ensures
            self.geometry(),
            before.wf() ==> self.wf(),
            before.has_allocators() && before.allocation() ==> self.free_set()
                == before.free_set(),
            before.has_allocators() && before.allocation() ==> self.marks_sound()
                == before.marks_sound(),
            regions::data_kept(before.image(), self.image(), self.layout),
            regions::state_same(before.image(), self.image(), self.layout),
    {
        self.lemma_header_only(before);
    }

    /// Marking the allocators as out of date keeps the invariant.
    pub proof fn lemma_marked_dirty(self, before: Self)
        requires
            before.wf(),
            self.marked_dirty(before),
        ensures
            self.wf(),
            before.has_allocators() ==> self.free_set() == before.free_set(),
            before.has_allocators() && before.marks_sound() ==> self.marks_sound(),
            regions::data_kept(before.image(), self.image(), self.layout),
            regions::state_same(before.image(), self.image(), self.layout),
    {
        self.lemma_header_only(before);
    }

    /// A page of a region lies in the data of that region.
    pub proof fn lemma_page_inside(self, page: PageNumber)
        requires
            self.geometry(),
            regions::has_page(regions::layout_allocators(self.layout), page),
        ensures
            self.page_in_memory(page),
            self.layout.base(page.region as int) + self.layout.region_header_bytes
                <= self.page_address(page),
            self.page_address(page) + page.spec_page_size_bytes(self.page_size as int)
                <= self.layout.base(page.region as int) + self.layout.spec_region_len(),
            self.page_size <= page.spec_page_size_bytes(self.page_size as int),
    {
        let index = page.page_index as int;
        let power = math::pow2(page.page_order as int);
        let size = self.page_size as int;
        let allocator = regions::layout_allocators(self.layout)[page.region as int];
        let pages = allocator.num_pages as int;
        self.layout.lemma_region(page.region as int);
        math::lemma_pow2_positive(page.page_order as int);
        layout::lemma_mul_le((index + 1) * power, size, pages, size);
        layout::lemma_mul_le(pages, size, self.layout.region_pages as int, size);
        assert(index * (size * power) + size * power == ((index + 1) * power) * size)
            by (nonlinear_arith);
        layout::lemma_mul_le(index, size * power, index, size * power);
        assert(size <= size * power) by (nonlinear_arith)
            requires
                1 <= size,
                1 <= power,
        ;
    }
}

/// A single page is a block.
pub proof fn lemma_single(region: int, index: int)
    ensures
        regions::block_at(region, index, 0).contains((region, index)),
        forall|x: (int, int)| #[trigger]
            regions::block_at(region, index, 0).contains(x) ==> x == (region, index),
{
    math::lemma_pow2_zero();
    assert(index * math::pow2(0) == index);
    assert((index + 1) * math::pow2(0) == index + 1);
}

} // verus!
