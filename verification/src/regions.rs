//! The allocator state of all regions, inside the memory of the file.

use crate::buddy_allocator;
use crate::buddy_allocator::BuddyAllocator;
use crate::bytes;
use crate::bytes::range_mut;
use crate::error::Error;
use crate::grouped_bitmap;
use crate::grouped_bitmap::U64GroupedBitMapMut;
use crate::header;
use crate::header::{MetadataAccessor, DB_HEADER_SIZE};
use crate::layout;
use crate::layout::DatabaseLayout;
use crate::math;
use crate::page_number::PageNumber;
use vstd::prelude::*;
use vstd::slice::slice_subrange;

verus! {

/// The allocator state of region `region`.
pub open spec fn region_bytes(image: Seq<u8>, layout: DatabaseLayout, region: int) -> Seq<u8> {
    image.subrange(layout.base(region), layout.base(region) + layout.region_header_bytes)
}

/// The bytes of the region allocator.
pub open spec fn tracker(image: Seq<u8>, layout: DatabaseLayout) -> Seq<u8> {
    image.subrange(DB_HEADER_SIZE as int, DB_HEADER_SIZE + layout.tracker_bytes)
}

/// Whether region `region` is marked as full.
pub open spec fn marked(image: Seq<u8>, layout: DatabaseLayout, region: int) -> bool {
    grouped_bitmap::bit(tracker(image, layout), region)
}

/// Whether page `page` of region `region` is free.
pub open spec fn is_free(
    image: Seq<u8>,
    layout: DatabaseLayout,
    allocators: Seq<BuddyAllocator>,
    region: int,
    page: int,
) -> bool {
    0 <= region < allocators.len() && allocators[region].page_free(
        region_bytes(image, layout, region),
        page,
    )
}

/// The free pages, as pairs of a region and a page in it.
pub open spec fn free_pages(
    image: Seq<u8>,
    layout: DatabaseLayout,
    allocators: Seq<BuddyAllocator>,
) -> Set<(int, int)> {
    Set::new(|x: (int, int)| is_free(image, layout, allocators, x.0, x.1))
}

/// The pages of block `index` of order `order` in region `region`.
pub open spec fn block_at(region: int, index: int, order: int) -> Set<(int, int)> {
    Set::new(|x: (int, int)| x.0 == region && buddy_allocator::in_block(x.1, index, order))
}

/// The pages of a block.
pub open spec fn block(page: PageNumber) -> Set<(int, int)> {
    block_at(page.region as int, page.page_index as int, page.page_order as int)
}

/// The block that region `region` gives to the next request of order `order`.
pub open spec fn next_block(
    image: Seq<u8>,
    layout: DatabaseLayout,
    allocators: Seq<BuddyAllocator>,
    region: int,
    order: int,
) -> Option<int> {
    allocators[region].next_block(region_bytes(image, layout, region), order)
}

/// Byte `i` of region `region`.
pub open spec fn byte_at(image: Seq<u8>, layout: DatabaseLayout, region: int, i: int) -> u8 {
    image[layout.base(region) + i]
}

/// Whether `i` is the place of a page's byte in a region.
pub open spec fn in_pages(layout: DatabaseLayout, i: int) -> bool {
    layout.region_header_bytes <= i < layout.spec_region_len()
}

/// No byte of a page changed.
pub open spec fn data_kept(before: Seq<u8>, after: Seq<u8>, layout: DatabaseLayout) -> bool {
    forall|r: int, i: int|
        0 <= r && in_pages(layout, i) && layout.base(r) + i < before.len() ==> #[trigger] byte_at(
            after,
            layout,
            r,
            i,
        ) == byte_at(before, layout, r, i)
}

/// No byte of a page changed, but perhaps those from `start` to `end`.
pub open spec fn data_kept_but(
    before: Seq<u8>,
    after: Seq<u8>,
    layout: DatabaseLayout,
    start: int,
    end: int,
) -> bool {
    forall|r: int, i: int|
        0 <= r && in_pages(layout, i) && layout.base(r) + i < before.len() && !(start
            <= layout.base(r) + i < end) ==> #[trigger] byte_at(after, layout, r, i) == byte_at(
            before,
            layout,
            r,
            i,
        )
}

/// Whether there is such a block.
pub open spec fn has_page(allocators: Seq<BuddyAllocator>, page: PageNumber) -> bool {
    &&& page.region < allocators.len()
    &&& allocators[page.region as int].has_block(page.page_index as int, page.page_order as int)
}

/// All pages of a layout.
pub open spec fn all_pages(layout: DatabaseLayout) -> Set<(int, int)> {
    Set::new(
        |x: (int, int)| 0 <= x.0 < layout.spec_num_regions() && 0 <= x.1 < layout.pages_of(x.0),
    )
}

/// An allocator is the one for region `region` of the layout.
pub open spec fn allocator_fits(
    allocator: BuddyAllocator,
    layout: DatabaseLayout,
    region: int,
) -> bool {
    &&& allocator.valid()
    &&& allocator.max_order == layout.max_order
    &&& allocator.height == math::log2_ceil(layout.region_pages as int)
    &&& allocator.num_pages == layout.pages_of(region)
}

/// The memory holds the state of these allocators, one for each region of the layout.
pub open spec fn allocators_ok(
    image: Seq<u8>,
    layout: DatabaseLayout,
    allocators: Seq<BuddyAllocator>,
) -> bool {
    &&& allocators.len() == layout.spec_num_regions()
    &&& forall|i: int| #![trigger allocators[i]]
        0 <= i < allocators.len() ==> {
            &&& allocator_fits(allocators[i], layout, i)
            &&& allocators[i].wf(region_bytes(image, layout, i))
            &&& layout.base(i) + layout.region_header_bytes + allocators[i].num_pages
                * layout.page_size <= image.len()
        }
    &&& forall|i: int|
        layout.spec_num_regions() <= i < 8 * layout.tracker_bytes ==> #[trigger] marked(
            image,
            layout,
            i,
        )
}

/// A region starts behind the whole of each one before it.
pub proof fn lemma_regions_apart(layout: DatabaseLayout, a: int, b: int)
    requires
        layout.valid(),
        0 <= a < b,
    ensures
        layout.header_bytes <= layout.base(a),
        layout.base(a) + layout.spec_region_len() <= layout.base(b),
        layout.base(a) + layout.region_header_bytes <= layout.base(b),
{
    let len = layout.spec_region_len();
    layout::lemma_mul_le(a, len, a, len);
    layout::lemma_mul_le(a + 1, len, b, len);
    assert((a + 1) * len == a * len + len) by (nonlinear_arith);
    layout::lemma_mul_le(
        layout.region_pages as int,
        layout.page_size as int,
        layout.region_pages as int,
        layout.page_size as int,
    );
}

/// Writing the state of one region changes nothing else.
pub proof fn lemma_region_write(
    image: Seq<u8>,
    layout: DatabaseLayout,
    region: int,
    state: Seq<u8>,
)
    requires
        layout.valid(),
        0 <= region,
        layout.base(region) + layout.region_header_bytes <= image.len(),
        state.len() == layout.region_header_bytes,
    ensures
        ({
            let after = bytes::splice(image, layout.base(region), state);
            &&& after.len() == image.len()
            &&& region_bytes(after, layout, region) == state
            &&& forall|i: int|
                0 <= i && i != region && layout.base(i) + layout.region_header_bytes
                    <= image.len() ==> #[trigger] region_bytes(after, layout, i) == region_bytes(
                    image,
                    layout,
                    i,
                )
            &&& tracker(after, layout) == tracker(image, layout)
            &&& header::header_kept(image, after)
            &&& data_kept(image, after, layout)
        }),
{
    let at = layout.base(region);
    let after = bytes::splice(image, at, state);
    lemma_regions_apart(layout, region, region + 1);
    assert(region_bytes(after, layout, region) =~= state);
    assert forall|i: int|
        0 <= i && i != region && layout.base(i) + layout.region_header_bytes
            <= image.len() implies #[trigger] region_bytes(after, layout, i) == region_bytes(
        image,
        layout,
        i,
    ) by {
        if i < region {
            lemma_regions_apart(layout, i, region);
        } else {
            lemma_regions_apart(layout, region, i);
        }
        assert(region_bytes(after, layout, i) =~= region_bytes(image, layout, i));
    }
    assert(tracker(after, layout) =~= tracker(image, layout));
    header::lemma_header_kept(image, after);
    assert forall|r: int, i: int|
        0 <= r && in_pages(layout, i) && layout.base(r) + i < image.len() implies #[trigger] byte_at(
        after,
        layout,
        r,
        i,
    ) == byte_at(image, layout, r, i) by {
        if r < region {
            lemma_regions_apart(layout, r, region);
        } else if r > region {
            lemma_regions_apart(layout, region, r);
        }
    }
}

/// Writing the region allocator changes nothing else.
pub proof fn lemma_tracker_write(image: Seq<u8>, layout: DatabaseLayout, marks: Seq<u8>)
    requires
        layout.valid(),
        layout.header_bytes <= image.len(),
        marks.len() == layout.tracker_bytes,
    ensures
        ({
            let after = bytes::splice(image, DB_HEADER_SIZE as int, marks);
            &&& after.len() == image.len()
            &&& tracker(after, layout) == marks
            &&& forall|i: int|
                0 <= i && layout.base(i) + layout.region_header_bytes <= image.len()
                    ==> #[trigger] region_bytes(after, layout, i) == region_bytes(image, layout, i)
            &&& header::header_kept(image, after)
            &&& data_kept(image, after, layout)
        }),
{
    let after = bytes::splice(image, DB_HEADER_SIZE as int, marks);
    assert(tracker(after, layout) =~= marks);
    assert forall|i: int|
        0 <= i && layout.base(i) + layout.region_header_bytes <= image.len() implies #[trigger] region_bytes(
        after,
        layout,
        i,
    ) == region_bytes(image, layout, i) by {
        lemma_regions_apart(layout, i, i + 1);
        assert(region_bytes(after, layout, i) =~= region_bytes(image, layout, i));
    }
    header::lemma_header_kept(image, after);
    assert forall|r: int, i: int|
        0 <= r && in_pages(layout, i) && layout.base(r) + i < image.len() implies #[trigger] byte_at(
        after,
        layout,
        r,
        i,
    ) == byte_at(image, layout, r, i) by {
        lemma_regions_apart(layout, r, r + 1);
    }
}

/// Writing inside the pages of a region changes neither the header nor any allocator state.
pub proof fn lemma_data_write(
    image: Seq<u8>,
    after: Seq<u8>,
    layout: DatabaseLayout,
    region: int,
    start: int,
    end: int,
)
    requires
        layout.valid(),
        layout.header_bytes <= image.len(),
        0 <= region,
        layout.base(region) + layout.region_header_bytes <= start <= end <= layout.base(region)
            + layout.spec_region_len(),
        bytes::same_outside(image, after, start, end),
    ensures
        tracker(after, layout) == tracker(image, layout),
        header::header_kept(image, after),
        data_kept_but(image, after, layout, start, end),
        forall|i: int|
            0 <= i && layout.base(i) + layout.region_header_bytes <= image.len()
                ==> #[trigger] region_bytes(after, layout, i) == region_bytes(image, layout, i),
{
    lemma_regions_apart(layout, region, region + 1);
    assert(tracker(after, layout) =~= tracker(image, layout));
    assert forall|i: int|
        0 <= i && layout.base(i) + layout.region_header_bytes <= image.len() implies #[trigger] region_bytes(
        after,
        layout,
        i,
    ) == region_bytes(image, layout, i) by {
        lemma_regions_apart(layout, i, i + 1);
        if i < region {
            lemma_regions_apart(layout, i, region);
        } else if i > region {
            lemma_regions_apart(layout, region, i);
        }
        assert(region_bytes(after, layout, i) =~= region_bytes(image, layout, i));
    }
    header::lemma_header_kept(image, after);
    assert forall|r: int, i: int|
        0 <= r && in_pages(layout, i) && layout.base(r) + i < image.len() && !(start
            <= layout.base(r) + i < end) implies #[trigger] byte_at(after, layout, r, i) == byte_at(
        image,
        layout,
        r,
        i,
    ) by {
        lemma_regions_apart(layout, r, r + 1);
    }
}

/// Writing in the header changes no allocator state.
pub proof fn lemma_header_change(image: Seq<u8>, after: Seq<u8>, layout: DatabaseLayout)
    requires
        layout.valid(),
        layout.header_bytes <= image.len(),
        bytes::same_outside(image, after, 0, DB_HEADER_SIZE as int),
    ensures
        tracker(after, layout) == tracker(image, layout),
        data_kept(image, after, layout),
        forall|i: int|
            0 <= i && layout.base(i) + layout.region_header_bytes <= image.len()
                ==> #[trigger] region_bytes(after, layout, i) == region_bytes(image, layout, i),
{
    assert(tracker(after, layout) =~= tracker(image, layout));
    assert forall|i: int|
        0 <= i && layout.base(i) + layout.region_header_bytes <= image.len() implies #[trigger] region_bytes(
        after,
        layout,
        i,
    ) == region_bytes(image, layout, i) by {
        lemma_regions_apart(layout, i, i + 1);
        assert(region_bytes(after, layout, i) =~= region_bytes(image, layout, i));
    }
    assert forall|r: int, i: int|
        0 <= r && in_pages(layout, i) && layout.base(r) + i < image.len() implies #[trigger] byte_at(
        after,
        layout,
        r,
        i,
    ) == byte_at(image, layout, r, i) by {
        lemma_regions_apart(layout, r, r + 1);
    }
}

/// What keeps the pages of a file that has grown keeps the pages that it had.
pub proof fn lemma_data_kept_grown(
    before: Seq<u8>,
    between: Seq<u8>,
    after: Seq<u8>,
    layout: DatabaseLayout,
    grown: DatabaseLayout,
)
    requires
        layout.grows_to(grown),
        data_kept(before, between, layout),
        before.len() <= between.len(),
        data_kept(between, after, grown),
    ensures
        data_kept(before, after, layout),
{
    assert forall|r: int, i: int|
        0 <= r && in_pages(layout, i) && layout.base(r) + i < before.len() implies #[trigger] byte_at(
        after,
        layout,
        r,
        i,
    ) == byte_at(before, layout, r, i) by {
        assert(byte_at(after, grown, r, i) == byte_at(between, grown, r, i));
        assert(byte_at(between, layout, r, i) == byte_at(before, layout, r, i));
    }
}

/// Memory that got longer holds what it held.
pub proof fn lemma_extended(image: Seq<u8>, after: Seq<u8>, layout: DatabaseLayout)
    requires
        layout.valid(),
        layout.header_bytes <= image.len() <= after.len(),
        forall|i: int| #![trigger after[i]] 0 <= i < image.len() ==> after[i] == image[i],
    ensures
        tracker(after, layout) == tracker(image, layout),
        header::header_kept(image, after),
        data_kept(image, after, layout),
        forall|i: int|
            0 <= i && layout.base(i) + layout.region_header_bytes <= image.len()
                ==> #[trigger] region_bytes(after, layout, i) == region_bytes(image, layout, i),
{
    assert(tracker(after, layout) =~= tracker(image, layout));
    header::lemma_header_kept(image, after);
    assert forall|i: int|
        0 <= i && layout.base(i) + layout.region_header_bytes <= image.len() implies #[trigger] region_bytes(
        after,
        layout,
        i,
    ) == region_bytes(image, layout, i) by {
        lemma_regions_apart(layout, i, i + 1);
        assert(region_bytes(after, layout, i) =~= region_bytes(image, layout, i));
    }
    assert forall|r: int, i: int|
        0 <= r && in_pages(layout, i) && layout.base(r) + i < image.len() implies #[trigger] byte_at(
        after,
        layout,
        r,
        i,
    ) == byte_at(image, layout, r, i) by {
        lemma_regions_apart(layout, r, r + 1);
    }
}

/// The allocator states lie inside the memory.
pub proof fn lemma_states_inside(
    image: Seq<u8>,
    layout: DatabaseLayout,
    allocators: Seq<BuddyAllocator>,
)
    requires
        allocators_ok(image, layout, allocators),
    ensures
        forall|i: int|
            0 <= i < allocators.len() ==> #[trigger] layout.base(i) + layout.region_header_bytes
                <= image.len(),
{
    assert forall|i: int| 0 <= i < allocators.len() implies #[trigger] layout.base(i)
        + layout.region_header_bytes <= image.len() by {
        let pages = allocators[i].num_pages as int;
        layout::lemma_mul_le(pages, layout.page_size as int, pages, layout.page_size as int);
    }
}

/// Memory with the same allocator state serves the same allocators.
pub proof fn lemma_allocators_same(
    image: Seq<u8>,
    after: Seq<u8>,
    layout: DatabaseLayout,
    allocators: Seq<BuddyAllocator>,
)
    requires
        layout.valid(),
        allocators_ok(image, layout, allocators),
        image.len() <= after.len(),
        tracker(after, layout) == tracker(image, layout),
        forall|i: int|
            0 <= i && layout.base(i) + layout.region_header_bytes <= image.len()
                ==> #[trigger] region_bytes(after, layout, i) == region_bytes(image, layout, i),
    ensures
        allocators_ok(after, layout, allocators),
        free_pages(after, layout, allocators) == free_pages(image, layout, allocators),
{
    lemma_states_inside(image, layout, allocators);
    assert forall|i: int|
        layout.spec_num_regions() <= i < 8 * layout.tracker_bytes implies #[trigger] marked(
        after,
        layout,
        i,
    ) by {
        assert(marked(image, layout, i));
    }
    assert forall|i: int| #![trigger allocators[i]] 0 <= i < allocators.len() implies allocators[i].wf(
        region_bytes(after, layout, i),
    ) by {
        assert(region_bytes(after, layout, i) == region_bytes(image, layout, i));
    }
    assert(free_pages(after, layout, allocators) =~= free_pages(image, layout, allocators)) by {
        assert forall|r: int, p: int|
            is_free(after, layout, allocators, r, p) == #[trigger] is_free(
                image,
                layout,
                allocators,
                r,
                p,
            ) by {
            if 0 <= r < allocators.len() {
                assert(region_bytes(after, layout, r) == region_bytes(image, layout, r));
            }
        }
    }
}

/// No byte of the allocators changed: neither the marks nor the state of a region.
pub open spec fn state_same(before: Seq<u8>, after: Seq<u8>, layout: DatabaseLayout) -> bool {
    &&& tracker(after, layout) == tracker(before, layout)
    &&& forall|i: int|
        0 <= i && layout.base(i) + layout.region_header_bytes <= before.len()
            ==> #[trigger] region_bytes(after, layout, i) == region_bytes(before, layout, i)
}

/// Memory with the same allocator bytes has the same pages free.
pub proof fn lemma_state_same(
    before: Seq<u8>,
    after: Seq<u8>,
    layout: DatabaseLayout,
    allocators: Seq<BuddyAllocator>,
)
    requires
        layout.valid(),
        layout.spec_len() <= before.len() <= after.len(),
        allocators.len() <= layout.spec_num_regions(),
        state_same(before, after, layout),
    ensures
        free_pages(after, layout, allocators) == free_pages(before, layout, allocators),
        states_ok(before, layout, allocators) ==> states_ok(after, layout, allocators),
        allocators_ok(before, layout, allocators) ==> allocators_ok(after, layout, allocators),
        forall|r: int| #[trigger] marked(after, layout, r) == marked(before, layout, r),
{
    assert forall|r: int| 0 <= r < allocators.len() implies #[trigger] region_bytes(after, layout, r)
        == region_bytes(before, layout, r) by {
        layout.lemma_region(r);
    }
    assert forall|r: int, p: int|
        is_free(after, layout, allocators, r, p) == #[trigger] is_free(
            before,
            layout,
            allocators,
            r,
            p,
        ) by {
        if 0 <= r < allocators.len() {
            assert(region_bytes(after, layout, r) == region_bytes(before, layout, r));
        }
    }
    assert(free_pages(after, layout, allocators) =~= free_pages(before, layout, allocators));
    if allocators_ok(before, layout, allocators) {
        lemma_allocators_same(before, after, layout, allocators);
    }
    if states_ok(before, layout, allocators) {
        assert forall|i: int| #![trigger allocators[i]] 0 <= i < allocators.len() && i
            < layout.spec_num_regions() implies allocators[i].wf(region_bytes(after, layout, i)) by {
            assert(region_bytes(after, layout, i) == region_bytes(before, layout, i));
        }
    }
}

/// The allocators of a layout are ones for its regions, and the memory has room for their state.
pub proof fn lemma_layout_allocators(image: Seq<u8>, layout: DatabaseLayout)
    requires
        layout.valid(),
        layout.spec_len() <= image.len(),
    ensures
        forall|i: int| #![trigger layout_allocators(layout)[i]]
            0 <= i < layout.spec_num_regions() ==> {
                &&& allocator_fits(layout_allocators(layout)[i], layout, i)
                &&& layout_allocators(layout)[i].fits(region_bytes(image, layout, i))
                &&& layout.base(i) + layout.region_header_bytes
                    + layout_allocators(layout)[i].num_pages * layout.page_size <= image.len()
            },
{
    let pages = layout.region_pages as int;
    buddy_allocator::lemma_height_fits(pages);
    math::lemma_log2_ceil(pages);
    math::lemma_exponent_bound(math::log2_ceil(pages));
    assert forall|i: int| #![trigger layout_allocators(layout)[i]] 0 <= i
        < layout.spec_num_regions() implies {
        &&& allocator_fits(layout_allocators(layout)[i], layout, i)
        &&& layout_allocators(layout)[i].fits(region_bytes(image, layout, i))
        &&& layout.base(i) + layout.region_header_bytes + layout_allocators(layout)[i].num_pages
            * layout.page_size <= image.len()
    } by {
        layout.lemma_region(i);
        if layout.max_order > math::log2_ceil(pages) {
            math::lemma_pow2_lt(math::log2_ceil(pages), layout.max_order as int);
        }
        assert(region_bytes(image, layout, i).len() == layout.region_header_bytes);
    }
}

/// Access to the allocator state of the regions, and to nothing else.
pub struct RegionsAccessor<'a> {
    pub mmap: &'a mut Vec<u8>,
    pub layout: DatabaseLayout,
}

impl<'a> RegionsAccessor<'a> {
    pub open spec fn view(self) -> Seq<u8> {
        self.mmap@
    }

    pub fn new(mmap: &'a mut Vec<u8>, layout: &DatabaseLayout) -> (regions: Self)
        ensures
            regions@ == old(mmap)@,
            regions.layout == *layout,
            final(regions.mmap)@ == final(mmap)@,
    {
        RegionsAccessor { mmap, layout: *layout }
    }

    /// The allocator state of a region, for writing. What is left there is what the file then
    /// holds.
    pub fn get_regional_allocator_mut(&mut self, region: usize) -> (state: &mut [u8])
        requires
            old(self).layout.valid(),
            region < old(self).layout.spec_num_regions(),
            old(self).layout.base(region as int) + old(self).layout.region_header_bytes <= old(
                self,
            )@.len(),
        ensures
            state@ == region_bytes(old(self)@, old(self).layout, region as int),
            state@.len() == old(self).layout.region_header_bytes,
            final(self).layout == old(self).layout,
            final(state)@.len() == old(self).layout.region_header_bytes ==> final(self)@
                == bytes::splice(
                old(self)@,
                old(self).layout.base(region as int),
                final(state)@,
            ),
            final(final(self).mmap)@ == final(old(self).mmap)@,
    {
        proof {
            lemma_regions_apart(self.layout, region as int, region + 1);
        }
        let base: usize = self.layout.region_base_address(region);
        let len: usize = self.layout.region_layout(region).header_len();
        let end: usize = self.mmap.len();
        assert(base + len <= end);
        range_mut(self.mmap, base, base + len)
    }
}

impl MetadataAccessor {
    /// The allocator state of a region.
    pub fn get_regional_allocator(&self, region: usize, layout: &DatabaseLayout) -> (state: &[u8])
        requires
            layout.valid(),
            region < layout.spec_num_regions(),
            layout.base(region as int) + layout.region_header_bytes <= self@.len(),
        ensures
            state@ == region_bytes(self@, *layout, region as int),
    {
        proof {
            lemma_regions_apart(*layout, region as int, region + 1);
        }
        let base: usize = layout.region_base_address(region);
        let len: usize = layout.region_layout(region).header_len();
        let end: usize = self.mmap.len();
        assert(base + len <= end);
        slice_subrange(self.mmap.as_slice(), base, base + len)
    }

    /// The first step of every change to the allocators: the file is marked as one whose allocator
    /// state may be out of date. Returns whether the mark is new, so that the memory has to be
    /// flushed before anything else is changed.
    pub fn allocators_mut(&mut self) -> (flush: bool)
        requires
            old(self).wf(),
        ensures
            flush == !header::header(old(self)@).dirty,
            header::header(final(self)@) == (header::Header {
                dirty: true,
                ..header::header(old(self)@)
            }),
            !flush ==> *final(self) == *old(self),
            final(self)@ == header::with_god_byte(
                old(self)@,
                old(self)@[header::GOD_BYTE_OFFSET as int] | header::ALLOCATOR_STATE_DIRTY,
            ),
    {
        if !self.get_allocator_dirty() {
            self.set_allocator_dirty(true);
            true
        } else {
            proof {
                let god = self@[header::GOD_BYTE_OFFSET as int];
                assert(god & 2 != 0 ==> god | 2 == god) by (bit_vector);
                assert(self@ =~= header::with_god_byte(self@, god));
            }
            false
        }
    }

    /// The region allocator, for writing. What is left there is what the file then holds.
    pub fn region_allocator_mut(&mut self, layout: &DatabaseLayout) -> (map: U64GroupedBitMapMut<'_>)
        requires
            layout.valid(),
            layout.header_bytes <= old(self)@.len(),
        ensures
            map@ == tracker(old(self)@, *layout),
            map@.len() == layout.tracker_bytes,
            final(map.data)@.len() == layout.tracker_bytes ==> final(self)@ == bytes::splice(
                old(self)@,
                DB_HEADER_SIZE as int,
                final(map.data)@,
            ),
    {
        let range = layout.region_allocator_address_range();
        U64GroupedBitMapMut::new(range_mut(&mut self.mmap, range.start, range.end))
    }

    /// The allocator states of the regions, for writing.
    pub fn regions_mut(&mut self, layout: &DatabaseLayout) -> (regions: RegionsAccessor<'_>)
        ensures
            regions@ == old(self)@,
            regions.layout == *layout,
            final(self)@ == final(regions.mmap)@,
    {
        RegionsAccessor::new(&mut self.mmap, layout)
    }

    /// Whether a region is marked as full.
    pub fn is_marked(&self, layout: &DatabaseLayout, region: usize) -> (full: bool)
        requires
            layout.valid(),
            layout.header_bytes <= self@.len(),
            region < 8 * layout.tracker_bytes,
        ensures
            full == marked(self@, *layout, region as int),
    {
        let range = layout.region_allocator_address_range();
        grouped_bitmap::get_bit(
            slice_subrange(self.mmap.as_slice(), range.start, range.end),
            region,
        )
    }
}

/// The allocators of a layout's regions, just large enough for them.
pub open spec fn layout_allocators(layout: DatabaseLayout) -> Seq<BuddyAllocator> {
    Seq::new(
        layout.spec_num_regions() as nat,
        |i: int|
            BuddyAllocator {
                num_pages: layout.pages_of(i) as usize,
                max_order: layout.max_order,
                height: math::log2_ceil(layout.region_pages as int) as usize,
            },
    )
}

/// The allocators of a layout's regions, were all of them full-sized.
pub open spec fn full_allocators(layout: DatabaseLayout) -> Seq<BuddyAllocator> {
    Seq::new(
        layout.spec_num_regions() as nat,
        |i: int|
            BuddyAllocator {
                num_pages: layout.region_pages,
                max_order: layout.max_order,
                height: math::log2_ceil(layout.region_pages as int) as usize,
            },
    )
}

/// The allocators of a layout's regions.
pub fn region_allocators(layout: &DatabaseLayout) -> (allocators: Vec<BuddyAllocator>)
    requires
        layout.allocatable(),
    ensures
        allocators@ == layout_allocators(*layout),
        forall|i: int|
            0 <= i < allocators@.len() ==> allocator_fits(#[trigger] allocators@[i], *layout, i),
{
    let mut allocators: Vec<BuddyAllocator> = Vec::new();
    let full = layout.full_region_layout();
    let full_regional_allocator = BuddyAllocator::new(
        full.num_pages(),
        full.num_pages(),
        full.max_order(),
    );
    let mut i: usize = 0;
    while i < layout.num_full_regions()
        invariant
            layout.allocatable(),
            i <= layout.num_full_regions,
            allocators@.len() == i,
            full_regional_allocator.valid(),
            full_regional_allocator.num_pages == layout.region_pages,
            full_regional_allocator.max_order == layout.max_order,
            full_regional_allocator.height == math::log2_ceil(layout.region_pages as int),
            forall|j: int| 0 <= j < i ==> allocators@[j] == full_regional_allocator,
        decreases layout.num_full_regions - i,
    {
        allocators.push(full_regional_allocator);
        i = i + 1;
    }
    if let Some(region_layout) = layout.trailing_region_layout() {
        let trailing = BuddyAllocator::new(
            region_layout.num_pages(),
            full.num_pages(),
            region_layout.max_order(),
        );
        allocators.push(trailing);
    }
    assert(allocators@ =~= layout_allocators(*layout));
    allocators
}

/// Every page of a block that there is belongs to the region.
pub proof fn lemma_block_in_region(allocators: Seq<BuddyAllocator>, page: PageNumber)
    requires
        has_page(allocators, page),
    ensures
        forall|x: (int, int)| #[trigger]
            block(page).contains(x) ==> x.0 == page.region && 0 <= x.1
                < allocators[page.region as int].num_pages,
        block(page).contains((page.region as int, page.page_index * math::pow2(page.page_order as int))),
{
    let size = math::pow2(page.page_order as int);
    let index = page.page_index as int;
    math::lemma_pow2_positive(page.page_order as int);
    assert(0 <= index * size < (index + 1) * size) by (nonlinear_arith)
        requires
            0 <= index,
            1 <= size,
    ;
}

/// One region's allocator changed its free pages, the others did not.
proof fn lemma_free_changed(
    before: Seq<u8>,
    after: Seq<u8>,
    layout: DatabaseLayout,
    allocators: Seq<BuddyAllocator>,
    region: int,
)
    requires
        layout.valid(),
        allocators_ok(before, layout, allocators),
        0 <= region < allocators.len(),
        after.len() == before.len(),
        tracker(after, layout) == tracker(before, layout),
        allocators[region].wf(region_bytes(after, layout, region)),
        forall|i: int|
            0 <= i && i != region && layout.base(i) + layout.region_header_bytes <= before.len()
                ==> #[trigger] region_bytes(after, layout, i) == region_bytes(before, layout, i),
    ensures
        allocators_ok(after, layout, allocators),
        forall|r: int, p: int|
            r != region ==> #[trigger] is_free(after, layout, allocators, r, p) == is_free(
                before,
                layout,
                allocators,
                r,
                p,
            ),
{
    lemma_states_inside(before, layout, allocators);
    assert forall|i: int|
        layout.spec_num_regions() <= i < 8 * layout.tracker_bytes implies #[trigger] marked(
        after,
        layout,
        i,
    ) by {
        assert(marked(before, layout, i));
    }
    assert forall|i: int| #![trigger allocators[i]] 0 <= i < allocators.len() implies allocators[i].wf(
        region_bytes(after, layout, i),
    ) by {
        if i != region {
            assert(region_bytes(after, layout, i) == region_bytes(before, layout, i));
        }
    }
    assert forall|r: int, p: int| r != region implies #[trigger] is_free(
        after,
        layout,
        allocators,
        r,
        p,
    ) == is_free(before, layout, allocators, r, p) by {
        if 0 <= r < allocators.len() {
            assert(region_bytes(after, layout, r) == region_bytes(before, layout, r));
        }
    }
}

impl MetadataAccessor {
    /// Takes a block, all of whose pages are free.
    pub fn record_alloc(
        &mut self,
        layout: &DatabaseLayout,
        allocators: &Vec<BuddyAllocator>,
        page: PageNumber,
    )
        requires
            layout.valid(),
            layout.header_bytes <= old(self)@.len(),
            allocators_ok(old(self)@, *layout, allocators@),
            has_page(allocators@, page),
            block(page).subset_of(free_pages(old(self)@, *layout, allocators@)),
        ensures
            final(self)@.len() == old(self)@.len(),
            allocators_ok(final(self)@, *layout, allocators@),
            free_pages(final(self)@, *layout, allocators@) == free_pages(
                old(self)@,
                *layout,
                allocators@,
            ).difference(block(page)),
            header::header_kept(old(self)@, final(self)@),
            tracker(final(self)@, *layout) == tracker(old(self)@, *layout),
            data_kept(old(self)@, final(self)@, *layout),
    {
        let ghost before = self@;
        let region: usize = page.region as usize;
        let allocator = allocators[region];
        let ghost index = page.page_index as int;
        let ghost order = page.page_order as int;
        proof {
            layout.lemma_region(region as int);
            lemma_states_inside(before, *layout, allocators@);
            let mem = region_bytes(before, *layout, region as int);
            assert forall|i: int| #![trigger allocator.page_free(mem, i)]
                buddy_allocator::in_block(i, index, order) implies allocator.page_free(mem, i) by {
                assert(block(page).contains((region as int, i)));
                assert(free_pages(before, *layout, allocators@).contains((region as int, i)));
            }
        }
        let mut regions = self.regions_mut(layout);
        let mem = regions.get_regional_allocator_mut(region);
        allocator.record_alloc(mem, page.page_index as usize, page.page_order as usize);
        proof {
            let state = region_bytes(self@, *layout, region as int);
            lemma_region_write(before, *layout, region as int, mem@);
            lemma_free_changed(before, self@, *layout, allocators@, region as int);
            assert(free_pages(self@, *layout, allocators@) =~= free_pages(
                before,
                *layout,
                allocators@,
            ).difference(block(page)));
        }
    }
}

/// At most the allocator state of one region changed.
pub open spec fn only_region(
    before: Seq<u8>,
    after: Seq<u8>,
    layout: DatabaseLayout,
    region: int,
) -> bool {
    &&& after.len() == before.len()
    &&& tracker(after, layout) == tracker(before, layout)
    &&& header::header_kept(before, after)
    &&& data_kept(before, after, layout)
    &&& forall|i: int|
        0 <= i && i != region && layout.base(i) + layout.region_header_bytes <= before.len()
            ==> #[trigger] region_bytes(after, layout, i) == region_bytes(before, layout, i)
}

/// At most the mark of one region changed.
pub open spec fn only_mark(
    before: Seq<u8>,
    after: Seq<u8>,
    layout: DatabaseLayout,
    region: int,
    full: bool,
) -> bool {
    &&& after.len() == before.len()
    &&& grouped_bitmap::bit_written(tracker(before, layout), tracker(after, layout), region, full)
    &&& header::header_kept(before, after)
    &&& data_kept(before, after, layout)
    &&& forall|i: int|
        0 <= i && layout.base(i) + layout.region_header_bytes <= before.len()
            ==> #[trigger] region_bytes(after, layout, i) == region_bytes(before, layout, i)
}

/// The mark of a region is no part of the state of the regions.
pub proof fn lemma_mark(
    before: Seq<u8>,
    after: Seq<u8>,
    layout: DatabaseLayout,
    allocators: Seq<BuddyAllocator>,
    region: int,
    full: bool,
)
    requires
        layout.valid(),
        layout.header_bytes <= before.len(),
        only_mark(before, after, layout, region, full),
    ensures
        forall|i: int|
            0 <= i < 8 * layout.tracker_bytes ==> #[trigger] marked(after, layout, i) == (if i
                == region {
                full
            } else {
                marked(before, layout, i)
            }),
        allocators_ok(before, layout, allocators) ==> free_pages(after, layout, allocators)
            == free_pages(before, layout, allocators),
        allocators_ok(before, layout, allocators) && 0 <= region < layout.spec_num_regions()
            ==> allocators_ok(after, layout, allocators),
{
    assert(tracker(before, layout).len() == layout.tracker_bytes);
    assert forall|i: int| 0 <= i < 8 * layout.tracker_bytes implies #[trigger] marked(
        after,
        layout,
        i,
    ) == (if i == region {
        full
    } else {
        marked(before, layout, i)
    }) by {
        assert(grouped_bitmap::bit(tracker(after, layout), i) == (if i == region {
            full
        } else {
            grouped_bitmap::bit(tracker(before, layout), i)
        }));
    }
    if allocators_ok(before, layout, allocators) {
        lemma_states_inside(before, layout, allocators);
        assert forall|r: int, p: int|
            is_free(after, layout, allocators, r, p) == #[trigger] is_free(
                before,
                layout,
                allocators,
                r,
                p,
            ) by {
            if 0 <= r < allocators.len() {
                assert(region_bytes(after, layout, r) == region_bytes(before, layout, r));
            }
        }
        assert(free_pages(after, layout, allocators) =~= free_pages(before, layout, allocators));
        if 0 <= region < layout.spec_num_regions() {
            assert forall|i: int| #![trigger allocators[i]] 0 <= i
                < allocators.len() implies allocators[i].wf(region_bytes(after, layout, i)) by {
                assert(region_bytes(after, layout, i) == region_bytes(before, layout, i));
            }
        }
    }
}

impl MetadataAccessor {
    /// Gives back a block, none of whose pages is free.
    pub fn record_free(
        &mut self,
        layout: &DatabaseLayout,
        allocators: &Vec<BuddyAllocator>,
        page: PageNumber,
    )
        requires
            layout.valid(),
            layout.header_bytes <= old(self)@.len(),
            allocators_ok(old(self)@, *layout, allocators@),
            has_page(allocators@, page),
            block(page).disjoint(free_pages(old(self)@, *layout, allocators@)),
        ensures
            final(self)@.len() == old(self)@.len(),
            allocators_ok(final(self)@, *layout, allocators@),
            free_pages(final(self)@, *layout, allocators@) == free_pages(
                old(self)@,
                *layout,
                allocators@,
            ).union(block(page)),
            header::header_kept(old(self)@, final(self)@),
            tracker(final(self)@, *layout) == tracker(old(self)@, *layout),
            data_kept(old(self)@, final(self)@, *layout),
    {
        let ghost before = self@;
        let region: usize = page.region as usize;
        let allocator = allocators[region];
        let ghost index = page.page_index as int;
        let ghost order = page.page_order as int;
        proof {
            layout.lemma_region(region as int);
            lemma_states_inside(before, *layout, allocators@);
            let mem = region_bytes(before, *layout, region as int);
            assert forall|i: int| #![trigger allocator.page_free(mem, i)]
                buddy_allocator::in_block(i, index, order) implies !allocator.page_free(mem, i) by {
                assert(block(page).contains((region as int, i)));
                assert(!free_pages(before, *layout, allocators@).contains((region as int, i)));
            }
        }
        let mut regions = self.regions_mut(layout);
        let mem = regions.get_regional_allocator_mut(region);
        allocator.free(mem, page.page_index as usize, page.page_order as usize);
        proof {
            lemma_region_write(before, *layout, region as int, mem@);
            lemma_free_changed(before, self@, *layout, allocators@, region as int);
            assert(free_pages(self@, *layout, allocators@) =~= free_pages(
                before,
                *layout,
                allocators@,
            ).union(block(page)));
        }
    }

    /// Marks a region as full, or as one that may have free pages.
    pub fn mark(&mut self, layout: &DatabaseLayout, region: usize, full: bool)
        requires
            layout.valid(),
            layout.header_bytes <= old(self)@.len(),
            region < 8 * layout.tracker_bytes,
        ensures
            only_mark(old(self)@, final(self)@, *layout, region as int, full),
    {
        let ghost before = self@;
        let mut region_allocator = self.region_allocator_mut(layout);
        if full {
            region_allocator.set(region);
        } else {
            region_allocator.clear(region);
        }
        proof {
            lemma_tracker_write(before, *layout, region_allocator@);
        }
    }

    /// Asks the allocator of a region for a block.
    pub fn allocate_in(
        &mut self,
        layout: &DatabaseLayout,
        allocators: &Vec<BuddyAllocator>,
        region: usize,
        order: usize,
    ) -> (taken: Result<usize, Error>)
        requires
            layout.valid(),
            layout.header_bytes <= old(self)@.len(),
            allocators_ok(old(self)@, *layout, allocators@),
            region < layout.spec_num_regions(),
        ensures
            only_region(old(self)@, final(self)@, *layout, region as int),
            allocators_ok(final(self)@, *layout, allocators@),
            match taken {
                Ok(index) => {
                    &&& next_block(
                        old(self)@,
                        *layout,
                        allocators@,
                        region as int,
                        order as int,
                    ) == Some(index as int)
                    &&& allocators@[region as int].has_block(index as int, order as int)
                    &&& block_at(region as int, index as int, order as int).subset_of(
                        free_pages(old(self)@, *layout, allocators@),
                    )
                    &&& free_pages(final(self)@, *layout, allocators@) == free_pages(
                        old(self)@,
                        *layout,
                        allocators@,
                    ).difference(block_at(region as int, index as int, order as int))
                },
                Err(e) => {
                    &&& e == Error::OutOfSpace
                    &&& next_block(
                        old(self)@,
                        *layout,
                        allocators@,
                        region as int,
                        order as int,
                    ) is None
                    &&& final(self)@ == old(self)@
                    &&& forall|index: int|
                        allocators@[region as int].has_block(index, order as int)
                            ==> !#[trigger] block_at(region as int, index, order as int).subset_of(
                            free_pages(old(self)@, *layout, allocators@),
                        )
                },
            },
    {
        let ghost before = self@;
        let allocator = allocators[region];
        let ghost state = region_bytes(before, *layout, region as int);
        proof {
            layout.lemma_region(region as int);
            lemma_states_inside(before, *layout, allocators@);
        }
        let mut regions = self.regions_mut(layout);
        let mem = regions.get_regional_allocator_mut(region);
        let taken = allocator.allocate(mem, order);
        proof {
            lemma_region_write(before, *layout, region as int, mem@);
            lemma_free_changed(before, self@, *layout, allocators@, region as int);
            let free = free_pages(before, *layout, allocators@);
            match taken {
                Ok(index) => {
                    let taken_block = block_at(region as int, index as int, order as int);
                    assert forall|x: (int, int)| taken_block.contains(x) implies free.contains(
                        x,
                    ) by {
                        assert(allocator.page_free(state, x.1));
                    }
                    assert(free_pages(self@, *layout, allocators@) =~= free.difference(
                        taken_block,
                    ));
                },
                Err(_) => {
                    assert(self@ =~= before);
                    assert forall|index: int|
                        allocator.has_block(index, order as int) implies !#[trigger] block_at(
                        region as int,
                        index,
                        order as int,
                    ).subset_of(free) by {
                        assert(!allocator.block_free(state, index, order as int));
                        let i = choose|i: int| #![trigger allocator.page_free(state, i)]
                            buddy_allocator::in_block(i, index, order as int)
                                && !allocator.page_free(state, i);
                        assert(block_at(region as int, index, order as int).contains(
                            (region as int, i),
                        ));
                        assert(!free.contains((region as int, i)));
                    }
                },
            }
        }
        taken
    }

    /// Extends a region to `num_pages` pages; the pages that come in are free.
    pub fn resize_region(
        &mut self,
        layout: &DatabaseLayout,
        region: usize,
        allocator: BuddyAllocator,
        num_pages: usize,
    ) -> (resized: BuddyAllocator)
        requires
            layout.valid(),
            region < layout.spec_num_regions(),
            layout.base(region as int) + layout.region_header_bytes <= old(self)@.len(),
            allocator.wf(region_bytes(old(self)@, *layout, region as int)),
            allocator.num_pages <= num_pages <= allocator.cap(),
        ensures
            only_region(old(self)@, final(self)@, *layout, region as int),
            resized == (BuddyAllocator { num_pages, ..allocator }),
            resized.wf(region_bytes(final(self)@, *layout, region as int)),
            forall|i: int| #[trigger]
                resized.page_free(region_bytes(final(self)@, *layout, region as int), i) == (
                allocator.page_free(region_bytes(old(self)@, *layout, region as int), i)
                    || allocator.num_pages <= i < num_pages),
    {
        let ghost before = self@;
        let mut resized = allocator;
        proof {
            layout.lemma_region(region as int);
        }
        let mut regions = self.regions_mut(layout);
        let mem = regions.get_regional_allocator_mut(region);
        resized.resize(mem, num_pages);
        proof {
            lemma_region_write(before, *layout, region as int, mem@);
        }
        resized
    }

    /// Writes the state of a region of the layout, with all its pages free.
    pub fn init_region(&mut self, layout: &DatabaseLayout, region: usize) -> (allocator:
        BuddyAllocator)
        requires
            layout.valid(),
            region < layout.spec_num_regions(),
            layout.base(region as int) + layout.region_header_bytes <= old(self)@.len(),
        ensures
            only_region(old(self)@, final(self)@, *layout, region as int),
            allocator == layout_allocators(*layout)[region as int],
            allocator_fits(allocator, *layout, region as int),
            allocator.wf(region_bytes(final(self)@, *layout, region as int)),
            forall|i: int| #[trigger]
                allocator.page_free(region_bytes(final(self)@, *layout, region as int), i) == (0
                    <= i < layout.pages_of(region as int)),
    {
        let ghost before = self@;
        let region_layout = layout.region_layout(region);
        let full = layout.full_region_layout();
        proof {
            layout.lemma_region(region as int);
        }
        let mut regions = self.regions_mut(layout);
        let mem = regions.get_regional_allocator_mut(region);
        let allocator = BuddyAllocator::init_new(
            mem,
            region_layout.num_pages(),
            full.num_pages(),
            region_layout.max_order(),
        );
        proof {
            lemma_region_write(before, *layout, region as int, mem@);
        }
        allocator
    }
}

/// The allocators are those of the layout, and only its pages are free.
pub proof fn lemma_exact(image: Seq<u8>, layout: DatabaseLayout, allocators: Seq<BuddyAllocator>)
    requires
        layout.valid(),
        allocators_ok(image, layout, allocators),
    ensures
        allocators == layout_allocators(layout),
        free_pages(image, layout, allocators).subset_of(all_pages(layout)),
{
    assert forall|i: int| 0 <= i < allocators.len() implies allocators[i] == #[trigger] layout_allocators(
        layout,
    )[i] by {
        layout.lemma_region(i);
        assert(allocator_fits(allocators[i], layout, i));
    }
    assert(allocators =~= layout_allocators(layout));
    assert forall|x: (int, int)| #[trigger]
        free_pages(image, layout, allocators).contains(x) implies all_pages(layout).contains(x) by {
        allocators[x.0].lemma_free_in_range(region_bytes(image, layout, x.0), x.1);
    }
}

/// Whether the memory holds states for these allocators, which are ones for regions of the layout,
/// perhaps of another number of pages.
pub open spec fn states_ok(
    image: Seq<u8>,
    layout: DatabaseLayout,
    allocators: Seq<BuddyAllocator>,
) -> bool {
    forall|i: int| #![trigger allocators[i]]
        0 <= i < allocators.len() && i < layout.spec_num_regions() ==> {
            &&& allocators[i].max_order == layout.max_order
            &&& allocators[i].height == math::log2_ceil(layout.region_pages as int)
            &&& allocators[i].wf(region_bytes(image, layout, i))
        }
}

/// Whether the marks of the regions that there are not are set, and the other marks kept.
pub open spec fn marks_beyond_set(
    before: Seq<u8>,
    after: Seq<u8>,
    layout: DatabaseLayout,
) -> bool {
    forall|r: int|
        0 <= r < 8 * layout.tracker_bytes ==> #[trigger] marked(after, layout, r) == (marked(
            before,
            layout,
            r,
        ) || r >= layout.spec_num_regions())
}

impl MetadataAccessor {
    /// Marks the regions that there are not as full.
    pub fn mark_beyond(&mut self, layout: &DatabaseLayout)
        requires
            layout.valid(),
            layout.header_bytes <= old(self)@.len(),
        ensures
            final(self)@.len() == old(self)@.len(),
            header::header_kept(old(self)@, final(self)@),
            data_kept(old(self)@, final(self)@, *layout),
            forall|i: int|
                0 <= i && layout.base(i) + layout.region_header_bytes <= old(self)@.len()
                    ==> #[trigger] region_bytes(final(self)@, *layout, i) == region_bytes(
                    old(self)@,
                    *layout,
                    i,
                ),
            marks_beyond_set(old(self)@, final(self)@, *layout),
    {
        let ghost before = self@;
        let regions: usize = layout.tracker_bytes * 8;
        let mut i: usize = layout.num_regions();
        while i < regions
            invariant
                layout.valid(),
                layout.header_bytes <= before.len(),
                regions == 8 * layout.tracker_bytes,
                layout.spec_num_regions() <= i <= regions,
                self@.len() == before.len(),
                header::header_kept(before, self@),
                data_kept(before, self@, *layout),
                forall|j: int|
                    0 <= j && layout.base(j) + layout.region_header_bytes <= before.len()
                        ==> #[trigger] region_bytes(self@, *layout, j) == region_bytes(
                        before,
                        *layout,
                        j,
                    ),
                forall|r: int|
                    0 <= r < 8 * layout.tracker_bytes ==> #[trigger] marked(
                        self@,
                        *layout,
                        r,
                    ) == (marked(before, *layout, r) || layout.spec_num_regions() <= r < i),
            decreases regions - i,
        {
            let ghost current = self@;
            self.mark(layout, i, true);
            proof {
                lemma_mark(
                    current,
                    self@,
                    *layout,
                    Seq::<BuddyAllocator>::empty(),
                    i as int,
                    true,
                );
            }
            i = i + 1;
        }
    }

    /// Marks the regions that there are as ones that may have free pages.
    pub fn mark_present(&mut self, layout: &DatabaseLayout)
        requires
            layout.valid(),
            layout.header_bytes <= old(self)@.len(),
        ensures
            final(self)@.len() == old(self)@.len(),
            header::header_kept(old(self)@, final(self)@),
            data_kept(old(self)@, final(self)@, *layout),
            forall|i: int|
                0 <= i && layout.base(i) + layout.region_header_bytes <= old(self)@.len()
                    ==> #[trigger] region_bytes(final(self)@, *layout, i) == region_bytes(
                    old(self)@,
                    *layout,
                    i,
                ),
            forall|r: int|
                0 <= r < 8 * layout.tracker_bytes ==> #[trigger] marked(
                    final(self)@,
                    *layout,
                    r,
                ) == (marked(old(self)@, *layout, r) && r >= layout.spec_num_regions()),
    {
        let ghost before = self@;
        let num_regions: usize = layout.num_regions();
        let mut i: usize = 0;
        while i < num_regions
            invariant
                layout.valid(),
                layout.header_bytes <= before.len(),
                num_regions == layout.spec_num_regions(),
                i <= num_regions,
                self@.len() == before.len(),
                header::header_kept(before, self@),
                data_kept(before, self@, *layout),
                forall|j: int|
                    0 <= j && layout.base(j) + layout.region_header_bytes <= before.len()
                        ==> #[trigger] region_bytes(self@, *layout, j) == region_bytes(
                        before,
                        *layout,
                        j,
                    ),
                forall|r: int|
                    0 <= r < 8 * layout.tracker_bytes ==> #[trigger] marked(
                        self@,
                        *layout,
                        r,
                    ) == (marked(before, *layout, r) && r >= i),
            decreases num_regions - i,
        {
            let ghost current = self@;
            self.mark(layout, i, false);
            proof {
                lemma_mark(
                    current,
                    self@,
                    *layout,
                    Seq::<BuddyAllocator>::empty(),
                    i as int,
                    false,
                );
            }
            i = i + 1;
        }
    }

    /// Brings the state of a region to the pages that the layout gives it.
    fn confine_region(
        &mut self,
        layout: &DatabaseLayout,
        region: usize,
        allocator: BuddyAllocator,
    ) -> (confined: BuddyAllocator)
        requires
            layout.valid(),
            region < layout.spec_num_regions(),
            layout.base(region as int) + layout.region_header_bytes <= old(self)@.len(),
            allocator.max_order == layout.max_order,
            allocator.height == math::log2_ceil(layout.region_pages as int),
            allocator.wf(region_bytes(old(self)@, *layout, region as int)),
        ensures
            only_region(old(self)@, final(self)@, *layout, region as int),
            confined == layout_allocators(*layout)[region as int],
            allocator_fits(confined, *layout, region as int),
            confined.wf(region_bytes(final(self)@, *layout, region as int)),
            forall|i: int| #[trigger]
                confined.page_free(region_bytes(final(self)@, *layout, region as int), i) == (
                allocator.page_free(region_bytes(old(self)@, *layout, region as int), i) && i
                    < layout.pages_of(region as int)),
    {
        let ghost before = self@;
        let mut confined = allocator;
        proof {
            layout.lemma_region(region as int);
            math::lemma_log2_ceil(layout.region_pages as int);
        }
        let region_layout = layout.region_layout(region);
        let mut regions = self.regions_mut(layout);
        let mem = regions.get_regional_allocator_mut(region);
        confined.confine(mem, region_layout.num_pages());
        proof {
            lemma_region_write(before, *layout, region as int, mem@);
        }
        confined
    }

    /// Writes the state of a region of the layout, with none of its pages free.
    fn take_region(&mut self, layout: &DatabaseLayout, region: usize) -> (allocator: BuddyAllocator)
        requires
            layout.valid(),
            region < layout.spec_num_regions(),
            layout.base(region as int) + layout.region_header_bytes <= old(self)@.len(),
        ensures
            only_region(old(self)@, final(self)@, *layout, region as int),
            allocator.max_order == layout.max_order,
            allocator.height == math::log2_ceil(layout.region_pages as int),
            allocator.wf(region_bytes(final(self)@, *layout, region as int)),
            forall|i: int| #[trigger]
                allocator.page_free(region_bytes(final(self)@, *layout, region as int), i) ==> false,
    {
        let ghost before = self@;
        let full = layout.full_region_layout();
        proof {
            layout.lemma_region(region as int);
        }
        let mut regions = self.regions_mut(layout);
        let mem = regions.get_regional_allocator_mut(region);
        let allocator = BuddyAllocator::init_new(mem, 0, full.num_pages(), full.max_order());
        proof {
            lemma_region_write(before, *layout, region as int, mem@);
        }
        allocator
    }

    /// Brings the states of all regions to the pages that the layout gives them: of those pages,
    /// the ones stay free that are. Regions that there are not are marked as full.
    pub fn confine_regions(
        &mut self,
        layout: &DatabaseLayout,
        allocators: &Vec<BuddyAllocator>,
    ) -> (confined: Vec<BuddyAllocator>)
        requires
            layout.valid(),
            layout.spec_len() <= old(self)@.len(),
            states_ok(old(self)@, *layout, allocators@),
        ensures
            confined@ == layout_allocators(*layout),
            allocators_ok(final(self)@, *layout, confined@),
            free_pages(final(self)@, *layout, confined@) == free_pages(
                old(self)@,
                *layout,
                allocators@,
            ).intersect(all_pages(*layout)),
            marks_beyond_set(old(self)@, final(self)@, *layout),
            final(self)@.len() == old(self)@.len(),
            header::header_kept(old(self)@, final(self)@),
            data_kept(old(self)@, final(self)@, *layout),
    {
        let ghost start = self@;
        let ghost l = *layout;
        let ghost given = allocators@;
        proof {
            l.lemma_region(0);
            assert forall|j: int| 0 <= j < l.spec_num_regions() implies #[trigger] l.base(j)
                + l.region_header_bytes <= start.len() by {
                l.lemma_region(j);
            }
        }
        self.mark_beyond(layout);
        let ghost before = self@;
        let num_regions: usize = layout.num_regions();
        let mut confined: Vec<BuddyAllocator> = Vec::new();
        let mut i: usize = 0;
        while i < num_regions
            invariant
                *layout == l,
                l.valid(),
                allocators@ == given,
                num_regions == l.spec_num_regions(),
                i <= num_regions,
                confined@.len() == i,
                self@.len() == before.len(),
                forall|j: int|
                    0 <= j < num_regions ==> #[trigger] l.base(j) + l.region_header_bytes
                        <= before.len(),
                states_ok(before, l, given),
                header::header_kept(before, self@),
                data_kept(before, self@, l),
                tracker(self@, l) == tracker(before, l),
                forall|j: int|
                    i <= j < num_regions ==> #[trigger] region_bytes(self@, l, j) == region_bytes(
                        before,
                        l,
                        j,
                    ),
                forall|j: int| #![trigger confined@[j]]
                    0 <= j < i ==> {
                        &&& confined@[j] == layout_allocators(l)[j]
                        &&& allocator_fits(confined@[j], l, j)
                        &&& confined@[j].wf(region_bytes(self@, l, j))
                    },
                forall|j: int, p: int|
                    0 <= j < i ==> #[trigger] is_free(self@, l, layout_allocators(l), j, p) == (
                    is_free(before, l, given, j, p) && p < l.pages_of(j)),
            decreases num_regions - i,
        {
            let ghost current = self@;
            let ghost r = i as int;
            assert(region_bytes(current, l, r) == region_bytes(before, l, r));
            let allocator = if i < allocators.len() {
                assert(given[r].wf(region_bytes(before, l, r)));
                allocators[i]
            } else {
                self.take_region(layout, i)
            };
            let ghost between = self@;
            let fitted = self.confine_region(layout, i, allocator);
            confined.push(fitted);
            proof {
                assert forall|j: int| 0 <= j < num_regions && j != r implies #[trigger] region_bytes(
                    self@,
                    l,
                    j,
                ) == region_bytes(current, l, j) by {
                    assert(l.base(j) + l.region_header_bytes <= before.len());
                    assert(region_bytes(between, l, j) == region_bytes(current, l, j));
                }
                assert forall|j: int, p: int| 0 <= j < r + 1 implies #[trigger] is_free(
                    self@,
                    l,
                    layout_allocators(l),
                    j,
                    p,
                ) == (is_free(before, l, given, j, p) && p < l.pages_of(j)) by {
                    if j < r {
                        assert(region_bytes(self@, l, j) == region_bytes(current, l, j));
                        assert(is_free(current, l, layout_allocators(l), j, p) == (is_free(
                            before,
                            l,
                            given,
                            j,
                            p,
                        ) && p < l.pages_of(j)));
                    } else {
                        assert(fitted.page_free(region_bytes(self@, l, r), p) == (
                        allocator.page_free(region_bytes(between, l, r), p) && p < l.pages_of(r)));
                    }
                }
                assert forall|j: int| #![trigger confined@[j]] 0 <= j < r + 1 implies confined@[j].wf(
                    region_bytes(self@, l, j),
                ) by {
                    if j < r {
                        assert(region_bytes(self@, l, j) == region_bytes(current, l, j));
                    }
                }
            }
            i = i + 1;
        }
        proof {
            assert(confined@ =~= layout_allocators(l));
            lemma_confined(start, before, self@, l, given);
        }
        confined
    }
}

/// When every region is confined, the whole is.
proof fn lemma_confined(
    start: Seq<u8>,
    before: Seq<u8>,
    after: Seq<u8>,
    layout: DatabaseLayout,
    given: Seq<BuddyAllocator>,
)
    requires
        layout.valid(),
        layout.spec_len() <= after.len(),
        tracker(after, layout) == tracker(before, layout),
        marks_beyond_set(start, before, layout),
        forall|j: int|
            0 <= j < layout.spec_num_regions() ==> #[trigger] region_bytes(before, layout, j)
                == region_bytes(start, layout, j),
        forall|j: int| #![trigger layout_allocators(layout)[j]]
            0 <= j < layout.spec_num_regions() ==> {
                &&& allocator_fits(layout_allocators(layout)[j], layout, j)
                &&& layout_allocators(layout)[j].wf(region_bytes(after, layout, j))
            },
        forall|j: int, p: int|
            0 <= j < layout.spec_num_regions() ==> #[trigger] is_free(
                after,
                layout,
                layout_allocators(layout),
                j,
                p,
            ) == (is_free(before, layout, given, j, p) && p < layout.pages_of(j)),
    ensures
        allocators_ok(after, layout, layout_allocators(layout)),
        free_pages(after, layout, layout_allocators(layout)) == free_pages(
            start,
            layout,
            given,
        ).intersect(all_pages(layout)),
        marks_beyond_set(start, after, layout),
{
    let allocators = layout_allocators(layout);
    assert forall|r: int| 0 <= r < 8 * layout.tracker_bytes implies #[trigger] marked(
        after,
        layout,
        r,
    ) == (marked(start, layout, r) || r >= layout.spec_num_regions()) by {
        assert(marked(before, layout, r) == marked(after, layout, r));
    }
    assert forall|j: int| #![trigger allocators[j]] 0 <= j < allocators.len() implies layout.base(j)
        + layout.region_header_bytes + allocators[j].num_pages * layout.page_size <= after.len() by {
        layout.lemma_region(j);
        assert(allocator_fits(allocators[j], layout, j));
    }
    assert forall|x: (int, int)| #[trigger]
        free_pages(after, layout, allocators).contains(x) == free_pages(
            start,
            layout,
            given,
        ).intersect(all_pages(layout)).contains(x) by {
        let (r, p) = x;
        if 0 <= r < layout.spec_num_regions() {
            assert(is_free(after, layout, allocators, r, p) == (is_free(before, layout, given, r, p)
                && p < layout.pages_of(r)));
            assert(region_bytes(before, layout, r) == region_bytes(start, layout, r));
        }
    }
    assert(free_pages(after, layout, allocators) =~= free_pages(start, layout, given).intersect(
        all_pages(layout),
    ));
}

} // verus!
