//! What a file has to hold to be opened and worked with.

use crate::header;
use crate::header::{MetadataAccessor, DB_HEADER_SIZE, FILE_FORMAT_VERSION, MAGICNUMBER};
use crate::layout;
use crate::layout::{DatabaseLayout, MIN_USABLE_PAGES};
use crate::math;
use crate::opening::{OpenStage, Opening};
use crate::page_manager;
use crate::page_manager::TransactionalMemory;
use crate::regions;
use crate::regions::region_allocators;
use crate::trimming::largest_allocators;
use std::collections::HashSet;
use vstd::prelude::*;

verus! {

/// Whether a file of this content can be opened: it has the format, and numbers that can be
/// computed with.
pub open spec fn file_opens(image: Seq<u8>) -> bool {
    let h = header::header(image);
    let layout = h.primary().layout;
    &&& image.len() >= DB_HEADER_SIZE
    &&& h.primary().version == FILE_FORMAT_VERSION
    &&& h.secondary().version == FILE_FORMAT_VERSION
    &&& math::pow2(h.page_size_exponent as int) <= usize::MAX
    &&& layout.spec_region_len() <= usize::MAX
    &&& !h.dirty ==> layout.allocatable()
}

/// Whether a file of this content can be worked with: its layout is one of its sizes, and unless
/// the allocators are marked as out of date, each region holds the state of one. Where such a state
/// says that pages are free which the layout does not give to the region, they do not count.
pub open spec fn file_ok(image: Seq<u8>) -> bool {
    let h = header::header(image);
    let layout = h.primary().layout;
    &&& file_opens(image)
    &&& page_manager::geometry_ok(image, layout)
    &&& !h.dirty ==> regions::states_ok(image, layout, regions::full_allocators(layout))
}

/// Whether the allocator state in a file is just that of its layout.
pub open spec fn state_exact(image: Seq<u8>) -> bool {
    let layout = header::header(image).primary().layout;
    regions::allocators_ok(image, layout, regions::layout_allocators(layout))
}

/// A page is free by the state of its region, whatever the size of the allocator.
proof fn lemma_same_free(image: Seq<u8>, layout: DatabaseLayout, larger: DatabaseLayout)
    requires
        layout.valid(),
        larger.valid(),
        layout.grows_to(larger),
    ensures
        forall|x: (int, int)| #[trigger]
            regions::all_pages(layout).contains(x) ==> regions::free_pages(
                image,
                layout,
                regions::layout_allocators(layout),
            ).contains(x) == regions::free_pages(
                image,
                larger,
                regions::layout_allocators(larger),
            ).contains(x),
{
    layout.lemma_grows(larger);
    assert forall|x: (int, int)| #[trigger] regions::all_pages(layout).contains(x) implies regions::free_pages(
        image,
        layout,
        regions::layout_allocators(layout),
    ).contains(x) == regions::free_pages(
        image,
        larger,
        regions::layout_allocators(larger),
    ).contains(x) by {
        let a = regions::layout_allocators(layout)[x.0];
        let b = regions::layout_allocators(larger)[x.0];
        assert(layout.base(x.0) == larger.base(x.0));
        let mem = regions::region_bytes(image, layout, x.0);
        assert(a.tree(mem) == b.tree(mem));
    }
}

/// The allocator state of a memory, and of a file that has grown, is one of full-sized regions of
/// the earlier layout, with the same pages of that layout free.
pub proof fn lemma_closed_state(memory: TransactionalMemory, layout: DatabaseLayout)
    requires
        memory.geometry(),
        memory.has_allocators(),
        memory.allocation(),
        layout.valid(),
        layout.grows_to(memory.layout),
    ensures
        regions::states_ok(memory.image(), layout, regions::full_allocators(layout)),
        regions::free_pages(
            memory.image(),
            layout,
            regions::layout_allocators(layout),
        ).intersect(regions::all_pages(layout)) == memory.free_set().intersect(
            regions::all_pages(layout),
        ),
{
    let image = memory.image();
    let larger = memory.layout;
    let full = regions::full_allocators(layout);
    let held = if memory.trimmed {
        memory.allocators()
    } else {
        regions::full_allocators(larger)
    };
    math::lemma_log2_ceil(layout.region_pages as int);
    layout.lemma_grows(larger);
    memory.lemma_allocators();
    assert forall|i: int| #![trigger full[i]] 0 <= i < full.len() implies full[i].wf(
        regions::region_bytes(image, layout, i),
    ) && full[i].height == math::log2_ceil(layout.region_pages as int) by {
        larger.lemma_region(i);
        assert(layout.base(i) == larger.base(i));
        if memory.trimmed {
            assert(regions::allocator_fits(held[i], larger, i));
        }
        assert(held[i].wf(regions::region_bytes(image, larger, i)));
        held[i].lemma_more_pages(full[i], regions::region_bytes(image, larger, i));
    }
    lemma_same_free(image, layout, larger);
    assert forall|x: (int, int)| #[trigger] regions::all_pages(layout).contains(x) implies regions::all_pages(
        larger,
    ).contains(x) by {
        assert(layout.pages_of(x.0) <= larger.pages_of(x.0));
    }
    assert(regions::free_pages(image, layout, regions::layout_allocators(layout)).intersect(
        regions::all_pages(layout),
    ) =~= memory.free_set().intersect(regions::all_pages(layout)));
}

/// The allocator state of a layout is one of full-sized regions too.
proof fn lemma_state_exact(image: Seq<u8>)
    requires
        header::header(image).primary().layout.valid(),
        state_exact(image),
    ensures
        ({
            let layout = header::header(image).primary().layout;
            regions::states_ok(image, layout, regions::full_allocators(layout))
        }),
{
    let layout = header::header(image).primary().layout;
    let exact = regions::layout_allocators(layout);
    let full = regions::full_allocators(layout);
    math::lemma_log2_ceil(layout.region_pages as int);
    assert forall|i: int| #![trigger full[i]] 0 <= i < full.len() implies full[i].wf(
        regions::region_bytes(image, layout, i),
    ) && full[i].height == math::log2_ceil(layout.region_pages as int) by {
        layout.lemma_region(i);
        assert(regions::allocator_fits(exact[i], layout, i));
        exact[i].lemma_more_pages(full[i], regions::region_bytes(image, layout, i));
    }
}

impl MetadataAccessor {
    /// Whether the sizes in the header and the layout of the last commit fit together.
    fn has_geometry(&self) -> (yes: bool)
        requires
            self.wf(),
        ensures
            yes == (math::pow2(header::header(self@).page_size_exponent as int) <= usize::MAX
                && page_manager::geometry_ok(self@, header::header(self@).primary().layout)),
    {
        let ghost h = header::header(self@);
        let ghost e = h.page_size_exponent as int;
        proof {
            math::lemma_usize_half();
            if e < usize::BITS {
                math::lemma_pow2_le(e, usize::BITS - 1);
            } else {
                math::lemma_pow2_le(usize::BITS as int, e);
                math::lemma_pow2_step(usize::BITS as int);
            }
            math::lemma_pow2_positive(e);
        }
        if self.mmap[header::PAGE_SIZE_OFFSET] as u32 >= usize::BITS {
            return false;
        }
        let page_size: usize = self.get_page_size();
        let capacity: usize = self.get_max_capacity();
        let region_max: usize = self.get_region_max_usable_bytes();
        let layout = self.primary_slot().get_data_section_layout();
        let ghost c = capacity as int;
        let ghost m = region_max as int;
        let ghost p = page_size as int;
        if capacity > usize::MAX / 2 + 1 || region_max > usize::MAX / 2 + 1 {
            return false;
        }
        proof {
            if page_manager::geometry_ok(self@, layout) {
                layout::lemma_geometry(c, m, p);
            }
            if p > c / 10 {
                assert(10 * p > c);
            }
        }
        if page_size > capacity / MIN_USABLE_PAGES {
            return false;
        }
        if !layout.is_calculated(capacity, region_max, page_size) {
            return false;
        }
        proof {
            layout.lemma_is_for(c, layout.spec_usable_bytes(), m, p);
        }
        layout.len() <= self.mmap.len() && layout.region_pages as u64 <= 0x1_0000_0000
            && layout.tracker_bytes as u64 <= 0x2000_0000
    }

    /// Whether the allocator state is just that of a layout.
    fn has_exact_state(&self, layout: &DatabaseLayout) -> (yes: bool)
        requires
            layout.valid(),
            layout.spec_len() <= self@.len(),
        ensures
            yes == regions::allocators_ok(
                self@,
                *layout,
                regions::layout_allocators(*layout),
            ),
    {
        let ghost image = self@;
        let ghost l = *layout;
        let allocators = region_allocators(layout);
        proof {
            l.lemma_region(0);
            assert forall|i: int| #![trigger allocators@[i]] 0 <= i
                < allocators@.len() implies l.base(i) + l.region_header_bytes
                + allocators@[i].num_pages * l.page_size <= image.len() by {
                l.lemma_region(i);
            }
        }
        let mut i: usize = 0;
        while i < allocators.len()
            invariant
                self@ == image,
                *layout == l,
                l.valid(),
                l.spec_len() <= image.len(),
                allocators@ == regions::layout_allocators(l),
                i <= allocators@.len(),
                forall|j: int|
                    0 <= j < allocators@.len() ==> regions::allocator_fits(
                        #[trigger] allocators@[j],
                        l,
                        j,
                    ),
                forall|j: int| #![trigger allocators@[j]]
                    0 <= j < i ==> allocators@[j].wf(regions::region_bytes(image, l, j)),
            decreases allocators@.len() - i,
        {
            proof {
                l.lemma_region(i as int);
            }
            let mem = self.get_regional_allocator(i, layout);
            if !allocators[i].holds_state(mem) {
                assert(!allocators@[i as int].wf(regions::region_bytes(image, l, i as int)));
                return false;
            }
            i = i + 1;
        }
        let regions: usize = layout.tracker_bytes * 8;
        let mut r: usize = layout.num_regions();
        while r < regions
            invariant
                self@ == image,
                *layout == l,
                l.valid(),
                l.header_bytes <= image.len(),
                regions == 8 * l.tracker_bytes,
                l.spec_num_regions() <= r <= regions,
                forall|q: int|
                    l.spec_num_regions() <= q < r ==> #[trigger] regions::marked(image, l, q),
            decreases regions - r,
        {
            if !self.is_marked(layout, r) {
                assert(!regions::marked(image, l, r as int));
                return false;
            }
            r = r + 1;
        }
        true
    }

    /// Whether each region of a layout holds the state of an allocator.
    fn has_states(&self, layout: &DatabaseLayout) -> (yes: bool)
        requires
            layout.valid(),
            layout.spec_len() <= self@.len(),
        ensures
            yes == regions::states_ok(self@, *layout, regions::full_allocators(*layout)),
    {
        let ghost image = self@;
        let ghost l = *layout;
        let allocators = largest_allocators(layout);
        let mut i: usize = 0;
        while i < allocators.len()
            invariant
                self@ == image,
                *layout == l,
                l.valid(),
                l.spec_len() <= image.len(),
                allocators@ == regions::full_allocators(l),
                i <= allocators@.len(),
                forall|j: int| #![trigger allocators@[j]]
                    0 <= j < allocators@.len() ==> {
                        &&& allocators@[j].valid()
                        &&& allocators@[j].max_order == l.max_order
                        &&& allocators@[j].height == math::log2_ceil(l.region_pages as int)
                    },
                forall|j: int| #![trigger allocators@[j]]
                    0 <= j < i ==> allocators@[j].wf(regions::region_bytes(image, l, j)),
            decreases allocators@.len() - i,
        {
            proof {
                l.lemma_region(i as int);
            }
            let mem = self.get_regional_allocator(i, layout);
            if !allocators[i].holds_state(mem) {
                assert(!allocators@[i as int].wf(regions::region_bytes(image, l, i as int)));
                return false;
            }
            i = i + 1;
        }
        true
    }

    /// Whether the file can be opened.
    pub fn is_openable(&self) -> (yes: bool)
        ensures
            yes == file_opens(self@),
    {
        if self.mmap.len() < DB_HEADER_SIZE {
            return false;
        }
        if self.primary_slot().get_version() != FILE_FORMAT_VERSION
            || self.secondary_slot().get_version() != FILE_FORMAT_VERSION {
            return false;
        }
        let ghost e = header::header(self@).page_size_exponent as int;
        proof {
            math::lemma_usize_half();
            if e < usize::BITS {
                math::lemma_pow2_le(e, usize::BITS - 1);
            } else {
                math::lemma_pow2_le(usize::BITS as int, e);
                math::lemma_pow2_step(usize::BITS as int);
            }
        }
        if self.mmap[header::PAGE_SIZE_OFFSET] as u32 >= usize::BITS {
            return false;
        }
        let layout = self.primary_slot().get_data_section_layout();
        layout.has_region_len() && (self.get_allocator_dirty() || layout.is_allocatable())
    }

    /// Whether the file can be worked with.
    pub fn is_sound(&self) -> (yes: bool)
        requires
            file_opens(self@),
        ensures
            yes == file_ok(self@),
    {
        if !self.has_geometry() {
            return false;
        }
        if self.get_allocator_dirty() {
            return true;
        }
        let layout = self.primary_slot().get_data_section_layout();
        self.has_states(&layout)
    }
}

impl TransactionalMemory {
    /// The memory of a file of this content that was just opened: it is what the file holds.
    pub open spec fn opened(self, image: Seq<u8>) -> bool {
        let h = header::header(image);
        let layout = h.primary().layout;
        &&& self.image() == image
        &&& self.layout == layout
        &&& self.page_size == math::pow2(h.page_size_exponent as int)
        &&& self.region_size == layout.spec_region_len()
        &&& self.region_header_with_padding_size == layout.region_header_bytes
        &&& self.db_header_size == layout.header_bytes
        &&& self.has_allocators() == !h.dirty
        &&& self.has_allocators() ==> self.allocators() == regions::layout_allocators(layout)
        &&& self.has_allocators() ==> self.committed_free@ == self.free_set()
        &&& file_ok(image) ==> self.trimmed == (h.dirty || state_exact(image))
        &&& self.log_since_commit@.len() == 0
        &&& self.allocated_since_commit@ == Set::<u128>::empty()
        &&& !self.read_from_secondary
    }
}

impl Opening {
    /// The memory of the file, and whether it can be worked with.
    pub fn finish(self) -> (opened: (TransactionalMemory, bool))
        requires
            self.wf(),
            self.stage == OpenStage::Ready,
            file_opens(self.metadata@),
            self.requested_page_size matches Some(size) ==> size == math::pow2(
                header::header(self.metadata@).page_size_exponent as int,
            ),
        ensures
            opened.0.opened(self.metadata@),
            opened.0.state_known(),
            opened.1 == file_ok(self.metadata@),
            opened.1 ==> opened.0.wf(),
    {
        broadcast use vstd::std_specs::hash::group_hash_axioms;

        let metadata = self.metadata;
        let page_size: usize = metadata.get_page_size();
        let layout = metadata.primary_slot().get_data_section_layout();
        let region_size: usize = layout.full_region_layout().len();
        let region_header_size: usize = layout.full_region_layout().data_section().start;
        let regional_allocators = if metadata.get_allocator_dirty() {
            None
        } else {
            Some(region_allocators(&layout))
        };
        let sound = metadata.is_sound();
        let trimmed = regional_allocators.is_none() || (sound && metadata.has_exact_state(&layout));
        let mut memory = TransactionalMemory {
            allocated_since_commit: HashSet::new(),
            log_since_commit: Vec::new(),
            committed_free: Ghost(Set::empty()),
            regional_allocators,
            metadata,
            layout,
            read_from_secondary: false,
            page_size,
            region_size,
            region_header_with_padding_size: region_header_size,
            db_header_size: layout.header_bytes(),
            trimmed,
        };
        memory.committed_free = Ghost(memory.free_set());
        proof {
            if sound {
                layout.lemma_grows(layout);
            }
        }
        (memory, sound)
    }

    /// A new file can be worked with.
    pub proof fn lemma_new_file(self)
        requires
            self.request_ok(),
            self.has_room(),
            self.is_new(MAGICNUMBER@),
        ensures
            file_ok(self.metadata@),
            self.page_size == math::pow2(header::header(self.metadata@).page_size_exponent as int),
            state_exact(self.metadata@),
    {
        let e = math::log2_floor(self.page_size as int);
        math::lemma_zeros_at_end(self.page_size as int);
        math::lemma_log2_floor(self.page_size as int);
        math::lemma_exponent_bound(e);
        lemma_state_exact(self.metadata@);
    }

    /// A new file, once opened, is an empty database: there are no roots, every page is free, and
    /// no region with a free page is marked as full.
    pub proof fn lemma_new_database(self, memory: TransactionalMemory)
        requires
            self.request_ok(),
            self.has_room(),
            self.is_new(MAGICNUMBER@),
            memory.opened(self.metadata@),
        ensures
            memory.layout == self.new_layout(),
            memory.page_size == self.page_size,
            memory.has_allocators(),
            memory.readable().root is None,
            memory.readable().freed_root is None,
            memory.readable().transaction_id == 0,
            memory.free_set() == regions::all_pages(self.new_layout()),
            memory.marks_sound(),
    {
        self.lemma_new_file();
        assert forall|r: int, p: int| #[trigger]
            memory.free_set().contains((r, p)) implies !regions::marked(
            memory.image(),
            memory.layout,
            r,
        ) by {
            assert(regions::all_pages(self.new_layout()).contains((r, p)));
        }
    }
}

} // verus!
