//! Bringing the allocator state to the layout.

use crate::buddy_allocator::BuddyAllocator;
use crate::header;
use crate::layout::DatabaseLayout;
use crate::math;
use crate::page_manager::TransactionalMemory;
use crate::regions;
use vstd::prelude::*;

verus! {

/// The allocators of a layout's regions, were all of them full-sized.
pub fn largest_allocators(layout: &DatabaseLayout) -> (allocators: Vec<BuddyAllocator>)
    requires
        layout.valid(),
    ensures
        allocators@ == regions::full_allocators(*layout),
        forall|i: int| #![trigger allocators@[i]]
            0 <= i < allocators@.len() ==> {
                &&& allocators@[i].valid()
                &&& allocators@[i].max_order == layout.max_order
                &&& allocators@[i].height == math::log2_ceil(layout.region_pages as int)
            },
{
    let full = layout.full_region_layout();
    let allocator = BuddyAllocator::new(full.num_pages(), full.num_pages(), full.max_order());
    let num_regions: usize = layout.num_regions();
    let mut allocators: Vec<BuddyAllocator> = Vec::new();
    while allocators.len() < num_regions
        invariant
            allocators@.len() <= num_regions,
            forall|i: int| 0 <= i < allocators@.len() ==> allocators@[i] == allocator,
        decreases num_regions - allocators@.len(),
    {
        allocators.push(allocator);
    }
    assert(allocators@ =~= regions::full_allocators(*layout));
    allocators
}

impl TransactionalMemory {
    /// This is `before` with its allocator state trimmed: the same pages are free, and the regions
    /// that there are not are marked as full. Bytes of pages may differ.
    pub open spec fn readied(self, before: Self) -> bool {
        &&& self.trimmed
        &&& before.trimmed ==> regions::state_same(before.image(), self.image(), before.layout)
        &&& self.free_set() == before.free_set()
        &&& regions::marks_beyond_set(before.image(), self.image(), before.layout)
        &&& header::header_kept(before.image(), self.image())
        &&& self.image().len() == before.image().len()
        &&& self.allocated_since_commit@ == before.allocated_since_commit@
        &&& self.log_since_commit@ == before.log_since_commit@
        &&& self.has_allocators() == before.has_allocators()
        &&& self.allocators() == before.allocators()
        &&& self.layout == before.layout
        &&& self.read_from_secondary == before.read_from_secondary
        &&& self.page_size == before.page_size
        &&& self.region_size == before.region_size
        &&& self.region_header_with_padding_size == before.region_header_with_padding_size
        &&& self.db_header_size == before.db_header_size
        &&& self.committed_free@ == before.committed_free@
    }

    /// Trims the allocator state, if that has not been done. The mark of out-of-date allocators has
    /// to be there already.
    pub fn make_ready(&mut self)
        requires
            old(self).wf(),
            old(self).has_allocators(),
            old(self).header().dirty,
        ensures
            final(self).readied(*old(self)),
            final(self).wf(),
            old(self).trimmed ==> *final(self) == *old(self),
            old(self).marks_sound() ==> final(self).marks_sound(),
            regions::data_kept(old(self).image(), final(self).image(), old(self).layout),
    {
        let ghost before = *self;
        if self.trimmed {
            proof {
                self.lemma_marks_beyond();
            }
            return;
        }
        let allocators = largest_allocators(&self.layout);
        let confined = self.metadata.confine_regions(&self.layout, &allocators);
        self.regional_allocators = Some(confined);
        self.trimmed = true;
        proof {
            let layout = before.layout;
            let exact = regions::layout_allocators(layout);
            let full = regions::full_allocators(layout);
            assert forall|r: int, p: int|
                regions::is_free(before.image(), layout, full, r, p) == #[trigger] regions::is_free(
                    before.image(),
                    layout,
                    exact,
                    r,
                    p,
                ) by {
                if 0 <= r < full.len() {
                    let mem = regions::region_bytes(before.image(), layout, r);
                    assert(full[r].tree(mem) == exact[r].tree(mem));
                }
            }
            assert(regions::free_pages(before.image(), layout, full) =~= regions::free_pages(
                before.image(),
                layout,
                exact,
            ));
            assert(self.free_set() =~= before.free_set());
            if before.marks_sound() {
                assert forall|r: int, p: int| #[trigger]
                    self.free_set().contains((r, p)) implies !regions::marked(
                    self.image(),
                    layout,
                    r,
                ) by {
                    assert(before.free_set().contains((r, p)));
                    assert(regions::all_pages(layout).contains((r, p)));
                }
            }
        }
    }

    /// The regions that there are not are marked as full.
    proof fn lemma_marks_beyond(self)
        requires
            self.wf(),
            self.has_allocators(),
            self.trimmed,
        ensures
            regions::marks_beyond_set(self.image(), self.image(), self.layout),
    {
        assert forall|r: int|
            0 <= r < 8 * self.layout.tracker_bytes implies #[trigger] regions::marked(
            self.image(),
            self.layout,
            r,
        ) == (regions::marked(self.image(), self.layout, r) || r
            >= self.layout.spec_num_regions()) by {}
    }
}

} // verus!
