//! Rebuilding the allocators of a file that was not closed.

use crate::action::{RepairAction, RepairEvent};
use crate::buddy_allocator::BuddyAllocator;
use crate::error::Error;
use crate::header;
use crate::header::MetadataAccessor;
use crate::layout::DatabaseLayout;
use crate::page_manager;
use crate::page_manager::TransactionalMemory;
use crate::page_number::PageNumber;
use crate::regions;
use crate::regions::region_allocators;
use vstd::prelude::*;

verus! {

/// The pages of these blocks.
pub open spec fn pages_of_blocks(pages: Seq<PageNumber>) -> Set<(int, int)> {
    Set::new(
        |x: (int, int)|
            exists|i: int| 0 <= i < pages.len() && #[trigger] regions::block(pages[i]).contains(x),
    )
}

/// Whether these are blocks of the layout, no two with a page in common.
pub open spec fn disjoint_blocks(layout: DatabaseLayout, pages: Seq<PageNumber>) -> bool {
    &&& forall|i: int|
        0 <= i < pages.len() ==> regions::has_page(
            regions::layout_allocators(layout),
            #[trigger] pages[i],
        )
    &&& forall|i: int, j: int|
        0 <= i < j < pages.len() ==> regions::block(#[trigger] pages[i]).disjoint(
            regions::block(#[trigger] pages[j]),
        )
}

impl MetadataAccessor {
    /// Writes the states of all regions, with every page free.
    pub fn init_regions(&mut self, layout: &DatabaseLayout) -> (allocators: Vec<BuddyAllocator>)
        requires
            layout.valid(),
            layout.spec_len() <= old(self)@.len(),
            forall|r: int|
                layout.spec_num_regions() <= r < 8 * layout.tracker_bytes
                    ==> #[trigger] regions::marked(old(self)@, *layout, r),
        ensures
            allocators@ == regions::layout_allocators(*layout),
            final(self)@.len() == old(self)@.len(),
            header::header_kept(old(self)@, final(self)@),
            regions::data_kept(old(self)@, final(self)@, *layout),
            regions::tracker(final(self)@, *layout) == regions::tracker(old(self)@, *layout),
            regions::allocators_ok(final(self)@, *layout, allocators@),
            regions::free_pages(final(self)@, *layout, allocators@) == regions::all_pages(*layout),
    {
        let ghost before = self@;
        let ghost expected = regions::layout_allocators(*layout);
        let num_regions: usize = layout.num_regions();
        let mut allocators: Vec<BuddyAllocator> = Vec::new();
        let mut i: usize = 0;
        while i < num_regions
            invariant
                layout.valid(),
                layout.spec_len() <= before.len(),
                num_regions == layout.spec_num_regions() == expected.len(),
                expected == regions::layout_allocators(*layout),
                i <= num_regions,
                allocators@.len() == i,
                forall|j: int| 0 <= j < i ==> allocators@[j] == expected[j],
                self@.len() == before.len(),
                header::header_kept(before, self@),
                regions::data_kept(before, self@, *layout),
                regions::tracker(self@, *layout) == regions::tracker(before, *layout),
                forall|j: int| #![trigger expected[j]]
                    0 <= j < i ==> {
                        &&& regions::allocator_fits(expected[j], *layout, j)
                        &&& expected[j].wf(regions::region_bytes(self@, *layout, j))
                    },
                forall|j: int, p: int|
                    0 <= j < i ==> #[trigger] regions::is_free(self@, *layout, expected, j, p) == (0
                        <= p < layout.pages_of(j)),
            decreases num_regions - i,
        {
            let ghost current = self@;
            proof {
                assert forall|j: int| 0 <= j < num_regions implies #[trigger] layout.base(j)
                    + layout.region_header_bytes <= current.len() by {
                    layout.lemma_region(j);
                }
            }
            let allocator = self.init_region(layout, i);
            proof {
                assert forall|j: int, p: int| 0 <= j < i + 1 implies #[trigger] regions::is_free(
                    self@,
                    *layout,
                    expected,
                    j,
                    p,
                ) == (0 <= p < layout.pages_of(j)) by {
                    if j < i {
                        assert(regions::region_bytes(self@, *layout, j) == regions::region_bytes(
                            current,
                            *layout,
                            j,
                        ));
                        assert(regions::is_free(current, *layout, expected, j, p) == (0 <= p
                            < layout.pages_of(j)));
                    } else {
                        assert(allocator.page_free(
                            regions::region_bytes(self@, *layout, i as int),
                            p,
                        ) == (0 <= p < layout.pages_of(i as int)));
                    }
                }
                assert forall|j: int| #![trigger expected[j]] 0 <= j < i + 1 implies expected[j].wf(
                    regions::region_bytes(self@, *layout, j),
                ) by {
                    if j < i {
                        assert(regions::region_bytes(self@, *layout, j) == regions::region_bytes(
                            current,
                            *layout,
                            j,
                        ));
                    }
                }
            }
            allocators.push(allocator);
            i = i + 1;
        }
        proof {
            assert(allocators@ =~= expected);
            assert forall|j: int| #![trigger expected[j]] 0 <= j < expected.len() implies layout.base(
                j,
            ) + layout.region_header_bytes + expected[j].num_pages * layout.page_size
                <= self@.len() by {
                layout.lemma_region(j);
            }
            assert forall|r: int|
                layout.spec_num_regions() <= r < 8 * layout.tracker_bytes implies #[trigger] regions::marked(
                self@,
                *layout,
                r,
            ) by {
                assert(regions::marked(before, *layout, r));
            }
            assert(regions::free_pages(self@, *layout, allocators@) =~= regions::all_pages(*layout));
        }
        allocators
    }
}

/// A block of the layout is made of its pages.
pub proof fn lemma_block_of_layout(layout: DatabaseLayout, page: PageNumber)
    requires
        layout.valid(),
        regions::has_page(regions::layout_allocators(layout), page),
    ensures
        regions::block(page).subset_of(regions::all_pages(layout)),
{
    regions::lemma_block_in_region(regions::layout_allocators(layout), page);
    layout.lemma_region(page.region as int);
}

impl MetadataAccessor {
    /// Takes each of these blocks.
    pub fn record_allocs(
        &mut self,
        layout: &DatabaseLayout,
        allocators: &Vec<BuddyAllocator>,
        pages: &[PageNumber],
    )
        requires
            layout.valid(),
            layout.header_bytes <= old(self)@.len(),
            allocators@ == regions::layout_allocators(*layout),
            regions::allocators_ok(old(self)@, *layout, allocators@),
            regions::free_pages(old(self)@, *layout, allocators@) == regions::all_pages(*layout),
            disjoint_blocks(*layout, pages@),
        ensures
            final(self)@.len() == old(self)@.len(),
            header::header_kept(old(self)@, final(self)@),
            regions::data_kept(old(self)@, final(self)@, *layout),
            regions::tracker(final(self)@, *layout) == regions::tracker(old(self)@, *layout),
            regions::allocators_ok(final(self)@, *layout, allocators@),
            regions::free_pages(final(self)@, *layout, allocators@) == regions::all_pages(
                *layout,
            ).difference(pages_of_blocks(pages@)),
    {
        let ghost before = self@;
        let ghost all = regions::all_pages(*layout);
        let mut i: usize = 0;
        assert(all.difference(pages_of_blocks(pages@.take(0))) =~= all);
        while i < pages.len()
            invariant
                layout.valid(),
                layout.header_bytes <= before.len(),
                allocators@ == regions::layout_allocators(*layout),
                disjoint_blocks(*layout, pages@),
                all == regions::all_pages(*layout),
                i <= pages@.len(),
                self@.len() == before.len(),
                header::header_kept(before, self@),
                regions::data_kept(before, self@, *layout),
                regions::tracker(self@, *layout) == regions::tracker(before, *layout),
                regions::allocators_ok(self@, *layout, allocators@),
                regions::free_pages(self@, *layout, allocators@) == all.difference(
                    pages_of_blocks(pages@.take(i as int)),
                ),
            decreases pages@.len() - i,
        {
            let page = pages[i];
            let ghost earlier = pages@.take(i as int);
            let ghost later = pages@.take(i + 1);
            proof {
                assert(page == pages@[i as int]);
                lemma_block_of_layout(*layout, page);
                assert forall|x: (int, int)| regions::block(page).contains(
                    x,
                ) implies !#[trigger] pages_of_blocks(earlier).contains(x) by {
                    if pages_of_blocks(earlier).contains(x) {
                        let j = choose|j: int|
                            0 <= j < earlier.len() && #[trigger] regions::block(
                                earlier[j],
                            ).contains(x);
                        assert(earlier[j] == pages@[j]);
                        assert(regions::block(pages@[j]).disjoint(
                            regions::block(pages@[i as int]),
                        ));
                    }
                }
                assert forall|x: (int, int)| #[trigger]
                    pages_of_blocks(later).contains(x) == (pages_of_blocks(earlier).contains(x)
                        || regions::block(page).contains(x)) by {
                    if pages_of_blocks(later).contains(x) {
                        let j = choose|j: int|
                            0 <= j < later.len() && #[trigger] regions::block(later[j]).contains(x);
                        if j < i {
                            assert(earlier[j] == later[j]);
                            assert(regions::block(earlier[j]).contains(x));
                        }
                    }
                    if pages_of_blocks(earlier).contains(x) {
                        let j = choose|j: int|
                            0 <= j < earlier.len() && #[trigger] regions::block(
                                earlier[j],
                            ).contains(x);
                        assert(later[j] == earlier[j]);
                        assert(regions::block(later[j]).contains(x));
                    }
                    if regions::block(page).contains(x) {
                        assert(later[i as int] == page);
                    }
                }
            }
            self.record_alloc(layout, allocators, page);
            proof {
                assert(regions::free_pages(self@, *layout, allocators@) =~= all.difference(
                    pages_of_blocks(later),
                ));
            }
            i = i + 1;
        }
        assert(pages@.take(pages@.len() as int) =~= pages@);
    }
}

impl TransactionalMemory {
    /// Whether the allocator state in the file is out of date.
    pub open spec fn repair_needed(self) -> bool {
        self.header().dirty
    }

    pub fn needs_repair(&self) -> (dirty: Result<bool, Error>)
        requires
            self.metadata.wf(),
        ensures
            dirty == Ok::<bool, Error>(self.repair_needed()),
    {
        Ok(self.metadata.get_allocator_dirty())
    }

    /// The memory holds the allocator state of `before`'s layout with just these pages in use, and
    /// no region of the layout is marked as full.
    pub open spec fn state_rebuilt(self, before: Self, pages: Seq<PageNumber>) -> bool {
        let allocators = regions::layout_allocators(before.layout);
        &&& self.allocated_since_commit@ == before.allocated_since_commit@
        &&& self.log_since_commit@ == before.log_since_commit@
        &&& self.has_allocators() == before.has_allocators()
        &&& self.allocators() == before.allocators()
        &&& self.layout == before.layout
        &&& self.read_from_secondary == before.read_from_secondary
        &&& self.page_size == before.page_size
        &&& self.region_size == before.region_size
        &&& self.region_header_with_padding_size == before.region_header_with_padding_size
        &&& self.db_header_size == before.db_header_size
        &&& self.trimmed
        &&& header::header_kept(before.image(), self.image())
        &&& self.image().len() == before.image().len()
        &&& regions::allocators_ok(self.image(), before.layout, allocators)
        &&& regions::free_pages(self.image(), before.layout, allocators) == regions::all_pages(
            before.layout,
        ).difference(pages_of_blocks(pages))
        &&& self.committed_free@ == regions::free_pages(self.image(), before.layout, allocators)
        &&& forall|r: int|
            0 <= r < 8 * before.layout.tracker_bytes ==> #[trigger] regions::marked(
                self.image(),
                before.layout,
                r,
            ) == (r >= before.layout.spec_num_regions())
        &&& regions::data_kept(before.image(), self.image(), before.layout)
    }

    /// This is `before` with the allocators of its layout.
    pub open spec fn allocators_set(self, before: Self) -> bool {
        &&& self.has_allocators()
        &&& self.allocators() == regions::layout_allocators(before.layout)
        &&& self.committed_free@ == self.free_set()
        &&& self.image() == before.image()
        &&& self.allocated_since_commit@ == before.allocated_since_commit@
        &&& self.log_since_commit@ == before.log_since_commit@
        &&& self.layout == before.layout
        &&& self.read_from_secondary == before.read_from_secondary
        &&& self.page_size == before.page_size
        &&& self.region_size == before.region_size
        &&& self.region_header_with_padding_size == before.region_header_with_padding_size
        &&& self.db_header_size == before.db_header_size
        &&& self.trimmed
    }

    /// Writes the allocator state anew.
    fn rebuild(&mut self, allocated_pages: &[PageNumber])
        requires
            old(self).geometry(),
            disjoint_blocks(old(self).layout, allocated_pages@),
        ensures
            final(self).state_rebuilt(*old(self), allocated_pages@),
            final(self).geometry(),
            old(self).wf() && old(self).log_since_commit@.len() == 0 ==> final(self).wf(),
    {
        let ghost before = *self;
        proof {
            self.layout.lemma_region(0);
        }
        // Initialize the region allocator. Since it is lazily set, the regions can all be left free:
        // it will be populated lazily when a region is discovered to be full
        self.metadata.mark_present(&self.layout);
        self.metadata.mark_beyond(&self.layout);
        let ghost marked = self.image();

        // Initialize all the regional allocators
        let regional_allocators = self.metadata.init_regions(&self.layout);
        self.metadata.record_allocs(&self.layout, &regional_allocators, allocated_pages);
        self.trimmed = true;
        self.committed_free = Ghost(
            regions::free_pages(
                self.image(),
                self.layout,
                regions::layout_allocators(self.layout),
            ),
        );
        proof {
            assert forall|r: int|
                0 <= r < 8 * self.layout.tracker_bytes implies #[trigger] regions::marked(
                self.image(),
                self.layout,
                r,
            ) == (r >= self.layout.spec_num_regions()) by {
                assert(regions::marked(marked, self.layout, r) == (r
                    >= self.layout.spec_num_regions()));
            }
            assert(regions::data_kept(before.image(), self.image(), self.layout));
            if before.wf() && before.has_allocators() {
                before.lemma_allocators();
            }
        }
    }

    /// Whether the memory holds the state of allocators for the layout, all of whose pages that are
    /// free can be had.
    pub open spec fn state_ready(self) -> bool {
        let allocators = regions::layout_allocators(self.layout);
        &&& regions::allocators_ok(self.image(), self.layout, allocators)
        &&& page_manager::marks_sound(
            self.image(),
            self.layout,
            regions::free_pages(self.image(), self.layout, allocators),
        )
    }

    /// Whether the steps before `event` have been taken: when the allocators come into use, the
    /// memory holds their state.
    pub open spec fn repair_in_order(self, event: RepairEvent) -> bool {
        event matches RepairEvent::CleanFlushed(Ok(_)) ==> self.state_ready()
    }

    /// Marking the allocators as up to date changes nothing of their state.
    proof fn lemma_still_ready(self, before: Self)
        requires
            before.geometry(),
            before.state_ready(),
            self.marked_clean(before),
        ensures
            self.state_ready(),
            regions::free_pages(
                self.image(),
                self.layout,
                regions::layout_allocators(self.layout),
            ) == regions::free_pages(
                before.image(),
                before.layout,
                regions::layout_allocators(before.layout),
            ),
    {
        let layout = self.layout;
        let allocators = regions::layout_allocators(layout);
        layout.lemma_region(0);
        regions::lemma_header_change(before.image(), self.image(), layout);
        regions::lemma_allocators_same(before.image(), self.image(), layout, allocators);
        assert forall|r: int| #[trigger]
            regions::marked(self.image(), layout, r) == regions::marked(before.image(), layout, r) by {}
    }

    /// A state that was written anew is ready.
    proof fn lemma_rebuilt_ready(self, before: Self, pages: Seq<PageNumber>)
        requires
            before.geometry(),
            self.state_rebuilt(before, pages),
        ensures
            self.state_ready(),
    {
        let layout = self.layout;
        let free = regions::free_pages(
            self.image(),
            layout,
            regions::layout_allocators(layout),
        );
        assert forall|r: int, p: int| #[trigger] free.contains((r, p)) implies !regions::marked(
            self.image(),
            layout,
            r,
        ) by {
            assert(regions::all_pages(layout).contains((r, p)));
        }
    }

    /// What one step of a repair does: once the mark of out-of-date allocators is in the file, their
    /// state is written anew; once that is in the file, the mark is taken back; and when that is in
    /// the file too, the allocators come into use. A step that follows a failure does nothing.
    pub open spec fn repair_stepped(
        self,
        pages: Seq<PageNumber>,
        event: RepairEvent,
        after: Self,
        action: RepairAction,
    ) -> bool {
        match event {
            RepairEvent::Start => if self.header().dirty {
                &&& after.state_rebuilt(self, pages)
                &&& action == RepairAction::FlushState
            } else {
                &&& after.marked_dirty(self)
                &&& action == RepairAction::FlushMark
            },
            RepairEvent::Flushed(Ok(_)) => {
                &&& after.state_rebuilt(self, pages)
                &&& action == RepairAction::FlushState
            },
            RepairEvent::StateFlushed(Ok(_)) => {
                &&& after.marked_clean(self)
                &&& action == RepairAction::FlushClean
            },
            RepairEvent::CleanFlushed(Ok(_)) => {
                &&& after.allocators_set(self)
                &&& action == RepairAction::Done(Ok(()))
            },
            RepairEvent::Flushed(Err(e)) => {
                &&& after.unchanged(self)
                &&& action == RepairAction::Done(Err(e))
            },
            RepairEvent::StateFlushed(Err(e)) => {
                &&& after.unchanged(self)
                &&& action == RepairAction::Done(Err(e))
            },
            RepairEvent::CleanFlushed(Err(e)) => {
                &&& after.unchanged(self)
                &&& action == RepairAction::Done(Err(e))
            },
        }
    }

    /// Rebuilds the allocators: just the given pages are in use.
    pub fn repair_allocator(&mut self, allocated_pages: &[PageNumber], event: RepairEvent) -> (action:
        RepairAction)
        requires
            old(self).geometry(),
            disjoint_blocks(old(self).layout, allocated_pages@),
            event is Flushed ==> old(self).header().dirty,
        ensures
            old(self).repair_stepped(allocated_pages@, event, *final(self), action),
            final(self).geometry(),
            !old(self).header().dirty ==> regions::state_same(
                old(self).image(),
                final(self).image(),
                old(self).layout,
            ),
            old(self).wf() && old(self).log_since_commit@.len() == 0 && old(self).repair_in_order(
                event,
            ) ==> final(self).wf(),
            match event {
                RepairEvent::Start => old(self).header().dirty ==> final(self).state_ready(),
                RepairEvent::Flushed(Ok(_)) => final(self).state_ready(),
                RepairEvent::StateFlushed(Ok(_)) => old(self).state_ready() ==> {
                    &&& final(self).state_ready()
                    &&& regions::free_pages(
                        final(self).image(),
                        final(self).layout,
                        regions::layout_allocators(final(self).layout),
                    ) == regions::free_pages(
                        old(self).image(),
                        old(self).layout,
                        regions::layout_allocators(old(self).layout),
                    )
                },
                RepairEvent::CleanFlushed(Ok(_)) => old(self).state_ready()
                    ==> final(self).marks_sound(),
                _ => true,
            },
            old(self).state_known() && !(event matches RepairEvent::StateFlushed(Ok(_)))
                ==> final(self).state_known(),
    {
        let ghost before = *self;
        match event {
            RepairEvent::Start => {
                if self.metadata.allocators_mut() {
                    proof {
                        self.lemma_header_only(before);
                        if before.wf() {
                            self.lemma_marked_dirty(before);
                        }
                    }
                    return RepairAction::FlushMark;
                }
                self.rebuild(allocated_pages);
                proof {
                    self.lemma_rebuilt_ready(before, allocated_pages@);
                }
                RepairAction::FlushState
            },
            RepairEvent::Flushed(Ok(_)) => {
                self.rebuild(allocated_pages);
                proof {
                    self.lemma_rebuilt_ready(before, allocated_pages@);
                }
                RepairAction::FlushState
            },
            RepairEvent::StateFlushed(Ok(_)) => {
                self.metadata.set_allocator_dirty(false);
                proof {
                    self.lemma_marked_clean(before);
                    if before.state_ready() {
                        self.lemma_still_ready(before);
                    }
                }
                RepairAction::FlushClean
            },
            RepairEvent::CleanFlushed(Ok(_)) => {
                let allocators = region_allocators(&self.layout);
                self.regional_allocators = Some(allocators);
                self.trimmed = true;
                self.committed_free = Ghost(self.free_set());
                RepairAction::Done(Ok(()))
            },
            RepairEvent::Flushed(Err(e)) => RepairAction::Done(Err(e)),
            RepairEvent::StateFlushed(Err(e)) => RepairAction::Done(Err(e)),
            RepairEvent::CleanFlushed(Err(e)) => RepairAction::Done(Err(e)),
        }
    }
}

} // verus!
