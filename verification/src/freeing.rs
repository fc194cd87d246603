//! Giving pages back.

use crate::action::{Action, AllocatorEvent};
use crate::bytes::fill_zero;
use crate::header;
use crate::journal;
use crate::journal::AllocationOp;
use crate::page_manager::TransactionalMemory;
use crate::page_number::PageNumber;
use crate::regions;
use vstd::prelude::*;

verus! {

/// `size` zero bytes.
pub open spec fn zeros(size: int) -> Seq<u8> {
    Seq::new(size as nat, |i: int| 0u8)
}

impl TransactionalMemory {
    /// Whether a page of the file is in use: there is such a page, and no part of it is free.
    pub open spec fn in_use(self, page: PageNumber) -> bool {
        &&& regions::has_page(self.allocators(), page)
        &&& regions::block(page).disjoint(self.free_set())
    }

    /// This is `before`, perhaps with other bytes in pages, a mark of out-of-date allocators, and
    /// other pages on the list of those allocated since the last commit.
    pub open spec fn kept_allocation(self, before: Self) -> bool {
        &&& self.log_since_commit@ == before.log_since_commit@
        &&& self.has_allocators() == before.has_allocators()
        &&& self.allocators() == before.allocators()
        &&& self.layout == before.layout
        &&& self.read_from_secondary == before.read_from_secondary
        &&& self.page_size == before.page_size
        &&& self.region_size == before.region_size
        &&& self.region_header_with_padding_size == before.region_header_with_padding_size
        &&& self.db_header_size == before.db_header_size
        &&& self.trimmed == before.trimmed
        &&& self.committed_free@ == before.committed_free@
        &&& self.image().len() == before.image().len()
        &&& self.header() == (header::Header { dirty: self.header().dirty, ..before.header() })
        &&& header::header_bytes(self.image()) == (if self.header().dirty {
            header::with_god_byte(
                header::header_bytes(before.image()),
                before.image()[header::GOD_BYTE_OFFSET as int] | header::ALLOCATOR_STATE_DIRTY,
            )
        } else {
            header::header_bytes(before.image())
        })
        &&& self.free_set() == before.free_set()
        &&& regions::state_same(before.image(), self.image(), before.layout)
    }

    /// The bytes of `page` are zero, those of other pages are what they were in `before`.
    pub open spec fn zeroed(self, before: Self, page: PageNumber) -> bool {
        &&& self.page_bytes(page) == zeros(page.spec_page_size_bytes(before.page_size as int))
        &&& regions::data_kept_but(
            before.image(),
            self.image(),
            before.layout,
            before.page_address(page),
            before.page_address(page) + page.spec_page_size_bytes(before.page_size as int),
        )
    }

    /// This is `before` with `page` given back, the change `op` on record, and the page's region
    /// marked as one with free pages. The allocator state is trimmed. Bytes of pages may differ.
    pub open spec fn released(self, before: Self, page: PageNumber, op: AllocationOp) -> bool {
        &&& self.free_set() == before.free_set().union(regions::block(page))
        &&& self.log_since_commit@ == before.log_since_commit@.push(op)
        &&& forall|r: int|
            0 <= r < 8 * before.layout.tracker_bytes ==> #[trigger] regions::marked(
                self.image(),
                before.layout,
                r,
            ) == ((r != page.region && regions::marked(before.image(), before.layout, r)) || r
                >= before.layout.spec_num_regions())
        &&& self.trimmed
        &&& header::header_kept(before.image(), self.image())
        &&& self.image().len() == before.image().len()
        &&& self.has_allocators() == before.has_allocators()
        &&& self.allocators() == before.allocators()
        &&& self.layout == before.layout
        &&& self.read_from_secondary == before.read_from_secondary
        &&& self.page_size == before.page_size
        &&& self.region_size == before.region_size
        &&& self.region_header_with_padding_size == before.region_header_with_padding_size
        &&& self.db_header_size == before.db_header_size
        &&& self.committed_free@ == before.committed_free@
    }

    /// Fills a page with zeros, to ensure that deleted data is not stored in the file.
    fn zero_page(&mut self, page: PageNumber)
        requires
            old(self).wf(),
            old(self).has_allocators(),
            regions::has_page(old(self).allocators(), page),
        ensures
            final(self).wf(),
            old(self).marks_sound() ==> final(self).marks_sound(),
            final(self).image().len() == old(self).image().len(),
            final(self).free_set() == old(self).free_set(),
            regions::state_same(old(self).image(), final(self).image(), old(self).layout),
            header::header_kept(old(self).image(), final(self).image()),
            final(self).zeroed(*old(self), page),
            final(self).same_but_image(*old(self)),
    {
        let ghost before = *self;
        proof {
            self.lemma_allocators();
            self.lemma_page_inside(page);
        }
        let mut mut_page = self.get_page_mut(page);
        fill_zero(mut_page.memory_mut());
        proof {
            let size = page.spec_page_size_bytes(before.page_size as int);
            self.lemma_page_write(before, page, zeros(size));
        }
    }

    /// Gives a page back to its region and puts the change on record.
    fn release(&mut self, page: PageNumber, op: AllocationOp)
        requires
            old(self).wf(),
            old(self).has_allocators(),
            old(self).header().dirty,
            old(self).trimmed,
            old(self).in_use(page),
            op == AllocationOp::Free(page) || op == AllocationOp::FreeUncommitted(page),
        ensures
            final(self).wf(),
            old(self).marks_sound() ==> final(self).marks_sound(),
            final(self).released(*old(self), page, op),
            final(self).allocated_since_commit@ == old(self).allocated_since_commit@,
            regions::data_kept(old(self).image(), final(self).image(), old(self).layout),
    {
        let ghost before = *self;
        let ghost allocators = self.allocators();
        let ghost layout = self.layout;
        proof {
            layout.lemma_region(0);
        }
        // Free in the regional allocator
        self.metadata.record_free(
            &self.layout,
            self.regional_allocators.as_ref().unwrap(),
            page,
        );
        let ghost between = self.image();
        // Ensure that the region is marked as having free space
        self.metadata.mark(&self.layout, page.region as usize, false);
        self.log_since_commit.push(op);
        proof {
            regions::lemma_mark(
                between,
                self.image(),
                layout,
                allocators,
                page.region as int,
                false,
            );
            assert forall|r: int| 0 <= r < 8 * layout.tracker_bytes implies #[trigger] regions::marked(
                between,
                layout,
                r,
            ) == regions::marked(before.image(), layout, r) by {}
            journal::lemma_push(before.committed_free@, before.log_since_commit@, op);
            assert forall|i: int| 0 <= i < self.log_since_commit@.len() implies regions::has_page(
                self.allocators(),
                (#[trigger] self.log_since_commit@[i]).page(),
            ) by {
                if i < before.log_since_commit@.len() {
                    assert(self.log_since_commit@[i] == before.log_since_commit@[i]);
                }
            }
            if before.marks_sound() {
                assert forall|r: int, p: int| #[trigger]
                    self.free_set().contains((r, p)) implies !regions::marked(
                    self.image(),
                    layout,
                    r,
                ) by {
                    if r != page.region {
                        assert(before.free_set().contains((r, p)));
                    }
                    assert(0 <= r < allocators.len());
                }
            }
        }
    }

    /// Trims the allocator state, if that has not been done, and gives a page back.
    fn give_back(&mut self, page: PageNumber, op: AllocationOp)
        requires
            old(self).wf(),
            old(self).has_allocators(),
            old(self).header().dirty,
            old(self).in_use(page),
            op == AllocationOp::Free(page) || op == AllocationOp::FreeUncommitted(page),
        ensures
            final(self).wf(),
            old(self).marks_sound() ==> final(self).marks_sound(),
            final(self).released(*old(self), page, op),
            final(self).allocated_since_commit@ == old(self).allocated_since_commit@,
            regions::data_kept(old(self).image(), final(self).image(), old(self).layout),
    {
        let ghost before = *self;
        self.make_ready();
        let ghost ready = *self;
        self.release(page, op);
        proof {
            let layout = before.layout;
            assert forall|r: int| 0 <= r < 8 * layout.tracker_bytes implies #[trigger] regions::marked(
                self.image(),
                layout,
                r,
            ) == ((r != page.region && regions::marked(before.image(), layout, r)) || r
                >= layout.spec_num_regions()) by {
                assert(regions::marked(ready.image(), layout, r) == (regions::marked(
                    before.image(),
                    layout,
                    r,
                ) || r >= layout.spec_num_regions()));
            }
        }
    }

    /// What one step of freeing a page does: the page is filled with zeros, and once the mark of
    /// out-of-date allocators is in the file, it is given back. A step that follows a failure does
    /// nothing.
    pub open spec fn free_stepped(
        self,
        page: PageNumber,
        event: AllocatorEvent,
        after: Self,
        action: Action<()>,
    ) -> bool {
        match event {
            AllocatorEvent::Start => {
                &&& after.zeroed(self, page)
                &&& if self.header().dirty {
                    &&& after.released(self, page, AllocationOp::Free(page))
                    &&& action == Action::Done(Ok(()))
                } else {
                    &&& after.kept_allocation(self)
                    &&& after.header().dirty
                    &&& action is Flush
                }
            },
            AllocatorEvent::Flushed(Ok(_)) => {
                &&& after.released(self, page, AllocationOp::Free(page))
                &&& regions::data_kept(self.image(), after.image(), self.layout)
                &&& action == Action::Done(Ok(()))
            },
            AllocatorEvent::Flushed(Err(e)) => {
                &&& after.unchanged(self)
                &&& action == Action::<()>::Done(Err(e))
            },
        }
    }

    /// Frees a page that is in use.
    pub fn free(&mut self, page: PageNumber, event: AllocatorEvent) -> (action: Action<()>)
        requires
            old(self).wf(),
            old(self).has_allocators(),
            old(self).in_use(page),
            event !is Start ==> old(self).header().dirty,
        ensures
            old(self).free_stepped(page, event, *final(self), action),
            final(self).allocated_since_commit@ == old(self).allocated_since_commit@,
            final(self).wf(),
            final(self).has_allocators(),
            old(self).marks_sound() ==> final(self).marks_sound(),
            !old(self).header().dirty ==> regions::state_same(
                old(self).image(),
                final(self).image(),
                old(self).layout,
            ),
            old(self).state_known() ==> final(self).state_known(),
    {
        let ghost before = *self;
        match event {
            AllocatorEvent::Start => {
                self.zero_page(page);
                let ghost zeroed = *self;
                if self.metadata.allocators_mut() {
                    proof {
                        self.lemma_marked_dirty(zeroed);
                        self.lemma_mark_bytes(zeroed, before);
                        self.lemma_still_zeroed(zeroed, before, page);
                        self.lemma_header_only(zeroed);
                    }
                    return Action::Flush;
                }
                self.give_back(page, AllocationOp::Free(page));
                proof {
                    self.lemma_still_zeroed(zeroed, before, page);
                }
                Action::Done(Ok(()))
            },
            AllocatorEvent::Flushed(Err(e)) => Action::Done(Err(e)),
            AllocatorEvent::Flushed(Ok(_)) => {
                self.give_back(page, AllocationOp::Free(page));
                Action::Done(Ok(()))
            },
        }
    }

    /// What one step of freeing a page does, if it was allocated since the last commit.
    pub open spec fn free_uncommitted_stepped(
        self,
        page: PageNumber,
        event: AllocatorEvent,
        after: Self,
        action: Action<bool>,
    ) -> bool {
        match event {
            AllocatorEvent::Start => if !self.is_uncommitted(page) {
                &&& after.unchanged(self)
                &&& action == Action::Done(Ok(false))
            } else {
                &&& after.zeroed(self, page)
                &&& after.allocated_since_commit@ == self.allocated_since_commit@.remove(
                    page.spec_key(),
                )
                &&& if self.header().dirty {
                    &&& after.released(self, page, AllocationOp::FreeUncommitted(page))
                    &&& action == Action::Done(Ok(true))
                } else {
                    &&& after.kept_allocation(self)
                    &&& after.header().dirty
                    &&& action is Flush
                }
            },
            AllocatorEvent::Flushed(Ok(_)) => {
                &&& after.released(self, page, AllocationOp::FreeUncommitted(page))
                &&& regions::data_kept(self.image(), after.image(), self.layout)
                &&& after.allocated_since_commit@ == self.allocated_since_commit@
                &&& action == Action::Done(Ok(true))
            },
            AllocatorEvent::Flushed(Err(e)) => {
                &&& after.unchanged(self)
                &&& action == Action::<bool>::Done(Err(e))
            },
        }
    }

    /// Frees the page if it was allocated since the last commit. Returns true, if the page was
    /// freed. A page that was not is left alone.
    pub fn free_if_uncommitted(&mut self, page: PageNumber, event: AllocatorEvent) -> (action:
        Action<bool>)
        requires
            old(self).wf(),
            old(self).is_uncommitted(page) || event !is Start ==> old(self).has_allocators() && old(
                self,
            ).in_use(page),
            event !is Start ==> old(self).header().dirty,
        ensures
            old(self).free_uncommitted_stepped(page, event, *final(self), action),
            final(self).wf(),
            final(self).has_allocators() == old(self).has_allocators(),
            old(self).marks_sound() ==> final(self).marks_sound(),
            !old(self).header().dirty ==> regions::state_same(
                old(self).image(),
                final(self).image(),
                old(self).layout,
            ),
            old(self).state_known() ==> final(self).state_known(),
    {
        broadcast use vstd::std_specs::hash::group_hash_axioms;

        let ghost before = *self;
        match event {
            AllocatorEvent::Start => {
                if !self.allocated_since_commit.contains(&page.key()) {
                    return Action::Done(Ok(false));
                }
                self.zero_page(page);
                let ghost zeroed = *self;
                self.allocated_since_commit.remove(&page.key());
                let ghost removed = *self;
                if self.metadata.allocators_mut() {
                    proof {
                        self.lemma_marked_dirty(removed);
                        self.lemma_header_only(removed);
                        self.lemma_still_zeroed(zeroed, before, page);
                        self.lemma_mark_bytes(removed, before);
                    }
                    return Action::Flush;
                }
                self.give_back(page, AllocationOp::FreeUncommitted(page));
                proof {
                    self.lemma_still_zeroed(zeroed, before, page);
                }
                Action::Done(Ok(true))
            },
            AllocatorEvent::Flushed(Err(e)) => Action::Done(Err(e)),
            AllocatorEvent::Flushed(Ok(_)) => {
                self.give_back(page, AllocationOp::FreeUncommitted(page));
                Action::Done(Ok(true))
            },
        }
    }

    /// The header after a page was filled with zeros and the allocators were marked.
    proof fn lemma_mark_bytes(self, between: Self, before: Self)
        requires
            before.metadata.wf(),
            between.metadata.wf(),
            header::header_kept(before.image(), between.image()),
            self.marked_dirty(between),
        ensures
            header::header_bytes(self.image()) == header::with_god_byte(
                header::header_bytes(before.image()),
                before.image()[header::GOD_BYTE_OFFSET as int] | header::ALLOCATOR_STATE_DIRTY,
            ),
    {
        let god = header::GOD_BYTE_OFFSET as int;
        assert(header::header_bytes(before.image())[god] == before.image()[god]);
        assert(header::header_bytes(between.image())[god] == between.image()[god]);
        assert(header::header_bytes(self.image()) =~= header::with_god_byte(
            header::header_bytes(between.image()),
            between.image()[god] | header::ALLOCATOR_STATE_DIRTY,
        ));
    }

    /// What keeps all bytes of pages keeps the zeros of one.
    proof fn lemma_still_zeroed(self, zeroed: Self, before: Self, page: PageNumber)
        requires
            before.geometry(),
            zeroed.geometry(),
            regions::has_page(regions::layout_allocators(zeroed.layout), page),
            zeroed.layout == before.layout,
            zeroed.image().len() == before.image().len(),
            zeroed.zeroed(before, page),
            self.geometry(),
            self.layout == before.layout,
            self.image().len() == before.image().len(),
            regions::data_kept(zeroed.image(), self.image(), self.layout),
        ensures
            self.zeroed(before, page),
    {
        self.lemma_page_kept(zeroed, page);
    }
}

} // verus!
