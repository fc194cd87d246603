//! Undoing the work since the last commit.

use crate::action::{Action, AllocatorEvent};
use crate::buddy_allocator::BuddyAllocator;
use crate::header;
use crate::journal;
use crate::journal::AllocationOp;
use crate::layout::DatabaseLayout;
use crate::math;
use crate::page_manager;
use crate::page_manager::TransactionalMemory;
use crate::regions;
use vstd::prelude::*;

verus! {

/// Whether a change of `log`, from `start` on, is an allocation in region `region`.
pub open spec fn allocates_in(log: Seq<AllocationOp>, start: int, region: int) -> bool {
    exists|i: int|
        start <= i < log.len() && (#[trigger] log[i]).takes() && log[i].page().region == region
}

impl TransactionalMemory {
    /// This is `before` with the work since the last commit undone: the layout is that of the last
    /// commit, and of its pages those are free that were free then. A region that an undone
    /// allocation was in is marked as one with free pages.
    pub open spec fn rolled_back(self, before: Self) -> bool {
        &&& self.layout == before.readable().layout
        &&& self.has_allocators() == before.has_allocators()
        &&& before.has_allocators() ==> {
            &&& self.allocators() == regions::layout_allocators(self.layout)
            &&& self.free_set() == before.committed_free@.intersect(
                regions::all_pages(self.layout),
            )
            &&& self.committed_free@ == self.free_set()
        }
        &&& self.log_since_commit@.len() == 0
        &&& self.allocated_since_commit@ == Set::<u128>::empty()
        &&& header::header_kept(before.image(), self.image())
        &&& self.image().len() == before.image().len()
        &&& regions::data_kept(before.image(), self.image(), before.layout)
        &&& forall|r: int|
            0 <= r < 8 * before.layout.tracker_bytes ==> #[trigger] regions::marked(
                self.image(),
                before.layout,
                r,
            ) == ((regions::marked(before.image(), before.layout, r) && !allocates_in(
                before.log_since_commit@,
                0,
                r,
            )) || (before.has_allocators() && r >= self.layout.spec_num_regions()))
        &&& self.read_from_secondary == before.read_from_secondary
        &&& self.page_size == before.page_size
        &&& self.region_size == before.region_size
        &&& self.region_header_with_padding_size == before.region_header_with_padding_size
        &&& self.db_header_size == before.db_header_size
        &&& self.trimmed
        &&& before.trimmed && before.log_since_commit@.len() == 0 && before.layout == before.readable().layout
            ==> self.image() == before.image()
    }

    /// Undoes the last change on record.
    fn undo_last(&mut self)
        requires
            old(self).wf(),
            old(self).has_allocators(),
            old(self).header().dirty,
            old(self).trimmed,
            old(self).log_since_commit@.len() > 0,
        ensures
            final(self).wf(),
            final(self).log_since_commit@ == old(self).log_since_commit@.drop_last(),
            header::header_kept(old(self).image(), final(self).image()),
            final(self).image().len() == old(self).image().len(),
            regions::data_kept(old(self).image(), final(self).image(), old(self).layout),
            forall|r: int|
                0 <= r < 8 * old(self).layout.tracker_bytes ==> #[trigger] regions::marked(
                    final(self).image(),
                    old(self).layout,
                    r,
                ) == (regions::marked(old(self).image(), old(self).layout, r) && !(old(
                    self,
                ).log_since_commit@.last().takes() && old(
                    self,
                ).log_since_commit@.last().page().region == r)),
            old(self).marks_sound() ==> final(self).marks_sound(),
            final(self).allocated_since_commit@ == old(self).allocated_since_commit@,
            final(self).has_allocators() == old(self).has_allocators(),
            final(self).allocators() == old(self).allocators(),
            final(self).layout == old(self).layout,
            final(self).read_from_secondary == old(self).read_from_secondary,
            final(self).page_size == old(self).page_size,
            final(self).region_size == old(self).region_size,
            final(self).region_header_with_padding_size == old(
                self,
            ).region_header_with_padding_size,
            final(self).db_header_size == old(self).db_header_size,
            final(self).trimmed,
            final(self).committed_free@ == old(self).committed_free@,
    {
        let ghost before = *self;
        let ghost log = self.log_since_commit@;
        let ghost op = log.last();
        let ghost layout = self.layout;
        let ghost allocators = self.allocators();
        let ghost earlier = journal::replay(self.committed_free@, log.drop_last());
        proof {
            layout.lemma_region(0);
            assert(log[log.len() - 1] == op);
            assert(regions::has_page(allocators, op.page()));
            journal::lemma_undo(op, earlier);
        }
        if let Some(op) = self.log_since_commit.pop() {
            match op {
                AllocationOp::Allocate(page_number) => {
                    self.metadata.mark(&self.layout, page_number.region as usize, false);
                    proof {
                        regions::lemma_mark(
                            before.image(),
                            self.image(),
                            layout,
                            allocators,
                            page_number.region as int,
                            false,
                        );
                    }
                    let ghost between = self.image();
                    self.metadata.record_free(
                        &self.layout,
                        self.regional_allocators.as_ref().unwrap(),
                        page_number,
                    );
                    proof {
                        assert forall|r: int|
                            0 <= r < 8 * layout.tracker_bytes implies #[trigger] regions::marked(
                            self.image(),
                            layout,
                            r,
                        ) == regions::marked(between, layout, r) by {}
                        assert forall|r: int, p: int| #[trigger]
                            self.free_set().contains((r, p)) implies 0 <= r < allocators.len() by {}
                    }
                },
                AllocationOp::Free(page_number) | AllocationOp::FreeUncommitted(page_number) => {
                    self.metadata.record_alloc(
                        &self.layout,
                        self.regional_allocators.as_ref().unwrap(),
                        page_number,
                    );
                    proof {
                        assert forall|r: int|
                            0 <= r < 8 * layout.tracker_bytes implies #[trigger] regions::marked(
                            self.image(),
                            layout,
                            r,
                        ) == regions::marked(before.image(), layout, r) by {}
                    }
                },
            }
        }
        proof {
            assert(self.log_since_commit@ =~= log.drop_last());
            assert forall|i: int| 0 <= i < self.log_since_commit@.len() implies regions::has_page(
                self.allocators(),
                (#[trigger] self.log_since_commit@[i]).page(),
            ) by {
                assert(self.log_since_commit@[i] == log[i]);
            }
        }
    }
}

impl TransactionalMemory {
    /// Undoes every change on record.
    fn undo_all(&mut self)
        requires
            old(self).wf(),
            old(self).has_allocators() ==> old(self).header().dirty,
            old(self).trimmed,
        ensures
            final(self).wf(),
            final(self).log_since_commit@.len() == 0,
            header::header_kept(old(self).image(), final(self).image()),
            final(self).image().len() == old(self).image().len(),
            regions::data_kept(old(self).image(), final(self).image(), old(self).layout),
            forall|r: int|
                0 <= r < 8 * old(self).layout.tracker_bytes ==> #[trigger] regions::marked(
                    final(self).image(),
                    old(self).layout,
                    r,
                ) == (regions::marked(old(self).image(), old(self).layout, r) && !allocates_in(
                    old(self).log_since_commit@,
                    0,
                    r,
                )),
            old(self).has_allocators() && old(self).marks_sound() ==> final(self).marks_sound(),
            final(self).allocated_since_commit@ == old(self).allocated_since_commit@,
            final(self).has_allocators() == old(self).has_allocators(),
            final(self).allocators() == old(self).allocators(),
            final(self).layout == old(self).layout,
            final(self).read_from_secondary == old(self).read_from_secondary,
            final(self).page_size == old(self).page_size,
            final(self).region_size == old(self).region_size,
            final(self).region_header_with_padding_size == old(
                self,
            ).region_header_with_padding_size,
            final(self).db_header_size == old(self).db_header_size,
            final(self).trimmed,
            final(self).committed_free@ == old(self).committed_free@,
            old(self).log_since_commit@.len() == 0 ==> final(self).image() == old(self).image(),
    {
        let ghost before = *self;
        let ghost log = self.log_since_commit@;
        assert(log.take(log.len() as int) =~= log);
        while self.log_since_commit.len() > 0
            invariant
                before == *old(self),
                log == before.log_since_commit@,
                self.wf(),
                self.has_allocators() ==> self.header().dirty,
                self.log_since_commit@.len() <= log.len(),
                self.log_since_commit@ == log.take(self.log_since_commit@.len() as int),
                log.len() == 0 ==> self.image() == before.image(),
                header::header_kept(before.image(), self.image()),
                self.image().len() == before.image().len(),
                regions::data_kept(before.image(), self.image(), before.layout),
                forall|r: int|
                    0 <= r < 8 * before.layout.tracker_bytes ==> #[trigger] regions::marked(
                        self.image(),
                        before.layout,
                        r,
                    ) == (regions::marked(before.image(), before.layout, r) && !allocates_in(
                        log,
                        self.log_since_commit@.len() as int,
                        r,
                    )),
                before.has_allocators() && before.marks_sound() ==> self.marks_sound(),
                self.allocated_since_commit@ == before.allocated_since_commit@,
                self.has_allocators() == before.has_allocators(),
                self.allocators() == before.allocators(),
                self.layout == before.layout,
                self.read_from_secondary == before.read_from_secondary,
                self.page_size == before.page_size,
                self.region_size == before.region_size,
                self.region_header_with_padding_size == before.region_header_with_padding_size,
                self.db_header_size == before.db_header_size,
                self.trimmed,
                self.committed_free@ == before.committed_free@,
            decreases self.log_since_commit@.len(),
        {
            let ghost n = self.log_since_commit@.len() as int;
            let ghost last = self.log_since_commit@.last();
            let ghost current = self.image();
            self.undo_last();
            proof {
                assert(log.take(n).drop_last() =~= log.take(n - 1));
                assert(last == log[n - 1]);
                assert forall|r: int|
                    0 <= r < 8 * before.layout.tracker_bytes implies #[trigger] regions::marked(
                    self.image(),
                    before.layout,
                    r,
                ) == (regions::marked(before.image(), before.layout, r) && !allocates_in(
                    log,
                    n - 1,
                    r,
                )) by {
                    assert(regions::marked(current, before.layout, r) == (regions::marked(
                        before.image(),
                        before.layout,
                        r,
                    ) && !allocates_in(log, n, r)));
                    if allocates_in(log, n - 1, r) && !allocates_in(log, n, r) {
                        let i = choose|i: int|
                            n - 1 <= i < log.len() && (#[trigger] log[i]).takes()
                                && log[i].page().region == r;
                        assert(i == n - 1);
                    }
                }
            }
        }
    }

    /// Two layouts of one file have their regions at the same places.
    pub proof fn lemma_other_layout(self, other: DatabaseLayout)
        requires
            self.geometry(),
            page_manager::geometry_ok(self.image(), other),
        ensures
            self.layout.header_bytes == other.header_bytes,
            self.layout.tracker_bytes == other.tracker_bytes,
            self.layout.page_size == other.page_size,
            self.layout.region_header_bytes == other.region_header_bytes,
            self.layout.max_order == other.max_order,
            self.layout.region_pages == other.region_pages,
            forall|image: Seq<u8>, r: int| #[trigger]
                regions::region_bytes(image, other, r) == regions::region_bytes(
                    image,
                    self.layout,
                    r,
                ),
            forall|image: Seq<u8>| #[trigger]
                regions::tracker(image, other) == regions::tracker(image, self.layout),
            forall|before: Seq<u8>, after: Seq<u8>| #[trigger]
                regions::data_kept(before, after, other) ==> regions::data_kept(
                    before,
                    after,
                    self.layout,
                ),
            forall|image: Seq<u8>, allocators: Seq<BuddyAllocator>| #[trigger]
                regions::free_pages(image, other, allocators) == regions::free_pages(
                    image,
                    self.layout,
                    allocators,
                ),
    {
        let layout = self.layout;
        assert(layout.spec_region_len() == other.spec_region_len());
        assert forall|image: Seq<u8>, r: int| #[trigger]
            regions::region_bytes(image, other, r) == regions::region_bytes(image, layout, r) by {
            assert(other.base(r) == layout.base(r));
        }
        assert forall|before: Seq<u8>, after: Seq<u8>| #[trigger]
            regions::data_kept(before, after, other) implies regions::data_kept(
            before,
            after,
            layout,
        ) by {
            assert forall|r: int, i: int|
                0 <= r && regions::in_pages(layout, i) && layout.base(r) + i
                    < before.len() implies #[trigger] regions::byte_at(after, layout, r, i)
                == regions::byte_at(before, layout, r, i) by {
                assert(other.base(r) == layout.base(r));
                assert(regions::byte_at(after, other, r, i) == regions::byte_at(
                    before,
                    other,
                    r,
                    i,
                ));
            }
        }
        assert forall|image: Seq<u8>, allocators: Seq<BuddyAllocator>| #[trigger]
            regions::free_pages(image, other, allocators) == regions::free_pages(
                image,
                layout,
                allocators,
            ) by {
            assert forall|r: int, p: int|
                regions::is_free(image, other, allocators, r, p) == #[trigger] regions::is_free(
                    image,
                    layout,
                    allocators,
                    r,
                    p,
                ) by {
                assert(regions::region_bytes(image, other, r) == regions::region_bytes(
                    image,
                    layout,
                    r,
                ));
            }
            assert(regions::free_pages(image, other, allocators) =~= regions::free_pages(
                image,
                layout,
                allocators,
            ));
        }
    }

    /// Makes the layout of the last commit the layout again.
    fn reset_layout(&mut self)
        requires
            old(self).wf(),
            old(self).log_since_commit@.len() == 0,
            old(self).has_allocators() ==> old(self).header().dirty,
            old(self).trimmed,
        ensures
            final(self).wf(),
            final(self).layout == old(self).readable().layout,
            final(self).has_allocators() == old(self).has_allocators(),
            old(self).has_allocators() ==> {
                &&& final(self).allocators() == regions::layout_allocators(final(self).layout)
                &&& final(self).free_set() == old(self).free_set().intersect(
                    regions::all_pages(final(self).layout),
                )
                &&& final(self).committed_free@ == final(self).free_set()
                &&& old(self).marks_sound() ==> final(self).marks_sound()
            },
            final(self).log_since_commit@ == old(self).log_since_commit@,
            final(self).allocated_since_commit@ == old(self).allocated_since_commit@,
            header::header_kept(old(self).image(), final(self).image()),
            final(self).image().len() == old(self).image().len(),
            regions::data_kept(old(self).image(), final(self).image(), old(self).layout),
            forall|r: int|
                0 <= r < 8 * old(self).layout.tracker_bytes ==> #[trigger] regions::marked(
                    final(self).image(),
                    old(self).layout,
                    r,
                ) == (regions::marked(old(self).image(), old(self).layout, r) || (old(
                    self,
                ).has_allocators() && r >= final(self).layout.spec_num_regions())),
            final(self).read_from_secondary == old(self).read_from_secondary,
            final(self).page_size == old(self).page_size,
            final(self).region_size == old(self).region_size,
            final(self).region_header_with_padding_size == old(
                self,
            ).region_header_with_padding_size,
            final(self).db_header_size == old(self).db_header_size,
            final(self).trimmed,
            old(self).layout == old(self).readable().layout ==> final(self).image() == old(
                self,
            ).image(),
    {
        let ghost before = *self;
        let layout = if self.read_from_secondary {
            self.metadata.secondary_slot().get_data_section_layout()
        } else {
            self.metadata.primary_slot().get_data_section_layout()
        };
        proof {
            before.lemma_other_layout(layout);
        }
        if layout != self.layout && self.regional_allocators.is_some() {
            proof {
                assert forall|i: int| #![trigger before.allocators()[i]] 0 <= i
                    < before.allocators().len() && i < layout.spec_num_regions() implies {
                    &&& before.allocators()[i].max_order == layout.max_order
                    &&& before.allocators()[i].height == math::log2_ceil(
                        layout.region_pages as int,
                    )
                    &&& before.allocators()[i].wf(regions::region_bytes(before.image(), layout, i))
                } by {
                    assert(regions::allocator_fits(before.allocators()[i], before.layout, i));
                    assert(regions::region_bytes(before.image(), layout, i)
                        == regions::region_bytes(before.image(), before.layout, i));
                }
            }
            let allocators = self.metadata.confine_regions(
                &layout,
                self.regional_allocators.as_ref().unwrap(),
            );
            self.regional_allocators = Some(allocators);
        }
        self.layout = layout;
        self.committed_free = Ghost(self.free_set());
        proof {
            let image = self.image();
            assert forall|r: int| #[trigger]
                regions::marked(image, before.layout, r) == regions::marked(image, layout, r) by {
                assert(regions::tracker(image, layout) == regions::tracker(image, before.layout));
            }
            assert forall|r: int| #[trigger]
                regions::marked(before.image(), before.layout, r) == regions::marked(
                    before.image(),
                    layout,
                    r,
                ) by {
                assert(regions::tracker(before.image(), layout) == regions::tracker(
                    before.image(),
                    before.layout,
                ));
            }
            if before.has_allocators() {
                regions::lemma_exact(before.image(), before.layout, before.allocators());
                assert(regions::free_pages(before.image(), layout, before.allocators())
                    == before.free_set());
                assert(self.free_set() == before.free_set().intersect(
                    regions::all_pages(layout),
                ));
            }
            if before.has_allocators() && before.marks_sound() {
                assert forall|r: int, p: int| #[trigger]
                    self.free_set().contains((r, p)) implies !regions::marked(image, layout, r) by {
                    assert(before.free_set().contains((r, p)));
                    assert(regions::all_pages(layout).contains((r, p)));
                }
            }
            layout.lemma_grows(layout);
        }
    }

    /// What one step of a rollback does: once the mark of out-of-date allocators is in the file, the
    /// work since the last commit is undone. A step that follows a failure does nothing.
    pub open spec fn rollback_stepped(
        self,
        event: AllocatorEvent,
        after: Self,
        action: Action<()>,
    ) -> bool {
        match event {
            AllocatorEvent::Start => if self.header().dirty {
                &&& after.rolled_back(self)
                &&& action == Action::Done(Ok(()))
            } else {
                &&& after.marked_dirty(self)
                &&& action is Flush
            },
            AllocatorEvent::Flushed(Ok(_)) => {
                &&& after.rolled_back(self)
                &&& action == Action::Done(Ok(()))
            },
            AllocatorEvent::Flushed(Err(e)) => {
                &&& after.unchanged(self)
                &&& action == Action::<()>::Done(Err(e))
            },
        }
    }

    /// Undoes the work since the last commit.
    pub fn rollback_uncommited_writes(&mut self, event: AllocatorEvent) -> (action: Action<()>)
        requires
            old(self).wf(),
            event !is Start ==> old(self).header().dirty,
        ensures
            old(self).rollback_stepped(event, *final(self), action),
            final(self).wf(),
            old(self).has_allocators() && old(self).marks_sound() ==> final(self).marks_sound(),
            !old(self).header().dirty ==> regions::state_same(
                old(self).image(),
                final(self).image(),
                old(self).layout,
            ),
            old(self).state_known() ==> final(self).state_known(),
    {
        broadcast use vstd::std_specs::hash::group_hash_axioms;

        let ghost before = *self;
        match event {
            AllocatorEvent::Start => {
                if self.metadata.allocators_mut() {
                    proof {
                        self.lemma_marked_dirty(before);
                    }
                    return Action::Flush;
                }
            },
            AllocatorEvent::Flushed(Err(e)) => {
                return Action::Done(Err(e));
            },
            AllocatorEvent::Flushed(Ok(_)) => {},
        }
        if self.regional_allocators.is_some() {
            self.make_ready();
        }
        let ghost ready = *self;
        self.undo_all();
        let ghost undone = *self;
        self.allocated_since_commit.clear();
        let ghost cleared = *self;
        // Reset the layout, in case it changed during the writes
        self.reset_layout();
        proof {
            assert forall|r: int|
                0 <= r < 8 * before.layout.tracker_bytes implies #[trigger] regions::marked(
                self.image(),
                before.layout,
                r,
            ) == ((regions::marked(before.image(), before.layout, r) && !allocates_in(
                before.log_since_commit@,
                0,
                r,
            )) || (before.has_allocators() && r >= self.layout.spec_num_regions())) by {
                assert(regions::marked(undone.image(), before.layout, r) == regions::marked(
                    cleared.image(),
                    before.layout,
                    r,
                ));
                if before.has_allocators() {
                    assert(regions::marked(ready.image(), before.layout, r) == (regions::marked(
                        before.image(),
                        before.layout,
                        r,
                    ) || r >= before.layout.spec_num_regions()));
                }
            }
            if before.has_allocators() {
                assert(undone.free_set() == before.committed_free@);
                assert(cleared.free_set() == undone.free_set());
            }
        }
        Action::Done(Ok(()))
    }
}

} // verus!
