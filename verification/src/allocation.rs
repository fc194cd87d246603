//! Allocating pages.

use crate::action::{Action, AllocateEvent, GrowEvent};
use crate::error::Error;
use crate::header;
use crate::journal;
use crate::journal::AllocationOp;
use crate::layout;
use crate::math;
use crate::math::ceil_log2;
use crate::page_manager;
use crate::page_manager::TransactionalMemory;
use crate::page_number::PageNumber;
use crate::regions;
use vstd::prelude::*;

verus! {

impl TransactionalMemory {
    /// What an attempt to allocate keeps: everything but the allocator states and the marks.
    pub open spec fn attempt_kept(self, after: Self) -> bool {
        &&& after.layout == self.layout
        &&& after.has_allocators()
        &&& after.allocators() == self.allocators()
        &&& header::header_kept(self.image(), after.image())
        &&& after.image().len() == self.image().len()
        &&& regions::data_kept(self.image(), after.image(), self.layout)
        &&& after.read_from_secondary == self.read_from_secondary
        &&& after.trimmed == self.trimmed
        &&& after.committed_free@ == self.committed_free@
    }

    /// `after` is this memory with `page` taken: the block that the first region gives that can,
    /// among those that are not marked as full. An attempt to take a single page marks the regions
    /// that have none.
    pub open spec fn serves(self, order: int, page: PageNumber, after: Self) -> bool {
        &&& self.attempt_kept(after)
        &&& page.page_order == order
        &&& page.region < self.allocators().len()
        &&& self.candidate(page.region as int, order)
        &&& forall|r: int| 0 <= r < page.region ==> !#[trigger] self.candidate(r, order)
        &&& regions::next_block(
            self.image(),
            self.layout,
            self.allocators(),
            page.region as int,
            order,
        ) == Some(page.page_index as int)
        &&& regions::has_page(self.allocators(), page)
        &&& regions::block(page).subset_of(self.free_set())
        &&& after.free_set() == self.free_set().difference(regions::block(page))
        &&& forall|r: int|
            0 <= r < 8 * self.layout.tracker_bytes ==> #[trigger] regions::marked(
                after.image(),
                self.layout,
                r,
            ) == (regions::marked(self.image(), self.layout, r) || (order == 0 && r < page.region))
    }

    /// No region can serve the allocation; `after` is this memory, with every region marked if it
    /// was one for a single page.
    pub open spec fn refuses(self, order: int, after: Self) -> bool {
        &&& self.attempt_kept(after)
        &&& self.refused(order)
        &&& after.free_set() == self.free_set()
        &&& forall|r: int|
            0 <= r < 8 * self.layout.tracker_bytes ==> #[trigger] regions::marked(
                after.image(),
                self.layout,
                r,
            ) == (regions::marked(self.image(), self.layout, r) || order == 0)
        &&& self.marks_sound() ==> forall|page: PageNumber|
            page.page_order == order && regions::has_page(self.allocators(), page)
                ==> !#[trigger] regions::block(page).subset_of(self.free_set())
    }

    /// Takes a block of the given order from the first region that has one, among those that are
    /// not marked as full. A region that has no page left is then marked.
    pub fn allocate_helper(&mut self, required_order: usize) -> (taken: Result<PageNumber, Error>)
        requires
            old(self).geometry(),
            old(self).has_allocators(),
            regions::allocators_ok(old(self).image(), old(self).layout, old(self).allocators()),
            old(self).header().dirty,
            old(self).trimmed,
        ensures
            final(self).same_but_image(*old(self)),
            final(self).geometry(),
            regions::allocators_ok(
                final(self).image(),
                final(self).layout,
                final(self).allocators(),
            ),
            match taken {
                Ok(page) => old(self).serves(required_order as int, page, *final(self)),
                Err(e) => e == Error::OutOfSpace && old(self).refuses(
                    required_order as int,
                    *final(self),
                ),
            },
            old(self).marks_sound() ==> final(self).marks_sound(),
    {
        let ghost before = *self;
        let ghost image = self.image();
        let ghost layout = self.layout;
        let ghost allocators = self.allocators();
        let ghost order = required_order as int;
        let regions: usize = self.layout.tracker_bytes * 8;
        let mut region: usize = 0;
        proof {
            layout.lemma_region(0);
            regions::lemma_states_inside(image, layout, allocators);
        }
        while region < regions
            invariant
                before == *old(self),
                self.same_but_image(before),
                before.geometry(),
                before.has_allocators(),
                before.trimmed,
                before.image() == image,
                before.layout == layout,
                before.allocators() == allocators,
                order == required_order,
                layout.header_bytes <= image.len(),
                forall|r: int|
                    0 <= r < allocators.len() ==> #[trigger] layout.base(r)
                        + layout.region_header_bytes <= image.len(),
                region <= regions == 8 * layout.tracker_bytes,
                self.image().len() == image.len(),
                header::header_kept(image, self.image()),
                regions::allocators_ok(image, layout, allocators),
                regions::allocators_ok(self.image(), layout, allocators),
                self.free_set() == before.free_set(),
                regions::data_kept(image, self.image(), layout),
                forall|r: int|
                    0 <= r < allocators.len() ==> #[trigger] regions::region_bytes(
                        self.image(),
                        layout,
                        r,
                    ) == regions::region_bytes(image, layout, r),
                forall|r: int|
                    0 <= r < 8 * layout.tracker_bytes ==> #[trigger] regions::marked(
                        self.image(),
                        layout,
                        r,
                    ) == (regions::marked(image, layout, r) || (order == 0 && r < region)),
                forall|r: int|
                    0 <= r < region && r < allocators.len() ==> !#[trigger] before.candidate(
                        r,
                        order,
                    ),
                forall|r: int, index: int|
                    0 <= r < region && r < allocators.len() && allocators[r].has_block(index, order)
                        && !regions::marked(image, layout, r) ==> !(#[trigger] regions::block_at(
                        r,
                        index,
                        order,
                    )).subset_of(before.free_set()),
                before.marks_sound() ==> self.marks_sound(),
            decreases regions - region,
        {
            let ghost current = self.image();
            if !self.metadata.is_marked(&self.layout, region) {
                proof {
                    assert(!regions::marked(image, layout, region as int));
                    assert(region < allocators.len());
                    assert(regions::region_bytes(current, layout, region as int)
                        == regions::region_bytes(image, layout, region as int));
                }
                match self.metadata.allocate_in(
                    &self.layout,
                    self.regional_allocators.as_ref().unwrap(),
                    region,
                    required_order,
                ) {
                    Ok(page) => {
                        let page_number = PageNumber::new(
                            region as u32,
                            page as u32,
                            required_order as u8,
                        );
                        proof {
                            let size = math::pow2(order);
                            math::lemma_pow2_positive(order);
                            assert(page + 1 <= (page + 1) * size) by (nonlinear_arith)
                                requires
                                    1 <= size,
                            ;
                            assert forall|r: int|
                                0 <= r < 8 * layout.tracker_bytes implies #[trigger] regions::marked(
                                self.image(),
                                layout,
                                r,
                            ) == regions::marked(current, layout, r) by {}
                        }
                        return Ok(page_number);
                    },
                    Err(_) => {
                        if required_order == 0 {
                            self.metadata.mark(&self.layout, region, true);
                            proof {
                                regions::lemma_mark(
                                    current,
                                    self.image(),
                                    layout,
                                    allocators,
                                    region as int,
                                    true,
                                );
                                assert forall|p: int| !#[trigger] before.free_set().contains(
                                    (region as int, p),
                                ) by {
                                    if before.free_set().contains((region as int, p)) {
                                        let a = allocators[region as int];
                                        a.lemma_free_in_range(
                                            regions::region_bytes(image, layout, region as int),
                                            p,
                                        );
                                        math::lemma_pow2_zero();
                                        assert((p + 1) * math::pow2(0) == p + 1);
                                        assert(a.has_block(p, 0));
                                        page_manager::lemma_single(region as int, p);
                                        assert(regions::block_at(region as int, p, 0).subset_of(
                                            before.free_set(),
                                        ));
                                    }
                                }
                            }
                        }
                    },
                }
            }
            region = region + 1;
        }
        proof {
            if before.marks_sound() {
                assert forall|page: PageNumber|
                    page.page_order == required_order && regions::has_page(
                        allocators,
                        page,
                    ) implies !#[trigger] regions::block(page).subset_of(before.free_set()) by {
                    regions::lemma_block_in_region(allocators, page);
                    if regions::marked(image, layout, page.region as int) {
                        let x = (
                            page.region as int,
                            page.page_index * math::pow2(page.page_order as int),
                        );
                        assert(regions::block(page).contains(x));
                        assert(!before.free_set().contains(x));
                    }
                }
            }
        }
        Err(Error::OutOfSpace)
    }
}

/// The order of the block that an allocation of `size` bytes is given.
pub open spec fn order_for(size: int, page_size: int) -> int {
    math::log2_ceil(layout::pages_for(size, page_size))
}

impl TransactionalMemory {
    /// Whether the file can be made larger for an allocation of order `order`.
    pub open spec fn can_grow(self, order: int) -> bool {
        &&& self.layout.spec_len() < self.header().max_capacity
        &&& self.grown(order) != self.layout
    }

    /// Whether no region can serve an allocation of order `order`.
    pub open spec fn refused(self, order: int) -> bool {
        forall|r: int|
            0 <= r < self.allocators().len() ==> !#[trigger] self.candidate(r, order)
    }

    /// Whether an allocation of `size` bytes can be computed with: where no region can serve it, or
    /// that is not known before the allocator state is trimmed, the size to grow to.
    pub open spec fn request_fits(self, size: int) -> bool {
        let order = order_for(size, self.page_size as int);
        &&& size + self.page_size - 1 <= usize::MAX
        &&& layout::pages_for(size, self.page_size as int) <= usize::MAX / 2 + 1
        &&& self.layout.spec_len() < self.header().max_capacity && (self.refused(order)
            || !self.trimmed) ==> self.growth_fits(order)
    }

    /// This is `before` with the allocation of `page` on record.
    pub open spec fn recorded(self, before: Self, page: PageNumber) -> bool {
        &&& self.allocated_since_commit@ == before.allocated_since_commit@.insert(page.spec_key())
        &&& self.log_since_commit@ == before.log_since_commit@.push(AllocationOp::Allocate(page))
        &&& self.page_size == before.page_size
        &&& self.region_size == before.region_size
        &&& self.region_header_with_padding_size == before.region_header_with_padding_size
        &&& self.db_header_size == before.db_header_size
        &&& self.trimmed == before.trimmed
    }

    /// What comes of an allocation of order `order` before the file is made larger, once the
    /// allocator state is trimmed.
    pub open spec fn attempted(
        self,
        order: int,
        action: Action<PageNumber>,
        after: Self,
    ) -> bool {
        if self.trimmed {
            self.first_attempt(order, action, after)
        } else {
            exists|ready: TransactionalMemory|
                {
                    &&& ready.readied(self)
                    &&& ready.wf()
                    &&& #[trigger] ready.first_attempt(order, action, after)
                }
        }
    }

    /// What comes of an allocation of order `order` before the file is made larger.
    pub open spec fn first_attempt(
        self,
        order: int,
        action: Action<PageNumber>,
        after: Self,
    ) -> bool {
        match action {
            Action::Done(Ok(page)) => self.serves(order, page, after) && after.recorded(self, page),
            Action::Done(Err(e)) => {
                &&& e == Error::OutOfSpace
                &&& self.refuses(order, after)
                &&& after.same_but_image(self)
                &&& !self.can_grow(order)
            },
            Action::Resize(len) => {
                &&& self.refuses(order, after)
                &&& after.same_but_image(self)
                &&& self.can_grow(order)
                &&& len == self.grown(order).spec_len()
            },
            _ => false,
        }
    }

    /// What comes of an allocation of order `order` where the file has been made larger.
    pub open spec fn last_attempt(
        self,
        order: int,
        action: Action<PageNumber>,
        after: Self,
    ) -> bool {
        match action {
            Action::Done(Ok(page)) => self.serves(order, page, after) && after.recorded(self, page),
            Action::Done(Err(e)) => {
                &&& e == Error::OutOfSpace
                &&& self.refuses(order, after)
                &&& after.same_but_image(self)
            },
            _ => false,
        }
    }

    /// Puts an allocation on record.
    fn record(&mut self, page: PageNumber)
        requires
            old(self).geometry(),
            old(self).has_allocators(),
            regions::allocators_ok(old(self).image(), old(self).layout, old(self).allocators()),
        ensures
            final(self).recorded(*old(self), page),
            final(self).image() == old(self).image(),
            final(self).regional_allocators == old(self).regional_allocators,
            final(self).layout == old(self).layout,
            final(self).read_from_secondary == old(self).read_from_secondary,
            final(self).trimmed == old(self).trimmed,
            final(self).committed_free@ == old(self).committed_free@,
    {
        broadcast use vstd::std_specs::hash::group_hash_axioms;

        self.allocated_since_commit.insert(page.key());
        self.log_since_commit.push(AllocationOp::Allocate(page));
    }

    /// A page that was taken and put on record keeps the invariant.
    proof fn lemma_recorded(self, before: Self, order: int, page: PageNumber)
        requires
            before.wf(),
            before.has_allocators(),
            before.trimmed,
            before.serves(order, page, self),
            self.recorded(before, page),
            self.geometry(),
            regions::allocators_ok(self.image(), self.layout, self.allocators()),
        ensures
            self.wf(),
    {
        let op = AllocationOp::Allocate(page);
        journal::lemma_push(before.committed_free@, before.log_since_commit@, op);
        assert forall|i: int| 0 <= i < self.log_since_commit@.len() implies regions::has_page(
            self.allocators(),
            (#[trigger] self.log_since_commit@[i]).page(),
        ) by {
            if i < before.log_since_commit@.len() {
                assert(self.log_since_commit@[i] == before.log_since_commit@[i]);
            }
        }
    }

    /// The block that is allocated has room for the request, and no smaller one has.
    pub proof fn lemma_order(size: int, page_size: int)
        requires
            0 <= size,
            1 <= page_size,
        ensures
            0 <= order_for(size, page_size),
            size <= page_size * math::pow2(order_for(size, page_size)),
            order_for(size, page_size) > 0 ==> page_size * math::pow2(
                order_for(size, page_size) - 1,
            ) < size,
    {
        let pages = layout::pages_for(size, page_size);
        layout::lemma_div(size + page_size - 1, page_size);
        math::lemma_log2_ceil(pages);
        let power = math::pow2(math::log2_ceil(pages));
        layout::lemma_mul_le(pages, page_size, power, page_size);
        assert(power * page_size == page_size * power) by (nonlinear_arith);
        if math::log2_ceil(pages) > 0 {
            let half = math::pow2(math::log2_ceil(pages) - 1);
            layout::lemma_mul_le(half + 1, page_size, pages, page_size);
            assert((half + 1) * page_size == page_size * half + page_size) by (nonlinear_arith);
        }
    }

    /// Marking the allocators as out of date changes nothing about which regions can serve an
    /// allocation.
    proof fn lemma_same_candidates(self, before: Self, order: int)
        requires
            before.wf(),
            before.has_allocators(),
            before.trimmed,
            self.marked_dirty(before),
        ensures
            self.refused(order) == before.refused(order),
    {
        let layout = before.layout;
        layout.lemma_region(0);
        regions::lemma_states_inside(before.image(), layout, before.allocators());
        regions::lemma_header_change(before.image(), self.image(), layout);
        assert forall|r: int|
            #![trigger self.candidate(r, order)]
            #![trigger before.candidate(r, order)]
            0 <= r < before.allocators().len() implies self.candidate(r, order)
            == before.candidate(r, order) by {
            assert(layout.base(r) + layout.region_header_bytes <= before.image().len());
            assert(regions::region_bytes(self.image(), layout, r) == regions::region_bytes(
                before.image(),
                layout,
                r,
            ));
        }
    }

    /// Takes a block of the given order, or asks for a longer file.
    fn attempt(&mut self, required_order: usize) -> (action: Action<PageNumber>)
        requires
            old(self).wf(),
            old(self).has_allocators(),
            old(self).header().dirty,
            old(self).trimmed,
            old(self).layout.spec_len() < old(self).header().max_capacity && old(self).refused(
                required_order as int,
            ) ==> old(self).growth_fits(required_order as int),
        ensures
            old(self).first_attempt(required_order as int, action, *final(self)),
            final(self).wf(),
            final(self).has_allocators(),
            action matches Action::Done(Ok(page)) ==> {
                &&& page.page_order == required_order
                &&& regions::has_page(final(self).allocators(), page)
                &&& final(self).page_in_memory(page)
            },
            old(self).marks_sound() ==> final(self).marks_sound(),
    {
        let ghost before = *self;
        match self.allocate_helper(required_order) {
            Ok(page_number) => {
                self.record(page_number);
                proof {
                    self.lemma_recorded(before, required_order as int, page_number);
                    self.lemma_page_inside(page_number);
                }
                Action::Done(Ok(page_number))
            },
            Err(e) => {
                if self.layout.len() < self.metadata.get_max_capacity() {
                    match self.grow(required_order, GrowEvent::Start) {
                        Action::Resize(len) => Action::Resize(len),
                        _ => Action::Done(Err(e)),
                    }
                } else {
                    Action::Done(Err(e))
                }
            },
        }
    }

    /// Takes a block of the given order, or fails.
    fn attempt_last(&mut self, required_order: usize) -> (action: Action<PageNumber>)
        requires
            old(self).wf(),
            old(self).has_allocators(),
            old(self).header().dirty,
            old(self).trimmed,
        ensures
            old(self).last_attempt(required_order as int, action, *final(self)),
            final(self).wf(),
            final(self).has_allocators(),
            action matches Action::Done(Ok(page)) ==> {
                &&& page.page_order == required_order
                &&& regions::has_page(final(self).allocators(), page)
                &&& final(self).page_in_memory(page)
            },
            old(self).marks_sound() ==> final(self).marks_sound(),
            regions::data_kept(old(self).image(), final(self).image(), old(self).layout),
            final(self).page_size == old(self).page_size,
    {
        let ghost before = *self;
        match self.allocate_helper(required_order) {
            Ok(page_number) => {
                self.record(page_number);
                proof {
                    self.lemma_recorded(before, required_order as int, page_number);
                    self.lemma_page_inside(page_number);
                }
                Action::Done(Ok(page_number))
            },
            Err(e) => Action::Done(Err(e)),
        }
    }

    /// Adds the pages of the longer file and then takes a block of the given order.
    fn attempt_after_growth(&mut self, required_order: usize) -> (action: Action<PageNumber>)
        requires
            old(self).wf(),
            old(self).has_allocators(),
            old(self).header().dirty,
            old(self).trimmed,
            old(self).layout.spec_len() < old(self).header().max_capacity ==> old(
                self,
            ).growth_fits(required_order as int),
        ensures
            if old(self).can_grow(required_order as int) {
                exists|grown: TransactionalMemory|
                    {
                        &&& old(self).grown_to(old(self).grown(required_order as int), grown)
                        &&& grown.wf()
                        &&& #[trigger] grown.last_attempt(
                            required_order as int,
                            action,
                            *final(self),
                        )
                    }
            } else {
                &&& final(self).unchanged(*old(self))
                &&& action == Action::<PageNumber>::Done(Err(Error::OutOfSpace))
            },
            final(self).wf(),
            final(self).has_allocators(),
            final(self).page_size == old(self).page_size,
            action matches Action::Done(Ok(page)) ==> {
                &&& page.page_order == required_order
                &&& regions::has_page(final(self).allocators(), page)
                &&& final(self).page_in_memory(page)
            },
            old(self).marks_sound() ==> final(self).marks_sound(),
            regions::data_kept(old(self).image(), final(self).image(), old(self).layout),
    {
        let ghost before = *self;
        if self.layout.len() >= self.metadata.get_max_capacity() {
            return Action::Done(Err(Error::OutOfSpace));
        }
        if let Action::Done(Err(e)) = self.grow(required_order, GrowEvent::Resized(Ok(()))) {
            return Action::Done(Err(e));
        }
        let ghost grown = *self;
        let action = self.attempt_last(required_order);
        proof {
            assert(grown.last_attempt(required_order as int, action, *self));
            regions::lemma_data_kept_grown(
                before.image(),
                grown.image(),
                self.image(),
                before.layout,
                grown.layout,
            );
        }
        action
    }

    /// What one step of an allocation of `size` bytes does: once the mark of out-of-date allocators
    /// is in the file, a block is taken, or a longer file asked for; once the file is longer, its
    /// pages come in, and a block is taken. A step that follows a failure does nothing.
    pub open spec fn allocate_stepped(
        self,
        size: int,
        event: AllocateEvent,
        after: Self,
        action: Action<PageNumber>,
    ) -> bool {
        let order = order_for(size, self.page_size as int);
        match event {
            AllocateEvent::Start => if self.header().dirty {
                self.attempted(order, action, after)
            } else {
                &&& after.marked_dirty(self)
                &&& action is Flush
            },
            AllocateEvent::Flushed(Ok(_)) => self.attempted(order, action, after),
            AllocateEvent::Flushed(Err(e)) => {
                &&& after.unchanged(self)
                &&& action == Action::<PageNumber>::Done(Err(e))
            },
            AllocateEvent::Resized(Err(e)) => {
                &&& after.unchanged(self)
                &&& action == Action::<PageNumber>::Done(Err(e))
            },
            AllocateEvent::Resized(Ok(_)) => if self.can_grow(order) {
                exists|grown: TransactionalMemory|
                    {
                        &&& self.grown_to(self.grown(order), grown)
                        &&& self.wf() ==> grown.wf()
                        &&& #[trigger] grown.last_attempt(order, action, after)
                    }
            } else {
                &&& after.unchanged(self)
                &&& action == Action::<PageNumber>::Done(Err(Error::OutOfSpace))
            },
        }
    }

    /// Allocates a block of pages with room for `allocation_size` bytes.
    #[verifier::rlimit(30)]
    pub fn allocate(&mut self, allocation_size: usize, event: AllocateEvent) -> (action: Action<
        PageNumber,
    >)
        requires
            old(self).wf(),
            old(self).has_allocators(),
            old(self).request_fits(allocation_size as int),
            event !is Start ==> old(self).header().dirty,
            event is Resized ==> old(self).trimmed,
            event is Resized && old(self).layout.spec_len() < old(self).header().max_capacity
                ==> old(self).growth_fits(
                order_for(allocation_size as int, old(self).page_size as int),
            ),
        ensures
            old(self).allocate_stepped(allocation_size as int, event, *final(self), action),
            action matches Action::Done(Ok(page)) ==> {
                &&& final(self).page_in_memory(page)
                &&& regions::has_page(final(self).allocators(), page)
                &&& allocation_size <= page.spec_page_size_bytes(final(self).page_size as int)
                &&& page.page_order > 0 ==> final(self).page_size * math::pow2(
                    page.page_order - 1,
                ) < allocation_size
            },
            action is Flush || action is Resize ==> {
                &&& final(self).header().dirty
                &&& final(self).request_fits(allocation_size as int)
            },
            action is Resize ==> {
                &&& final(self).trimmed
                &&& final(self).growth_fits(
                    order_for(allocation_size as int, old(self).page_size as int),
                )
            },
            !old(self).header().dirty ==> regions::state_same(
                old(self).image(),
                final(self).image(),
                old(self).layout,
            ),
            final(self).wf(),
            final(self).has_allocators(),
            old(self).marks_sound() ==> final(self).marks_sound(),
            regions::data_kept(old(self).image(), final(self).image(), old(self).layout),
            old(self).state_known() ==> final(self).state_known(),
    {
        let ghost before = *self;
        let ghost order = order_for(allocation_size as int, self.page_size as int);
        proof {
            Self::lemma_order(allocation_size as int, self.page_size as int);
        }
        let required_pages: usize = (allocation_size + (self.page_size - 1)) / self.page_size;
        let required_order: usize = ceil_log2(required_pages);
        match event {
            AllocateEvent::Start => {
                if self.metadata.allocators_mut() {
                    proof {
                        self.lemma_marked_dirty(before);
                        if before.trimmed {
                            self.lemma_same_candidates(before, order);
                        }
                    }
                    return Action::Flush;
                }
            },
            AllocateEvent::Flushed(Ok(_)) => {},
            AllocateEvent::Flushed(Err(e)) => {
                return Action::Done(Err(e));
            },
            AllocateEvent::Resized(Err(e)) => {
                return Action::Done(Err(e));
            },
            AllocateEvent::Resized(Ok(_)) => {
                return self.attempt_after_growth(required_order);
            },
        }
        self.make_ready();
        let ghost ready = *self;
        let action = self.attempt(required_order);
        proof {
            assert(ready.first_attempt(required_order as int, action, *self));
        }
        action
    }
}

} // verus!
