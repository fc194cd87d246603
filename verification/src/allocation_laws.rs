//! What is promised of allocating and freeing.

use crate::action::{Action, AllocateEvent};
use crate::allocation;
use crate::buddy_allocator;
use crate::error::Error;
use crate::journal::AllocationOp;
use crate::layout;
use crate::layout::DatabaseLayout;
use crate::math;
use crate::page_manager::TransactionalMemory;
use crate::page_number::PageNumber;
use crate::regions;
use crate::repair;
use vstd::prelude::*;

verus! {

impl DatabaseLayout {
    /// Whether region `region` has the pages of block `index` of order `order`: those from `index`
    /// times to `index + 1` times `2` to the power of `order`.
    pub open spec fn holds_block(self, region: int, index: int, order: int) -> bool {
        &&& 0 <= region < self.spec_num_regions()
        &&& 0 <= index
        &&& (index + 1) * math::pow2(order) <= self.pages_of(region)
    }
}

impl PageNumber {
    /// Whether page `p` of the region is one of this block.
    pub open spec fn in_page(self, p: int) -> bool {
        self.page_index * math::pow2(self.page_order as int) <= p < (self.page_index + 1)
            * math::pow2(self.page_order as int)
    }
}

impl TransactionalMemory {
    /// Whether block `index` of order `order` of region `region` is one of the file, and all of its
    /// pages are free.
    pub open spec fn free_block(self, region: int, index: int, order: int) -> bool {
        &&& self.layout.holds_block(region, index, order)
        &&& forall|p: int|
            index * math::pow2(order) <= p < (index + 1) * math::pow2(order)
                ==> #[trigger] self.free_set().contains((region, p))
    }

    /// Every block that the pages of a region are enough for, up to an order of twenty, is one that
    /// there is an allocator for.
    pub proof fn lemma_every_block(self, region: int, index: int, order: int)
        requires
            self.geometry(),
            self.has_allocators(),
            self.allocation(),
            0 <= order,
        ensures
            order <= 20 && self.layout.holds_block(region, index, order)
                ==> self.allocators()[region].has_block(index, order),
            0 <= region < self.allocators().len() && self.allocators()[region].has_block(
                index,
                order,
            ) ==> order <= 20 && self.layout.holds_block(region, index, order),
            self.allocators().len() == self.layout.spec_num_regions(),
    {
        let h = self.header();
        let l = self.layout;
        self.lemma_allocators();
        l.lemma_is_for(
            h.max_capacity as int,
            l.spec_usable_bytes(),
            h.region_max_usable_bytes as int,
            self.page_size as int,
        );
        layout::lemma_mul_le(
            l.usable_pages(),
            l.page_size as int,
            l.usable_pages(),
            l.page_size as int,
        );
        l.lemma_region_sizes(
            h.max_capacity as int,
            l.spec_usable_bytes(),
            h.region_max_usable_bytes as int,
            self.page_size as int,
        );
        if 0 <= region < self.allocators().len() {
            l.lemma_region(region);
            if order <= 20 && l.holds_block(region, index, order) && order > l.max_order {
                math::lemma_pow2_le(l.max_order + 1, order);
                math::lemma_pow2_positive(order);
                layout::lemma_mul_le(1, math::pow2(order), index + 1, math::pow2(order));
            }
        }
    }

    /// A region can serve an allocation just if it is not marked as full and has a block of that
    /// size whose pages are all free.
    pub proof fn lemma_candidate(self, region: int, order: int)
        requires
            self.geometry(),
            self.has_allocators(),
            self.allocation(),
            self.trimmed,
            0 <= region < self.layout.spec_num_regions(),
            0 <= order <= 20,
        ensures
            self.candidate(region, order) == (!regions::marked(self.image(), self.layout, region)
                && exists|index: int| #[trigger] self.free_block(region, index, order)),
    {
        let mem = regions::region_bytes(self.image(), self.layout, region);
        let a = self.allocators()[region];
        self.lemma_every_block(region, 0, order);
        a.lemma_next_block(mem, order);
        match a.next_block(mem, order) {
            Some(index) => {
                self.lemma_every_block(region, index, order);
                assert forall|p: int|
                    index * math::pow2(order) <= p < (index + 1) * math::pow2(
                        order,
                    ) implies #[trigger] self.free_set().contains((region, p)) by {
                    assert(buddy_allocator::in_block(p, index, order));
                    assert(a.page_free(mem, p));
                }
                assert(self.free_block(region, index, order));
            },
            None => {
                assert forall|index: int| !#[trigger] self.free_block(region, index, order) by {
                    if self.free_block(region, index, order) {
                        self.lemma_every_block(region, index, order);
                        assert(!a.block_free(mem, index, order));
                        let i = choose|i: int|
                            #![trigger a.page_free(mem, i)]
                            buddy_allocator::in_block(i, index, order) && !a.page_free(mem, i);
                        assert(self.free_set().contains((region, i)));
                    }
                }
            },
        }
    }
}

/// The order of an allocation is the smallest that has room for it.
proof fn lemma_least_order(size: int, page_size: int, order: int)
    requires
        0 <= size,
        1 <= page_size,
        0 <= order,
        size <= page_size * math::pow2(order),
        order == 0 || page_size * math::pow2(order - 1) < size,
    ensures
        allocation::order_for(size, page_size) == order,
{
    let k = allocation::order_for(size, page_size);
    TransactionalMemory::lemma_order(size, page_size);
    if k < order {
        math::lemma_pow2_positive(k);
        math::lemma_pow2_le(k, order - 1);
        layout::lemma_mul_le(page_size, math::pow2(k), page_size, math::pow2(order - 1));
    } else if order < k {
        math::lemma_pow2_positive(order);
        math::lemma_pow2_le(order, k - 1);
        layout::lemma_mul_le(page_size, math::pow2(order), page_size, math::pow2(k - 1));
    }
}

/// Blocks are ones of a layout without a page in common just if each is of an order up to the
/// largest, of pages that its region has, and no page of one is one of another.
pub proof fn lemma_disjoint_blocks(layout: DatabaseLayout, pages: Seq<PageNumber>)
    requires
        layout.valid(),
    ensures
        repair::disjoint_blocks(layout, pages) <==> {
            &&& forall|i: int|
                0 <= i < pages.len() ==> (#[trigger] pages[i]).page_order <= layout.max_order
                    && layout.holds_block(
                    pages[i].region as int,
                    pages[i].page_index as int,
                    pages[i].page_order as int,
                )
            &&& forall|i: int, j: int, p: int|
                #![trigger pages[i].in_page(p), pages[j].in_page(p)]
                0 <= i < j < pages.len() && pages[i].region == pages[j].region ==> !(
                pages[i].in_page(p) && pages[j].in_page(p))
        },
{
    let allocators = regions::layout_allocators(layout);
    assert forall|i: int| 0 <= i < pages.len() implies regions::has_page(
        allocators,
        #[trigger] pages[i],
    ) == (pages[i].page_order <= layout.max_order && layout.holds_block(
        pages[i].region as int,
        pages[i].page_index as int,
        pages[i].page_order as int,
    )) by {
        if pages[i].region < layout.spec_num_regions() {
            layout.lemma_region(pages[i].region as int);
        }
    }
    if repair::disjoint_blocks(layout, pages) {
        assert forall|i: int, j: int, p: int|
            #![trigger pages[i].in_page(p), pages[j].in_page(p)]
            0 <= i < j < pages.len() && pages[i].region == pages[j].region implies !(
        pages[i].in_page(p) && pages[j].in_page(p)) by {
            let x = (pages[i].region as int, p);
            assert(regions::block(pages[i]).disjoint(regions::block(pages[j])));
            assert(regions::block(pages[i]).contains(x) == pages[i].in_page(p));
            assert(regions::block(pages[j]).contains(x) == pages[j].in_page(p));
        }
    }
    if forall|i: int, j: int, p: int|
        #![trigger pages[i].in_page(p), pages[j].in_page(p)]
        0 <= i < j < pages.len() && pages[i].region == pages[j].region ==> !(pages[i].in_page(p)
            && pages[j].in_page(p)) {
        assert forall|i: int, j: int| 0 <= i < j < pages.len() implies regions::block(
            #[trigger] pages[i],
        ).disjoint(regions::block(#[trigger] pages[j])) by {
            assert forall|x: (int, int)| regions::block(pages[i]).contains(x) implies !(
            #[trigger] regions::block(pages[j]).contains(x)) by {
                if regions::block(pages[j]).contains(x) {
                    assert(pages[i].in_page(x.1) && pages[j].in_page(x.1));
                }
            }
        }
    }
}

impl TransactionalMemory {
    /// An attempt to allocate is one of a memory whose allocator state is trimmed, with the same
    /// pages free and the same regions marked as full.
    proof fn lemma_attempted(self, order: int, action: Action<PageNumber>, after: Self) -> (base:
        Self)
        requires
            self.wf(),
            self.has_allocators(),
            self.attempted(order, action, after),
        ensures
            base.wf(),
            base.has_allocators(),
            base.trimmed,
            base.first_attempt(order, action, after),
            base.free_set() == self.free_set(),
            base.layout == self.layout,
            base.header() == self.header(),
            base.page_size == self.page_size,
            base.allocators() == self.allocators(),
            base.read_from_secondary == self.read_from_secondary,
            base.allocated_since_commit@ == self.allocated_since_commit@,
            base.log_since_commit@ == self.log_since_commit@,
            forall|r: int|
                0 <= r < self.layout.spec_num_regions() ==> #[trigger] regions::marked(
                    base.image(),
                    self.layout,
                    r,
                ) == regions::marked(self.image(), self.layout, r),
            self.marks_sound() ==> base.marks_sound(),
    {
        if self.trimmed {
            self
        } else {
            let ready = choose|ready: TransactionalMemory|
                {
                    &&& ready.readied(self)
                    &&& ready.wf()
                    &&& #[trigger] ready.first_attempt(order, action, after)
                };
            ready.lemma_allocators();
            ready
        }
    }

    /// An allocation takes a block that has room for the request, where none of half its size has.
    /// All of its pages were free, and it is they that are no longer free; the page is then one
    /// that is not committed, and no other comes to be; the commit that reads are served from, and
    /// the layout, are the same. The block is in the first region, of those not marked as full,
    /// that has one of that size; where it is a single page, the regions before it come to be
    /// marked, and no others.
    #[verifier::rlimit(30)]
    pub proof fn lemma_allocated(
        self,
        size: int,
        event: AllocateEvent,
        after: Self,
        page: PageNumber,
        other: PageNumber,
        region: int,
        index: int,
    )
        requires
            self.wf(),
            self.has_allocators(),
            0 <= size,
            event !is Resized,
            self.allocate_stepped(size, event, after, Action::Done(Ok(page))),
        ensures
            ({
                let order = page.page_order as int;
                &&& order <= 20
                &&& size <= self.page_size * math::pow2(order)
                &&& order > 0 ==> self.page_size * math::pow2(order - 1) < size
                &&& self.free_block(page.region as int, page.page_index as int, order)
                &&& forall|r: int, p: int| #[trigger]
                    after.free_set().contains((r, p)) == (self.free_set().contains((r, p)) && !(r
                        == page.region && page.page_index * math::pow2(order) <= p < (
                    page.page_index + 1) * math::pow2(order)))
                &&& after.is_uncommitted(other) == (self.is_uncommitted(other) || other == page)
                &&& after.data_root() == self.data_root()
                &&& after.freed_root() == self.freed_root()
                &&& after.last_transaction_id() == self.last_transaction_id()
                &&& after.layout == self.layout
                &&& forall|r: int|
                    0 <= r < self.layout.spec_num_regions() ==> #[trigger] regions::marked(
                        after.image(),
                        self.layout,
                        r,
                    ) == (regions::marked(self.image(), self.layout, r) || (order == 0 && r
                        < page.region))
                &&& region < page.region && !regions::marked(
                    self.image(),
                    self.layout,
                    region,
                ) ==> !self.free_block(region, index, order)
            }),
    {
        let order = page.page_order as int;
        let least = allocation::order_for(size, self.page_size as int);
        let base = self.lemma_attempted(least, Action::Done(Ok(page)), after);
        assert(base.serves(least, page, after));
        Self::lemma_order(size, self.page_size as int);
        self.lemma_every_block(page.region as int, page.page_index as int, order);
        base.lemma_uncommitted(after, page, other);
        assert forall|p: int|
            page.page_index * math::pow2(order) <= p < (page.page_index + 1) * math::pow2(
                order,
            ) implies #[trigger] self.free_set().contains((page.region as int, p)) by {
            assert(regions::block(page).contains((page.region as int, p)));
        }
        if 0 <= region < page.region {
            base.lemma_candidate(region, order);
            assert(!base.candidate(region, order));
            if self.free_block(region, index, order) {
                assert(base.free_block(region, index, order));
            }
        }
    }

    /// An allocation after the file has been made longer takes a block that has room for the
    /// request, where none of half its size has. The file has more pages, as many as it then can
    /// have; those that came in are free, but for the pages of the block; the page is one that is
    /// not committed, and no other comes to be; the commit that reads are served from is the same.
    pub proof fn lemma_allocated_after_growth(
        self,
        size: int,
        after: Self,
        page: PageNumber,
        other: PageNumber,
    )
        requires
            self.wf(),
            self.has_allocators(),
            0 <= size,
            self.allocate_stepped(
                size,
                AllocateEvent::Resized(Ok(())),
                after,
                Action::Done(Ok(page)),
            ),
        ensures
            ({
                let order = page.page_order as int;
                &&& size <= self.page_size * math::pow2(order)
                &&& order > 0 ==> self.page_size * math::pow2(order - 1) < size
                &&& self.could_have(after.layout)
                &&& self.layout.grows_to(after.layout)
                &&& self.layout.page_count() < after.layout.page_count()
                &&& after.layout.holds_block(page.region as int, page.page_index as int, order)
                &&& forall|r: int, p: int| #[trigger]
                    after.free_set().contains((r, p)) == ((self.free_set().contains((r, p)) || {
                        &&& 0 <= r < after.layout.spec_num_regions()
                        &&& 0 <= p < after.layout.pages_of(r)
                        &&& !(r < self.layout.spec_num_regions() && p < self.layout.pages_of(r))
                    }) && !(r == page.region && page.page_index * math::pow2(order) <= p < (
                    page.page_index + 1) * math::pow2(order)))
                &&& after.is_uncommitted(other) == (self.is_uncommitted(other) || other == page)
                &&& after.data_root() == self.data_root()
                &&& after.freed_root() == self.freed_root()
                &&& after.last_transaction_id() == self.last_transaction_id()
                &&& regions::data_kept(self.image(), after.image(), self.layout)
            }),
    {
        let h = self.header();
        let l = self.layout;
        let order = allocation::order_for(size, self.page_size as int);
        let grown = choose|grown: TransactionalMemory|
            {
                &&& self.grown_to(self.grown(order), grown)
                &&& self.wf() ==> grown.wf()
                &&& #[trigger] grown.last_attempt(order, Action::Done(Ok(page)), after)
            };
        Self::lemma_order(size, self.page_size as int);
        assert(grown.serves(order, page, after));
        l.lemma_is_for(
            h.max_capacity as int,
            l.spec_usable_bytes(),
            h.region_max_usable_bytes as int,
            self.page_size as int,
        );
        layout::lemma_mul_le(
            l.usable_pages(),
            l.page_size as int,
            l.usable_pages(),
            l.page_size as int,
        );
        l.lemma_best(
            l,
            h.max_capacity as int,
            l.spec_usable_bytes(),
            h.region_max_usable_bytes as int,
            self.page_size as int,
        );
        self.lemma_growth(order, l);
        l.lemma_could_be(
            grown.layout,
            h.max_capacity as int,
            l.spec_usable_bytes(),
            h.region_max_usable_bytes as int,
            self.page_size as int,
        );
        grown.lemma_uncommitted(after, page, other);
        grown.layout.lemma_region(page.region as int);
        assert forall|r: int, p: int| #[trigger]
            after.free_set().contains((r, p)) == ((self.free_set().contains((r, p)) || {
                &&& 0 <= r < after.layout.spec_num_regions()
                &&& 0 <= p < after.layout.pages_of(r)
                &&& !(r < self.layout.spec_num_regions() && p < self.layout.pages_of(r))
            }) && !(r == page.region && page.in_page(p))) by {
            assert(self.gained(grown.layout).contains((r, p)) == {
                &&& 0 <= r < after.layout.spec_num_regions()
                &&& 0 <= p < after.layout.pages_of(r)
                &&& !(r < self.layout.spec_num_regions() && p < self.layout.pages_of(r))
            });
            assert(regions::block(page).contains((r, p)) == (r == page.region && page.page_index
                * math::pow2(page.page_order as int) <= p < (page.page_index + 1) * math::pow2(
                page.page_order as int,
            )));
        }
        regions::lemma_data_kept_grown(
            self.image(),
            grown.image(),
            after.image(),
            self.layout,
            grown.layout,
        );
    }

    /// An allocation first has the mark of out-of-date allocators brought to the file, and changes
    /// nothing else until then. What fails outside is reported as it is, and changes nothing.
    pub proof fn lemma_allocation_reports(
        self,
        size: int,
        event: AllocateEvent,
        after: Self,
        action: Action<PageNumber>,
        e: Error,
    )
        requires
            self.allocate_stepped(size, event, after, action),
        ensures
            event is Start && !self.repair_needed() ==> {
                &&& action is Flush
                &&& after.repair_needed()
                &&& after.log_since_commit@ == self.log_since_commit@
                &&& after.allocated_since_commit@ == self.allocated_since_commit@
                &&& after.layout == self.layout
                &&& after.readable() == self.readable()
            },
            action is Flush ==> event is Start && !self.repair_needed(),
            event == AllocateEvent::Flushed(Err(e)) || event == AllocateEvent::Resized(Err(e)) ==> {
                &&& action == Action::<PageNumber>::Done(Err(e))
                &&& after.image() == self.image()
                &&& after.log_since_commit@ == self.log_since_commit@
                &&& after.allocated_since_commit@ == self.allocated_since_commit@
                &&& after.layout == self.layout
            },
            (event matches AllocateEvent::Resized(Ok(_))) ==> action is Done && (
            action matches Action::Done(Err(reported)) ==> reported == Error::OutOfSpace),
    {
    }

    /// An allocation of a size that a block of order `order` is the smallest for gets a block
    /// wherever there is one with free pages only. Where there is none, it asks for a longer file,
    /// as long as the file could have more pages, and it fails for want of room just where it could
    /// not: then the file is at its largest.
    pub proof fn lemma_allocation_owed(
        self,
        size: int,
        order: int,
        event: AllocateEvent,
        after: Self,
        action: Action<PageNumber>,
        region: int,
        index: int,
        other: DatabaseLayout,
    )
        requires
            self.wf(),
            self.has_allocators(),
            self.marks_sound(),
            0 <= size <= self.page_size * math::pow2(order),
            0 <= order <= 20,
            order == 0 || self.page_size * math::pow2(order - 1) < size,
            event is Start && self.header().dirty || (event matches AllocateEvent::Flushed(Ok(_))),
            self.allocate_stepped(size, event, after, action),
            self.could_have(other),
        ensures
            self.free_block(region, index, order) ==> (action matches Action::Done(Ok(_))),
            action is Done || action is Resize,
            action matches Action::Done(Err(e)) ==> e == Error::OutOfSpace,
            action matches Action::Done(Err(_)) ==> other.page_count() <= self.layout.page_count(),
            action matches Action::Resize(len) ==> {
                let longer = self.grown(order);
                &&& self.could_have(longer)
                &&& self.layout.page_count() < longer.page_count()
                &&& self.layout.spec_len() < len == longer.spec_len()
            },
            !(action matches Action::Done(Ok(_))) ==> {
                &&& after.free_set() == self.free_set()
                &&& after.layout == self.layout
                &&& after.readable() == self.readable()
                &&& after.allocated_since_commit@ == self.allocated_since_commit@
                &&& forall|r: int|
                    0 <= r < self.layout.spec_num_regions() ==> #[trigger] regions::marked(
                        after.image(),
                        self.layout,
                        r,
                    ) == (order == 0 || regions::marked(self.image(), self.layout, r))
            },
    {
        let h = self.header();
        let l = self.layout;
        let usable = l.spec_usable_bytes();
        lemma_least_order(size, self.page_size as int, order);
        let base = self.lemma_attempted(order, action, after);
        if self.free_block(region, index, order) {
            let first = (region, index * math::pow2(order));
            math::lemma_pow2_positive(order);
            assert((index + 1) * math::pow2(order) == index * math::pow2(order) + math::pow2(order))
                by (nonlinear_arith);
            assert(base.free_set().contains(first));
            assert(base.free_block(region, index, order));
            base.lemma_candidate(region, order);
            base.lemma_every_block(region, index, order);
            assert(base.candidate(region, order));
        }
        l.lemma_is_for(
            h.max_capacity as int,
            usable,
            h.region_max_usable_bytes as int,
            self.page_size as int,
        );
        layout::lemma_mul_le(
            l.usable_pages(),
            l.page_size as int,
            l.usable_pages(),
            l.page_size as int,
        );
        self.lemma_growth(order, other);
        let longer = self.grown(order);
        l.lemma_could_be(
            longer,
            h.max_capacity as int,
            usable,
            h.region_max_usable_bytes as int,
            self.page_size as int,
        );
        l.lemma_could_be(
            other,
            h.max_capacity as int,
            usable,
            h.region_max_usable_bytes as int,
            self.page_size as int,
        );
        l.lemma_grows(longer);
    }

    /// An allocation gets a block once the file is longer, wherever there then is one with free
    /// pages only: pages that were free, and ones that came in.
    pub proof fn lemma_allocation_owed_after_growth(
        self,
        size: int,
        order: int,
        after: Self,
        action: Action<PageNumber>,
        region: int,
        index: int,
        other: DatabaseLayout,
    )
        requires
            self.wf(),
            self.has_allocators(),
            self.trimmed,
            self.marks_sound(),
            0 <= size <= self.page_size * math::pow2(order),
            0 <= order <= 20,
            order == 0 || self.page_size * math::pow2(order - 1) < size,
            self.allocate_stepped(size, AllocateEvent::Resized(Ok(())), after, action),
            self.could_have(other),
            self.layout.page_count() < other.page_count(),
            self.grown(order).holds_block(region, index, order),
            forall|p: int|
                index * math::pow2(order) <= p < (index + 1) * math::pow2(order)
                    ==> #[trigger] self.free_set().contains((region, p)) || region
                    >= self.layout.spec_num_regions() || p >= self.layout.pages_of(region),
        ensures
            action matches Action::Done(Ok(_)),
    {
        let h = self.header();
        let c = h.max_capacity as int;
        let m = h.region_max_usable_bytes as int;
        let l = self.layout;
        let new = self.grown(order);
        let first = index * math::pow2(order);
        lemma_least_order(size, self.page_size as int, order);
        l.lemma_is_for(c, l.spec_usable_bytes(), m, self.page_size as int);
        layout::lemma_mul_le(
            l.usable_pages(),
            l.page_size as int,
            l.usable_pages(),
            l.page_size as int,
        );
        self.lemma_growth(order, other);
        l.lemma_could_be(new, c, l.spec_usable_bytes(), m, self.page_size as int);
        assert(self.can_grow(order));
        let grown = choose|grown: TransactionalMemory|
            {
                &&& self.grown_to(self.grown(order), grown)
                &&& self.wf() ==> grown.wf()
                &&& #[trigger] grown.last_attempt(order, action, after)
            };
        math::lemma_pow2_positive(order);
        assert((index + 1) * math::pow2(order) == first + math::pow2(order)) by (nonlinear_arith)
            requires
                first == index * math::pow2(order),
        ;
        layout::lemma_mul_le(index, math::pow2(order), index, math::pow2(order));
        new.lemma_region(region);
        assert forall|p: int|
            first <= p < (index + 1) * math::pow2(
                order,
            ) implies #[trigger] grown.free_set().contains((region, p)) by {
            assert(regions::all_pages(new).contains((region, p)));
            if !self.free_set().contains((region, p)) {
                assert(self.gained(new).contains((region, p)));
            }
        }
        assert(self.free_set().contains((region, first)) || region >= l.spec_num_regions() || first
            >= l.pages_of(region));
        assert(!regions::marked(grown.image(), new, region)) by {
            if !self.region_grows(new, region) {
                assert(self.free_set().contains((region, first)));
            }
        }
        assert(grown.free_block(region, index, order));
        grown.lemma_candidate(region, order);
        grown.lemma_every_block(region, index, order);
        assert(grown.candidate(region, order));
    }

    /// A request that is not out of all proportion to the numbers that there are can be made.
    pub proof fn lemma_request(self, size: int)
        requires
            self.geometry(),
            0 <= size <= usize::MAX / 16,
        ensures
            self.request_fits(size),
    {
        let h = self.header();
        let l = self.layout;
        let p = self.page_size as int;
        let order = allocation::order_for(size, p);
        let power = math::pow2(order);
        let pages = layout::pages_for(size, p);
        l.lemma_is_for(
            h.max_capacity as int,
            l.spec_usable_bytes(),
            h.region_max_usable_bytes as int,
            p,
        );
        layout::lemma_geometry(h.max_capacity as int, h.region_max_usable_bytes as int, p);
        layout::lemma_mul_le(l.usable_pages(), p, l.usable_pages(), p);
        l.lemma_best(
            l,
            h.max_capacity as int,
            l.spec_usable_bytes(),
            h.region_max_usable_bytes as int,
            p,
        );
        l.lemma_length();
        layout::lemma_mul_le(
            0,
            l.region_header_bytes as int,
            l.spec_num_regions(),
            l.region_header_bytes as int,
        );
        Self::lemma_order(size, p);
        layout::lemma_div(size + p - 1, p);
        if order > 0 {
            math::lemma_pow2_step(order);
            let half = math::pow2(order - 1);
            assert(p * power == 2 * (p * half)) by (nonlinear_arith)
                requires
                    power == 2 * half,
            ;
        } else {
            math::lemma_pow2_zero();
        }
        assert(p * power == power * p) by (nonlinear_arith);
    }

    /// Pages that a file gains can be had: where they make up a block, an allocation of its size
    /// gets one.
    pub proof fn lemma_gained_block(
        self,
        new: DatabaseLayout,
        after: Self,
        region: int,
        index: int,
        order: int,
    )
        requires
            self.wf(),
            self.has_allocators(),
            self.trimmed,
            self.layout.grows_to(new),
            self.grown_to(new, after),
            after.wf(),
            0 <= order <= 20,
            new.holds_block(region, index, order),
            region >= self.layout.spec_num_regions() || index * math::pow2(order)
                >= self.layout.pages_of(region),
        ensures
            after.free_block(region, index, order),
            !after.refused(order),
    {
        let size = math::pow2(order);
        math::lemma_pow2_positive(order);
        assert((index + 1) * size == index * size + size) by (nonlinear_arith);
        layout::lemma_mul_le(index, size, index, size);
        new.lemma_region(region);
        assert forall|p: int|
            index * size <= p < (index + 1) * size implies #[trigger] after.free_set().contains(
            (region, p),
        ) by {
            assert(regions::all_pages(new).contains((region, p)));
            assert(self.gained(new).contains((region, p)));
        }
        after.lemma_every_block(region, index, order);
        after.lemma_candidate(region, order);
        assert(self.region_grows(new, region));
        assert(!regions::marked(after.image(), new, region));
        assert(after.free_block(region, index, order));
        assert(after.candidate(region, order));
    }

    /// Growth by twice the request is enough for the request: where a file that has no full region
    /// gets so many pages in its one region, the allocation is then served.
    pub proof fn lemma_growth_serves(self, new: DatabaseLayout, after: Self, order: int)
        requires
            self.wf(),
            self.has_allocators(),
            self.trimmed,
            self.layout.grows_to(new),
            self.grown_to(new, after),
            after.wf(),
            0 <= order <= 20,
            new.num_full_regions == 0,
            self.layout.page_count() + 2 * math::pow2(order) <= new.page_count(),
        ensures
            !after.refused(order),
    {
        let size = math::pow2(order);
        let now = self.layout.trailing_pages as int;
        let x = now + size - 1;
        let index = x / size;
        math::lemma_pow2_positive(order);
        layout::lemma_div(x, size);
        assert((index + 1) * size == index * size + size) by (nonlinear_arith);
        assert(self.layout.num_full_regions == 0);
        assert(0 * self.layout.region_pages == 0 && 0 * new.region_pages == 0) by (nonlinear_arith);
        self.lemma_gained_block(new, after, 0, index, order);
    }

    /// A page that was freed can be had again: its pages are free, no other page comes to be, and
    /// an allocation of its size gets a block.
    pub proof fn lemma_freed_block(self, after: Self, page: PageNumber, op: AllocationOp)
        requires
            self.wf(),
            self.has_allocators(),
            self.in_use(page),
            after.released(self, page, op),
            after.wf(),
        ensures
            after.free_block(
                page.region as int,
                page.page_index as int,
                page.page_order as int,
            ),
            !after.refused(page.page_order as int),
            after.free_set() == self.free_set().union(regions::block(page)),
    {
        let region = page.region as int;
        let index = page.page_index as int;
        let order = page.page_order as int;
        self.lemma_every_block(region, index, order);
        after.lemma_every_block(region, index, order);
        assert forall|p: int|
            index * math::pow2(order) <= p < (index + 1) * math::pow2(
                order,
            ) implies #[trigger] after.free_set().contains((region, p)) by {
            assert(regions::block(page).contains((region, p)));
        }
        self.layout.lemma_region(region);
        after.lemma_candidate(region, order);
        assert(!regions::marked(after.image(), after.layout, region));
        assert(after.free_block(region, index, order));
        assert(after.candidate(region, order));
    }
}

} // verus!
