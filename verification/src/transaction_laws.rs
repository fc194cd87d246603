//! What is promised of a transaction, from its first change to its end.

use crate::action::{
    Action, AllocateEvent, AllocatorEvent, CloseAction, CloseEvent, CommitAction, CommitEvent,
    RepairAction, RepairEvent,
};
use crate::allocation;
use crate::error::Error;
use crate::header;
use crate::laws;
use crate::layout;
use crate::math;
use crate::page_manager::TransactionalMemory;
use crate::page_number::PageNumber;
use crate::regions;
use crate::repair;
use vstd::prelude::*;

verus! {

impl TransactionalMemory {
    /// After a commit whose flushes succeeded, reads are served from it and it is the primary one:
    /// its roots and its transaction id are those that were given. No page is uncommitted, the same
    /// pages are free, and the layout is the same. Until the first flush is done, the primary slot
    /// is what it was.
    pub proof fn lemma_commit_steps(
        self,
        written: Self,
        swapped: Self,
        done: Self,
        data_root: Option<PageNumber>,
        freed_root: Option<PageNumber>,
        transaction_id: u64,
        eventual: bool,
        first: CommitAction,
        second: CommitAction,
        last: CommitAction,
        page: PageNumber,
    )
        requires
            self.wf(),
            self.has_allocators(),
            header::storable_root(data_root),
            header::storable_root(freed_root),
            self.commit_stepped(
                data_root,
                freed_root,
                transaction_id,
                eventual,
                CommitEvent::Start,
                written,
                first,
            ),
            written.commit_stepped(
                data_root,
                freed_root,
                transaction_id,
                eventual,
                CommitEvent::SlotFlushed(Ok(())),
                swapped,
                second,
            ),
            swapped.commit_stepped(
                data_root,
                freed_root,
                transaction_id,
                eventual,
                CommitEvent::PrimaryFlushed(Ok(())),
                done,
                last,
            ),
        ensures
            first == (CommitAction::FlushSlot { eventual }),
            second == (CommitAction::FlushPrimary { eventual }),
            last == CommitAction::Done(Ok(())),
            written.header().primary() == self.header().primary(),
            done.data_root() == data_root,
            done.freed_root() == freed_root,
            done.last_transaction_id() == transaction_id,
            done.header().primary().root == data_root,
            done.header().primary().freed_root == freed_root,
            done.header().primary().transaction_id == transaction_id,
            done.header().primary().layout == self.layout,
            done.layout == self.layout,
            !done.is_uncommitted(page),
            done.free_set() == self.free_set(),
            done.repair_needed() == self.repair_needed(),
            done.wf(),
    {
        self.lemma_commit(
            written,
            swapped,
            done,
            data_root,
            freed_root,
            transaction_id,
        );
    }

    /// Wherever the first flush of a commit is cut short, the file holds the commit before as the
    /// primary one; wherever the second is, that or this one, whole.
    pub proof fn lemma_commit_cut_short(
        self,
        written: Self,
        swapped: Self,
        torn: Seq<u8>,
        data_root: Option<PageNumber>,
        freed_root: Option<PageNumber>,
        transaction_id: u64,
        eventual: bool,
        first: CommitAction,
        second: CommitAction,
    )
        requires
            self.metadata.wf(),
            header::storable_root(data_root),
            header::storable_root(freed_root),
            self.commit_stepped(
                data_root,
                freed_root,
                transaction_id,
                eventual,
                CommitEvent::Start,
                written,
                first,
            ),
            written.commit_stepped(
                data_root,
                freed_root,
                transaction_id,
                eventual,
                CommitEvent::SlotFlushed(Ok(())),
                swapped,
                second,
            ),
        ensures
            laws::is_torn(self.image(), written.image(), torn) ==> header::header(torn).primary()
                == self.header().primary(),
            laws::is_torn(written.image(), swapped.image(), torn) ==> {
                let found = header::header(torn).primary();
                found == self.header().primary() || {
                    &&& found.root == data_root
                    &&& found.freed_root == freed_root
                    &&& found.transaction_id == transaction_id
                    &&& found.layout == self.layout
                }
            },
    {
        header::lemma_stored_root(data_root);
        header::lemma_stored_root(freed_root);
        self.lemma_commit_atomic(
            written,
            swapped,
            torn,
            self,
            data_root,
            freed_root,
            transaction_id,
        );
    }

    /// A commit reports success only when both of its flushes have succeeded. A flush that fails is
    /// reported as it is, and changes nothing.
    pub proof fn lemma_commit_reports(
        self,
        data_root: Option<PageNumber>,
        freed_root: Option<PageNumber>,
        transaction_id: u64,
        eventual: bool,
        event: CommitEvent,
        after: Self,
        action: CommitAction,
        e: Error,
    )
        requires
            self.commit_stepped(
                data_root,
                freed_root,
                transaction_id,
                eventual,
                event,
                after,
                action,
            ),
        ensures
            (action matches CommitAction::Done(Ok(_))) <==> (event matches CommitEvent::PrimaryFlushed(
                Ok(_),
            )),
            event == CommitEvent::SlotFlushed(Err(e)) || event == CommitEvent::PrimaryFlushed(Err(e))
                ==> {
                &&& action == CommitAction::Done(Err(e))
                &&& after.image() == self.image()
                &&& after.log_since_commit@ == self.log_since_commit@
                &&& after.allocated_since_commit@ == self.allocated_since_commit@
                &&& after.readable() == self.readable()
                &&& after.layout == self.layout
            },
    {
    }

    /// After a non-durable commit, reads are served from it, while the primary slot is what it was.
    /// No page is uncommitted, and the same pages are free.
    pub proof fn lemma_non_durable_commit_made(
        self,
        done: Self,
        data_root: Option<PageNumber>,
        freed_root: Option<PageNumber>,
        transaction_id: u64,
        page: PageNumber,
    )
        requires
            self.wf(),
            self.has_allocators(),
            header::storable_root(data_root),
            header::storable_root(freed_root),
            done.non_durably_committed(self, data_root, freed_root, transaction_id),
        ensures
            done.data_root() == data_root,
            done.freed_root() == freed_root,
            done.last_transaction_id() == transaction_id,
            done.header().primary() == self.header().primary(),
            done.readable().layout == self.layout,
            done.layout == self.layout,
            !done.is_uncommitted(page),
            done.repair_needed() == self.repair_needed(),
    {
        self.lemma_non_durable_commit(done, data_root, freed_root, transaction_id);
    }

    /// A rollback that is done has undone the transaction, whatever it did: the layout, the free
    /// pages and the commit are those from before it, and no page is uncommitted.
    pub proof fn lemma_rollback_done(
        history: Seq<Self>,
        event: AllocatorEvent,
        rolled_back: Self,
        action: Action<()>,
        page: PageNumber,
    )
        requires
            history.len() > 0,
            forall|i: int|
                0 <= i < history.len() ==> (#[trigger] history[i]).wf()
                    && history[i].has_allocators(),
            history[0].log_since_commit@.len() == 0,
            history[0].layout == history[0].readable().layout,
            forall|i: int, j: int|
                0 <= i && j == i + 1 && j < history.len() ==> #[trigger] history[i].works(
                    #[trigger] history[j],
                ),
            history.last().rollback_stepped(event, rolled_back, action),
            action matches Action::Done(Ok(_)),
        ensures
            rolled_back.layout == history[0].layout,
            rolled_back.free_set() == history[0].free_set(),
            rolled_back.data_root() == history[0].data_root(),
            rolled_back.freed_root() == history[0].freed_root(),
            rolled_back.last_transaction_id() == history[0].last_transaction_id(),
            !rolled_back.is_uncommitted(page),
    {
        Self::lemma_rollback(history, rolled_back);
    }

    /// What a step of an allocation does is work of a transaction, which a rollback undoes: the
    /// allocator state is trimmed or the file grows, where that is to be done first, and then the
    /// block is taken or not.
    pub proof fn lemma_allocation_is_work(
        self,
        size: int,
        event: AllocateEvent,
        after: Self,
        action: Action<PageNumber>,
    ) -> (between: Self)
        requires
            self.wf(),
            self.has_allocators(),
            0 <= size,
            event is Resized ==> self.trimmed,
            self.allocate_stepped(size, event, after, action),
        ensures
            between.wf(),
            between.has_allocators(),
            self.works(between),
            between.works(after),
    {
        let order = allocation::order_for(size, self.page_size as int);
        if event is Start && !self.header().dirty || (event matches AllocateEvent::Flushed(Err(_)))
            || (event matches AllocateEvent::Resized(Err(_))) {
            assert(self.works(self));
            self
        } else if event matches AllocateEvent::Resized(Ok(_)) {
            if self.can_grow(order) {
                let grown = choose|grown: TransactionalMemory|
                    {
                        &&& self.grown_to(self.grown(order), grown)
                        &&& self.wf() ==> grown.wf()
                        &&& #[trigger] grown.last_attempt(order, action, after)
                    };
                let h = self.header();
                let l = self.layout;
                layout::lemma_mul_le(
                    l.usable_pages(),
                    l.page_size as int,
                    l.usable_pages(),
                    l.page_size as int,
                );
                l.lemma_best(
                    l,
                    h.max_capacity as int,
                    l.spec_usable_bytes(),
                    h.region_max_usable_bytes as int,
                    self.page_size as int,
                );
                Self::lemma_order(size, self.page_size as int);
                self.lemma_growth(order, l);
                assert(self.works(grown));
                assert(grown.works(after));
                grown
            } else {
                assert(self.works(self));
                self
            }
        } else if self.trimmed {
            assert(self.works(self));
            assert(self.works(after));
            self
        } else {
            let ready = choose|ready: TransactionalMemory|
                {
                    &&& ready.readied(self)
                    &&& ready.wf()
                    &&& #[trigger] ready.first_attempt(order, action, after)
                };
            assert(ready.works(after));
            ready
        }
    }

    /// What a step of freeing a page does is work of a transaction, which a rollback undoes.
    pub proof fn lemma_freeing_is_work(
        self,
        page: PageNumber,
        event: AllocatorEvent,
        after: Self,
        action: Action<()>,
        uncommitted_action: Action<bool>,
    )
        requires
            self.free_stepped(page, event, after, action) || self.free_uncommitted_stepped(
                page,
                event,
                after,
                uncommitted_action,
            ),
        ensures
            self.works(after),
    {
    }

    /// A rollback either is done, or waits for the mark of out-of-date allocators to be in the file,
    /// or could not bring it there; unless it is done, nothing but the mark changes. When it is, no
    /// page is uncommitted, and the layout is that of the commit, which is the same, as are the bytes
    /// of the pages.
    pub proof fn lemma_rollback_reports(
        self,
        event: AllocatorEvent,
        after: Self,
        action: Action<()>,
        e: Error,
    )
        requires
            self.rollback_stepped(event, after, action),
        ensures
            (action matches Action::Done(Ok(_))) <==> (event is Start && self.header().dirty) || (
            event matches AllocatorEvent::Flushed(Ok(_))),
            event == AllocatorEvent::Flushed(Err(e)) ==> action == Action::<()>::Done(Err(e))
                && after.image() == self.image(),
            !(action matches Action::Done(Ok(_))) ==> {
                &&& after.log_since_commit@ == self.log_since_commit@
                &&& after.allocated_since_commit@ == self.allocated_since_commit@
                &&& after.layout == self.layout
                &&& after.readable() == self.readable()
            },
            action is Flush ==> after.header().dirty,
            (action matches Action::Done(Ok(_))) ==> {
                &&& after.layout == self.readable().layout
                &&& after.readable() == self.readable()
                &&& after.has_allocators() == self.has_allocators()
                &&& forall|page: PageNumber| !#[trigger] after.is_uncommitted(page)
                &&& regions::data_kept(self.image(), after.image(), self.layout)
            },
    {
    }

    /// A repair whose flushes succeed leaves just the given pages in use, no region marked as full,
    /// and a file that needs none; the commit and the bytes of the pages are the same.
    pub proof fn lemma_repair_steps(
        self,
        rebuilt: Self,
        clean: Self,
        repaired: Self,
        pages: Seq<PageNumber>,
        event: RepairEvent,
        first: RepairAction,
        second: RepairAction,
        last: RepairAction,
        region: int,
        index: int,
    )
        requires
            self.wf(),
            self.log_since_commit@.len() == 0,
            repair::disjoint_blocks(self.layout, pages),
            event is Start && self.header().dirty || (event matches RepairEvent::Flushed(Ok(_))),
            self.repair_stepped(pages, event, rebuilt, first),
            rebuilt.repair_stepped(pages, RepairEvent::StateFlushed(Ok(())), clean, second),
            clean.repair_stepped(pages, RepairEvent::CleanFlushed(Ok(())), repaired, last),
        ensures
            last == RepairAction::Done(Ok(())),
            first is FlushState,
            second is FlushClean,
            rebuilt.repair_needed() == self.repair_needed(),
            !repaired.repair_needed(),
            repaired.wf(),
            repaired.has_allocators(),
            repaired.marks_sound(),
            repaired.free_set().contains((region, index)) == (0 <= region
                < self.layout.spec_num_regions() && 0 <= index < self.layout.pages_of(region)
                && forall|i: int|
                0 <= i < pages.len() ==> !((#[trigger] pages[i]).region == region
                    && pages[i].page_index * math::pow2(pages[i].page_order as int) <= index < (
                pages[i].page_index + 1) * math::pow2(pages[i].page_order as int))),
            repaired.data_root() == self.data_root(),
            repaired.freed_root() == self.freed_root(),
            repaired.last_transaction_id() == self.last_transaction_id(),
            repaired.layout == self.layout,
            regions::data_kept(self.image(), repaired.image(), self.layout),
    {
        self.lemma_repair(rebuilt, clean, repaired, pages, self);
        let x = (region, index);
        let taken = repair::pages_of_blocks(pages);
        if taken.contains(x) {
            let i = choose|i: int|
                0 <= i < pages.len() && #[trigger] regions::block(pages[i]).contains(x);
            assert(pages[i].region == region);
        }
        assert forall|i: int|
            0 <= i < pages.len() && !taken.contains(x) implies !((#[trigger] pages[i]).region
            == region && pages[i].page_index * math::pow2(pages[i].page_order as int) <= index < (
        pages[i].page_index + 1) * math::pow2(pages[i].page_order as int)) by {
            assert(!regions::block(pages[i]).contains(x));
        }
    }

    /// A repair reports success only at its last step, and a flush that fails as it is; it then
    /// changes nothing.
    pub proof fn lemma_repair_reports(
        self,
        pages: Seq<PageNumber>,
        event: RepairEvent,
        after: Self,
        action: RepairAction,
        e: Error,
    )
        requires
            self.repair_stepped(pages, event, after, action),
        ensures
            (action matches RepairAction::Done(Ok(_))) <==> (event matches RepairEvent::CleanFlushed(
                Ok(_),
            )),
            event == RepairEvent::Flushed(Err(e)) || event == RepairEvent::StateFlushed(Err(e))
                || event == RepairEvent::CleanFlushed(Err(e)) ==> {
                &&& action == RepairAction::Done(Err(e))
                &&& after.image() == self.image()
                &&& after.has_allocators() == self.has_allocators()
            },
            event is Start && !self.header().dirty ==> {
                &&& action is FlushMark
                &&& after.repair_needed()
                &&& after.readable() == self.readable()
            },
    {
    }

    /// Closing a file without a non-durable commit leaves the commit as it is, and takes the mark of
    /// out-of-date allocators back once the memory is in the file; if it could not be brought there,
    /// the mark stays.
    pub proof fn lemma_close_durable(
        self,
        started: Self,
        after: Self,
        flushed: Result<(), Error>,
        first: CloseAction,
        second: CloseAction,
    )
        requires
            self.wf(),
            self.has_allocators(),
            !self.read_from_secondary,
            self.close_stepped(CloseEvent::Start, started, first),
            started.close_stepped(CloseEvent::Flushed(flushed), after, second),
        ensures
            first == (CloseAction::Flush { commit_failed: false }),
            flushed is Ok ==> second is FlushClean && !after.repair_needed(),
            flushed is Err ==> second is Done && after.image() == self.image(),
            after.header().primary() == self.header().primary(),
            after.readable() == self.readable(),
            after.free_set() == self.free_set(),
            after.layout == self.layout,
    {
        if flushed is Ok {
            after.lemma_marked_clean(started);
        }
    }

    /// A file that is closed while a non-durable commit could not be made durable says so, and keeps
    /// the commit that is the primary one.
    pub proof fn lemma_close_failed(self, event: CloseEvent, after: Self, action: CloseAction)
        requires
            self.close_stepped(event, after, action),
        ensures
            (event matches CloseEvent::SlotFlushed(Err(_))) || (
            event matches CloseEvent::PrimaryFlushed(Err(_))) ==> {
                &&& action == (CloseAction::Flush { commit_failed: true })
                &&& after.image() == self.image()
            },
            action == (CloseAction::Flush { commit_failed: true }) ==> (
            event matches CloseEvent::SlotFlushed(Err(_))) || (
            event matches CloseEvent::PrimaryFlushed(Err(_))),
            event is CleanFlushed ==> action is Done && after.image() == self.image(),
    {
    }
}

impl TransactionalMemory {
    /// A page that is freed holds nothing but zeros, and its pages are free, with no others; the
    /// bytes of a page that has none in common with it are what they were. That is so whether the
    /// mark of out-of-date allocators was in the file or had to be brought there first.
    pub proof fn lemma_freed(
        self,
        between: Self,
        after: Self,
        page: PageNumber,
        first: Action<()>,
        second: Action<()>,
        other: PageNumber,
    )
        requires
            self.wf(),
            self.has_allocators(),
            self.in_use(page),
            regions::has_page(self.allocators(), other),
            regions::block(page).disjoint(regions::block(other)),
            self.free_stepped(page, AllocatorEvent::Start, between, first),
            between.wf(),
            first is Flush ==> between.free_stepped(
                page,
                AllocatorEvent::Flushed(Ok(())),
                after,
                second,
            ),
            !(first is Flush) ==> after == between && second == first,
            after.wf(),
        ensures
            first is Flush <==> !self.repair_needed(),
            second == Action::Done(Ok(())),
            forall|i: int|
                0 <= i < self.page_size * math::pow2(page.page_order as int)
                    ==> #[trigger] after.page_bytes(page)[i] == 0,
            after.page_bytes(page).len() == self.page_size * math::pow2(page.page_order as int),
            after.page_bytes(other) == self.page_bytes(other),
            forall|r: int, p: int| #[trigger]
                after.free_set().contains((r, p)) == (self.free_set().contains((r, p)) || (r
                    == page.region && page.page_index * math::pow2(page.page_order as int) <= p < (
                page.page_index + 1) * math::pow2(page.page_order as int))),
            after.layout == self.layout,
            after.readable() == self.readable(),
    {
        self.lemma_allocators();
        self.lemma_page_inside(page);
        self.lemma_page_inside(other);
        between.lemma_other_page(self, page, other);
        if first is Flush {
            between.lemma_page_inside(page);
            between.lemma_page_inside(other);
            after.lemma_page_kept(between, page);
            after.lemma_page_kept(between, other);
        }
        assert forall|r: int, p: int| #[trigger]
            after.free_set().contains((r, p)) == (self.free_set().contains((r, p)) || (r
                == page.region && page.page_index * math::pow2(page.page_order as int) <= p < (
            page.page_index + 1) * math::pow2(page.page_order as int))) by {
            assert(regions::block(page).contains((r, p)) == (r == page.region && page.page_index
                * math::pow2(page.page_order as int) <= p < (page.page_index + 1) * math::pow2(
                page.page_order as int,
            )));
        }
    }

    /// A step of freeing that follows a failed flush reports it and changes nothing.
    pub proof fn lemma_free_reports(
        self,
        page: PageNumber,
        after: Self,
        action: Action<()>,
        e: Error,
    )
        requires
            self.free_stepped(page, AllocatorEvent::Flushed(Err(e)), after, action),
        ensures
            action == Action::<()>::Done(Err(e)),
            after.image() == self.image(),
            after.log_since_commit@ == self.log_since_commit@,
    {
    }

    /// Freeing a page if it is uncommitted leaves a page alone that is not, and says so. One that is
    /// uncommitted is no longer, and no other is; its pages are free, with no others, and hold
    /// nothing but zeros.
    pub proof fn lemma_freed_uncommitted(
        self,
        between: Self,
        after: Self,
        page: PageNumber,
        first: Action<bool>,
        second: Action<bool>,
        other: PageNumber,
    )
        requires
            self.wf(),
            self.is_uncommitted(page) ==> self.has_allocators() && self.in_use(page),
            self.free_uncommitted_stepped(page, AllocatorEvent::Start, between, first),
            between.wf(),
            first is Flush ==> between.free_uncommitted_stepped(
                page,
                AllocatorEvent::Flushed(Ok(())),
                after,
                second,
            ),
            !(first is Flush) ==> after == between && second == first,
            after.wf(),
        ensures
            second == Action::Done(Ok(self.is_uncommitted(page))),
            after.is_uncommitted(other) == (self.is_uncommitted(other) && other != page),
            !self.is_uncommitted(page) ==> after.unchanged(self),
            self.is_uncommitted(page) ==> {
                &&& forall|r: int, p: int| #[trigger]
                    after.free_set().contains((r, p)) == (self.free_set().contains((r, p)) || (r
                        == page.region && page.page_index * math::pow2(page.page_order as int) <= p
                        < (page.page_index + 1) * math::pow2(page.page_order as int)))
                &&& forall|i: int|
                    0 <= i < self.page_size * math::pow2(page.page_order as int)
                        ==> #[trigger] after.page_bytes(page)[i] == 0
                &&& after.layout == self.layout
                &&& after.readable() == self.readable()
            },
    {
        if other.spec_key() == page.spec_key() {
            other.lemma_key_injective(page);
        }
        if self.is_uncommitted(page) {
            self.lemma_allocators();
            self.lemma_page_inside(page);
            if first is Flush {
                between.lemma_page_inside(page);
                after.lemma_page_kept(between, page);
            }
            assert forall|r: int, p: int| #[trigger]
                after.free_set().contains((r, p)) == (self.free_set().contains((r, p)) || (r
                    == page.region && page.page_index * math::pow2(page.page_order as int) <= p < (
                page.page_index + 1) * math::pow2(page.page_order as int))) by {
                assert(regions::block(page).contains((r, p)) == (r == page.region
                    && page.page_index * math::pow2(page.page_order as int) <= p < (page.page_index
                    + 1) * math::pow2(page.page_order as int)));
            }
        }
    }
}

} // verus!
