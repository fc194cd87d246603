//! What the operations promise together.

use crate::action::{CloseAction, CloseEvent};
use crate::buddy_allocator::BuddyAllocator;
use crate::bytes;
use crate::header;
use crate::header::{DB_HEADER_SIZE, MAGICNUMBER};
use crate::journal::AllocationOp;
use crate::layout::DatabaseLayout;
use crate::opening;
use crate::opening::{OpenAction, OpenEvent, OpenStage, Opening};
use crate::page_manager::TransactionalMemory;
use crate::page_number::PageNumber;
use crate::regions;
use crate::repair;
use crate::sound_file;
use crate::statistics;
use vstd::prelude::*;

verus! {

/// Whether `torn` is what a flush that was cut short may leave of `before`, on the way to `after`.
pub open spec fn is_torn(before: Seq<u8>, after: Seq<u8>, torn: Seq<u8>) -> bool {
    &&& before.len() == after.len() == torn.len()
    &&& forall|i: int| #![trigger torn[i]]
        0 <= i < torn.len() ==> torn[i] == before[i] || torn[i] == after[i]
}

/// A flush that was cut short cannot lose the mark of out-of-date allocators: it is there if it was
/// there before and is there after.
pub proof fn lemma_torn_mark(before: Seq<u8>, after: Seq<u8>, torn: Seq<u8>)
    requires
        before.len() >= DB_HEADER_SIZE,
        is_torn(before, after, torn),
        header::header(before).dirty,
        header::header(after).dirty,
    ensures
        header::header(torn).dirty,
{
    let at = header::GOD_BYTE_OFFSET as int;
    assert(torn[at] == before[at] || torn[at] == after[at]);
}

/// A flush that was cut short leaves the mark of out-of-date allocators, or the allocators as they
/// were: it does so if the mark was there before and is there after, or if no byte of the allocators
/// is new.
pub proof fn lemma_torn_state(
    before: Seq<u8>,
    after: Seq<u8>,
    torn: Seq<u8>,
    layout: DatabaseLayout,
    allocators: Seq<BuddyAllocator>,
)
    requires
        layout.valid(),
        layout.spec_len() <= before.len(),
        allocators.len() <= layout.spec_num_regions(),
        is_torn(before, after, torn),
        header::header(before).dirty && header::header(after).dirty || regions::state_same(
            before,
            after,
            layout,
        ),
    ensures
        header::header(torn).dirty || {
            &&& regions::state_same(before, torn, layout)
            &&& regions::free_pages(torn, layout, allocators) == regions::free_pages(
                before,
                layout,
                allocators,
            )
            &&& regions::allocators_ok(before, layout, allocators) ==> regions::allocators_ok(
                torn,
                layout,
                allocators,
            )
        },
{
    layout.lemma_region(0);
    if header::header(before).dirty && header::header(after).dirty {
        lemma_torn_mark(before, after, torn);
    } else {
        let start = DB_HEADER_SIZE as int;
        let end = DB_HEADER_SIZE + layout.tracker_bytes;
        assert forall|i: int| start <= i < end implies torn[i] == before[i] by {
            assert(regions::tracker(before, layout)[i - start] == before[i]);
            assert(regions::tracker(after, layout)[i - start] == after[i]);
        }
        assert(regions::tracker(torn, layout) =~= regions::tracker(before, layout));
        assert forall|r: int|
            0 <= r && layout.base(r) + layout.region_header_bytes
                <= before.len() implies #[trigger] regions::region_bytes(torn, layout, r)
            == regions::region_bytes(before, layout, r) by {
            let base = layout.base(r);
            regions::lemma_regions_apart(layout, r, r + 1);
            assert(regions::region_bytes(after, layout, r) == regions::region_bytes(
                before,
                layout,
                r,
            ));
            assert forall|i: int| base <= i < base + layout.region_header_bytes implies torn[i]
                == before[i] by {
                assert(regions::region_bytes(before, layout, r)[i - base] == before[i]);
                assert(regions::region_bytes(after, layout, r)[i - base] == after[i]);
            }
            assert(regions::region_bytes(torn, layout, r) =~= regions::region_bytes(
                before,
                layout,
                r,
            ));
        }
        regions::lemma_state_same(before, torn, layout, allocators);
    }
}

impl TransactionalMemory {
    /// Whether a flush of this memory to a file that holds `stored` may be cut short: the mark is
    /// there before and after, or no byte of the allocators is new.
    pub open spec fn flushable(self, stored: Seq<u8>) -> bool {
        &&& stored.len() == self.image().len()
        &&& header::header(stored).dirty && self.header().dirty || regions::state_same(
            stored,
            self.image(),
            self.layout,
        )
    }

    /// The mark is in the file before anything else of the allocators: as long as the flushes that
    /// are asked for succeed, there is at no time a byte of the allocators in the memory that may
    /// not be brought to the file. A step that starts without the mark leaves the allocators alone,
    /// and a step that takes the mark back follows a flush of what it vouches for.
    pub proof fn lemma_mark_first(self, after: Self, stored: Seq<u8>)
        requires
            self.flushable(stored),
            self.header().dirty ==> header::header(stored).dirty,
            after.image().len() == stored.len(),
            after.layout == self.layout || (self.header().dirty && after.header().dirty),
            !self.header().dirty ==> regions::state_same(
                self.image(),
                after.image(),
                self.layout,
            ),
            self.header().dirty && !after.header().dirty ==> {
                &&& stored == self.image()
                &&& after.marked_clean(self)
                &&& self.geometry()
            },
        ensures
            after.flushable(stored),
    {
        if self.header().dirty {
            if !after.header().dirty {
                after.lemma_marked_clean(self);
            }
        } else {
            let layout = self.layout;
            assert forall|i: int|
                0 <= i && layout.base(i) + layout.region_header_bytes
                    <= stored.len() implies #[trigger] regions::region_bytes(
                after.image(),
                layout,
                i,
            ) == regions::region_bytes(stored, layout, i) by {
                assert(regions::region_bytes(self.image(), layout, i) == regions::region_bytes(
                    stored,
                    layout,
                    i,
                ));
            }
        }
    }

    /// A flush that may be cut short leaves a file that needs a repair, or one whose allocators are
    /// in order as they were.
    pub proof fn lemma_torn_flush(self, stored: Seq<u8>, torn: Seq<u8>)
        requires
            self.geometry(),
            self.flushable(stored),
            is_torn(stored, self.image(), torn),
        ensures
            header::header(torn).dirty || {
                let allocators = regions::layout_allocators(self.layout);
                &&& regions::free_pages(torn, self.layout, allocators) == regions::free_pages(
                    stored,
                    self.layout,
                    allocators,
                )
                &&& regions::allocators_ok(stored, self.layout, allocators)
                    ==> regions::allocators_ok(torn, self.layout, allocators)
            },
    {
        lemma_torn_state(
            stored,
            self.image(),
            torn,
            self.layout,
            regions::layout_allocators(self.layout),
        );
    }
}

/// Swapping the primary slot twice gives back the header.
pub proof fn lemma_swap_twice(image: Seq<u8>)
    requires
        image.len() >= DB_HEADER_SIZE,
    ensures
        ({
            let at = header::GOD_BYTE_OFFSET as int;
            let once = image.update(at, image[at] ^ header::PRIMARY_BIT);
            once.update(at, once[at] ^ header::PRIMARY_BIT) == image
        }),
{
    let at = header::GOD_BYTE_OFFSET as int;
    let god = image[at];
    assert((god ^ 1) ^ 1 == god) by (bit_vector);
    let once = image.update(at, god ^ header::PRIMARY_BIT);
    assert(once.update(at, once[at] ^ header::PRIMARY_BIT) =~= image);
}

impl TransactionalMemory {
    /// A commit whose flushes succeed is what reads are then served from: its roots, its
    /// transaction id and the layout of the file. It keeps the free pages, there is nothing left to
    /// roll back, and the memory is in order.
    pub proof fn lemma_commit(
        self,
        written: Self,
        swapped: Self,
        done: Self,
        data_root: Option<PageNumber>,
        freed_root: Option<PageNumber>,
        transaction_id: u64,
    )
        requires
            self.wf(),
            self.has_allocators(),
            header::storable_root(data_root),
            header::storable_root(freed_root),
            written.slot_written(self, data_root, freed_root, transaction_id),
            written.same_but_image(self),
            swapped.primary_swapped(written),
            done.committed(swapped, false),
            done.image() == swapped.image(),
        ensures
            done.readable().root == data_root,
            done.readable().freed_root == freed_root,
            done.readable().transaction_id == transaction_id,
            done.readable().layout == self.layout,
            done.header().primary() == done.readable(),
            done.free_set() == self.free_set(),
            done.committed_free@ == self.free_set(),
            done.wf(),
    {
        header::lemma_stored_root(data_root);
        header::lemma_stored_root(freed_root);
        header::lemma_slot_with_len(
            header::slot_bytes(self.image(), !self.header().primary_is_one),
            data_root,
            freed_root,
            transaction_id,
            self.layout,
        );
        written.lemma_header_only(self);
        swapped.lemma_header_only(written);
        self.layout.lemma_grows(self.layout);
        assert(done.free_set() == swapped.free_set());
    }

    /// A commit is atomic: wherever one of its two flushes is cut short, a reader of the file finds
    /// the commit before or this one, whole. The first flush leaves the commit before, the second
    /// is the change of a single byte.
    pub proof fn lemma_commit_atomic(
        self,
        written: Self,
        swapped: Self,
        torn: Seq<u8>,
        reopened: Self,
        data_root: Option<PageNumber>,
        freed_root: Option<PageNumber>,
        transaction_id: u64,
    )
        requires
            self.metadata.wf(),
            written.slot_written(self, data_root, freed_root, transaction_id),
            swapped.primary_swapped(written),
        ensures
            is_torn(self.image(), written.image(), torn) ==> header::header(torn).primary()
                == self.header().primary(),
            is_torn(written.image(), swapped.image(), torn) ==> {
                ||| header::header(torn).primary() == self.header().primary()
                ||| header::header(torn).primary() == self.commit_slot(
                    data_root,
                    freed_root,
                    transaction_id,
                )
            },
            swapped.header().primary() == self.commit_slot(data_root, freed_root, transaction_id),
            reopened.opened(torn) ==> reopened.readable() == header::header(torn).primary(),
    {
        let before = self.image();
        let god = header::GOD_BYTE_OFFSET as int;
        let one = self.header().primary_is_one;
        let start = header::slot_start(!one);
        header::lemma_slot_with_len(
            header::slot_bytes(before, !one),
            data_root,
            freed_root,
            transaction_id,
            self.layout,
        );
        if is_torn(before, written.image(), torn) {
            assert(bytes::same_outside(before, torn, start, start + header::TRANSACTION_SIZE)) by {
                assert forall|i: int| 0 <= i < torn.len() && !(start <= i < start
                    + header::TRANSACTION_SIZE) implies torn[i] == before[i] by {
                    assert(written.image()[i] == before[i]);
                }
            }
            header::lemma_header_write(before, torn, start, start + header::TRANSACTION_SIZE);
            assert(torn[god] == before[god]);
        }
        if is_torn(written.image(), swapped.image(), torn) {
            assert forall|i: int| 0 <= i < torn.len() && i != god implies torn[i]
                == written.image()[i] && torn[i] == swapped.image()[i] by {
                assert(swapped.image()[i] == written.image()[i]);
            }
            if torn[god] == written.image()[god] {
                assert(torn =~= written.image());
            } else {
                assert(torn =~= swapped.image());
            }
        }
    }

    /// A non-durable commit is what reads are then served from, while the file still holds the
    /// last durable commit as the primary one.
    pub proof fn lemma_non_durable_commit(
        self,
        done: Self,
        data_root: Option<PageNumber>,
        freed_root: Option<PageNumber>,
        transaction_id: u64,
    )
        requires
            self.metadata.wf(),
            header::storable_root(data_root),
            header::storable_root(freed_root),
            done.slot_written(self, data_root, freed_root, transaction_id),
            done.committed(self, true),
        ensures
            done.readable().root == data_root,
            done.readable().freed_root == freed_root,
            done.readable().transaction_id == transaction_id,
            done.readable().layout == self.layout,
            done.header().primary() == self.header().primary(),
    {
        header::lemma_stored_root(data_root);
        header::lemma_stored_root(freed_root);
    }

    /// Closing a file makes a non-durable commit that is outstanding the primary one.
    pub proof fn lemma_close(self, written: Self, swapped: Self, done: Self)
        requires
            self.wf(),
            self.read_from_secondary,
            self.close_stepped(CloseEvent::Start, written, CloseAction::FlushSlot),
            written.close_stepped(
                CloseEvent::SlotFlushed(Ok(())),
                swapped,
                CloseAction::FlushPrimary,
            ),
            swapped.close_stepped(
                CloseEvent::PrimaryFlushed(Ok(())),
                done,
                (CloseAction::Flush { commit_failed: false }),
            ),
        ensures
            done.header().primary() == (header::CommitSlot {
                layout: self.layout,
                ..self.readable()
            }),
            done.readable() == done.header().primary(),
            done.layout == self.layout,
            done.has_allocators(),
            done.free_set() == self.free_set(),
            done.wf(),
    {
        let slot = header::slot_bytes(self.image(), !header::primary_is_one(self.image()));
        header::lemma_root_storable(
            slot,
            header::ROOT_NON_NULL_OFFSET as int,
            header::ROOT_PAGE_OFFSET as int,
        );
        header::lemma_root_storable(
            slot,
            header::FREED_ROOT_NON_NULL_OFFSET as int,
            header::FREED_ROOT_OFFSET as int,
        );
        let readable = self.readable();
        assert(header::commit_slot(slot) == readable);
        self.lemma_commit(
            written,
            swapped,
            done,
            readable.root,
            readable.freed_root,
            readable.transaction_id,
        );
    }

    /// An allocation makes its page uncommitted, and no other.
    pub proof fn lemma_uncommitted(self, after: Self, page: PageNumber, other: PageNumber)
        requires
            after.recorded(self, page),
        ensures
            after.is_uncommitted(other) == (self.is_uncommitted(other) || other == page),
    {
        if other.spec_key() == page.spec_key() {
            other.lemma_key_injective(page);
        }
    }

    /// A page that is allocated and then freed is free again, and no other page is.
    pub proof fn lemma_allocate_free(
        self,
        allocated: Self,
        freed: Self,
        order: int,
        page: PageNumber,
        op: AllocationOp,
    )
        requires
            self.serves(order, page, allocated),
            freed.released(allocated, page, op),
        ensures
            allocated.in_use(page),
            freed.free_set() == self.free_set(),
    {
        assert(freed.free_set() =~= self.free_set());
    }

    /// Two allocations, one after the other, share no page, and both are then in use.
    pub proof fn lemma_allocations_apart(
        self,
        first: Self,
        second: Self,
        order: int,
        page: PageNumber,
        next_order: int,
        next: PageNumber,
    )
        requires
            self.serves(order, page, first),
            first.serves(next_order, next, second),
        ensures
            regions::block(page).disjoint(regions::block(next)),
            second.in_use(page),
            second.in_use(next),
    {
    }

    /// One step of a transaction: a page is allocated or freed, the file grows, the allocators are
    /// marked as out of date or their state is trimmed, or nothing changes but bytes of pages, marks and the list of
    /// uncommitted pages.
    pub open spec fn works(self, after: Self) -> bool {
        ||| exists|order: int, page: PageNumber|
            #[trigger] self.serves(order, page, after) && after.recorded(self, page)
        ||| exists|page: PageNumber, op: AllocationOp| #[trigger] after.released(self, page, op)
        ||| exists|new: DatabaseLayout| #[trigger]
            self.grown_to(new, after) && self.layout.grows_to(new)
        ||| after.kept_allocation(self)
        ||| after.marked_dirty(self)
        ||| after.readied(self)
        ||| after.same_but_image(self) && header::header_kept(self.image(), after.image())
    }

    /// A step of a transaction takes no page away, does not change which of the pages that there
    /// are were free after the last commit, and leaves the commits alone.
    proof fn lemma_works(self, after: Self, x: (int, int))
        requires
            self.wf(),
            self.has_allocators(),
            after.wf(),
            after.has_allocators(),
            self.works(after),
        ensures
            regions::all_pages(self.layout).contains(x) ==> {
                &&& regions::all_pages(after.layout).contains(x)
                &&& after.committed_free@.contains(x) == self.committed_free@.contains(x)
            },
            after.readable() == self.readable(),
    {
        if exists|new: DatabaseLayout| #[trigger]
            self.grown_to(new, after) && self.layout.grows_to(new) {
            let new = choose|new: DatabaseLayout| #[trigger]
                self.grown_to(new, after) && self.layout.grows_to(new);
            self.layout.lemma_grows(new);
            if regions::all_pages(self.layout).contains(x) {
                assert(self.layout.pages_of(x.0) <= new.pages_of(x.0));
            }
        }
    }

    proof fn lemma_history(history: Seq<Self>, n: int, x: (int, int))
        requires
            0 <= n < history.len(),
            forall|i: int|
                0 <= i < history.len() ==> (#[trigger] history[i]).wf()
                    && history[i].has_allocators(),
            forall|i: int, j: int|
                0 <= i && j == i + 1 && j < history.len() ==> #[trigger] history[i].works(
                    #[trigger] history[j],
                ),
        ensures
            regions::all_pages(history[0].layout).contains(x) ==> {
                &&& regions::all_pages(history[n].layout).contains(x)
                &&& history[n].committed_free@.contains(x) == history[0].committed_free@.contains(x)
            },
            history[n].readable() == history[0].readable(),
        decreases n,
    {
        if n > 0 {
            Self::lemma_history(history, n - 1, x);
            assert(history[n - 1].works(history[n]));
            history[n - 1].lemma_works(history[n], x);
        }
    }

    /// A rollback undoes a transaction, whatever it did: the layout, the free pages and the commit
    /// are those from before it.
    pub proof fn lemma_rollback(history: Seq<Self>, rolled_back: Self)
        requires
            history.len() > 0,
            forall|i: int|
                0 <= i < history.len() ==> (#[trigger] history[i]).wf()
                    && history[i].has_allocators(),
            history[0].log_since_commit@.len() == 0,
            history[0].layout == history[0].readable().layout,
            forall|i: int, j: int|
                0 <= i && j == i + 1 && j < history.len() ==> #[trigger] history[i].works(
                    #[trigger] history[j],
                ),
            rolled_back.rolled_back(history.last()),
        ensures
            rolled_back.layout == history[0].layout,
            rolled_back.allocators() == history[0].allocators(),
            rolled_back.free_set() == history[0].free_set(),
            rolled_back.readable() == history[0].readable(),
    {
        let first = history[0];
        let last = history.last();
        let all = regions::all_pages(first.layout);
        assert(history[history.len() - 1] == last);
        Self::lemma_history(history, history.len() - 1, (0, 0));
        first.lemma_allocators();
        assert forall|x: (int, int)| #[trigger]
            rolled_back.free_set().contains(x) == first.free_set().contains(x) by {
            Self::lemma_history(history, history.len() - 1, x);
            if all.contains(x) {
                assert(first.committed_free@ == first.free_set());
            }
        }
        assert(rolled_back.free_set() =~= first.free_set());
    }

    /// A rollback after a rollback changes nothing.
    pub proof fn lemma_rollback_twice(self, once: Self, twice: Self)
        requires
            self.wf(),
            once.rolled_back(self),
            twice.rolled_back(once),
        ensures
            twice.image() == once.image(),
            twice.layout == once.layout,
            twice.has_allocators() == once.has_allocators(),
            once.has_allocators() ==> twice.allocators() == once.allocators(),
            once.has_allocators() ==> twice.free_set() == once.free_set(),
            twice.read_from_secondary == once.read_from_secondary,
    {
    }
}

impl TransactionalMemory {
    /// A file that was closed is the same database when it is opened again: the last durable commit
    /// and the bytes of the file are the same, it needs no repair, and of the pages of the commit
    /// those are free that were. Pages that the file gained since the commit are not part of it.
    pub proof fn lemma_reopen(self, closed: Self, reopened: Self)
        requires
            self.wf(),
            self.has_allocators(),
            self.header().primary().layout.grows_to(self.layout),
            closed.marked_clean(self),
            reopened.opened(closed.image()),
        ensures
            sound_file::file_ok(closed.image()),
            reopened.image() == closed.image(),
            reopened.readable() == self.header().primary(),
            reopened.layout == self.header().primary().layout,
            reopened.has_allocators(),
            !reopened.header().dirty,
            reopened.free_set() == self.free_set().intersect(
                regions::all_pages(self.header().primary().layout),
            ),
            self.marks_sound() ==> reopened.marks_sound(),
            self.header().primary().layout == self.layout ==> reopened.free_set()
                == self.free_set(),
            self.header().primary().layout == self.layout && self.trimmed ==> reopened.trimmed,
    {
        let layout = self.header().primary().layout;
        let image = closed.image();
        closed.lemma_marked_clean(self);
        closed.lemma_other_layout(layout);
        closed.lemma_allocators();
        sound_file::lemma_closed_state(closed, layout);
        if sound_file::state_exact(image) {
            regions::lemma_exact(image, layout, reopened.allocators());
        }
        assert(reopened.free_set() =~= self.free_set().intersect(regions::all_pages(layout)));
        if layout == self.layout {
            assert(self.free_set().intersect(regions::all_pages(layout)) =~= self.free_set());
        }
        if self.marks_sound() {
            assert forall|r: int, p: int| #[trigger]
                reopened.free_set().contains((r, p)) implies !regions::marked(image, layout, r) by {
                assert(closed.free_set().contains((r, p)));
                assert(regions::tracker(image, layout) == regions::tracker(image, self.layout));
            }
        }
    }

    /// A file that was closed with a non-durable commit outstanding holds that commit when it is
    /// opened again, with the pages free that were.
    pub proof fn lemma_close_reopen(
        self,
        written: Self,
        swapped: Self,
        done: Self,
        closed: Self,
        reopened: Self,
    )
        requires
            self.wf(),
            self.read_from_secondary,
            self.close_stepped(CloseEvent::Start, written, CloseAction::FlushSlot),
            written.close_stepped(
                CloseEvent::SlotFlushed(Ok(())),
                swapped,
                CloseAction::FlushPrimary,
            ),
            swapped.close_stepped(
                CloseEvent::PrimaryFlushed(Ok(())),
                done,
                (CloseAction::Flush { commit_failed: false }),
            ),
            done.close_stepped(CloseEvent::Flushed(Ok(())), closed, CloseAction::FlushClean),
            reopened.opened(closed.image()),
        ensures
            sound_file::file_ok(closed.image()),
            reopened.readable() == (header::CommitSlot { layout: self.layout, ..self.readable() }),
            reopened.free_set() == self.free_set(),
            !reopened.header().dirty,
    {
        self.lemma_close(written, swapped, done);
        self.layout.lemma_grows(self.layout);
        done.lemma_reopen(closed, reopened);
    }

    /// A file that was not closed, at whatever point, can still be used, holds the last durable
    /// commit, and is known to need a repair.
    pub proof fn lemma_not_closed(self, reopened: Self)
        requires
            self.wf(),
            self.header().dirty,
            reopened.opened(self.image()),
        ensures
            sound_file::file_ok(self.image()),
            reopened.image() == self.image(),
            reopened.readable() == self.header().primary(),
            reopened.header().dirty,
            reopened.repair_needed(),
            !reopened.has_allocators(),
    {
    }

    /// Closing leaves the allocators marked as out of date just where there are none: a file whose
    /// allocators were never rebuilt still needs its repair.
    pub proof fn lemma_close_mark(self, after: Self, action: CloseAction)
        requires
            self.state_known(),
            self.close_stepped(CloseEvent::Flushed(Ok(())), after, action),
        ensures
            after.header().dirty == !after.has_allocators(),
            after.has_allocators() == self.has_allocators(),
            after.state_known(),
    {
    }

    /// A repair leaves just the given pages in use, no region marked as full, and the file in
    /// order. Where those are the pages that were in use at an earlier time, the free pages are
    /// those that were free then, and as many are available.
    pub proof fn lemma_repair(
        self,
        rebuilt: Self,
        clean: Self,
        repaired: Self,
        pages: Seq<PageNumber>,
        earlier: Self,
    )
        requires
            self.wf(),
            self.log_since_commit@.len() == 0,
            repair::disjoint_blocks(self.layout, pages),
            rebuilt.state_rebuilt(self, pages),
            clean.marked_clean(rebuilt),
            repaired.allocators_set(clean),
        ensures
            repaired.wf(),
            repaired.has_allocators(),
            repaired.marks_sound(),
            !repaired.header().dirty,
            repaired.free_set() == regions::all_pages(self.layout).difference(
                repair::pages_of_blocks(pages),
            ),
            repaired.free_pages_counted() + statistics::pages_taken(pages)
                == self.layout.usable_pages(),
            earlier.wf() && earlier.has_allocators() && earlier.layout == self.layout
                && earlier.largest_layout() == self.largest_layout() && repair::pages_of_blocks(
                pages,
            ) == regions::all_pages(self.layout).difference(earlier.free_set()) ==> {
                &&& repaired.free_set() == earlier.free_set()
                &&& repaired.available_pages() == earlier.available_pages()
            },
            repaired.readable() == self.readable(),
            repaired.layout == self.layout,
            regions::data_kept(self.image(), repaired.image(), self.layout),
    {
        let layout = self.layout;
        let allocators = regions::layout_allocators(layout);
        layout.lemma_region(0);
        regions::lemma_header_change(rebuilt.image(), clean.image(), layout);
        regions::lemma_allocators_same(rebuilt.image(), clean.image(), layout, allocators);
        assert(repaired.free_set() == regions::free_pages(clean.image(), layout, allocators));
        let all = regions::all_pages(layout);
        assert forall|r: int, p: int| #[trigger]
            repaired.free_set().contains((r, p)) implies !regions::marked(
            repaired.image(),
            layout,
            r,
        ) by {
            assert(all.contains((r, p)));
            assert(regions::marked(rebuilt.image(), layout, r) == regions::marked(
                repaired.image(),
                layout,
                r,
            ));
        }
        repaired.lemma_taken_counted(pages);
        if earlier.wf() && earlier.has_allocators() && earlier.layout == layout
            && repair::pages_of_blocks(pages) == all.difference(earlier.free_set()) {
            earlier.lemma_allocators();
            assert(repaired.free_set() =~= earlier.free_set());
            earlier.lemma_free_pages_counted();
            repaired.lemma_free_pages_counted();
        }
    }
}

impl Opening {
    /// The magic number is written last: a file whose first content is not complete does not start
    /// with it, and is given a first content again when it is opened; one that starts with it can be
    /// used.
    pub proof fn lemma_magic_number_last(self)
        requires
            self.wf(),
        ensures
            self.stage == OpenStage::FlushingMark || self.stage == OpenStage::FlushingState
                ==> header::header(self.metadata@).magic != MAGICNUMBER@,
            self.stage == OpenStage::FlushingMagic ==> header::header(self.metadata@).magic
                == MAGICNUMBER@ && sound_file::file_ok(self.metadata@),
    {
        let image = self.metadata@;
        if self.stage == OpenStage::FlushingMark {
            assert(header::header(image).magic[0] == 0);
            assert(MAGICNUMBER@[0] == 0x72);
        }
        if self.stage == OpenStage::FlushingState {
            assert(header::header(image).magic[0] == 0);
            assert(MAGICNUMBER@[0] == 0x72);
        }
        if self.stage == OpenStage::FlushingMagic {
            self.lemma_new_file();
        }
    }
}

impl Opening {
    /// A file that does not start with the magic number does not come to start with it when the
    /// flush of a blank header is cut short.
    pub proof fn lemma_torn_blank(image: Seq<u8>, blank: Seq<u8>, torn: Seq<u8>)
        requires
            image.len() >= DB_HEADER_SIZE,
            header::header(image).magic != MAGICNUMBER@,
            opening::blanked(image, blank),
            is_torn(image, blank, torn),
        ensures
            header::header(torn).magic != MAGICNUMBER@,
    {
        let magic = header::header(torn).magic;
        if magic == MAGICNUMBER@ {
            assert forall|i: int| 0 <= i < 9 implies image[i] == MAGICNUMBER@[i] by {
                assert(torn[i] == magic[i]);
                assert(MAGICNUMBER@[i] != 0);
            }
            assert(header::header(image).magic =~= MAGICNUMBER@);
        }
    }

    /// Creating a file is atomic: wherever the flush of the first content or that of the magic
    /// number is cut short, a file that starts with the magic number is complete.
    pub proof fn lemma_creation_atomic(self, next: Self, torn: Seq<u8>)
        requires
            self.wf(),
            self.stage == OpenStage::FlushingMark || self.stage == OpenStage::FlushingState,
            self.stepped(OpenEvent::Finished(Ok(())), next, OpenAction::Flush),
            next.same_request(self),
            is_torn(self.metadata@, next.metadata@, torn),
            header::header(torn).magic == MAGICNUMBER@,
        ensures
            torn == next.metadata@,
            sound_file::file_ok(torn),
    {
        let before = self.metadata@;
        let after = next.metadata@;
        let magic = header::header(torn).magic;
        assert(magic[0] == torn[0] && MAGICNUMBER@[0] == 0x72);
        assert(torn[0] == before[0] || torn[0] == after[0]);
        assert(header::header(before).magic[0] == before[0]);
        assert(header::header(after).magic[0] == after[0]);
        assert(header::header(before).magic[0] == 0);
        if self.stage == OpenStage::FlushingState {
            assert forall|i: int| 0 <= i < torn.len() implies torn[i] == after[i] by {
                if i < 9 {
                    assert(torn[i] == magic[i]);
                    assert(after[i] == MAGICNUMBER@[i]);
                } else {
                    assert(after[i] == before[i]);
                }
            }
            assert(torn =~= after);
            next.lemma_new_file();
        }
    }
}

} // verus!
