//! What is promised of opening a file.

use crate::bytes;
use crate::error::Error;
use crate::header;
use crate::header::MAGICNUMBER;
use crate::layout;
use crate::layout::DatabaseLayout;
use crate::opening;
use crate::opening::{OpenAction, OpenEvent, OpenStage, Opening};
use crate::page_manager::TransactionalMemory;
use crate::page_number::PageNumber;
use crate::regions;
use crate::sound_file;
use vstd::prelude::*;

verus! {

/// Whether a file starts with the nine bytes of the magic number.
pub open spec fn starts_with_magic(image: Seq<u8>) -> bool {
    &&& image.len() >= 9
    &&& image[0] == 0x72
    &&& image[1] == 0x65
    &&& image[2] == 0x64
    &&& image[3] == 0x62
    &&& image[4] == 0x1A
    &&& image[5] == 0x0A
    &&& image[6] == 0xA9
    &&& image[7] == 0x0D
    &&& image[8] == 0x0A
}

/// The magic number is that of the header.
pub proof fn lemma_magic(image: Seq<u8>)
    requires
        image.len() >= 9,
    ensures
        starts_with_magic(image) == (header::header(image).magic == MAGICNUMBER@),
{
    let magic = header::header(image).magic;
    assert forall|i: int| 0 <= i < 9 implies #[trigger] magic[i] == image[i] by {}
    if starts_with_magic(image) {
        assert(magic =~= MAGICNUMBER@);
    }
    if magic == MAGICNUMBER@ {
        assert(magic[0] == 0x72 && magic[1] == 0x65 && magic[2] == 0x64 && magic[3] == 0x62);
        assert(magic[4] == 0x1A && magic[5] == 0x0A && magic[6] == 0xA9 && magic[7] == 0x0D);
        assert(magic[8] == 0x0A);
    }
}

impl Opening {
    /// Whatever is requested, a file that is at least a header long is used at once, with no byte
    /// of it changed, just if it starts with the magic number.
    pub proof fn lemma_existing_file(self, mmap: Vec<u8>, after: Self, action: OpenAction)
        requires
            self.stepped(OpenEvent::Mapped(Ok(mmap)), after, action),
            mmap@.len() >= 384,
        ensures
            action == OpenAction::Finish <==> starts_with_magic(mmap@),
            after.stage == OpenStage::Ready <==> starts_with_magic(mmap@),
            starts_with_magic(mmap@) ==> after.metadata@ == mmap@,
    {
        lemma_magic(mmap@);
    }

    /// A file that is shorter than a header is first made that long, with zeros behind what it
    /// holds, and then examined as any other.
    pub proof fn lemma_short_file(
        self,
        mmap: Vec<u8>,
        sized: Self,
        after: Self,
        first: OpenAction,
        action: OpenAction,
    )
        requires
            mmap@.len() < 384,
            self.stepped(OpenEvent::Mapped(Ok(mmap)), sized, first),
            sized.stepped(OpenEvent::Finished(Ok(())), after, action),
        ensures
            first == OpenAction::Resize(384),
            action == OpenAction::Finish <==> starts_with_magic(mmap@),
            action == OpenAction::Finish ==> {
                &&& after.metadata@.len() == 384
                &&& forall|i: int|
                    0 <= i < 384 ==> #[trigger] after.metadata@[i] == (if i < mmap@.len() {
                        mmap@[i]
                    } else {
                        0
                    })
            },
    {
        let image = bytes::extended(mmap@, 384);
        lemma_magic(image);
        assert forall|i: int| 0 <= i < 9 implies #[trigger] image[i] == (if i < mmap@.len() {
            mmap@[i]
        } else {
            0
        }) by {}
    }

    /// Two openings of the same file, whatever each requests, come to the same memory where the
    /// file starts with the magic number.
    pub proof fn lemma_request_ignored(
        self,
        other: Self,
        mmap: Vec<u8>,
        after: Self,
        other_after: Self,
        action: OpenAction,
        other_action: OpenAction,
    )
        requires
            self.stepped(OpenEvent::Mapped(Ok(mmap)), after, action),
            other.stepped(OpenEvent::Mapped(Ok(mmap)), other_after, other_action),
            mmap@.len() >= 384,
            starts_with_magic(mmap@),
        ensures
            after.metadata@ == other_after.metadata@,
            after.stage == other_after.stage,
            action == other_action,
    {
        self.lemma_existing_file(mmap, after, action);
        other.lemma_existing_file(mmap, other_after, other_action);
    }

    /// How many steps there are still, if none fails.
    pub open spec fn steps_left(self) -> int {
        match self.stage {
            OpenStage::Mapping => 6,
            OpenStage::SizingHeader => 5,
            OpenStage::SizingFile => 4,
            OpenStage::FlushingMark => 3,
            OpenStage::FlushingState => 2,
            OpenStage::FlushingMagic => 1,
            OpenStage::Ready => 0,
            OpenStage::Failed => 0,
        }
    }

    /// An opening none of whose steps fails outside comes to its end: each step brings it nearer.
    /// It fails only for want of room, and it is at its end just when it says so. A file that is to
    /// be longer is so by no more than its capacity.
    pub proof fn lemma_progress(self, event: OpenEvent, after: Self, action: OpenAction)
        requires
            self.wf(),
            event is Mapped <==> self.stage == OpenStage::Mapping,
            self.stage != OpenStage::Ready,
            self.stage != OpenStage::Failed,
            (event matches OpenEvent::Mapped(Ok(_))) || (event matches OpenEvent::Finished(Ok(_))),
            self.stepped(event, after, action),
            after.same_request(self),
        ensures
            after.steps_left() < self.steps_left(),
            action == OpenAction::Finish <==> after.stage == OpenStage::Ready,
            action is Fail <==> after.stage == OpenStage::Failed,
            action matches OpenAction::Fail(e) ==> e == Error::OutOfSpace && !self.has_room(),
            action matches OpenAction::Resize(len) ==> {
                &&& after.metadata@.len() < len <= self.max_capacity
                &&& len == 384 || len == self.new_layout().spec_len()
            },
    {
        if self.has_room() {
            self.lemma_new_layout();
        }
    }

    /// What fails outside is reported as it is, and ends the opening; the memory is not changed.
    pub proof fn lemma_outside_failure(
        self,
        event: OpenEvent,
        after: Self,
        action: OpenAction,
        e: Error,
    )
        requires
            self.stepped(event, after, action),
        ensures
            event == OpenEvent::Mapped(Err(e)) ==> action == OpenAction::Fail(e) && after.stage
                == OpenStage::Failed,
            event == OpenEvent::Finished(Err(e)) ==> action == OpenAction::Fail(e) && after.stage
                == OpenStage::Failed && after.metadata@ == self.metadata@,
    {
    }

    /// The layout of a new file.
    proof fn lemma_new_layout(self)
        requires
            self.request_ok(),
            self.has_room(),
        ensures
            self.new_layout().is_for(
                self.max_capacity as int,
                opening::starting_size(self.max_capacity as int, self.dynamic_growth),
                opening::max_usable_region(self.max_capacity as int),
                self.page_size as int,
            ),
            self.new_layout().valid(),
            self.new_layout().spec_len() <= self.max_capacity,
            layout::addressable(
                self.max_capacity as int,
                opening::max_usable_region(self.max_capacity as int),
                self.page_size as int,
            ),
    {
        let c = self.max_capacity as int;
        let m = opening::max_usable_region(c);
        let p = self.page_size as int;
        let desired = opening::starting_size(c, self.dynamic_growth);
        Opening::lemma_region_limit(c);
        DatabaseLayout::lemma_calculates(c, desired, m, p);
        self.new_layout().lemma_is_for(c, desired, m, p);
    }

    /// A new file holds what was asked for: its page size and capacity are those of the request,
    /// and its regions the smallest power of two that holds the capacity, or four gibibytes. It is an
    /// empty database, all of whose pages are free. The pages that are available are those of the
    /// file at its largest; without dynamic growth these are just the pages that it has.
    pub proof fn lemma_new_memory(self, memory: TransactionalMemory, other: DatabaseLayout)
        requires
            self.wf(),
            self.stage == OpenStage::FlushingMagic,
            memory.opened(self.metadata@),
            memory.could_have(other),
        ensures
            starts_with_magic(memory.image()),
            memory.wf(),
            memory.page_size == self.page_size,
            memory.header().max_capacity == self.max_capacity,
            memory.header().slot_0.version == 100,
            memory.header().slot_1.version == 100,
            memory.header().region_max_usable_bytes == 0x1_0000_0000 || self.max_capacity
                <= memory.header().region_max_usable_bytes < 2 * self.max_capacity,
            !memory.repair_needed(),
            memory.data_root() is None,
            memory.freed_root() is None,
            memory.last_transaction_id() == 0,
            memory.has_allocators(),
            memory.marks_sound(),
            forall|r: int, p: int| #[trigger]
                memory.free_set().contains((r, p)) == (0 <= r < memory.layout.spec_num_regions()
                    && 0 <= p < memory.layout.pages_of(r)),
            memory.free_set().finite(),
            memory.free_set().len() == memory.layout.page_count(),
            other.page_count() <= memory.available_pages(),
            !self.dynamic_growth ==> {
                &&& other.page_count() <= memory.layout.page_count()
                &&& memory.available_pages() == memory.layout.page_count()
            },
    {
        let c = self.max_capacity as int;
        let l = self.new_layout();
        lemma_magic(memory.image());
        self.lemma_new_layout();
        Opening::lemma_region_limit(c);
        assert(self.max_capacity > 1);
        self.lemma_new_file();
        self.lemma_new_database(memory);
        l.lemma_grows(l);
        memory.lemma_available(other);
        memory.lemma_largest(other);
        self.lemma_new_size(other);
        self.lemma_new_size(memory.largest_layout());
        assert(regions::all_pages(memory.layout).difference(memory.free_set()) =~= Set::empty());
    }
}

/// A file is turned down for its capacity only where no layout of pages of that size would fit in
/// it: one has ten pages at the least, and the header.
pub proof fn lemma_too_small(capacity: int, page_size: int, layout: DatabaseLayout)
    requires
        layout.valid(),
        layout.page_size == page_size,
        layout.page_count() >= 10,
        layout.spec_len() <= capacity,
    ensures
        !opening::too_small(capacity, page_size),
        384 + 10 * page_size <= capacity,
        opening::too_small(capacity, page_size) <==> capacity < 384 + 10 * page_size,
{
    layout.lemma_length();
    layout::lemma_mul_le(10, page_size, layout.page_count(), page_size);
    layout::lemma_mul_le(
        0,
        layout.region_header_bytes as int,
        layout.spec_num_regions(),
        layout.region_header_bytes as int,
    );
    assert(page_size * 10 == 10 * page_size);
}

impl Opening {
    /// A new file has the page size that was requested, or else the default one, and the capacity
    /// that was asked for; without dynamic growth, all its pages are there from the start.
    pub proof fn lemma_new_as_requested(
        self,
        started: Self,
        max_capacity: usize,
        requested_page_size: Option<usize>,
        default_page_size: usize,
        dynamic_growth: bool,
        memory: TransactionalMemory,
    )
        requires
            started.starts_for(
                max_capacity,
                requested_page_size,
                default_page_size,
                dynamic_growth,
            ),
            self.same_request(started),
            self.wf(),
            self.stage == OpenStage::FlushingMagic,
            memory.opened(self.metadata@),
        ensures
            requested_page_size matches Some(size) ==> memory.page_size == size,
            requested_page_size is None ==> memory.page_size == default_page_size,
            memory.header().max_capacity == max_capacity,
            !dynamic_growth ==> memory.available_pages() == memory.layout.page_count(),
    {
        self.lemma_new_layout();
        self.lemma_new_database(memory);
        let l = self.new_layout();
        let c = self.max_capacity as int;
        l.lemma_best(
            l,
            c,
            opening::starting_size(c, self.dynamic_growth),
            opening::max_usable_region(c),
            self.page_size as int,
        );
        self.lemma_new_memory(memory, l);
    }
}

impl TransactionalMemory {
    /// A file that was closed is the same database when it is opened again, whatever page size is
    /// requested for that: the same roots, transaction id and layout, and of the pages of that
    /// layout the same ones free.
    pub proof fn lemma_reopen_as_requested(
        self,
        closed: Self,
        opening: Opening,
        mmap: Vec<u8>,
        after: Opening,
        action: OpenAction,
        reopened: Self,
    )
        requires
            self.wf(),
            self.has_allocators(),
            self.header().primary().layout.grows_to(self.layout),
            starts_with_magic(self.image()),
            closed.marked_clean(self),
            mmap@ == closed.image(),
            opening.stepped(OpenEvent::Mapped(Ok(mmap)), after, action),
            reopened.opened(after.metadata@),
        ensures
            action == OpenAction::Finish,
            after.metadata@ == closed.image(),
            sound_file::file_opens(after.metadata@),
            reopened.wf(),
            reopened.data_root() == self.header().primary().root,
            reopened.freed_root() == self.header().primary().freed_root,
            reopened.last_transaction_id() == self.header().primary().transaction_id,
            reopened.layout == self.header().primary().layout,
            reopened.page_size == self.page_size,
            !reopened.repair_needed(),
            forall|page: PageNumber| !#[trigger] reopened.is_uncommitted(page),
            forall|r: int, p: int| #[trigger]
                reopened.free_set().contains((r, p)) == (self.free_set().contains((r, p)) && 0 <= r
                    < reopened.layout.spec_num_regions() && 0 <= p < reopened.layout.pages_of(r)),
            self.marks_sound() ==> reopened.marks_sound(),
    {
        lemma_magic(self.image());
        lemma_magic(closed.image());
        opening.lemma_existing_file(mmap, after, action);
        self.lemma_reopen(closed, reopened);
        reopened.layout.lemma_grows(reopened.layout);
    }
}

} // verus!
