//! Making the work of a transaction part of the database.

use crate::action::{CommitAction, CommitEvent};
use crate::bytes;
use crate::error::Error;
use crate::header;
use crate::page_manager::TransactionalMemory;
use crate::page_number::PageNumber;
use crate::regions;
use vstd::prelude::*;

verus! {

impl TransactionalMemory {
    /// The root of the data, as of the last commit.
    pub open spec fn data_root(self) -> Option<PageNumber> {
        self.readable().root
    }

    /// The root of the freed pages, as of the last commit.
    pub open spec fn freed_root(self) -> Option<PageNumber> {
        self.readable().freed_root
    }

    /// The id of the last transaction that was committed.
    pub open spec fn last_transaction_id(self) -> u64 {
        self.readable().transaction_id
    }

    /// The root of the data, as of the last commit.
    pub fn get_data_root(&self) -> (root: Option<PageNumber>)
        requires
            self.metadata.wf(),
        ensures
            root == self.data_root(),
    {
        if self.read_from_secondary {
            self.metadata.secondary_slot().get_root_page()
        } else {
            self.metadata.primary_slot().get_root_page()
        }
    }

    /// The root of the freed pages, as of the last commit.
    pub fn get_freed_root(&self) -> (root: Option<PageNumber>)
        requires
            self.metadata.wf(),
        ensures
            root == self.freed_root(),
    {
        if self.read_from_secondary {
            self.metadata.secondary_slot().get_freed_root_page()
        } else {
            self.metadata.primary_slot().get_freed_root_page()
        }
    }

    pub fn get_last_committed_transaction_id(&self) -> (id: Result<u64, Error>)
        requires
            self.metadata.wf(),
        ensures
            id == Ok::<u64, Error>(self.last_transaction_id()),
    {
        if self.read_from_secondary {
            Ok(self.metadata.secondary_slot().get_last_committed_transaction_id())
        } else {
            Ok(self.metadata.primary_slot().get_last_committed_transaction_id())
        }
    }

    /// Page has not been committed
    pub fn uncommitted(&self, page: PageNumber) -> (yes: bool)
        ensures
            yes == self.is_uncommitted(page),
    {
        broadcast use vstd::std_specs::hash::group_hash_axioms;

        self.allocated_since_commit.contains(&page.key())
    }

    /// What the slot holds that a commit of this memory writes.
    pub open spec fn commit_slot(
        self,
        data_root: Option<PageNumber>,
        freed_root: Option<PageNumber>,
        transaction_id: u64,
    ) -> header::CommitSlot {
        header::CommitSlot {
            version: self.header().secondary().version,
            root: header::stored_root(data_root),
            freed_root: header::stored_root(freed_root),
            transaction_id,
            layout: self.layout,
        }
    }

    /// The slot of `before` that is not primary holds what a commit writes; all else is the same.
    pub open spec fn slot_written(
        self,
        before: Self,
        data_root: Option<PageNumber>,
        freed_root: Option<PageNumber>,
        transaction_id: u64,
    ) -> bool {
        let other = !before.header().primary_is_one;
        &&& self.header() == before.header().with_secondary(
            before.commit_slot(data_root, freed_root, transaction_id),
        )
        &&& self.image() == bytes::splice(
            before.image(),
            header::slot_start(other),
            header::slot_with(
                header::slot_bytes(before.image(), other),
                data_root,
                freed_root,
                transaction_id,
                before.layout,
            ),
        )
    }

    /// The other slot of `before` is primary, by a change to a single bit.
    pub open spec fn primary_swapped(self, before: Self) -> bool {
        &&& self.same_but_image(before)
        &&& self.header() == (header::Header {
            primary_is_one: !before.header().primary_is_one,
            ..before.header()
        })
        &&& self.image() == header::with_god_byte(
            before.image(),
            before.image()[header::GOD_BYTE_OFFSET as int] ^ header::PRIMARY_BIT,
        )
    }

    /// The work since the last commit of `before` is no longer on record.
    pub open spec fn committed(self, before: Self, read_from_secondary: bool) -> bool {
        &&& self.log_since_commit@.len() == 0
        &&& self.allocated_since_commit@ == Set::<u128>::empty()
        &&& self.read_from_secondary == read_from_secondary
        &&& self.has_allocators() == before.has_allocators()
        &&& self.allocators() == before.allocators()
        &&& self.layout == before.layout
        &&& self.page_size == before.page_size
        &&& self.region_size == before.region_size
        &&& self.region_header_with_padding_size == before.region_header_with_padding_size
        &&& self.db_header_size == before.db_header_size
        &&& self.trimmed == before.trimmed
        &&& self.has_allocators() ==> self.committed_free@ == self.free_set()
    }

    /// Writes the slot that is not primary.
    fn write_slot(
        &mut self,
        data_root: Option<PageNumber>,
        freed_root: Option<PageNumber>,
        transaction_id: u64,
    )
        requires
            old(self).metadata.wf(),
        ensures
            final(self).slot_written(*old(self), data_root, freed_root, transaction_id),
            final(self).same_but_image(*old(self)),
            final(self).metadata.wf(),
            old(self).wf() ==> {
                &&& final(self).wf()
                &&& old(self).has_allocators() ==> final(self).free_set() == old(self).free_set()
                &&& old(self).has_allocators() ==> final(self).marks_sound() == old(
                    self,
                ).marks_sound()
                &&& regions::data_kept(old(self).image(), final(self).image(), old(self).layout)
                &&& regions::state_same(old(self).image(), final(self).image(), old(self).layout)
            },
    {
        let ghost before = *self;
        let mut secondary = self.metadata.secondary_slot_mut();
        secondary.set_last_committed_transaction_id(transaction_id);
        secondary.set_root_page(data_root);
        secondary.set_freed_root(freed_root);
        secondary.set_data_section_layout(&self.layout);
        proof {
            if before.wf() {
                self.lemma_header_only(before);
            }
        }
    }

    /// Takes the work since the last commit off the record.
    fn clear_record(&mut self, read_from_secondary: bool)
        ensures
            final(self).committed(*old(self), read_from_secondary),
            final(self).image() == old(self).image(),
            old(self).geometry() ==> final(self).geometry(),
            old(self).allocation() ==> final(self).allocation(),
    {
        broadcast use vstd::std_specs::hash::group_hash_axioms;

        self.log_since_commit.clear();
        self.allocated_since_commit.clear();
        self.read_from_secondary = read_from_secondary;
        self.committed_free = Ghost(self.free_set());
    }

    /// Whether the step before `event` has been taken: the slot that is to be primary holds the
    /// layout.
    pub open spec fn commit_in_order(self, event: CommitEvent) -> bool {
        match event {
            CommitEvent::SlotFlushed(Ok(_)) => self.header().secondary().layout == self.layout,
            CommitEvent::PrimaryFlushed(Ok(_)) => self.header().primary().layout == self.layout,
            _ => true,
        }
    }

    /// What one step of a commit does: the slot that is not primary is written, and once that is in
    /// the file, it is made the primary one; when that is in the file too, the commit is done. A
    /// step that follows a failure does nothing.
    pub open spec fn commit_stepped(
        self,
        data_root: Option<PageNumber>,
        freed_root: Option<PageNumber>,
        transaction_id: u64,
        eventual: bool,
        event: CommitEvent,
        after: Self,
        action: CommitAction,
    ) -> bool {
        match event {
            CommitEvent::Start => {
                &&& after.slot_written(self, data_root, freed_root, transaction_id)
                &&& after.same_but_image(self)
                &&& action == (CommitAction::FlushSlot { eventual })
            },
            CommitEvent::SlotFlushed(Ok(_)) => {
                &&& after.primary_swapped(self)
                &&& action == (CommitAction::FlushPrimary { eventual })
            },
            CommitEvent::PrimaryFlushed(Ok(_)) => {
                &&& after.committed(self, false)
                &&& after.image() == self.image()
                &&& action == CommitAction::Done(Ok(()))
            },
            CommitEvent::SlotFlushed(Err(e)) => {
                &&& after.unchanged(self)
                &&& action == CommitAction::Done(Err(e))
            },
            CommitEvent::PrimaryFlushed(Err(e)) => {
                &&& after.unchanged(self)
                &&& action == CommitAction::Done(Err(e))
            },
        }
    }

    /// Commit all outstanding changes and make them visible as the primary
    pub fn commit(
        &mut self,
        data_root: Option<PageNumber>,
        freed_root: Option<PageNumber>,
        transaction_id: u64,
        eventual: bool,
        event: CommitEvent,
    ) -> (action: CommitAction)
        requires
            old(self).metadata.wf(),
            old(self).has_allocators(),
        ensures
            old(self).commit_stepped(
                data_root,
                freed_root,
                transaction_id,
                eventual,
                event,
                *final(self),
                action,
            ),
            final(self).metadata.wf(),
            final(self).has_allocators(),
            old(self).wf() && old(self).commit_in_order(event) ==> {
                &&& final(self).wf()
                &&& final(self).free_set() == old(self).free_set()
                &&& final(self).marks_sound() == old(self).marks_sound()
                &&& regions::data_kept(old(self).image(), final(self).image(), old(self).layout)
                &&& regions::state_same(old(self).image(), final(self).image(), old(self).layout)
            },
            old(self).state_known() ==> final(self).state_known(),
    {
        let ghost before = *self;
        match event {
            CommitEvent::Start => {
                self.write_slot(data_root, freed_root, transaction_id);
                CommitAction::FlushSlot { eventual }
            },
            CommitEvent::SlotFlushed(Ok(_)) => {
                self.metadata.swap_primary();
                proof {
                    if before.wf() {
                        self.lemma_header_only(before);
                    }
                }
                CommitAction::FlushPrimary { eventual }
            },
            CommitEvent::PrimaryFlushed(Ok(_)) => {
                self.clear_record(false);
                CommitAction::Done(Ok(()))
            },
            CommitEvent::SlotFlushed(Err(e)) => CommitAction::Done(Err(e)),
            CommitEvent::PrimaryFlushed(Err(e)) => CommitAction::Done(Err(e)),
        }
    }

    /// What a non-durable commit does to `before`: the slot that is not primary is written, and read
    /// from.
    pub open spec fn non_durably_committed(
        self,
        before: Self,
        data_root: Option<PageNumber>,
        freed_root: Option<PageNumber>,
        transaction_id: u64,
    ) -> bool {
        &&& self.slot_written(before, data_root, freed_root, transaction_id)
        &&& self.committed(before, true)
    }

    /// Make changes visible, without a durability guarantee
    pub fn non_durable_commit(
        &mut self,
        data_root: Option<PageNumber>,
        freed_root: Option<PageNumber>,
        transaction_id: u64,
    ) -> (done: Result<(), Error>)
        requires
            old(self).metadata.wf(),
            old(self).has_allocators(),
        ensures
            done == Ok::<(), Error>(()),
            final(self).non_durably_committed(*old(self), data_root, freed_root, transaction_id),
            old(self).wf() ==> {
                &&& final(self).wf()
                &&& final(self).free_set() == old(self).free_set()
                &&& final(self).marks_sound() == old(self).marks_sound()
                &&& regions::data_kept(old(self).image(), final(self).image(), old(self).layout)
                &&& regions::state_same(old(self).image(), final(self).image(), old(self).layout)
            },
            old(self).state_known() ==> final(self).state_known(),
    {
        self.write_slot(data_root, freed_root, transaction_id);
        self.clear_record(true);
        Ok(())
    }
}

} // verus!
