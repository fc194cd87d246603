//! Closing a file.

use crate::action::{CloseAction, CloseEvent, CommitAction, CommitEvent};
use crate::page_manager::TransactionalMemory;
use crate::regions;
use vstd::prelude::*;

verus! {

impl TransactionalMemory {
    /// What one step of the closing does: a non-durable commit that is outstanding is made durable,
    /// then the memory is flushed, and then the allocators are marked as up to date.
    pub open spec fn close_stepped(
        self,
        event: CloseEvent,
        after: Self,
        action: CloseAction,
    ) -> bool {
        match event {
            CloseEvent::Start => if self.read_from_secondary {
                &&& after.slot_written(
                    self,
                    self.readable().root,
                    self.readable().freed_root,
                    self.readable().transaction_id,
                )
                &&& after.same_but_image(self)
                &&& action == CloseAction::FlushSlot
            } else {
                &&& after.unchanged(self)
                &&& action == (CloseAction::Flush { commit_failed: false })
            },
            CloseEvent::SlotFlushed(Ok(_)) => {
                &&& after.primary_swapped(self)
                &&& action == CloseAction::FlushPrimary
            },
            CloseEvent::PrimaryFlushed(Ok(_)) => {
                &&& after.committed(self, false)
                &&& after.image() == self.image()
                &&& action == (CloseAction::Flush { commit_failed: false })
            },
            CloseEvent::SlotFlushed(Err(_)) => {
                &&& after.unchanged(self)
                &&& action == (CloseAction::Flush { commit_failed: true })
            },
            CloseEvent::PrimaryFlushed(Err(_)) => {
                &&& after.unchanged(self)
                &&& action == (CloseAction::Flush { commit_failed: true })
            },
            CloseEvent::Flushed(Ok(_)) => if self.has_allocators() {
                &&& after.marked_clean(self)
                &&& action == CloseAction::FlushClean
            } else {
                &&& after.unchanged(self)
                &&& action == CloseAction::Done
            },
            CloseEvent::Flushed(Err(_)) => {
                &&& after.unchanged(self)
                &&& action == CloseAction::Done
            },
            CloseEvent::CleanFlushed(_) => {
                &&& after.unchanged(self)
                &&& action == CloseAction::Done
            },
        }
    }

    /// Goes on with a commit of what reads are served from.
    fn commit_readable(&mut self, event: CommitEvent) -> (action: CommitAction)
        requires
            old(self).metadata.wf(),
            old(self).has_allocators(),
        ensures
            match event {
                CommitEvent::Start => {
                    &&& final(self).slot_written(
                        *old(self),
                        old(self).readable().root,
                        old(self).readable().freed_root,
                        old(self).readable().transaction_id,
                    )
                    &&& final(self).same_but_image(*old(self))
                },
                CommitEvent::SlotFlushed(Ok(_)) => final(self).primary_swapped(*old(self)),
                CommitEvent::PrimaryFlushed(Ok(_)) => {
                    &&& final(self).committed(*old(self), false)
                    &&& final(self).image() == old(self).image()
                },
                _ => final(self).unchanged(*old(self)),
            },
            match event {
                CommitEvent::Start => action is FlushSlot,
                CommitEvent::SlotFlushed(Ok(_)) => action is FlushPrimary,
                CommitEvent::PrimaryFlushed(Ok(_)) => action == CommitAction::Done(Ok(())),
                CommitEvent::SlotFlushed(Err(e)) => action == CommitAction::Done(Err(e)),
                CommitEvent::PrimaryFlushed(Err(e)) => action == CommitAction::Done(Err(e)),
            },
            final(self).metadata.wf(),
            final(self).has_allocators(),
            old(self).wf() && old(self).commit_in_order(event) ==> {
                &&& final(self).wf()
                &&& regions::state_same(old(self).image(), final(self).image(), old(self).layout)
            },
    {
        let root = self.get_data_root();
        let freed_root = self.get_freed_root();
        match self.get_last_committed_transaction_id() {
            Ok(id) => self.commit(root, freed_root, id, false, event),
            Err(e) => CommitAction::Done(Err(e)),
        }
    }

    /// Whether the step before `event` has been taken.
    pub open spec fn close_in_order(self, event: CloseEvent) -> bool {
        match event {
            CloseEvent::SlotFlushed(flushed) => self.commit_in_order(
                CommitEvent::SlotFlushed(flushed),
            ),
            CloseEvent::PrimaryFlushed(flushed) => self.commit_in_order(
                CommitEvent::PrimaryFlushed(flushed),
            ),
            _ => true,
        }
    }

    /// Closes the file.
    pub fn close(&mut self, event: CloseEvent) -> (action: CloseAction)
        requires
            old(self).metadata.wf(),
            old(self).read_from_secondary || event is SlotFlushed || event is PrimaryFlushed
                ==> old(self).has_allocators(),
        ensures
            old(self).close_stepped(event, *final(self), action),
            old(self).wf() && old(self).close_in_order(event) ==> final(self).wf(),
            old(self).wf() && old(self).close_in_order(event) ==> regions::state_same(
                old(self).image(),
                final(self).image(),
                old(self).layout,
            ),
            final(self).metadata.wf(),
            final(self).has_allocators() == old(self).has_allocators(),
            old(self).state_known() ==> final(self).state_known(),
    {
        let ghost before = *self;
        match event {
            CloseEvent::Start => {
                // Commit any non-durable transactions that are outstanding
                if self.read_from_secondary {
                    self.commit_readable(CommitEvent::Start);
                    CloseAction::FlushSlot
                } else {
                    CloseAction::Flush { commit_failed: false }
                }
            },
            CloseEvent::SlotFlushed(flushed) => {
                match self.commit_readable(CommitEvent::SlotFlushed(flushed)) {
                    CommitAction::Done(_) => CloseAction::Flush { commit_failed: true },
                    _ => CloseAction::FlushPrimary,
                }
            },
            CloseEvent::PrimaryFlushed(flushed) => {
                match self.commit_readable(CommitEvent::PrimaryFlushed(flushed)) {
                    CommitAction::Done(Err(_)) => CloseAction::Flush { commit_failed: true },
                    _ => CloseAction::Flush { commit_failed: false },
                }
            },
            CloseEvent::Flushed(Ok(_)) => {
                if self.regional_allocators.is_some() {
                    self.metadata.set_allocator_dirty(false);
                    proof {
                        if before.wf() {
                            self.lemma_marked_clean(before);
                        }
                    }
                    CloseAction::FlushClean
                } else {
                    CloseAction::Done
                }
            },
            CloseEvent::Flushed(Err(_)) => CloseAction::Done,
            CloseEvent::CleanFlushed(_) => CloseAction::Done,
        }
    }
}

} // verus!
