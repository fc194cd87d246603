//! What an operation asks its caller to do outside the memory, and what the caller reports back.

use crate::error::Error;
use vstd::prelude::*;

verus! {

/// The next thing to do.
#[derive(Debug, PartialEq, Eq)]
pub enum Action<T> {
    /// Bring the memory to the file and wait until it is stored there.
    Flush,
    /// Make the file at least this long.
    Resize(usize),
    /// The operation is over.
    Done(Result<T, Error>),
}

/// What has happened to an operation on the allocators.
#[derive(Debug, PartialEq, Eq)]
pub enum AllocatorEvent {
    Start,
    /// The mark of out-of-date allocators was flushed.
    Flushed(Result<(), Error>),
}

/// What has happened to a growth of the file.
#[derive(Debug, PartialEq, Eq)]
pub enum GrowEvent {
    Start,
    /// The file was resized.
    Resized(Result<(), Error>),
}

/// What has happened to an allocation.
#[derive(Debug, PartialEq, Eq)]
pub enum AllocateEvent {
    Start,
    /// The mark of out-of-date allocators was flushed.
    Flushed(Result<(), Error>),
    /// The file was resized.
    Resized(Result<(), Error>),
}

/// What has happened to a commit.
#[derive(Debug, PartialEq, Eq)]
pub enum CommitEvent {
    Start,
    /// The slot that is not primary was flushed.
    SlotFlushed(Result<(), Error>),
    /// The change of the primary slot was flushed.
    PrimaryFlushed(Result<(), Error>),
}

/// The next thing to do for a commit. Each flush is to bring the memory to the file; where it may be
/// an eventual one, that can be some time soon, in the order of such requests, else it is to wait
/// until the memory is stored there.
#[derive(Debug, PartialEq, Eq)]
pub enum CommitAction {
    /// Flush the slot that is not primary.
    FlushSlot { eventual: bool },
    /// Flush the change of the primary slot.
    FlushPrimary { eventual: bool },
    /// The commit is over.
    Done(Result<(), Error>),
}

/// What has happened to a repair of the allocators.
#[derive(Debug, PartialEq, Eq)]
pub enum RepairEvent {
    Start,
    /// The mark of out-of-date allocators was flushed.
    Flushed(Result<(), Error>),
    /// The new state of the allocators was flushed.
    StateFlushed(Result<(), Error>),
    /// The mark of up-to-date allocators was flushed.
    CleanFlushed(Result<(), Error>),
}

/// The next thing to do for a repair of the allocators. Each flush is to bring the memory to the file
/// and to wait until it is stored there.
#[derive(Debug, PartialEq, Eq)]
pub enum RepairAction {
    /// Flush the mark of out-of-date allocators.
    FlushMark,
    /// Flush the new state of the allocators.
    FlushState,
    /// Flush the mark of up-to-date allocators.
    FlushClean,
    /// The repair is over.
    Done(Result<(), Error>),
}

/// What has happened to the closing of a file.
#[derive(Debug, PartialEq, Eq)]
pub enum CloseEvent {
    Start,
    /// The slot that is not primary was flushed.
    SlotFlushed(Result<(), Error>),
    /// The change of the primary slot was flushed.
    PrimaryFlushed(Result<(), Error>),
    /// The memory was flushed.
    Flushed(Result<(), Error>),
    /// The mark of up-to-date allocators was flushed.
    CleanFlushed(Result<(), Error>),
}

/// The next thing to do for the closing of a file. Each flush is to bring the memory to the file
/// and to wait until it is stored there.
#[derive(Debug, PartialEq, Eq)]
pub enum CloseAction {
    /// Flush the slot that is not primary.
    FlushSlot,
    /// Flush the change of the primary slot.
    FlushPrimary,
    /// Flush the memory. If a non-durable commit could not be made durable, the database may have
    /// rolled back, and that is to be reported.
    Flush { commit_failed: bool },
    /// Flush the mark of up-to-date allocators.
    FlushClean,
    /// The file is closed.
    Done,
}

} // verus!
