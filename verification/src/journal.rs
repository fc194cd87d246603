//! What was allocated and freed since the last commit.

use crate::buddy_allocator::BuddyAllocator;
use crate::page_number::PageNumber;
use crate::regions;
use vstd::prelude::*;

verus! {

/// A change to the free pages.
#[derive(Clone, Copy, Debug, PartialEq, Eq, Structural)]
pub enum AllocationOp {
    Allocate(PageNumber),
    Free(PageNumber),
    /// The free of a page that was allocated since the last commit.
    FreeUncommitted(PageNumber),
}

impl AllocationOp {
    pub open spec fn page(self) -> PageNumber {
        match self {
            AllocationOp::Allocate(page) => page,
            AllocationOp::Free(page) => page,
            AllocationOp::FreeUncommitted(page) => page,
        }
    }

    /// The free pages after this change.
    pub open spec fn apply(self, free: Set<(int, int)>) -> Set<(int, int)> {
        match self {
            AllocationOp::Allocate(page) => free.difference(regions::block(page)),
            AllocationOp::Free(page) => free.union(regions::block(page)),
            AllocationOp::FreeUncommitted(page) => free.union(regions::block(page)),
        }
    }

    /// Whether this change can be made where these pages are free.
    pub open spec fn allowed(self, free: Set<(int, int)>) -> bool {
        match self {
            AllocationOp::Allocate(page) => regions::block(page).subset_of(free),
            AllocationOp::Free(page) => regions::block(page).disjoint(free),
            AllocationOp::FreeUncommitted(page) => regions::block(page).disjoint(free),
        }
    }

    /// Whether the change is undone by a free.
    pub open spec fn takes(self) -> bool {
        self is Allocate
    }
}

/// The free pages after the changes of `log`.
pub open spec fn replay(free: Set<(int, int)>, log: Seq<AllocationOp>) -> Set<(int, int)>
    decreases log.len(),
{
    if log.len() == 0 {
        free
    } else {
        log.last().apply(replay(free, log.drop_last()))
    }
}

/// Whether the changes of `log` can be made one after the other.
pub open spec fn replays(free: Set<(int, int)>, log: Seq<AllocationOp>) -> bool
    decreases log.len(),
{
    log.len() > 0 ==> {
        &&& replays(free, log.drop_last())
        &&& log.last().allowed(replay(free, log.drop_last()))
    }
}

/// Every change of `log` is to a block of these regions.
pub open spec fn within(allocators: Seq<BuddyAllocator>, log: Seq<AllocationOp>) -> bool {
    forall|i: int|
        0 <= i < log.len() ==> regions::has_page(allocators, (#[trigger] log[i]).page())
}

/// Undoing a change gives back the pages that were free before it.
pub proof fn lemma_undo(op: AllocationOp, free: Set<(int, int)>)
    requires
        op.allowed(free),
    ensures
        op.takes() ==> op.apply(free).union(regions::block(op.page())) == free,
        op.takes() ==> regions::block(op.page()).disjoint(op.apply(free)),
        !op.takes() ==> op.apply(free).difference(regions::block(op.page())) == free,
        !op.takes() ==> regions::block(op.page()).subset_of(op.apply(free)),
{
    let block = regions::block(op.page());
    if op.takes() {
        assert(op.apply(free).union(block) =~= free);
    } else {
        assert(op.apply(free).difference(block) =~= free);
    }
}

/// A change is added to the end of the log.
pub proof fn lemma_push(free: Set<(int, int)>, log: Seq<AllocationOp>, op: AllocationOp)
    requires
        replays(free, log),
        op.allowed(replay(free, log)),
    ensures
        replays(free, log.push(op)),
        replay(free, log.push(op)) == op.apply(replay(free, log)),
{
    assert(log.push(op).drop_last() =~= log);
}

/// Pages that no change of the log is about can come in at the start.
pub proof fn lemma_more_pages(free: Set<(int, int)>, more: Set<(int, int)>, log: Seq<AllocationOp>)
    requires
        replays(free, log),
        forall|i: int|
            0 <= i < log.len() ==> regions::block((#[trigger] log[i]).page()).disjoint(more),
    ensures
        replays(free.union(more), log),
        replay(free.union(more), log) == replay(free, log).union(more),
    decreases log.len(),
{
    if log.len() > 0 {
        let rest = log.drop_last();
        let op = log.last();
        assert forall|i: int| 0 <= i < rest.len() implies regions::block(
            (#[trigger] rest[i]).page(),
        ).disjoint(more) by {
            assert(rest[i] == log[i]);
        }
        lemma_more_pages(free, more, rest);
        assert(op == log[log.len() - 1]);
        let earlier = replay(free, rest);
        assert(op.apply(earlier.union(more)) =~= op.apply(earlier).union(more));
    }
}

} // verus!
