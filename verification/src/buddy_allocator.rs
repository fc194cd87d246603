//! Allocation of power-of-two blocks of pages inside one region.
//!
//! The allocator keeps its state in the header of the region: one bit per node of the buddy trees.
//! The value itself holds only the geometry.

use crate::buddy_tree;
use crate::bytes::fill_zero;
use crate::error::Error;
use crate::grouped_bitmap;
use crate::grouped_bitmap::{get_bit, set_bit};
use crate::math;
use crate::math::{ceil_log2, exp2, floor_log2};
use vstd::prelude::*;

verus! {

/// Whether page `i` belongs to block `page` of order `order`.
pub open spec fn in_block(i: int, page: int, order: int) -> bool {
    page * math::pow2(order) <= i < (page + 1) * math::pow2(order)
}

/// The lowest flag that is set among the nodes `lo .. hi`.
pub open spec fn lowest(t: Seq<bool>, lo: int, hi: int) -> Option<int>
    decreases hi - lo,
{
    if lo >= hi {
        None
    } else if t[lo] {
        Some(lo)
    } else {
        lowest(t, lo + 1, hi)
    }
}

/// The block that a request for a block among the nodes `base .. 2 * base` is given: the lowest
/// free block of that size, and where there is none, the lower half of the block that a request
/// for the next larger size is given.
pub open spec fn choice(t: Seq<bool>, base: int, top: int) -> Option<int>
    decreases base,
{
    match lowest(t, base, 2 * base) {
        Some(n) => Some(n),
        None => if 1 <= top <= base / 2 {
            match choice(t, base / 2, top) {
                Some(n) => Some(2 * n),
                None => None,
            }
        } else {
            None
        },
    }
}

/// How many of the pages `0 .. n` are free.
pub open spec fn count_covered(t: Seq<bool>, cap: int, n: int) -> nat
    decreases n,
{
    if n <= 0 {
        0
    } else {
        count_covered(t, cap, n - 1) + (if buddy_tree::covered(t, cap + n - 1) {
            1nat
        } else {
            0nat
        })
    }
}

/// A node of the tree of height `height` holds the pages of the block that it stands for.
pub proof fn lemma_block_under(height: int, order: int, page: int, i: int)
    requires
        0 <= order <= height,
        0 <= page < math::pow2(height - order),
        0 <= i < math::pow2(height),
    ensures
        buddy_tree::under(math::pow2(height) + i, math::pow2(height - order) + page) == in_block(
            i,
            page,
            order,
        ),
    decreases order,
{
    math::lemma_pow2_positive(height - order);
    if order == 0 {
        math::lemma_pow2_zero();
        assert(page * 1 == page && (page + 1) * 1 == page + 1);
        let cap = math::pow2(height);
        if cap + i > cap + page {
            buddy_tree::lemma_under_small((cap + i) / 2, cap + page);
        }
    } else {
        math::lemma_pow2_step(height);
        math::lemma_pow2_step(order);
        math::lemma_pow2_le(height - order + 1, height);
        math::lemma_pow2_step(height - order + 1);
        let half = math::pow2(height - 1);
        let size = math::pow2(order - 1);
        assert((2 * half + i) / 2 == half + i / 2);
        assert((height - 1) - (order - 1) == height - order);
        lemma_block_under(height - 1, order - 1, page, i / 2);
        assert(page * (2 * size) == 2 * (page * size)) by (nonlinear_arith);
        assert((page + 1) * (2 * size) == 2 * ((page + 1) * size)) by (nonlinear_arith);
        let from = page * size;
        let to = (page + 1) * size;
        assert((2 * from <= i < 2 * to) == (from <= i / 2 < to));
    }
}

/// A flag below the roots covers nothing.
proof fn lemma_uncovered_above(t: Seq<bool>, cap: int, top: int, pages: int, m: int)
    requires
        buddy_tree::tree_wf(t, cap, top, pages),
        0 <= m < top,
    ensures
        !buddy_tree::covered(t, m),
    decreases m,
{
    if m > 0 {
        lemma_uncovered_above(t, cap, top, pages, m / 2);
    }
}

proof fn lemma_lowest(t: Seq<bool>, lo: int, hi: int)
    ensures
        match lowest(t, lo, hi) {
            Some(n) => lo <= n < hi && t[n] && forall|m: int| lo <= m < n ==> !t[m],
            None => forall|m: int| lo <= m < hi ==> !t[m],
        },
    decreases hi - lo,
{
    if lo < hi && !t[lo] {
        lemma_lowest(t, lo + 1, hi);
    }
}

/// What is chosen is free, and nothing is chosen only where nothing of that size is free.
pub proof fn lemma_choice(t: Seq<bool>, cap: int, top: int, pages: int, level: int, levels: int)
    requires
        buddy_tree::tree_wf(t, cap, top, pages),
        0 <= levels <= level,
        top == math::pow2(levels),
        math::pow2(level) <= cap,
    ensures
        match choice(t, math::pow2(level), top) {
            Some(n) => math::pow2(level) <= n < 2 * math::pow2(level) && buddy_tree::covered(t, n),
            None => forall|n: int|
                math::pow2(level) <= n < 2 * math::pow2(level) ==> !#[trigger] buddy_tree::covered(
                    t,
                    n,
                ),
        },
    decreases level,
{
    let base = math::pow2(level);
    math::lemma_pow2_positive(level);
    lemma_lowest(t, base, 2 * base);
    if lowest(t, base, 2 * base) is None {
        if level > levels {
            math::lemma_pow2_step(level);
            math::lemma_pow2_le(levels, level - 1);
            assert(base / 2 == math::pow2(level - 1));
            lemma_choice(t, cap, top, pages, level - 1, levels);
            match choice(t, base / 2, top) {
                Some(n) => {
                    assert((2 * n) / 2 == n);
                    assert(buddy_tree::covered(t, 2 * n));
                },
                None => {
                    assert forall|n: int| base <= n < 2 * base implies !#[trigger] buddy_tree::covered(
                        t,
                        n,
                    ) by {
                        assert(!buddy_tree::covered(t, n / 2));
                    }
                },
            }
        } else {
            assert(base == top);
            assert(!(1 <= top <= base / 2));
            assert forall|n: int| base <= n < 2 * base implies !#[trigger] buddy_tree::covered(t, n) by {
                lemma_uncovered_above(t, cap, top, pages, n / 2);
            }
        }
    }
}

/// The geometry of a region's allocator.
#[derive(Clone, Copy, Debug, PartialEq, Eq, Structural)]
pub struct BuddyAllocator {
    /// The pages that the region has now.
    pub num_pages: usize,
    /// The largest order that is handed out.
    pub max_order: usize,
    /// The trees have room for `2` to the power of this many pages.
    pub height: usize,
}

impl BuddyAllocator {
    pub open spec fn cap(self) -> int {
        math::pow2(self.height as int)
    }

    pub open spec fn top(self) -> int {
        math::pow2(self.height - self.max_order)
    }

    /// The geometry is one that the trees have room for.
    pub open spec fn valid(self) -> bool {
        &&& self.max_order <= self.height
        &&& 2 * self.cap() <= usize::MAX
        &&& self.num_pages <= self.cap()
    }

    /// The flags that `mem` holds.
    pub open spec fn tree(self, mem: Seq<u8>) -> Seq<bool> {
        grouped_bitmap::bits(mem, (2 * self.cap()) as nat)
    }

    /// `mem` has room for the state of this allocator.
    pub open spec fn fits(self, mem: Seq<u8>) -> bool {
        &&& self.valid()
        &&& 2 * self.cap() <= 8 * mem.len()
    }

    /// `mem` holds the state of this allocator.
    pub open spec fn wf(self, mem: Seq<u8>) -> bool {
        &&& self.valid()
        &&& 2 * self.cap() <= 8 * mem.len()
        &&& buddy_tree::tree_wf(self.tree(mem), self.cap(), self.top(), self.num_pages as int)
    }

    /// Whether page `i` is free.
    pub open spec fn page_free(self, mem: Seq<u8>, i: int) -> bool {
        0 <= i < self.cap() && buddy_tree::covered(self.tree(mem), self.cap() + i)
    }

    /// The node of block `page` of order `order`.
    pub open spec fn node(self, page: int, order: int) -> int {
        math::pow2(self.height - order) + page
    }

    /// Whether block `page` of order `order` is one of this region.
    pub open spec fn has_block(self, page: int, order: int) -> bool {
        &&& 0 <= page
        &&& 0 <= order <= self.max_order
        &&& (page + 1) * math::pow2(order) <= self.num_pages
    }

    /// Whether every page of the block is free.
    pub open spec fn block_free(self, mem: Seq<u8>, page: int, order: int) -> bool {
        forall|i: int| #![trigger self.page_free(mem, i)]
            in_block(i, page, order) ==> self.page_free(mem, i)
    }

    /// Whether no page of the block is free.
    pub open spec fn block_taken(self, mem: Seq<u8>, page: int, order: int) -> bool {
        forall|i: int| #![trigger self.page_free(mem, i)]
            in_block(i, page, order) ==> !self.page_free(mem, i)
    }

    /// The block that the next request of order `order` is given.
    pub open spec fn next_block(self, mem: Seq<u8>, order: int) -> Option<int> {
        if order > self.max_order {
            None
        } else {
            let base = math::pow2(self.height - order);
            match choice(self.tree(mem), base, self.top()) {
                Some(n) => Some(n - base),
                None => None,
            }
        }
    }

    /// How many pages are free.
    pub open spec fn free_count(self, mem: Seq<u8>) -> nat {
        count_covered(self.tree(mem), self.cap(), self.num_pages as int)
    }

    /// The bytes that the state of a region of up to `max_page_capacity` pages takes.
    pub open spec fn spec_required_space(max_page_capacity: int) -> int {
        (2 * math::pow2(math::log2_ceil(max_page_capacity)) + 7) / 8
    }

    /// The bytes that the state of a region of up to `max_page_capacity` pages takes.
    pub fn required_space(max_page_capacity: usize) -> (bytes: usize)
        requires
            max_page_capacity <= (usize::MAX / 2 + 1) / 4,
        ensures
            bytes == Self::spec_required_space(max_page_capacity as int),
    {
        let height = ceil_log2(max_page_capacity);
        proof {
            lemma_height_fits(max_page_capacity as int);
        }
        (2 * exp2(height) + 7) / 8
    }

    /// The allocator of a region of `num_pages` pages that may grow to `max_page_capacity`.
    pub fn new(num_pages: usize, max_page_capacity: usize, max_order: usize) -> (allocator: Self)
        requires
            num_pages <= max_page_capacity <= (usize::MAX / 2 + 1) / 4,
            math::pow2(max_order as int) <= max_page_capacity,
        ensures
            allocator.valid(),
            allocator.num_pages == num_pages,
            allocator.max_order == max_order,
            allocator.height == math::log2_ceil(max_page_capacity as int),
    {
        let height = ceil_log2(max_page_capacity);
        proof {
            lemma_height_fits(max_page_capacity as int);
            if max_order > height {
                math::lemma_pow2_lt(height as int, max_order as int);
            }
        }
        BuddyAllocator { num_pages, max_order, height }
    }
}

impl BuddyAllocator {
    /// A block of the region is a node between the roots and the leaves, and holds the pages of
    /// the block.
    proof fn lemma_node(self, page: int, order: int)
        requires
            self.valid(),
            self.has_block(page, order),
        ensures
            page < math::pow2(self.height - order),
            1 <= self.top() <= self.node(page, order) < 2 * self.cap(),
            self.top() <= self.cap(),
            forall|i: int| #![trigger buddy_tree::under(self.cap() + i, self.node(page, order))]
                0 <= i < self.cap() ==> buddy_tree::under(self.cap() + i, self.node(page, order))
                    == in_block(i, page, order),
            buddy_tree::within(self.cap(), self.num_pages as int, self.node(page, order)),
            forall|i: int| #[trigger] in_block(i, page, order) ==> 0 <= i < self.num_pages,
    {
        let height = self.height as int;
        let size = math::pow2(order);
        let count = math::pow2(height - order);
        math::lemma_pow2_positive(order);
        math::lemma_pow2_positive(height - self.max_order);
        math::lemma_pow2_add(height - order, order);
        math::lemma_pow2_le(height - self.max_order, height - order);
        math::lemma_pow2_le(height - order, height);
        math::lemma_pow2_le(height - self.max_order, height);
        assert(page + 1 <= count) by (nonlinear_arith)
            requires
                (page + 1) * size <= count * size,
                size >= 1,
        ;
        assert forall|i: int| #![trigger buddy_tree::under(self.cap() + i, self.node(page, order))]
            0 <= i < self.cap() implies buddy_tree::under(self.cap() + i, self.node(page, order))
            == in_block(i, page, order) by {
            lemma_block_under(height, order, page, i);
        }
        assert(page * size >= 0) by (nonlinear_arith)
            requires
                page >= 0,
                size >= 1,
        ;
    }

    proof fn lemma_tree_update(self, before: Seq<u8>, after: Seq<u8>, n: int, value: bool)
        requires
            0 <= n < 2 * self.cap() <= 8 * before.len(),
            grouped_bitmap::bit_written(before, after, n, value),
        ensures
            self.tree(after) == self.tree(before).update(n, value),
    {
        assert(self.tree(after) =~= self.tree(before).update(n, value));
    }

    /// Takes block `page` of order `order`, all of whose pages are free.
    pub fn record_alloc(&self, mem: &mut [u8], page: usize, order: usize)
        requires
            self.wf(old(mem)@),
            self.has_block(page as int, order as int),
            self.block_free(old(mem)@, page as int, order as int),
        ensures
            final(mem)@.len() == old(mem)@.len(),
            self.wf(final(mem)@),
            forall|i: int| #![trigger self.page_free(final(mem)@, i)]
                self.page_free(final(mem)@, i) == (self.page_free(old(mem)@, i) && !in_block(
                    i,
                    page as int,
                    order as int,
                )),
    {
        let ghost before = mem@;
        let ghost t0 = self.tree(before);
        let ghost cap = self.cap();
        let ghost top = self.top();
        let ghost pages = self.num_pages as int;
        proof {
            self.lemma_node(page as int, order as int);
            math::lemma_pow2_le(self.height - order, self.height as int);
            let n = self.node(page as int, order as int);
            assert forall|i: int| #![trigger buddy_tree::under(cap + i, n)]
                0 <= i < cap && buddy_tree::under(cap + i, n) implies buddy_tree::covered(
                t0,
                cap + i,
            ) by {
                assert(self.page_free(before, i));
            }
            buddy_tree::lemma_all_leaves_covered(t0, cap, top, pages, n);
        }
        let target: usize = exp2(self.height - order) + page;
        let mut cur: usize = target;
        while !get_bit(mem, cur)
            invariant
                mem@ == before,
                self.wf(before),
                t0 == self.tree(before),
                cap == self.cap(),
                1 <= cur <= target < 2 * cap,
                2 * cap <= 8 * before.len(),
                buddy_tree::covered(t0, cur as int),
                buddy_tree::under(target as int, cur as int),
            decreases cur,
        {
            proof {
                assert(t0[cur as int] == grouped_bitmap::bit(before, cur as int));
                if cur == 1 {
                    assert(!buddy_tree::covered(t0, 0));
                }
                assert(buddy_tree::under(cur as int / 2, cur as int / 2));
                buddy_tree::lemma_under_step(cur as int, cur as int / 2);
                buddy_tree::lemma_under_trans(target as int, cur as int, cur as int / 2);
            }
            cur = cur / 2;
        }
        proof {
            assert(t0[cur as int] == grouped_bitmap::bit(before, cur as int));
            buddy_tree::lemma_clear(t0, cap, top, pages, cur as int);
        }
        set_bit(mem, cur, false);
        proof {
            self.lemma_tree_update(before, mem@, cur as int, false);
            assert forall|m: int| 0 <= m < 2 * cap implies #[trigger] buddy_tree::covered(
                self.tree(mem@),
                m,
            ) == (buddy_tree::covered(t0, m) && !buddy_tree::under(m, cur as int)) by {
                buddy_tree::lemma_covered_clear(t0, cap, top, pages, cur as int, m);
            }
        }
        while cur != target
            invariant
                self.valid(),
                mem@.len() == before.len(),
                t0 == self.tree(before),
                cap == self.cap(),
                top == self.top(),
                pages == self.num_pages,
                2 * cap <= 8 * before.len(),
                1 <= top <= cur <= target < 2 * cap,
                buddy_tree::covered(t0, cur as int),
                buddy_tree::under(target as int, cur as int),
                buddy_tree::tree_wf(self.tree(mem@), cap, top, pages),
                buddy_tree::untouched(self.tree(mem@), cap, cur as int),
                buddy_tree::within(cap, pages, cur as int),
                forall|m: int|
                    cap <= m < 2 * cap ==> #[trigger] buddy_tree::covered(self.tree(mem@), m) == (
                    buddy_tree::covered(t0, m) && !buddy_tree::under(m, cur as int)),
            decreases target - cur,
        {
            let mut child: usize = target;
            while child / 2 != cur
                invariant
                    1 <= cur < child <= target,
                    buddy_tree::under(target as int, child as int),
                    buddy_tree::under(child as int, cur as int),
                decreases child,
            {
                proof {
                    buddy_tree::lemma_under_step(child as int, cur as int);
                    buddy_tree::lemma_under_ge(child as int / 2, cur as int);
                    assert(buddy_tree::under(child as int / 2, child as int / 2));
                    buddy_tree::lemma_under_step(child as int, child as int / 2);
                    buddy_tree::lemma_under_trans(target as int, child as int, child as int / 2);
                }
                child = child / 2;
            }
            let other: usize = if child % 2 == 0 {
                child + 1
            } else {
                child - 1
            };
            let ghost earlier = mem@;
            proof {
                buddy_tree::lemma_sibling(child as int);
                buddy_tree::lemma_split(self.tree(earlier), cap, top, pages, child as int);
            }
            set_bit(mem, other, true);
            proof {
                self.lemma_tree_update(earlier, mem@, other as int, true);
                assert forall|m: int| cap <= m < 2 * cap implies #[trigger] buddy_tree::covered(
                    self.tree(mem@),
                    m,
                ) == (buddy_tree::covered(t0, m) && !buddy_tree::under(m, child as int)) by {
                    buddy_tree::lemma_covered_set(self.tree(earlier), other as int, m);
                    buddy_tree::lemma_under_children(m, cur as int);
                    if buddy_tree::under(m, other as int) {
                        buddy_tree::lemma_covered_mono(t0, m, cur as int);
                    }
                }
                assert(child as int / 2 == cur);
                buddy_tree::lemma_covered_mono(t0, child as int, cur as int);
            }
            cur = child;
        }
        proof {
            assert forall|i: int| #![trigger self.page_free(mem@, i)] self.page_free(mem@, i) == (
            self.page_free(before, i) && !in_block(i, page as int, order as int)) by {
                if 0 <= i < cap {
                    assert(buddy_tree::under(cap + i, target as int) == in_block(
                        i,
                        page as int,
                        order as int,
                    ));
                }
            }
        }
    }
}

impl BuddyAllocator {
    /// Gives back block `page` of order `order`, none of whose pages is free.
    pub fn free(&self, mem: &mut [u8], page: usize, order: usize)
        requires
            self.wf(old(mem)@),
            self.has_block(page as int, order as int),
            self.block_taken(old(mem)@, page as int, order as int),
        ensures
            final(mem)@.len() == old(mem)@.len(),
            self.wf(final(mem)@),
            forall|i: int| #![trigger self.page_free(final(mem)@, i)]
                self.page_free(final(mem)@, i) == (self.page_free(old(mem)@, i) || in_block(
                    i,
                    page as int,
                    order as int,
                )),
    {
        let ghost before = mem@;
        let ghost t0 = self.tree(before);
        let ghost cap = self.cap();
        let ghost pages = self.num_pages as int;
        let ghost n0 = self.node(page as int, order as int);
        proof {
            self.lemma_node(page as int, order as int);
            math::lemma_pow2_le(self.height - order, self.height as int);
            math::lemma_pow2_le(self.height - self.max_order, self.height as int);
            assert forall|i: int| #![trigger buddy_tree::under(cap + i, n0)]
                0 <= i < cap && buddy_tree::under(cap + i, n0) implies !buddy_tree::covered(
                t0,
                cap + i,
            ) by {
                assert(!self.page_free(before, i));
            }
            buddy_tree::lemma_untouched(t0, cap, self.top(), pages, n0);
        }
        let top: usize = exp2(self.height - self.max_order);
        let mut cur: usize = exp2(self.height - order) + page;
        let mut merging: bool = true;
        while merging
            invariant
                self.valid(),
                mem@.len() == before.len(),
                t0 == self.tree(before),
                cap == self.cap(),
                top == self.top(),
                pages == self.num_pages,
                2 * cap <= 8 * before.len(),
                1 <= top <= cur < 2 * cap,
                1 <= n0 < 2 * cap,
                buddy_tree::tree_wf(self.tree(mem@), cap, top as int, pages),
                buddy_tree::untouched(self.tree(mem@), cap, cur as int),
                buddy_tree::within(cap, pages, cur as int),
                !merging && top <= cur / 2 ==> !self.tree(mem@)[buddy_tree::sibling(cur as int)],
                forall|m: int|
                    cap <= m < 2 * cap ==> (#[trigger] buddy_tree::covered(self.tree(mem@), m)
                        || buddy_tree::under(m, cur as int)) == (buddy_tree::covered(t0, m)
                        || buddy_tree::under(m, n0)),
            decreases cur + (if merging {
                    1int
                } else {
                    0int
                }),
        {
            let other: usize = if cur % 2 == 0 {
                cur + 1
            } else {
                cur - 1
            };
            assert(other < 2 * cap);
            assert(self.tree(mem@)[other as int] == grouped_bitmap::bit(mem@, other as int));
            if cur / 2 >= top && get_bit(mem, other) {
                let ghost earlier = mem@;
                let ghost parent = cur as int / 2;
                proof {
                    buddy_tree::lemma_sibling(cur as int);
                    buddy_tree::lemma_merge(self.tree(earlier), cap, top as int, pages, cur as int);
                }
                set_bit(mem, other, false);
                cur = cur / 2;
                proof {
                    self.lemma_tree_update(earlier, mem@, other as int, false);
                    assert forall|m: int| cap <= m < 2 * cap implies (#[trigger] buddy_tree::covered(
                        self.tree(mem@),
                        m,
                    ) || buddy_tree::under(m, cur as int)) == (buddy_tree::covered(t0, m)
                        || buddy_tree::under(m, n0)) by {
                        buddy_tree::lemma_covered_clear(
                            self.tree(earlier),
                            cap,
                            top as int,
                            pages,
                            other as int,
                            m,
                        );
                        assert(cur == parent);
                        buddy_tree::lemma_under_children(m, parent);
                        assert(buddy_tree::covered(self.tree(earlier), other as int));
                        if buddy_tree::under(m, other as int) {
                            buddy_tree::lemma_covered_mono(self.tree(earlier), m, other as int);
                        }
                    }
                }
            } else {
                merging = false;
            }
        }
        let ghost earlier = mem@;
        proof {
            buddy_tree::lemma_set(self.tree(earlier), cap, top as int, pages, cur as int);
        }
        set_bit(mem, cur, true);
        proof {
            self.lemma_tree_update(earlier, mem@, cur as int, true);
            assert forall|i: int| #![trigger self.page_free(mem@, i)] self.page_free(mem@, i) == (
            self.page_free(before, i) || in_block(i, page as int, order as int)) by {
                if 0 <= i < cap {
                    buddy_tree::lemma_covered_set(self.tree(earlier), cur as int, cap + i);
                    assert(buddy_tree::under(cap + i, n0) == in_block(
                        i,
                        page as int,
                        order as int,
                    ));
                }
            }
        }
    }

    /// The free block for a request among the nodes at depth `level`.
    fn find(&self, mem: &[u8], level: usize) -> (found: Option<usize>)
        requires
            self.wf(mem@),
            self.height - self.max_order <= level <= self.height,
        ensures
            match found {
                Some(n) => choice(self.tree(mem@), math::pow2(level as int), self.top()) == Some(
                    n as int,
                ),
                None => choice(self.tree(mem@), math::pow2(level as int), self.top()) is None,
            },
        decreases level,
    {
        let ghost t = self.tree(mem@);
        proof {
            math::lemma_pow2_le(level as int, self.height as int);
            math::lemma_pow2_positive(level as int);
            math::lemma_pow2_positive(self.height - self.max_order);
        }
        let base: usize = exp2(level);
        let mut n: usize = base;
        while n < 2 * base
            invariant
                base <= n <= 2 * base,
                base == math::pow2(level as int),
                2 * base <= 2 * self.cap() <= usize::MAX,
                2 * self.cap() <= 8 * mem@.len(),
                t == self.tree(mem@),
                lowest(t, base as int, 2 * base) == lowest(t, n as int, 2 * base),
            decreases 2 * base - n,
        {
            assert(t[n as int] == grouped_bitmap::bit(mem@, n as int));
            if get_bit(mem, n) {
                return Some(n);
            }
            n = n + 1;
        }
        if self.height - self.max_order < level {
            proof {
                math::lemma_pow2_step(level as int);
                math::lemma_pow2_le(self.height - self.max_order, level - 1);
                lemma_choice(
                    t,
                    self.cap(),
                    self.top(),
                    self.num_pages as int,
                    level - 1,
                    self.height - self.max_order,
                );
            }
            match self.find(mem, level - 1) {
                Some(m) => Some(2 * m),
                None => None,
            }
        } else {
            None
        }
    }

    /// Whether a request of order `order` would be given a block.
    pub fn has_next_block(&self, mem: &[u8], order: usize) -> (yes: bool)
        requires
            self.wf(mem@),
        ensures
            yes == (self.next_block(mem@, order as int) is Some),
    {
        order <= self.max_order && self.find(mem, self.height - order).is_some()
    }

    /// Takes a block of order `order`.
    pub fn allocate(&self, mem: &mut [u8], order: usize) -> (taken: Result<usize, Error>)
        requires
            self.wf(old(mem)@),
        ensures
            final(mem)@.len() == old(mem)@.len(),
            self.wf(final(mem)@),
            match taken {
                Ok(page) => {
                    &&& self.next_block(old(mem)@, order as int) == Some(page as int)
                    &&& self.has_block(page as int, order as int)
                    &&& self.block_free(old(mem)@, page as int, order as int)
                    &&& forall|i: int| #![trigger self.page_free(final(mem)@, i)]
                        self.page_free(final(mem)@, i) == (self.page_free(old(mem)@, i)
                            && !in_block(i, page as int, order as int))
                },
                Err(e) => {
                    &&& e == Error::OutOfSpace
                    &&& self.next_block(old(mem)@, order as int) is None
                    &&& forall|page: int|
                        self.has_block(page, order as int) ==> !#[trigger] self.block_free(
                            old(mem)@,
                            page,
                            order as int,
                        )
                    &&& final(mem)@ == old(mem)@
                },
            },
    {
        if order > self.max_order {
            return Err(Error::OutOfSpace);
        }
        let ghost before = mem@;
        let ghost t = self.tree(before);
        let level: usize = self.height - order;
        proof {
            math::lemma_pow2_le(level as int, self.height as int);
            lemma_choice(
                t,
                self.cap(),
                self.top(),
                self.num_pages as int,
                level as int,
                self.height - self.max_order,
            );
        }
        match self.find(mem, level) {
            Some(n) => {
                let page: usize = n - exp2(level);
                proof {
                    self.lemma_covered_block(before, page as int, order as int);
                }
                self.record_alloc(mem, page, order);
                Ok(page)
            },
            None => {
                proof {
                    assert forall|page: int| self.has_block(page, order as int) implies !#[trigger] self.block_free(
                        before,
                        page,
                        order as int,
                    ) by {
                        self.lemma_node(page, order as int);
                        let n = self.node(page, order as int);
                        assert(!buddy_tree::covered(t, n));
                        if self.block_free(before, page, order as int) {
                            assert forall|i: int|
                                #![trigger buddy_tree::under(self.cap() + i, n)]
                                0 <= i < self.cap() && buddy_tree::under(
                                    self.cap() + i,
                                    n,
                                ) implies buddy_tree::covered(t, self.cap() + i) by {
                                assert(self.page_free(before, i));
                            }
                            buddy_tree::lemma_all_leaves_covered(
                                t,
                                self.cap(),
                                self.top(),
                                self.num_pages as int,
                                n,
                            );
                        }
                    }
                }
                Err(Error::OutOfSpace)
            },
        }
    }

    /// A request is given a block of the region with only free pages, and it is given one unless
    /// there is none of its size.
    pub proof fn lemma_next_block(self, mem: Seq<u8>, order: int)
        requires
            self.wf(mem),
            0 <= order,
        ensures
            match self.next_block(mem, order) {
                Some(page) => self.has_block(page, order) && self.block_free(mem, page, order),
                None => forall|page: int|
                    self.has_block(page, order) ==> !#[trigger] self.block_free(mem, page, order),
            },
    {
        let t = self.tree(mem);
        let level = self.height - order;
        if order <= self.max_order {
            math::lemma_pow2_le(level, self.height as int);
            lemma_choice(
                t,
                self.cap(),
                self.top(),
                self.num_pages as int,
                level,
                self.height - self.max_order,
            );
            match self.next_block(mem, order) {
                Some(page) => {
                    self.lemma_covered_block(mem, page, order);
                },
                None => {
                    assert forall|page: int| self.has_block(page, order) implies !#[trigger] self.block_free(
                        mem,
                        page,
                        order,
                    ) by {
                        self.lemma_node(page, order);
                        let n = self.node(page, order);
                        assert(!buddy_tree::covered(t, n));
                        if self.block_free(mem, page, order) {
                            assert forall|i: int|
                                #![trigger buddy_tree::under(self.cap() + i, n)]
                                0 <= i < self.cap() && buddy_tree::under(
                                    self.cap() + i,
                                    n,
                                ) implies buddy_tree::covered(t, self.cap() + i) by {
                                assert(self.page_free(mem, i));
                            }
                            buddy_tree::lemma_all_leaves_covered(
                                t,
                                self.cap(),
                                self.top(),
                                self.num_pages as int,
                                n,
                            );
                        }
                    }
                },
            }
        }
    }

    /// A covered node is a block of the region with only free pages.
    proof fn lemma_covered_block(self, mem: Seq<u8>, page: int, order: int)
        requires
            self.wf(mem),
            0 <= order <= self.max_order,
            0 <= page < math::pow2(self.height - order),
            buddy_tree::covered(self.tree(mem), self.node(page, order)),
        ensures
            self.has_block(page, order),
            self.block_free(mem, page, order),
    {
        let t = self.tree(mem);
        let cap = self.cap();
        let n = self.node(page, order);
        let size = math::pow2(order);
        math::lemma_pow2_add(self.height - order, order);
        math::lemma_pow2_positive(order);
        math::lemma_pow2_positive(self.height - order);
        let count = math::pow2(self.height - order);
        assert((page + 1) * size <= cap) by (nonlinear_arith)
            requires
                page + 1 <= count,
                size >= 1,
                cap == count * size,
        ;
        assert(page * size >= 0) by (nonlinear_arith)
            requires
                page >= 0,
                size >= 1,
        ;
        assert((page + 1) * size == page * size + size) by (nonlinear_arith);
        assert forall|i: int| #![trigger self.page_free(mem, i)] in_block(i, page, order) implies self.page_free(
            mem,
            i,
        ) && i < self.num_pages by {
            lemma_block_under(self.height as int, order, page, i);
            buddy_tree::lemma_covered_mono(t, cap + i, n);
            self.lemma_free_in_range(mem, i);
        }
        let last = (page + 1) * size - 1;
        assert(in_block(last, page, order));
        assert(self.page_free(mem, last));
    }

    /// Only pages of the region are free.
    pub proof fn lemma_free_in_range(self, mem: Seq<u8>, i: int)
        requires
            self.wf(mem),
            self.page_free(mem, i),
        ensures
            0 <= i < self.num_pages,
    {
        let cap = self.cap();
        let n = lemma_covering_flag(self.tree(mem), cap + i);
        assert(buddy_tree::under(cap + i, n));
        assert(self.tree(mem)[n]);
        assert(buddy_tree::within(cap, self.num_pages as int, n));
    }
}

impl BuddyAllocator {
    /// Extends the region to `num_pages` pages; the pages that come in are free.
    pub fn resize(&mut self, mem: &mut [u8], num_pages: usize)
        requires
            old(self).wf(old(mem)@),
            old(self).num_pages <= num_pages <= old(self).cap(),
        ensures
            *final(self) == (BuddyAllocator { num_pages, ..*old(self) }),
            final(mem)@.len() == old(mem)@.len(),
            final(self).wf(final(mem)@),
            forall|i: int| #![trigger final(self).page_free(final(mem)@, i)]
                final(self).page_free(final(mem)@, i) == (old(self).page_free(old(mem)@, i) || old(
                    self,
                ).num_pages <= i < num_pages),
    {
        let ghost before = mem@;
        let ghost earlier = *self;
        let first: usize = self.num_pages;
        self.num_pages = num_pages;
        proof {
            assert(self.tree(before) == earlier.tree(before));
            assert forall|n: int| #![trigger self.tree(before)[n]]
                0 <= n < 2 * self.cap() && self.tree(before)[n] implies buddy_tree::within(
                self.cap(),
                num_pages as int,
                n,
            ) by {
                assert(buddy_tree::within(self.cap(), first as int, n));
            }
        }
        let mut next: usize = first;
        while next < num_pages
            invariant
                *self == (BuddyAllocator { num_pages, ..earlier }),
                earlier.num_pages == first,
                earlier.wf(before),
                first <= next <= num_pages <= self.cap(),
                mem@.len() == before.len(),
                self.wf(mem@),
                forall|i: int| #![trigger self.page_free(mem@, i)]
                    self.page_free(mem@, i) == (earlier.page_free(before, i) || first <= i < next),
            decreases num_pages - next,
        {
            proof {
                math::lemma_pow2_zero();
                assert forall|i: int| in_block(i, next as int, 0) <==> i == next by {
                    assert(next * math::pow2(0) == next);
                    assert((next + 1) * math::pow2(0) == next + 1);
                }
                assert((next + 1) * math::pow2(0) == next + 1);
                if earlier.page_free(before, next as int) {
                    earlier.lemma_free_in_range(before, next as int);
                }
            }
            self.free(mem, next, 0);
            next = next + 1;
        }
    }

    /// The state of a region is one of a region with more pages, of which the added ones are taken.
    pub proof fn lemma_more_pages(self, larger: Self, mem: Seq<u8>)
        requires
            self.wf(mem),
            self.num_pages <= larger.num_pages <= self.cap(),
            larger.max_order == self.max_order,
            larger.height == self.height,
        ensures
            larger.wf(mem),
            forall|i: int| #[trigger] larger.page_free(mem, i) == self.page_free(mem, i),
    {
        assert(larger.tree(mem) == self.tree(mem));
        assert forall|n: int| #![trigger larger.tree(mem)[n]]
            0 <= n < 2 * self.cap() && larger.tree(mem)[n] implies buddy_tree::within(
            self.cap(),
            larger.num_pages as int,
            n,
        ) by {
            assert(buddy_tree::within(self.cap(), self.num_pages as int, n));
        }
    }

    /// Makes the region one of `num_pages` pages. Pages that go are no longer free, pages that come
    /// in are not free either.
    pub fn confine(&mut self, mem: &mut [u8], num_pages: usize)
        requires
            old(self).wf(old(mem)@),
            num_pages <= old(self).cap(),
        ensures
            *final(self) == (BuddyAllocator { num_pages, ..*old(self) }),
            final(mem)@.len() == old(mem)@.len(),
            final(self).wf(final(mem)@),
            forall|i: int| #![trigger final(self).page_free(final(mem)@, i)]
                final(self).page_free(final(mem)@, i) == (old(self).page_free(old(mem)@, i) && i
                    < num_pages),
    {
        let ghost before = mem@;
        let ghost earlier = *self;
        let last: usize = self.num_pages;
        let mut next: usize = num_pages;
        while next < last
            invariant
                *self == earlier,
                last == earlier.num_pages,
                num_pages <= next,
                next <= last || next == num_pages,
                earlier.wf(before),
                mem@.len() == before.len(),
                self.wf(mem@),
                forall|i: int| #![trigger self.page_free(mem@, i)]
                    self.page_free(mem@, i) == (earlier.page_free(before, i) && !(num_pages <= i
                        < next)),
            decreases last - next,
        {
            if self.is_page_free(mem, next) {
                proof {
                    math::lemma_pow2_zero();
                    assert forall|i: int| in_block(i, next as int, 0) <==> i == next by {
                        assert(next * math::pow2(0) == next);
                        assert((next + 1) * math::pow2(0) == next + 1);
                    }
                    assert((next + 1) * math::pow2(0) == next + 1);
                }
                self.record_alloc(mem, next, 0);
            }
            next = next + 1;
        }
        self.num_pages = num_pages;
        proof {
            let t = earlier.tree(mem@);
            assert(self.tree(mem@) == t);
            assert forall|i: int| earlier.page_free(mem@, i) implies i < num_pages by {
                earlier.lemma_free_in_range(mem@, i);
            }
            assert forall|n: int| #![trigger t[n]] 0 <= n < 2 * self.cap() && t[n] implies buddy_tree::within(
                self.cap(),
                num_pages as int,
                n,
            ) by {
                assert(n >= self.top());
                assert forall|i: int| #![trigger buddy_tree::under(self.cap() + i, n)]
                    0 <= i < self.cap() && buddy_tree::under(self.cap() + i, n) implies i
                    < num_pages by {
                    buddy_tree::lemma_covered_mono(t, self.cap() + i, n);
                    assert(earlier.page_free(mem@, i));
                }
            }
            assert forall|i: int| #![trigger self.page_free(mem@, i)] self.page_free(mem@, i)
                == earlier.page_free(mem@, i) by {}
            assert forall|i: int| earlier.page_free(before, i) && num_pages <= i implies !(#[trigger] earlier.page_free(
                mem@,
                i,
            )) by {
                earlier.lemma_free_in_range(before, i);
            }
        }
    }

    /// Writes the state of a region of `num_pages` pages, all of them free.
    pub fn init_new(
        mem: &mut [u8],
        num_pages: usize,
        max_page_capacity: usize,
        max_order: usize,
    ) -> (allocator: Self)
        requires
            num_pages <= max_page_capacity <= (usize::MAX / 2 + 1) / 4,
            math::pow2(max_order as int) <= max_page_capacity,
            Self::spec_required_space(max_page_capacity as int) <= old(mem)@.len(),
        ensures
            allocator.num_pages == num_pages,
            allocator.max_order == max_order,
            allocator.height == math::log2_ceil(max_page_capacity as int),
            final(mem)@.len() == old(mem)@.len(),
            allocator.wf(final(mem)@),
            forall|i: int| #![trigger allocator.page_free(final(mem)@, i)]
                allocator.page_free(final(mem)@, i) == (0 <= i < num_pages),
    {
        let mut allocator = Self::new(0, max_page_capacity, max_order);
        fill_zero(mem);
        proof {
            math::lemma_log2_ceil(max_page_capacity as int);
            let t = allocator.tree(mem@);
            math::lemma_pow2_positive(allocator.height - max_order);
            math::lemma_pow2_le(allocator.height - max_order, allocator.height as int);
            assert forall|n: int| 0 <= n < 2 * allocator.cap() implies !#[trigger] t[n] by {
                let shift = (n % 8) as u8;
                assert((0u8 >> shift) & 1u8 == 0u8) by (bit_vector);
            }
            assert forall|i: int| !#[trigger] allocator.page_free(mem@, i) by {
                if allocator.page_free(mem@, i) {
                    let n = lemma_covering_flag(t, allocator.cap() + i);
                }
            }
        }
        allocator.resize(mem, num_pages);
        allocator
    }

    /// Whether page `i` is free.
    pub fn is_page_free(&self, mem: &[u8], i: usize) -> (free: bool)
        requires
            self.fits(mem@),
        ensures
            free == self.page_free(mem@, i as int),
    {
        let cap: usize = exp2(self.height);
        if i >= cap {
            return false;
        }
        let ghost t = self.tree(mem@);
        let mut n: usize = cap + i;
        while n > 0
            invariant
                t == self.tree(mem@),
                2 * self.cap() <= 8 * mem@.len(),
                n < 2 * self.cap(),
                cap == self.cap(),
                i < cap,
                buddy_tree::covered(t, cap + i) == buddy_tree::covered(t, n as int),
            decreases n,
        {
            assert(t[n as int] == grouped_bitmap::bit(mem@, n as int));
            if get_bit(mem, n) {
                return true;
            }
            n = n / 2;
        }
        false
    }

    /// How many pages are free.
    pub fn count_free_pages(&self, mem: &[u8]) -> (count: usize)
        requires
            self.fits(mem@),
        ensures
            count == self.free_count(mem@),
            count <= self.num_pages,
    {
        let mut count: usize = 0;
        let mut i: usize = 0;
        while i < self.num_pages
            invariant
                self.fits(mem@),
                i <= self.num_pages,
                count <= i,
                count == count_covered(self.tree(mem@), self.cap(), i as int),
            decreases self.num_pages - i,
        {
            if self.is_page_free(mem, i) {
                count = count + 1;
            }
            i = i + 1;
        }
        count
    }

    /// Whether block `page` of order `order` is one of this region.
    pub fn is_block(&self, page: usize, order: usize) -> (has: bool)
        requires
            self.valid(),
        ensures
            has == self.has_block(page as int, order as int),
    {
        if order > self.max_order {
            return false;
        }
        proof {
            math::lemma_pow2_le(order as int, self.height as int);
            math::lemma_pow2_positive(order as int);
        }
        let size: usize = exp2(order);
        let blocks: usize = self.num_pages / size;
        proof {
            let pages = self.num_pages as int;
            let s = size as int;
            let p = page as int;
            assert((p < pages / s) == ((p + 1) * s <= pages)) by (nonlinear_arith)
                requires
                    s >= 1,
                    p >= 0,
                    pages >= 0,
            ;
        }
        page < blocks
    }

    /// Whether no page of the block is free.
    pub fn is_block_taken(&self, mem: &[u8], page: usize, order: usize) -> (taken: bool)
        requires
            self.fits(mem@),
            self.has_block(page as int, order as int),
        ensures
            taken == self.block_taken(mem@, page as int, order as int),
    {
        proof {
            self.lemma_node(page as int, order as int);
            math::lemma_pow2_le(order as int, self.height as int);
            let size = math::pow2(order as int);
            math::lemma_pow2_positive(order as int);
            assert((page + 1) * size == page * size + size) by (nonlinear_arith);
            assert(page * size >= 0) by (nonlinear_arith)
                requires
                    page >= 0,
                    size >= 1,
            ;
        }
        let size: usize = exp2(order);
        let first: usize = page * size;
        let end: usize = first + size;
        let mut i: usize = first;
        while i < end
            invariant
                self.fits(mem@),
                first <= i <= end,
                first == page * math::pow2(order as int),
                end == (page + 1) * math::pow2(order as int),
                forall|j: int| #![trigger self.page_free(mem@, j)]
                    first <= j < i ==> !self.page_free(mem@, j),
            decreases end - i,
        {
            if self.is_page_free(mem, i) {
                assert(in_block(i as int, page as int, order as int));
                return false;
            }
            i = i + 1;
        }
        true
    }
}

/// A covered block lies in a block whose flag is set.
proof fn lemma_covering_flag(t: Seq<bool>, m: int) -> (n: int)
    requires
        buddy_tree::covered(t, m),
        m < t.len(),
    ensures
        1 <= n <= m,
        t[n],
        buddy_tree::under(m, n),
    decreases m,
{
    if t[m] {
        m
    } else {
        let n = lemma_covering_flag(t, m / 2);
        n
    }
}

impl BuddyAllocator {
    /// A node stands for a block inside the region exactly if the block ends there.
    proof fn lemma_within(self, order: int, page: int)
        requires
            self.valid(),
            0 <= order <= self.height,
            0 <= page < math::pow2(self.height - order),
        ensures
            buddy_tree::within(self.cap(), self.num_pages as int, self.node(page, order)) == ((page
                + 1) * math::pow2(order) <= self.num_pages),
    {
        let height = self.height as int;
        let cap = self.cap();
        let pages = self.num_pages as int;
        let n = self.node(page, order);
        let size = math::pow2(order);
        let count = math::pow2(height - order);
        math::lemma_pow2_positive(order);
        math::lemma_pow2_add(height - order, order);
        let last = (page + 1) * size - 1;
        assert(0 <= page * size <= last < count * size) by (nonlinear_arith)
            requires
                0 <= page < count,
                1 <= size,
                last == (page + 1) * size - 1,
        ;
        lemma_block_under(height, order, page, last);
        if buddy_tree::within(cap, pages, n) {
            assert(buddy_tree::under(cap + last, n));
        }
        if (page + 1) * size <= pages {
            assert forall|i: int| #![trigger buddy_tree::under(cap + i, n)]
                0 <= i < cap && buddy_tree::under(cap + i, n) implies i < pages by {
                lemma_block_under(height, order, page, i);
            }
        }
    }

    /// Whether the flag of node `n` may be set, given the other flags.
    pub open spec fn flag_ok(self, t: Seq<bool>, n: int) -> bool {
        t[n] ==> {
            &&& n >= self.top()
            &&& !buddy_tree::covered(t, n / 2)
            &&& self.top() <= n / 2 ==> !t[buddy_tree::sibling(n)]
            &&& buddy_tree::within(self.cap(), self.num_pages as int, n)
        }
    }

    fn is_flag_ok(&self, mem: &[u8], n: usize) -> (ok: bool)
        requires
            self.valid(),
            2 * self.cap() <= 8 * mem@.len(),
            1 <= n < 2 * self.cap(),
        ensures
            ok == self.flag_ok(self.tree(mem@), n as int),
    {
        let ghost t = self.tree(mem@);
        let ghost height = self.height as int;
        if !get_bit(mem, n) {
            return true;
        }
        proof {
            math::lemma_pow2_le(height - self.max_order, height);
            math::lemma_pow2_positive(height - self.max_order);
            math::lemma_log2_floor(n as int);
            math::lemma_pow2_step(height + 1);
        }
        let level: usize = floor_log2(n);
        proof {
            if level > height {
                math::lemma_pow2_le(height + 1, level as int);
            }
            math::lemma_pow2_step(level + 1);
            math::lemma_pow2_le(level as int, height);
            math::lemma_pow2_le(height - level, height);
            math::lemma_pow2_add(level as int, height - level);
        }
        let first: usize = exp2(level);
        let order: usize = self.height - level;
        let page: usize = n - first;
        let size: usize = exp2(order);
        proof {
            self.lemma_within(order as int, page as int);
            math::lemma_pow2_positive(height - level);
            let s = size as int;
            let f = first as int;
            assert((page + 1) * s <= f * s) by (nonlinear_arith)
                requires
                    page + 1 <= f,
                    1 <= s,
            ;
            assert(0 <= (page + 1) * s) by (nonlinear_arith)
                requires
                    0 <= page,
                    1 <= s,
            ;
        }
        if n < exp2(self.height - self.max_order) || (page + 1) * size > self.num_pages {
            return false;
        }
        if n / 2 >= exp2(self.height - self.max_order) && get_bit(
            mem,
            if n % 2 == 0 {
                n + 1
            } else {
                n - 1
            },
        ) {
            return false;
        }
        let mut cur: usize = n / 2;
        while cur > 0
            invariant
                cur <= n / 2,
                n < 2 * self.cap() <= 8 * mem@.len(),
                t == self.tree(mem@),
                t[n as int],
                buddy_tree::covered(t, n as int / 2) == buddy_tree::covered(t, cur as int),
            decreases cur,
        {
            if get_bit(mem, cur) {
                return false;
            }
            cur = cur / 2;
        }
        true
    }

    /// Whether `mem` holds the state of this allocator.
    pub fn holds_state(&self, mem: &[u8]) -> (yes: bool)
        requires
            self.valid(),
            2 * self.cap() <= 8 * mem@.len(),
        ensures
            yes == self.wf(mem@),
    {
        let ghost t = self.tree(mem@);
        let ghost height = self.height as int;
        proof {
            math::lemma_pow2_le(height - self.max_order, height);
            math::lemma_pow2_positive(height - self.max_order);
        }
        let nodes: usize = 2 * exp2(self.height);
        if get_bit(mem, 0) {
            assert(t[0]);
            return false;
        }
        let mut n: usize = 1;
        while n < nodes
            invariant
                self.valid(),
                t == self.tree(mem@),
                nodes == 2 * self.cap() <= 8 * mem@.len(),
                1 <= n <= nodes,
                1 <= self.top() <= self.cap(),
                !t[0],
                forall|m: int| 1 <= m < n ==> #[trigger] self.flag_ok(t, m),
            decreases nodes - n,
        {
            if !self.is_flag_ok(mem, n) {
                proof {
                    assert(t[n as int]);
                    if self.wf(mem@) {
                        assert(self.flag_ok(t, n as int));
                    }
                }
                return false;
            }
            n = n + 1;
        }
        proof {
            assert forall|m: int| #![trigger t[m]] 1 <= m < 2 * self.cap() && t[m] implies self.flag_ok(
                t,
                m,
            ) by {}
            assert forall|m: int| #![trigger t[m]] 0 <= m < 2 * self.cap() && t[m] implies {
                &&& m >= self.top()
                &&& buddy_tree::within(self.cap(), self.num_pages as int, m)
            } by {
                assert(self.flag_ok(t, m));
            }
        }
        true
    }
}

/// The trees of a region fit in memory.
pub proof fn lemma_height_fits(pages: int)
    requires
        0 <= pages <= (usize::MAX / 2 + 1) / 4,
    ensures
        2 * math::pow2(math::log2_ceil(pages)) + 7 <= usize::MAX,
{
    let height = math::log2_ceil(pages);
    math::lemma_pow2_zero();
    math::lemma_log2_ceil(pages);
    if height > 0 {
        math::lemma_pow2_step(height);
        assert(math::pow2(height) < (usize::MAX / 2 + 1) / 2);
    }
}

} // verus!
