//! Tests of what the operations ask of their caller.

use crate::buddy_allocator;
use crate::layout;
use crate::layout::DatabaseLayout;
use crate::math;
use crate::math::{ceil_log2, exp2};
use crate::page_manager::TransactionalMemory;
use crate::page_number::PageNumber;
use crate::regions;
use crate::regions::region_allocators;
use crate::repair;
use vstd::prelude::*;

verus! {

/// Whether two blocks of regions have no page in common.
fn are_disjoint(a: PageNumber, b: PageNumber, layout: &DatabaseLayout) -> (yes: bool)
    requires
        layout.valid(),
        regions::has_page(regions::layout_allocators(*layout), a),
        regions::has_page(regions::layout_allocators(*layout), b),
    ensures
        yes == regions::block(a).disjoint(regions::block(b)),
{
    let ghost allocators = regions::layout_allocators(*layout);
    proof {
        regions::lemma_block_in_region(allocators, a);
        regions::lemma_block_in_region(allocators, b);
    }
    if a.region != b.region {
        return true;
    }
    let ghost i = a.page_index as int;
    let ghost j = b.page_index as int;
    let ghost p = math::pow2(a.page_order as int);
    let ghost q = math::pow2(b.page_order as int);
    let ghost region = a.region as int;
    proof {
        math::lemma_pow2_positive(a.page_order as int);
        math::lemma_pow2_positive(b.page_order as int);
        layout.lemma_region(region);
        assert((i + 1) * p == i * p + p) by (nonlinear_arith);
        assert((j + 1) * q == j * q + q) by (nonlinear_arith);
        layout::lemma_mul_le(i, p, i, p);
        layout::lemma_mul_le(j, q, j, q);
    }
    let a_size: usize = exp2(a.page_order as usize);
    let b_size: usize = exp2(b.page_order as usize);
    let a_start: usize = a.page_index as usize * a_size;
    let b_start: usize = b.page_index as usize * b_size;
    let yes = a_start + a_size <= b_start || b_start + b_size <= a_start;
    proof {
        if !yes {
            let x = if a_start < b_start {
                (region, b_start as int)
            } else {
                (region, a_start as int)
            };
            assert(regions::block(a).contains(x) && regions::block(b).contains(x));
        }
    }
    yes
}

impl TransactionalMemory {
    /// Whether there is such a page.
    pub fn is_page(&self, page: PageNumber) -> (yes: bool)
        requires
            self.wf(),
        ensures
            yes == (self.has_allocators() && regions::has_page(self.allocators(), page)),
    {
        proof {
            if self.has_allocators() {
                self.lemma_allocators();
                regions::lemma_layout_allocators(self.image(), self.layout);
            }
        }
        match &self.regional_allocators {
            Some(allocators) => {
                let region: usize = page.region as usize;
                region < allocators.len() && allocators[region].is_block(
                    page.page_index as usize,
                    page.page_order as usize,
                )
            },
            None => false,
        }
    }

    /// Whether there is such a page and no part of it is free.
    pub fn is_in_use(&self, page: PageNumber) -> (yes: bool)
        requires
            self.wf(),
        ensures
            yes == (self.has_allocators() && self.in_use(page)),
    {
        if !self.is_page(page) {
            return false;
        }
        let region: usize = page.region as usize;
        proof {
            self.layout.lemma_region(region as int);
            self.lemma_allocators();
            regions::lemma_layout_allocators(self.image(), self.layout);
            regions::lemma_block_in_region(self.allocators(), page);
            let a = self.allocators()[region as int];
            let mem = regions::region_bytes(self.image(), self.layout, region as int);
            let index = page.page_index as int;
            let order = page.page_order as int;
            if a.block_taken(mem, index, order) {
                assert forall|x: (int, int)| regions::block(page).contains(
                    x,
                ) implies !self.free_set().contains(x) by {
                    assert(!a.page_free(mem, x.1));
                }
            } else {
                let i = choose|i: int| #![trigger a.page_free(mem, i)]
                    buddy_allocator::in_block(i, index, order) && a.page_free(mem, i);
                let x = (region as int, i);
                assert(regions::block(page).contains(x) && self.free_set().contains(x));
            }
        }
        let mem = self.metadata.get_regional_allocator(region, &self.layout);
        self.regional_allocators.as_ref().unwrap()[region].is_block_taken(
            mem,
            page.page_index as usize,
            page.page_order as usize,
        )
    }

    /// Whether the memory holds all of a page.
    pub fn is_in_memory(&self, page: PageNumber) -> (yes: bool)
        requires
            1 <= self.page_size,
        ensures
            yes == self.page_in_memory(page),
    {
        let ghost power = math::pow2(page.page_order as int);
        let ghost size = self.page_size as int;
        let ghost index = page.page_index as int;
        let ghost region = page.region as int;
        let ghost region_len = self.region_size as int;
        let len: usize = self.metadata.mmap.len();
        proof {
            math::lemma_pow2_positive(page.page_order as int);
            layout::lemma_mul_le(1, power, size, power);
            layout::lemma_mul_le(index, size * power, index, size * power);
            layout::lemma_mul_le(region, region_len, region, region_len);
            math::lemma_usize_half();
            if page.page_order < usize::BITS {
                math::lemma_pow2_le(page.page_order as int, usize::BITS - 1);
            } else {
                math::lemma_pow2_le(usize::BITS as int, page.page_order as int);
                math::lemma_pow2_step(usize::BITS as int);
            }
        }
        if page.page_order as u32 >= usize::BITS {
            return false;
        }
        let bytes: usize = match self.page_size.checked_mul(exp2(page.page_order as usize)) {
            Some(x) => x,
            None => {
                return false;
            },
        };
        let offset: usize = match bytes.checked_mul(page.page_index as usize) {
            Some(x) => x,
            None => {
                assert(bytes * index == index * bytes) by (nonlinear_arith);
                return false;
            },
        };
        assert(bytes * index == index * bytes) by (nonlinear_arith);
        let base: usize = match self.region_size.checked_mul(page.region as usize) {
            Some(x) => x,
            None => {
                assert(region_len * region == region * region_len) by (nonlinear_arith);
                return false;
            },
        };
        assert(region_len * region == region * region_len) by (nonlinear_arith);
        if base > len || self.db_header_size > len - base {
            return false;
        }
        let rest: usize = len - base - self.db_header_size;
        if self.region_header_with_padding_size > rest {
            return false;
        }
        let rest: usize = rest - self.region_header_with_padding_size;
        offset <= rest && bytes <= rest - offset
    }

    /// Whether these pages can be the ones in use after a repair.
    pub fn are_disjoint_blocks(&self, pages: &[PageNumber]) -> (yes: bool)
        requires
            self.geometry(),
        ensures
            yes == repair::disjoint_blocks(self.layout, pages@),
    {
        let allocators = region_allocators(&self.layout);
        let mut i: usize = 0;
        while i < pages.len()
            invariant
                self.geometry(),
                allocators@ == regions::layout_allocators(self.layout),
                forall|j: int|
                    0 <= j < allocators@.len() ==> regions::allocator_fits(
                        #[trigger] allocators@[j],
                        self.layout,
                        j,
                    ),
                i <= pages@.len(),
                forall|j: int|
                    0 <= j < i ==> regions::has_page(allocators@, #[trigger] pages@[j]),
                forall|j: int, k: int|
                    0 <= j < k < i ==> regions::block(#[trigger] pages@[j]).disjoint(
                        regions::block(#[trigger] pages@[k]),
                    ),
            decreases pages@.len() - i,
        {
            let page = pages[i];
            let region: usize = page.region as usize;
            if region >= allocators.len() || !allocators[region].is_block(
                page.page_index as usize,
                page.page_order as usize,
            ) {
                assert(!regions::has_page(allocators@, pages@[i as int]));
                return false;
            }
            let mut j: usize = 0;
            while j < i
                invariant
                    self.geometry(),
                    allocators@ == regions::layout_allocators(self.layout),
                    j <= i < pages@.len(),
                    page == pages@[i as int],
                    regions::has_page(allocators@, page),
                    forall|k: int|
                        0 <= k < i ==> regions::has_page(allocators@, #[trigger] pages@[k]),
                    forall|k: int|
                        0 <= k < j ==> regions::block(#[trigger] pages@[k]).disjoint(
                            regions::block(page),
                        ),
                decreases i - j,
            {
                if !are_disjoint(pages[j], page, &self.layout) {
                    assert(!regions::block(pages@[j as int]).disjoint(
                        regions::block(pages@[i as int]),
                    ));
                    return false;
                }
                j = j + 1;
            }
            i = i + 1;
        }
        true
    }

    /// Whether no region can serve an allocation of the given order.
    fn is_refused(&self, order: usize) -> (yes: bool)
        requires
            self.wf(),
            self.has_allocators(),
            self.trimmed,
        ensures
            yes == self.refused(order as int),
    {
        let ghost l = self.layout;
        proof {
            l.lemma_region(0);
            regions::lemma_states_inside(self.image(), l, self.allocators());
        }
        let num_regions: usize = self.layout.num_regions();
        let mut i: usize = 0;
        while i < num_regions
            invariant
                self.wf(),
                self.has_allocators(),
                self.trimmed,
                l == self.layout,
                l.header_bytes <= self.image().len(),
                num_regions == l.spec_num_regions(),
                i <= num_regions,
                forall|r: int|
                    0 <= r < self.allocators().len() ==> #[trigger] l.base(r)
                        + l.region_header_bytes <= self.image().len(),
                forall|r: int| 0 <= r < i ==> !#[trigger] self.candidate(r, order as int),
            decreases num_regions - i,
        {
            let ghost region = i as int;
            assert(self.allocators()[region].wf(
                regions::region_bytes(self.image(), l, region),
            ));
            if !self.metadata.is_marked(&self.layout, i) {
                let mem = self.metadata.get_regional_allocator(i, &self.layout);
                if self.regional_allocators.as_ref().unwrap()[i].has_next_block(mem, order) {
                    assert(self.candidate(region, order as int));
                    return false;
                }
            }
            i = i + 1;
        }
        true
    }

    /// Whether an allocation can be asked for.
    pub fn is_request(&self, allocation_size: usize) -> (yes: bool)
        requires
            self.wf(),
            self.has_allocators(),
        ensures
            yes == self.request_fits(allocation_size as int),
    {
        let ghost p = self.page_size as int;
        if allocation_size > usize::MAX - (self.page_size - 1) {
            return false;
        }
        let pages: usize = (allocation_size + (self.page_size - 1)) / self.page_size;
        if pages > usize::MAX / 2 + 1 {
            return false;
        }
        let order: usize = ceil_log2(pages);
        if self.layout.len() >= self.metadata.get_max_capacity() {
            return true;
        }
        if self.trimmed && !self.is_refused(order) {
            return true;
        }
        let ghost power = math::pow2(order as int);
        proof {
            self.layout.lemma_usable_fits();
            math::lemma_pow2_positive(order as int);
            layout::lemma_mul_le(power, p, power, p);
        }
        let bytes: usize = match exp2(order).checked_mul(self.page_size) {
            Some(x) => x,
            None => {
                return false;
            },
        };
        if self.layout.num_full_regions() > 0 {
            return self.layout.trailing_pages == 0 || bytes <= usize::MAX / 2;
        }
        let usable: usize = self.layout.usable_bytes();
        bytes <= usize::MAX - usable && bytes <= usize::MAX - usable - bytes
    }
}

} // verus!
