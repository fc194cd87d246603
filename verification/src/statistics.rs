//! How much room there is.

use crate::buddy_allocator;
use crate::buddy_allocator::BuddyAllocator;
use crate::error::Error;
use crate::layout;
use crate::layout::DatabaseLayout;
use crate::math;
use crate::page_manager::TransactionalMemory;
use crate::page_number::PageNumber;
use crate::regions;
use crate::repair;
use vstd::prelude::*;

verus! {

/// The free pages of the first `n` regions, counted.
pub open spec fn free_total(
    image: Seq<u8>,
    layout: DatabaseLayout,
    allocators: Seq<BuddyAllocator>,
    n: int,
) -> nat
    decreases n,
{
    if n <= 0 {
        0
    } else {
        free_total(image, layout, allocators, n - 1) + allocators[n - 1].free_count(
            regions::region_bytes(image, layout, n - 1),
        )
    }
}

/// The free pages of region `region` below page `n`.
spec fn free_below(
    image: Seq<u8>,
    layout: DatabaseLayout,
    allocators: Seq<BuddyAllocator>,
    region: int,
    n: int,
) -> Set<(int, int)> {
    Set::new(
        |x: (int, int)|
            x.0 == region && x.1 < n && regions::is_free(image, layout, allocators, x.0, x.1),
    )
}

/// The pages of the first `n` regions that are free.
spec fn free_before(
    image: Seq<u8>,
    layout: DatabaseLayout,
    allocators: Seq<BuddyAllocator>,
    n: int,
) -> Set<(int, int)> {
    Set::new(
        |x: (int, int)|
            x.0 < n && x.1 < allocators[x.0].num_pages && regions::is_free(
                image,
                layout,
                allocators,
                x.0,
                x.1,
            ),
    )
}

proof fn lemma_region_count(
    image: Seq<u8>,
    layout: DatabaseLayout,
    allocators: Seq<BuddyAllocator>,
    region: int,
    n: int,
)
    requires
        0 <= region < allocators.len(),
        0 <= n <= allocators[region].cap(),
    ensures
        free_below(image, layout, allocators, region, n).finite(),
        free_below(image, layout, allocators, region, n).len() == buddy_allocator::count_covered(
            allocators[region].tree(regions::region_bytes(image, layout, region)),
            allocators[region].cap(),
            n,
        ),
    decreases n,
{
    let set = free_below(image, layout, allocators, region, n);
    if n == 0 {
        assert(set =~= Set::empty());
    } else {
        let rest = free_below(image, layout, allocators, region, n - 1);
        lemma_region_count(image, layout, allocators, region, n - 1);
        if regions::is_free(image, layout, allocators, region, n - 1) {
            assert(set =~= rest.insert((region, n - 1)));
        } else {
            assert(set =~= rest);
        }
    }
}

proof fn lemma_total(
    image: Seq<u8>,
    layout: DatabaseLayout,
    allocators: Seq<BuddyAllocator>,
    n: int,
)
    requires
        forall|i: int| 0 <= i < allocators.len() ==> (#[trigger] allocators[i]).valid(),
        0 <= n <= allocators.len(),
    ensures
        free_before(image, layout, allocators, n).finite(),
        free_before(image, layout, allocators, n).len() == free_total(image, layout, allocators, n),
    decreases n,
{
    let set = free_before(image, layout, allocators, n);
    if n == 0 {
        assert(set =~= Set::empty());
    } else {
        let a = allocators[n - 1];
        let rest = free_before(image, layout, allocators, n - 1);
        let last = free_below(image, layout, allocators, n - 1, a.num_pages as int);
        lemma_total(image, layout, allocators, n - 1);
        lemma_region_count(image, layout, allocators, n - 1, a.num_pages as int);
        vstd::set_lib::lemma_set_disjoint_lens(rest, last);
        assert(set =~= rest + last);
    }
}

impl TransactionalMemory {
    /// The free pages of all regions, counted.
    pub open spec fn free_pages_counted(self) -> nat {
        free_total(self.image(), self.layout, self.allocators(), self.layout.spec_num_regions())
    }

    /// The layout of the file at its largest.
    pub open spec fn largest_layout(self) -> DatabaseLayout {
        DatabaseLayout::spec_calculate(
            self.header().max_capacity as int,
            self.header().max_capacity as int,
            self.header().region_max_usable_bytes as int,
            self.page_size as int,
        )
    }

    /// Every free page is counted, and counted once.
    pub proof fn lemma_free_pages_counted(self)
        requires
            self.geometry(),
            self.has_allocators(),
            self.allocation(),
        ensures
            self.free_set().finite(),
            self.free_set().len() == self.free_pages_counted(),
    {
        let n = self.allocators().len() as int;
        self.lemma_allocators();
        regions::lemma_layout_allocators(self.image(), self.layout);
        lemma_total(self.image(), self.layout, self.allocators(), n);
        assert forall|x: (int, int)| #[trigger] self.free_set().contains(x) == free_before(
            self.image(),
            self.layout,
            self.allocators(),
            n,
        ).contains(x) by {
            if self.free_set().contains(x) {
                self.layout.lemma_region(x.0);
            }
            if 0 <= x.0 < n {
                self.layout.lemma_region(x.0);
            }
        }
        assert(self.free_set() =~= free_before(self.image(), self.layout, self.allocators(), n));
    }

    /// The pages that are free, and those that the file gets if it grows to its maximum size.
    pub fn count_free_pages(&self) -> (count: Result<usize, Error>)
        requires
            self.geometry(),
            self.has_allocators(),
            self.allocation(),
        ensures
            count matches Ok(n) && n == self.available_pages(),
            self.layout.grows_to(self.largest_layout()),
    {
        let ghost l = self.layout;
        let ghost pages = l.region_pages as int;
        let ghost c = self.header().max_capacity as int;
        let ghost m = self.header().region_max_usable_bytes as int;
        let ghost p = self.page_size as int;
        proof {
            l.lemma_is_for(c, l.spec_usable_bytes(), m, p);
            l.lemma_usable_fits();
            self.lemma_allocators();
            regions::lemma_layout_allocators(self.image(), l);
            assert forall|j: int| 0 <= j < self.allocators().len() implies #[trigger] l.base(j)
                + l.region_header_bytes <= self.image().len() by {
                l.lemma_region(j);
            }
            let full = l.num_full_regions as int;
            assert((full + 1) * pages == full * pages + pages) by (nonlinear_arith);
        }
        let num_regions: usize = self.layout.num_regions();
        let mut count: usize = 0;
        let mut i: usize = 0;
        while i < num_regions
            invariant
                self.geometry(),
                self.has_allocators(),
                self.allocators().len() == l.spec_num_regions(),
                forall|j: int| #![trigger self.allocators()[j]]
                    0 <= j < self.allocators().len() ==> {
                        &&& self.allocators()[j].fits(regions::region_bytes(self.image(), l, j))
                        &&& self.allocators()[j].num_pages <= pages
                    },
                l == self.layout,
                pages == l.region_pages,
                num_regions == l.spec_num_regions(),
                i <= num_regions,
                count == free_total(self.image(), l, self.allocators(), i as int),
                count <= i * pages,
                num_regions * pages <= l.usable_pages() + pages,
                l.usable_pages() + pages <= usize::MAX,
                forall|j: int|
                    0 <= j < self.allocators().len() ==> #[trigger] l.base(j)
                        + l.region_header_bytes <= self.image().len(),
            decreases num_regions - i,
        {
            let mem = self.metadata.get_regional_allocator(i, &self.layout);
            proof {
                assert((i + 1) * pages == i * pages + pages) by (nonlinear_arith);
                layout::lemma_mul_le(i + 1, pages, num_regions as int, pages);
            }
            count = count + self.regional_allocators.as_ref().unwrap()[i].count_free_pages(mem);
            i = i + 1;
        }
        // Calculate the number of pages worth of expansion space left, if database grows to max size
        match DatabaseLayout::calculate(
            self.metadata.get_max_capacity(),
            self.metadata.get_max_capacity(),
            self.metadata.get_region_max_usable_bytes(),
            self.page_size,
        ) {
            Ok(max_layout) => {
                proof {
                    l.lemma_monotone(max_layout, c, l.spec_usable_bytes(), c, m, p);
                    l.lemma_grows(max_layout);
                    max_layout.lemma_calculated(c, c, m, p);
                }
                let growth: usize = max_layout.usable_bytes() - self.layout.usable_bytes();
                proof {
                    max_layout.lemma_usable_fits();
                    let a = l.usable_pages();
                    let b = max_layout.usable_pages();
                    assert(b * p - a * p == (b - a) * p) by (nonlinear_arith);
                    vstd::arithmetic::div_mod::lemma_div_multiples_vanish(b - a, p);
                    assert(p * (b - a) == (b - a) * p) by (nonlinear_arith);
                }
                let potential_growth_pages: usize = growth / self.page_size;
                Ok(count + potential_growth_pages)
            },
            Err(e) => Err(e),
        }
    }

    pub fn get_page_size(&self) -> (page_size: usize)
        ensures
            page_size == self.page_size,
    {
        self.page_size
    }
}

/// The pages `start .. end` of a region.
spec fn page_range(region: int, start: int, end: int) -> Set<(int, int)> {
    Set::new(|x: (int, int)| x.0 == region && start <= x.1 < end)
}

proof fn lemma_page_range(region: int, start: int, end: int)
    requires
        start <= end,
    ensures
        page_range(region, start, end).finite(),
        page_range(region, start, end).len() == end - start,
    decreases end - start,
{
    let set = page_range(region, start, end);
    if start == end {
        assert(set =~= Set::empty());
    } else {
        lemma_page_range(region, start, end - 1);
        assert(set =~= page_range(region, start, end - 1).insert((region, end - 1)));
    }
}

/// The pages of the first `n` regions of a layout.
spec fn pages_before(layout: DatabaseLayout, n: int) -> Set<(int, int)> {
    Set::new(|x: (int, int)| 0 <= x.0 < n && 0 <= x.1 < layout.pages_of(x.0))
}

proof fn lemma_pages_before(layout: DatabaseLayout, n: int)
    requires
        layout.valid(),
        0 <= n <= layout.spec_num_regions(),
    ensures
        pages_before(layout, n).finite(),
        pages_before(layout, n).len() == (if n <= layout.num_full_regions {
            n * layout.region_pages
        } else {
            layout.usable_pages()
        }),
    decreases n,
{
    let set = pages_before(layout, n);
    let pages = layout.region_pages as int;
    if n == 0 {
        assert(set =~= Set::empty());
        assert(0 * pages == 0) by (nonlinear_arith);
    } else {
        let rest = pages_before(layout, n - 1);
        let last = page_range(n - 1, 0, layout.pages_of(n - 1));
        lemma_pages_before(layout, n - 1);
        layout.lemma_region(n - 1);
        lemma_page_range(n - 1, 0, layout.pages_of(n - 1));
        vstd::set_lib::lemma_set_disjoint_lens(rest, last);
        assert(set =~= rest + last);
        assert((n - 1) * pages + pages == n * pages) by (nonlinear_arith);
    }
}

/// A layout has as many pages as it says.
pub proof fn lemma_all_pages(layout: DatabaseLayout)
    requires
        layout.valid(),
    ensures
        regions::all_pages(layout).finite(),
        regions::all_pages(layout).len() == layout.usable_pages(),
{
    let n = layout.spec_num_regions();
    lemma_pages_before(layout, n);
    assert(regions::all_pages(layout) =~= pages_before(layout, n));
}

/// A block has as many pages as its order says.
pub proof fn lemma_block_pages(page: PageNumber)
    ensures
        regions::block(page).finite(),
        regions::block(page).len() == math::pow2(page.page_order as int),
{
    let index = page.page_index as int;
    let size = math::pow2(page.page_order as int);
    math::lemma_pow2_positive(page.page_order as int);
    assert((index + 1) * size == index * size + size) by (nonlinear_arith);
    lemma_page_range(page.region as int, index * size, (index + 1) * size);
    assert(regions::block(page) =~= page_range(
        page.region as int,
        index * size,
        (index + 1) * size,
    ));
}

/// The pages of these blocks, counted block by block.
pub open spec fn pages_taken(pages: Seq<PageNumber>) -> int
    decreases pages.len(),
{
    if pages.len() == 0 {
        0
    } else {
        pages_taken(pages.drop_last()) + math::pow2(pages.last().page_order as int)
    }
}

/// Blocks without a page in common have as many pages as they have one by one.
pub proof fn lemma_pages_taken(layout: DatabaseLayout, pages: Seq<PageNumber>)
    requires
        layout.valid(),
        repair::disjoint_blocks(layout, pages),
    ensures
        repair::pages_of_blocks(pages).finite(),
        repair::pages_of_blocks(pages).len() == pages_taken(pages),
        repair::pages_of_blocks(pages).subset_of(regions::all_pages(layout)),
    decreases pages.len(),
{
    let set = repair::pages_of_blocks(pages);
    if pages.len() == 0 {
        assert(set =~= Set::empty());
    } else {
        let rest = pages.drop_last();
        let last = pages.last();
        let n = pages.len() - 1;
        assert(pages[n] == last);
        assert forall|i: int| 0 <= i < rest.len() implies regions::has_page(
            regions::layout_allocators(layout),
            #[trigger] rest[i],
        ) by {
            assert(rest[i] == pages[i]);
        }
        assert forall|i: int, j: int| 0 <= i < j < rest.len() implies regions::block(
            #[trigger] rest[i],
        ).disjoint(regions::block(#[trigger] rest[j])) by {
            assert(rest[i] == pages[i] && rest[j] == pages[j]);
        }
        lemma_pages_taken(layout, rest);
        lemma_block_pages(last);
        repair::lemma_block_of_layout(layout, last);
        let earlier = repair::pages_of_blocks(rest);
        let block = regions::block(last);
        assert forall|x: (int, int)| #[trigger] earlier.contains(x) implies !block.contains(x) by {
            let i = choose|i: int|
                0 <= i < rest.len() && #[trigger] regions::block(rest[i]).contains(x);
            assert(rest[i] == pages[i]);
            assert(regions::block(pages[i]).disjoint(regions::block(pages[n])));
        }
        assert forall|x: (int, int)| #[trigger] set.contains(x) == (earlier.contains(x)
            || block.contains(x)) by {
            if set.contains(x) {
                let i = choose|i: int|
                    0 <= i < pages.len() && #[trigger] regions::block(pages[i]).contains(x);
                if i < n {
                    assert(regions::block(rest[i]).contains(x));
                }
            }
            if earlier.contains(x) {
                let i = choose|i: int|
                    0 <= i < rest.len() && #[trigger] regions::block(rest[i]).contains(x);
                assert(regions::block(pages[i]).contains(x));
            }
        }
        vstd::set_lib::lemma_set_disjoint_lens(earlier, block);
        assert(set =~= earlier + block);
    }
}

impl TransactionalMemory {
    /// The pages that are free or that the file can still get.
    pub open spec fn available_pages(self) -> int {
        self.free_pages_counted() + (self.largest_layout().spec_usable_bytes()
            - self.layout.spec_usable_bytes()) / self.page_size as int
    }

    /// An allocation takes as many pages as the order of the block says.
    pub proof fn lemma_allocation_counted(self, after: Self, order: int, page: PageNumber)
        requires
            self.geometry(),
            self.has_allocators(),
            self.allocation(),
            after.geometry(),
            after.allocation(),
            self.serves(order, page, after),
        ensures
            after.free_pages_counted() + math::pow2(order) == self.free_pages_counted(),
            after.available_pages() + math::pow2(order) == self.available_pages(),
    {
        let block = regions::block(page);
        self.lemma_free_pages_counted();
        after.lemma_free_pages_counted();
        lemma_block_pages(page);
        vstd::set_lib::lemma_set_disjoint_lens(after.free_set(), block);
        assert(self.free_set() =~= after.free_set() + block);
    }

    /// Growth makes pages free that the file could get before: as many are available as were.
    pub proof fn lemma_growth_counted(self, new: DatabaseLayout, after: Self)
        requires
            self.geometry(),
            self.has_allocators(),
            self.allocation(),
            new.valid(),
            self.layout.grows_to(new),
            self.grown_to(new, after),
            after.geometry(),
            after.allocation(),
        ensures
            after.free_pages_counted() == self.free_pages_counted() + (new.usable_pages()
                - self.layout.usable_pages()),
            after.available_pages() == self.available_pages(),
    {
        let old_pages = regions::all_pages(self.layout);
        let new_pages = regions::all_pages(new);
        let gained = self.gained(new);
        self.layout.lemma_grows(new);
        self.lemma_allocators();
        self.lemma_free_pages_counted();
        after.lemma_free_pages_counted();
        lemma_all_pages(self.layout);
        lemma_all_pages(new);
        assert(old_pages.subset_of(new_pages)) by {
            assert forall|x: (int, int)| #[trigger] old_pages.contains(x) implies new_pages.contains(
                x,
            ) by {
                assert(self.layout.pages_of(x.0) <= new.pages_of(x.0));
            }
        }
        vstd::set_lib::lemma_set_disjoint_lens(old_pages, gained);
        assert(new_pages =~= old_pages + gained);
        vstd::set_lib::lemma_set_disjoint_lens(self.free_set(), gained);
        assert(after.free_set() == self.free_set() + gained);
        self.lemma_potential();
        after.lemma_potential();
    }

    /// Where just the given blocks are in use, as many pages are free as the layout has but for
    /// those of the blocks.
    pub proof fn lemma_taken_counted(self, pages: Seq<PageNumber>)
        requires
            self.geometry(),
            self.has_allocators(),
            self.allocation(),
            repair::disjoint_blocks(self.layout, pages),
            self.free_set() == regions::all_pages(self.layout).difference(
                repair::pages_of_blocks(pages),
            ),
        ensures
            self.free_pages_counted() + pages_taken(pages) == self.layout.usable_pages(),
    {
        let all = regions::all_pages(self.layout);
        let taken = repair::pages_of_blocks(pages);
        self.lemma_free_pages_counted();
        lemma_all_pages(self.layout);
        lemma_pages_taken(self.layout, pages);
        vstd::set_lib::lemma_set_disjoint_lens(self.free_set(), taken);
        assert(all =~= self.free_set() + taken);
    }

    /// The pages that the file can still get, counted.
    pub proof fn lemma_potential(self)
        requires
            self.geometry(),
        ensures
            (self.largest_layout().spec_usable_bytes() - self.layout.spec_usable_bytes())
                / self.page_size as int == self.largest_layout().usable_pages()
                - self.layout.usable_pages(),
    {
        let p = self.page_size as int;
        let a = self.layout.usable_pages();
        let b = self.largest_layout().usable_pages();
        assert(self.largest_layout().page_size == p);
        assert(b * p - a * p == p * (b - a)) by (nonlinear_arith);
        vstd::arithmetic::div_mod::lemma_div_multiples_vanish(b - a, p);
    }
}

} // verus!
