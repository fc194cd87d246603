//! Making the file larger.

use crate::action::{Action, GrowEvent};
use crate::buddy_allocator::BuddyAllocator;
use crate::bytes::extend_zero;
use crate::error::Error;
use crate::header;
use crate::journal;
use crate::layout;
use crate::layout::DatabaseLayout;
use crate::math;
use crate::math::exp2;
use crate::page_manager;
use crate::page_manager::TransactionalMemory;
use crate::regions;
use vstd::prelude::*;

verus! {

/// The usable bytes that a file is to grow to, for an allocation of order `order`: a file without a
/// full region doubles, or grows by twice the allocation if that is more; any other file fills out
/// its last region if the allocation has ample room there, else it grows by the size of a region.
pub open spec fn desired_size(layout: DatabaseLayout, max_region: int, order: int) -> int {
    let growth = math::pow2(order) * layout.page_size;
    let usable = layout.spec_usable_bytes();
    let trailing = layout.trailing_pages * layout.page_size;
    if layout.num_full_regions > 0 {
        if layout.trailing_pages > 0 && 2 * growth < max_region - trailing {
            usable + (max_region - trailing)
        } else {
            usable + max_region
        }
    } else if 2 * usable >= usable + 2 * growth {
        2 * usable
    } else {
        usable + 2 * growth
    }
}

impl TransactionalMemory {
    /// The layout that the file would grow to.
    pub open spec fn grown(self, order: int) -> DatabaseLayout {
        DatabaseLayout::spec_calculate(
            self.header().max_capacity as int,
            desired_size(self.layout, self.header().region_max_usable_bytes as int, order),
            self.header().region_max_usable_bytes as int,
            self.page_size as int,
        )
    }

    /// Whether the size to grow to can be computed with.
    pub open spec fn growth_fits(self, order: int) -> bool {
        let growth = math::pow2(order) * self.layout.page_size;
        if self.layout.num_full_regions > 0 {
            if self.layout.trailing_pages > 0 {
                2 * growth <= usize::MAX
            } else {
                growth <= usize::MAX
            }
        } else {
            self.layout.spec_usable_bytes() + 2 * growth <= usize::MAX
        }
    }

    /// The layout that the file grows to when an allocation of the given order finds no room, or
    /// an error if there is no larger one.
    pub fn next_layout(&self, required_order_allocation: usize) -> (next: Result<
        DatabaseLayout,
        Error,
    >)
        requires
            self.geometry(),
            self.growth_fits(required_order_allocation as int),
        ensures
            match next {
                Ok(l) => {
                    &&& l == self.grown(required_order_allocation as int)
                    &&& l.valid()
                    &&& page_manager::layout_fits(self.header(), l)
                    &&& page_manager::names_fit(l)
                    &&& self.layout.grows_to(l)
                    &&& self.layout.spec_len() < l.spec_len() <= self.header().max_capacity
                },
                Err(e) => {
                    &&& e == Error::OutOfSpace
                    &&& self.grown(required_order_allocation as int) == self.layout
                },
            },
    {
        let ghost h = self.header();
        let ghost c = h.max_capacity as int;
        let ghost m = h.region_max_usable_bytes as int;
        let ghost p = self.page_size as int;
        let ghost order = required_order_allocation as int;
        let ghost l = self.layout;
        proof {
            let power = math::pow2(order);
            math::lemma_pow2_positive(order);
            l.lemma_is_for(c, l.spec_usable_bytes(), m, p);
            l.lemma_usable_fits();
            layout::lemma_mul_le(power, 1, power, p);
            layout::lemma_geometry(c, m, p);
        }
        let required_growth: usize = exp2(required_order_allocation)
            * self.metadata.get_page_size();
        let max_region_size: usize = self.metadata.get_region_max_usable_bytes();
        let usable: usize = self.layout.usable_bytes();
        let next_desired_size: usize = if self.layout.num_full_regions() > 0 {
            if let Some(trailing) = self.layout.trailing_region_layout() {
                if 2 * required_growth < max_region_size - trailing.usable_bytes() {
                    // Fill out the trailing region
                    usable + (max_region_size - trailing.usable_bytes())
                } else {
                    // Grow by 1 region
                    usable + max_region_size
                }
            } else {
                // Grow by 1 region
                usable + max_region_size
            }
        } else if usable * 2 >= usable + required_growth * 2 {
            usable * 2
        } else {
            usable + required_growth * 2
        };
        proof {
            assert(next_desired_size == desired_size(l, m, order));
        }
        let new_layout = DatabaseLayout::calculate(
            self.metadata.get_max_capacity(),
            next_desired_size,
            max_region_size,
            self.page_size,
        )?;
        proof {
            l.lemma_monotone(new_layout, c, l.spec_usable_bytes(), next_desired_size as int, m, p);
            l.lemma_grows(new_layout);
            new_layout.lemma_calculated(c, next_desired_size as int, m, p);
            new_layout.lemma_canonical(c, next_desired_size as int, m, p);
        }
        if new_layout.len() == self.layout.len() {
            // Can't grow
            return Err(Error::OutOfSpace);
        }
        Ok(new_layout)
    }
}

impl TransactionalMemory {
    /// Whether region `region` gets pages, or is new, under the layout `new`.
    pub open spec fn region_grows(self, new: DatabaseLayout, region: int) -> bool {
        region >= self.layout.spec_num_regions() || new.pages_of(region) != self.layout.pages_of(
            region,
        )
    }

    /// The pages that region `region` has.
    spec fn region_size_now(self, region: int) -> int {
        if region < self.layout.spec_num_regions() {
            self.layout.pages_of(region)
        } else {
            0
        }
    }

    /// The pages that the file gains by the layout `new`.
    pub open spec fn gained(self, new: DatabaseLayout) -> Set<(int, int)> {
        regions::all_pages(new).difference(regions::all_pages(self.layout))
    }

    /// What `grow_region` has done to one region, and left alone elsewhere.
    spec fn region_grown(
        self,
        new: DatabaseLayout,
        region: int,
        before: Seq<u8>,
        after: Seq<u8>,
    ) -> bool {
        let allocator = regions::layout_allocators(new)[region];
        &&& after.len() == before.len()
        &&& header::header_kept(before, after)
        &&& regions::data_kept(before, after, new)
        &&& regions::allocator_fits(allocator, new, region)
        &&& allocator.wf(regions::region_bytes(after, new, region))
        &&& forall|p: int| #[trigger]
            allocator.page_free(regions::region_bytes(after, new, region), p) == ((region
                < self.layout.spec_num_regions() && self.allocators()[region].page_free(
                regions::region_bytes(before, new, region),
                p,
            )) || self.region_size_now(region) <= p < new.pages_of(region))
        &&& forall|i: int|
            0 <= i && i != region && new.base(i) + new.region_header_bytes <= before.len()
                ==> #[trigger] regions::region_bytes(after, new, i) == regions::region_bytes(
                before,
                new,
                i,
            )
        &&& forall|i: int|
            0 <= i < 8 * new.tracker_bytes ==> #[trigger] regions::marked(after, new, i) == (if i
                == region && self.region_grows(new, region) {
                false
            } else {
                regions::marked(before, new, i)
            })
    }

    /// Brings one region to its size under the layout `new`.
    fn grow_region(&mut self, new_layout: &DatabaseLayout, region: usize) -> (allocator:
        BuddyAllocator)
        requires
            old(self).has_allocators(),
            old(self).layout.valid(),
            new_layout.valid(),
            old(self).layout.grows_to(*new_layout),
            old(self).allocators().len() == old(self).layout.spec_num_regions(),
            region < new_layout.spec_num_regions(),
            new_layout.spec_len() <= old(self).image().len(),
            region < old(self).layout.spec_num_regions() ==> {
                &&& regions::allocator_fits(
                    old(self).allocators()[region as int],
                    old(self).layout,
                    region as int,
                )
                &&& old(self).allocators()[region as int].wf(
                    regions::region_bytes(old(self).image(), *new_layout, region as int),
                )
            },
        ensures
            final(self).same_but_image(*old(self)),
            allocator == regions::layout_allocators(*new_layout)[region as int],
            old(self).region_grown(
                *new_layout,
                region as int,
                old(self).image(),
                final(self).image(),
            ),
    {
        let ghost image = self.image();
        let ghost new = *new_layout;
        let ghost r = region as int;
        proof {
            new.lemma_region(r);
            self.layout.lemma_grows(new);
            math::lemma_log2_ceil(new.region_pages as int);
        }
        if region < self.layout.num_regions() {
            let allocator = self.regional_allocators.as_ref().unwrap()[region];
            let new_region = new_layout.region_layout(region);
            let old_region = self.layout.region_layout(region);
            proof {
                assert(self.layout.pages_of(r) <= new.pages_of(r));
                let a = new_region.num_pages as int;
                let b = old_region.num_pages as int;
                let size = new.page_size as int;
                assert(a * size == b * size ==> a == b) by (nonlinear_arith)
                    requires
                        1 <= size,
                ;
            }
            if new_region.len() != old_region.len() {
                assert(self.region_grows(new, r));
                self.metadata.mark(new_layout, region, false);
                let ghost between = self.image();
                proof {
                    regions::lemma_mark(
                        image,
                        between,
                        new,
                        self.allocators(),
                        r,
                        false,
                    );
                }
                let resized = self.metadata.resize_region(
                    new_layout,
                    region,
                    allocator,
                    new_region.num_pages(),
                );
                proof {
                    assert forall|i: int| 0 <= i < 8 * new.tracker_bytes implies #[trigger] regions::marked(
                        self.image(),
                        new,
                        i,
                    ) == regions::marked(between, new, i) by {}
                }
                resized
            } else {
                proof {
                    assert forall|p: int| #[trigger]
                        allocator.page_free(
                            regions::region_bytes(image, new, r),
                            p,
                        ) implies p < allocator.num_pages by {
                        allocator.lemma_free_in_range(regions::region_bytes(image, new, r), p);
                    }
                }
                allocator
            }
        } else {
            // brand new region
            self.metadata.mark(new_layout, region, false);
            let ghost between = self.image();
            proof {
                regions::lemma_mark(image, between, new, self.allocators(), r, false);
            }
            let allocator = self.metadata.init_region(new_layout, region);
            proof {
                assert forall|i: int| 0 <= i < 8 * new.tracker_bytes implies #[trigger] regions::marked(
                    self.image(),
                    new,
                    i,
                ) == regions::marked(between, new, i) by {}
            }
            allocator
        }
    }
}

impl TransactionalMemory {
    /// The memory after the growth of this one to the layout `new`.
    pub open spec fn grown_to(self, new: DatabaseLayout, after: Self) -> bool {
        &&& after.layout == new
        &&& after.has_allocators()
        &&& after.allocators() == regions::layout_allocators(new)
        &&& header::header_kept(self.image(), after.image())
        &&& after.image().len() == (if self.image().len() < new.spec_len() {
            new.spec_len()
        } else {
            self.image().len() as int
        })
        &&& after.free_set() == self.free_set().union(self.gained(new))
        &&& after.committed_free@ == self.committed_free@.union(self.gained(new))
        &&& regions::data_kept(self.image(), after.image(), self.layout)
        &&& forall|i: int|
            0 <= i < 8 * new.tracker_bytes ==> #[trigger] regions::marked(after.image(), new, i)
                == (if i < new.spec_num_regions() && self.region_grows(new, i) {
                false
            } else {
                regions::marked(self.image(), self.layout, i)
            })
        &&& after.allocated_since_commit@ == self.allocated_since_commit@
        &&& after.log_since_commit@ == self.log_since_commit@
        &&& after.read_from_secondary == self.read_from_secondary
        &&& after.page_size == self.page_size
        &&& after.region_size == self.region_size
        &&& after.region_header_with_padding_size == self.region_header_with_padding_size
        &&& after.db_header_size == self.db_header_size
        &&& after.trimmed
    }

    /// When every region has grown, the memory has.
    proof fn lemma_grown(self, after: Self, image: Seq<u8>, new: DatabaseLayout)
        requires
            self.geometry(),
            self.has_allocators(),
            regions::allocators_ok(self.image(), self.layout, self.allocators()),
            new.valid(),
            page_manager::layout_fits(self.header(), new),
            self.layout.grows_to(new),
            self.image().len() <= image.len(),
            image.len() == (if self.image().len() < new.spec_len() {
                new.spec_len()
            } else {
                self.image().len() as int
            }),
            header::header_kept(self.image(), image),
            regions::tracker(image, new) == regions::tracker(self.image(), self.layout),
            regions::data_kept(self.image(), image, self.layout),
            forall|j: int|
                0 <= j < self.allocators().len() ==> #[trigger] regions::region_bytes(image, new, j)
                    == regions::region_bytes(self.image(), self.layout, j),
            after.image().len() == image.len(),
            header::header_kept(image, after.image()),
            regions::data_kept(image, after.image(), new),
            after.layout == new,
            after.has_allocators(),
            after.allocators() == regions::layout_allocators(new),
            forall|j: int| #![trigger after.allocators()[j]]
                0 <= j < after.allocators().len() ==> {
                    let allocator = after.allocators()[j];
                    &&& regions::allocator_fits(allocator, new, j)
                    &&& allocator.wf(regions::region_bytes(after.image(), new, j))
                },
            forall|j: int, p: int|
                0 <= j < after.allocators().len() ==> #[trigger] regions::is_free(
                    after.image(),
                    new,
                    after.allocators(),
                    j,
                    p,
                ) == (regions::is_free(image, new, self.allocators(), j, p)
                    || self.region_size_now(j) <= p < new.pages_of(j)),
            forall|j: int|
                0 <= j < 8 * new.tracker_bytes ==> #[trigger] regions::marked(
                    after.image(),
                    new,
                    j,
                ) == (if j < new.spec_num_regions() && self.region_grows(new, j) {
                    false
                } else {
                    regions::marked(image, new, j)
                }),
            after.allocated_since_commit@ == self.allocated_since_commit@,
            after.log_since_commit@ == self.log_since_commit@,
            after.read_from_secondary == self.read_from_secondary,
            after.page_size == self.page_size,
            after.region_size == self.region_size,
            after.region_header_with_padding_size == self.region_header_with_padding_size,
            after.db_header_size == self.db_header_size,
            self.trimmed,
            after.trimmed,
            after.committed_free@ == self.committed_free@.union(self.gained(new)),
        ensures
            self.grown_to(new, after),
            after.geometry(),
            regions::allocators_ok(after.image(), new, after.allocators()),
            self.wf() ==> after.wf(),
            self.marks_sound() ==> after.marks_sound(),
    {
        let n = self.layout.spec_num_regions();
        let before = self.free_set();
        let more = self.gained(new);
        self.layout.lemma_grows(new);
        regions::lemma_exact(self.image(), self.layout, self.allocators());
        assert forall|i: int| 0 <= i < 8 * new.tracker_bytes implies #[trigger] regions::marked(
            image,
            new,
            i,
        ) == regions::marked(self.image(), self.layout, i) by {}
        assert forall|i: int| #![trigger after.allocators()[i]] 0 <= i
            < after.allocators().len() implies new.base(i) + new.region_header_bytes
            + after.allocators()[i].num_pages * new.page_size <= after.image().len() by {
            new.lemma_region(i);
        }
        assert forall|i: int|
            new.spec_num_regions() <= i < 8 * new.tracker_bytes implies #[trigger] regions::marked(
            after.image(),
            new,
            i,
        ) by {
            assert(regions::marked(self.image(), self.layout, i));
        }
        assert forall|x: (int, int)| #[trigger] after.free_set().contains(x) == before.union(
            more,
        ).contains(x) by {
            let (r, p) = x;
            if 0 <= r < new.spec_num_regions() {
                new.lemma_region(r);
                assert(regions::is_free(after.image(), new, after.allocators(), r, p) == (
                regions::is_free(image, new, self.allocators(), r, p) || self.region_size_now(r)
                    <= p < new.pages_of(r)));
                if r < n {
                    self.layout.lemma_region(r);
                    assert(regions::region_bytes(image, new, r) == regions::region_bytes(
                        self.image(),
                        self.layout,
                        r,
                    ));
                    assert(regions::is_free(image, new, self.allocators(), r, p) == before.contains(
                        x,
                    ));
                }
            } else {
                assert(!before.contains(x));
            }
        }
        assert(after.free_set() =~= before.union(more));
        assert forall|r: int, i: int|
            0 <= r && regions::in_pages(self.layout, i) && self.layout.base(r) + i
                < self.image().len() implies #[trigger] regions::byte_at(
            after.image(),
            self.layout,
            r,
            i,
        ) == regions::byte_at(self.image(), self.layout, r, i) by {
            assert(regions::byte_at(after.image(), new, r, i) == regions::byte_at(
                image,
                new,
                r,
                i,
            ));
            assert(regions::byte_at(image, self.layout, r, i) == regions::byte_at(
                self.image(),
                self.layout,
                r,
                i,
            ));
        }
        if self.wf() {
            let log = self.log_since_commit@;
            assert forall|i: int| 0 <= i < log.len() implies regions::has_page(
                after.allocators(),
                (#[trigger] log[i]).page(),
            ) && regions::block(log[i].page()).disjoint(more) by {
                let page = log[i].page();
                let r = page.region as int;
                assert(regions::has_page(self.allocators(), page));
                assert(self.layout.pages_of(r) <= new.pages_of(r));
                self.layout.lemma_region(r);
                new.lemma_region(r);
                assert(regions::allocator_fits(after.allocators()[r], new, r));
                assert(regions::allocator_fits(self.allocators()[r], self.layout, r));
                regions::lemma_block_in_region(self.allocators(), page);
            }
            journal::lemma_more_pages(self.committed_free@, more, log);
        }
        if self.marks_sound() {
            assert forall|r: int, p: int| #[trigger]
                after.free_set().contains((r, p)) implies !regions::marked(after.image(), new, r) by {
                if !before.contains((r, p)) {
                    assert(more.contains((r, p)));
                    assert(self.region_grows(new, r));
                }
            }
        }
    }

    /// Makes `new_layout` the layout, once the file has the length for it. The pages that come in
    /// are free.
    pub fn apply_layout(&mut self, new_layout: DatabaseLayout)
        requires
            old(self).geometry(),
            old(self).has_allocators(),
            regions::allocators_ok(old(self).image(), old(self).layout, old(self).allocators()),
            old(self).header().dirty,
            old(self).trimmed,
            new_layout.valid(),
            page_manager::layout_fits(old(self).header(), new_layout),
            old(self).layout.grows_to(new_layout),
        ensures
            old(self).grown_to(new_layout, *final(self)),
            final(self).geometry(),
            regions::allocators_ok(
                final(self).image(),
                final(self).layout,
                final(self).allocators(),
            ),
            old(self).wf() ==> final(self).wf(),
            old(self).marks_sound() ==> final(self).marks_sound(),
            old(self).state_known() ==> final(self).state_known(),
    {
        let ghost before = *self;
        let ghost new = new_layout;
        let ghost n = self.layout.spec_num_regions();
        let len: usize = new_layout.len();
        extend_zero(&mut self.metadata.mmap, len);
        let ghost image = self.image();
        proof {
            before.layout.lemma_grows(new);
            before.layout.lemma_region(0);
            new.lemma_region(0);
            regions::lemma_extended(before.image(), image, before.layout);
            regions::lemma_allocators_same(
                before.image(),
                image,
                before.layout,
                before.allocators(),
            );
            assert forall|i: int|
                #![trigger before.allocators()[i]]
                0 <= i < n implies regions::region_bytes(image, new, i) == regions::region_bytes(
                image,
                before.layout,
                i,
            ) by {}
        }
        let num_regions: usize = new_layout.num_regions();
        let mut new_allocators: Vec<BuddyAllocator> = Vec::new();
        let mut i: usize = 0;
        while i < num_regions
            invariant
                before == *old(self),
                self.same_but_image(before),
                before.trimmed,
                before.layout.valid(),
                before.has_allocators(),
                n == before.layout.spec_num_regions() == before.allocators().len(),
                new == new_layout,
                new.valid(),
                before.layout.grows_to(new),
                num_regions == new.spec_num_regions(),
                i <= num_regions,
                new.spec_len() <= image.len(),
                forall|j: int| #![trigger before.allocators()[j]]
                    0 <= j < n ==> {
                        &&& regions::allocator_fits(before.allocators()[j], before.layout, j)
                        &&& before.allocators()[j].wf(regions::region_bytes(image, new, j))
                    },
                new_allocators@.len() == i,
                self.image().len() == image.len(),
                header::header_kept(image, self.image()),
                regions::data_kept(image, self.image(), new),
                forall|j: int| #![trigger new_allocators@[j]]
                    0 <= j < i ==> {
                        let allocator = new_allocators@[j];
                        &&& allocator == regions::layout_allocators(new)[j]
                        &&& regions::allocator_fits(allocator, new, j)
                        &&& allocator.wf(regions::region_bytes(self.image(), new, j))
                    },
                forall|j: int, p: int|
                    #![trigger new_allocators@[j].page_free(regions::region_bytes(self.image(), new, j), p)]
                    0 <= j < i ==> new_allocators@[j].page_free(
                        regions::region_bytes(self.image(), new, j),
                        p,
                    ) == ((j < n && before.allocators()[j].page_free(
                        regions::region_bytes(image, new, j),
                        p,
                    )) || before.region_size_now(j) <= p < new.pages_of(j)),
                forall|j: int|
                    i <= j < n ==> #[trigger] regions::region_bytes(self.image(), new, j)
                        == regions::region_bytes(image, new, j),
                forall|j: int|
                    0 <= j < 8 * new.tracker_bytes ==> #[trigger] regions::marked(
                        self.image(),
                        new,
                        j,
                    ) == (if j < i && before.region_grows(new, j) {
                        false
                    } else {
                        regions::marked(image, new, j)
                    }),
            decreases num_regions - i,
        {
            let ghost current = self.image();
            proof {
                assert forall|j: int| 0 <= j < num_regions implies #[trigger] new.base(j)
                    + new.region_header_bytes <= current.len() by {
                    new.lemma_region(j);
                }
                before.layout.lemma_grows(new);
                if i < n {
                    let a = before.allocators()[i as int];
                    assert(regions::region_bytes(current, new, i as int) == regions::region_bytes(
                        image,
                        new,
                        i as int,
                    ));
                }
            }
            let allocator = self.grow_region(&new_layout, i);
            new_allocators.push(allocator);
            i = i + 1;
        }
        self.regional_allocators = Some(new_allocators);
        self.layout = new_layout;
        self.committed_free = Ghost(before.committed_free@.union(before.gained(new)));
        proof {
            let after = *self;
            before.layout.lemma_grows(new);
            regions::lemma_states_inside(before.image(), before.layout, before.allocators());
            regions::lemma_extended(before.image(), image, before.layout);
            assert forall|j: int| 0 <= j < n implies #[trigger] regions::region_bytes(
                image,
                new,
                j,
            ) == regions::region_bytes(before.image(), before.layout, j) by {
                assert(before.layout.base(j) + before.layout.region_header_bytes
                    <= before.image().len());
                assert(regions::region_bytes(image, new, j) == regions::region_bytes(
                    image,
                    before.layout,
                    j,
                ));
            }
            assert forall|j: int, p: int|
                0 <= j < after.allocators().len() implies #[trigger] regions::is_free(
                after.image(),
                new,
                after.allocators(),
                j,
                p,
            ) == (regions::is_free(image, new, before.allocators(), j, p) || before.region_size_now(
                j,
            ) <= p < new.pages_of(j)) by {
                let a = after.allocators()[j];
                assert(a.page_free(regions::region_bytes(after.image(), new, j), p)
                    == regions::is_free(after.image(), new, after.allocators(), j, p));
            }
            assert(after.allocators() =~= regions::layout_allocators(new));
            before.lemma_grown(after, image, new);
        }
    }
}

impl TransactionalMemory {
    /// Makes room for an allocation of the given order: asks for a longer file, and when the file
    /// has been resized, adds the pages that came in.
    pub fn grow(&mut self, required_order_allocation: usize, event: GrowEvent) -> (action: Action<
        (),
    >)
        requires
            old(self).geometry(),
            old(self).has_allocators(),
            regions::allocators_ok(old(self).image(), old(self).layout, old(self).allocators()),
            old(self).header().dirty,
            old(self).trimmed,
            old(self).growth_fits(required_order_allocation as int),
        ensures
            match event {
                GrowEvent::Start => {
                    &&& final(self).unchanged(*old(self))
                    &&& if old(self).grown(required_order_allocation as int) == old(self).layout {
                        action == Action::<()>::Done(Err(Error::OutOfSpace))
                    } else {
                        action matches Action::Resize(len) && len == old(self).grown(
                            required_order_allocation as int,
                        ).spec_len()
                    }
                },
                GrowEvent::Resized(Err(e)) => {
                    &&& final(self).unchanged(*old(self))
                    &&& action == Action::<()>::Done(Err(e))
                },
                GrowEvent::Resized(Ok(_)) => if old(self).grown(required_order_allocation as int)
                    == old(self).layout {
                    &&& final(self).unchanged(*old(self))
                    &&& action == Action::<()>::Done(Err(Error::OutOfSpace))
                } else {
                    &&& old(self).grown_to(
                        old(self).grown(required_order_allocation as int),
                        *final(self),
                    )
                    &&& action == Action::Done(Ok(()))
                },
            },
            action matches Action::Resize(len) ==> old(self).layout.spec_len() < len <= old(
                self,
            ).header().max_capacity,
            old(self).layout.grows_to(final(self).layout),
            final(self).geometry(),
            regions::allocators_ok(
                final(self).image(),
                final(self).layout,
                final(self).allocators(),
            ),
            old(self).wf() ==> final(self).wf(),
            old(self).marks_sound() ==> final(self).marks_sound(),
            old(self).state_known() ==> final(self).state_known(),
    {
        proof {
            let h = self.header();
            self.layout.lemma_is_for(
                h.max_capacity as int,
                self.layout.spec_usable_bytes(),
                h.region_max_usable_bytes as int,
                self.page_size as int,
            );
        }
        if let GrowEvent::Resized(Err(e)) = event {
            return Action::Done(Err(e));
        }
        match self.next_layout(required_order_allocation) {
            Err(e) => Action::Done(Err(e)),
            Ok(new_layout) => {
                if let GrowEvent::Start = event {
                    Action::Resize(new_layout.len())
                } else {
                    self.apply_layout(new_layout);
                    Action::Done(Ok(()))
                }
            },
        }
    }
}

} // verus!
