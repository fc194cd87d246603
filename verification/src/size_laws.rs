//! What is promised of the sizes of a file.

use crate::buddy_allocator::BuddyAllocator;
use crate::growth;
use crate::header::DB_HEADER_SIZE;
use crate::layout;
use crate::layout::DatabaseLayout;
use crate::math;
use crate::opening;
use crate::opening::Opening;
use crate::page_manager::TransactionalMemory;
use crate::regions;
use crate::statistics;
use vstd::prelude::*;

verus! {

/// The allocator state of a region has a flag for each node of a complete binary tree with a leaf
/// for each page, in whole bytes.
pub proof fn lemma_state_size(pages: int, height: int)
    requires
        0 <= height,
        pages <= math::pow2(height),
        height == 0 || math::pow2(height - 1) < pages,
    ensures
        2 * math::pow2(height) <= 8 * BuddyAllocator::spec_required_space(pages) < 2 * math::pow2(
            height,
        ) + 8,
{
    math::lemma_log2_ceil_unique(pages, height);
}

/// A multiple of a number leaves nothing over.
proof fn lemma_multiple(n: int, unit: int)
    requires
        1 <= unit,
    ensures
        (n * unit) % unit == 0,
{
    vstd::arithmetic::div_mod::lemma_mod_multiples_basic(n, unit);
}

/// There is one multiple of `unit` that is enough for `x` and not too much.
proof fn lemma_rounded(y: int, x: int, unit: int)
    requires
        0 <= x <= y < x + unit,
        1 <= unit,
        y % unit == 0,
    ensures
        y == layout::round_up(x, unit),
{
    let n = y / unit;
    let k = (x + unit - 1) / unit;
    vstd::arithmetic::div_mod::lemma_fundamental_div_mod(y, unit);
    layout::lemma_div(x + unit - 1, unit);
    assert(unit * n == n * unit) by (nonlinear_arith);
    assert(n == k) by (nonlinear_arith)
        requires
            x <= n * unit < x + unit,
            k * unit <= x + unit - 1 < k * unit + unit,
            1 <= unit,
    ;
}

impl DatabaseLayout {
    /// Whether `other` is a layout that this file, of at most `capacity` bytes, could have: its
    /// parts are those of this one, its last region is a full one or has ten pages or more, and it
    /// is no longer than the capacity.
    pub open spec fn could_be(self, other: DatabaseLayout, capacity: int) -> bool {
        &&& other.header_bytes == self.header_bytes
        &&& other.tracker_bytes == self.tracker_bytes
        &&& other.page_size == self.page_size
        &&& other.region_header_bytes == self.region_header_bytes
        &&& other.max_order == self.max_order
        &&& other.region_pages == self.region_pages
        &&& other.num_full_regions > 0 || other.trailing_pages > 0
        &&& other.trailing_pages == 0 || 10 <= other.trailing_pages < other.region_pages
        &&& other.header_bytes + other.num_full_regions * (other.region_header_bytes
            + other.region_pages * other.page_size) + (if other.trailing_pages > 0 {
            other.region_header_bytes + other.trailing_pages * other.page_size
        } else {
            0
        }) <= capacity
    }

    /// How many pages the layout has.
    pub open spec fn page_count(self) -> int {
        self.num_full_regions * self.region_pages + self.trailing_pages
    }

    /// A layout has the room that is asked for as far as the capacity allows, and no more: no
    /// layout that the file could have has more pages without having one that nobody asked for.
    pub proof fn lemma_best(
        self,
        other: DatabaseLayout,
        capacity: int,
        desired: int,
        max_usable: int,
        page_size: int,
    )
        requires
            layout::addressable(capacity, max_usable, page_size),
            0 <= desired,
            self.is_for(capacity, desired, max_usable, page_size),
        ensures
            self.could_be(self, capacity),
            self.page_count() == 10 || (self.page_count() - 1) * page_size < desired,
            self.could_be(other, capacity) && (other.page_count() - 1) * page_size < desired
                ==> other.page_count() <= self.page_count(),
    {
        self.lemma_is_for(capacity, desired, max_usable, page_size);
        let pages = self.region_pages as int;
        let len = self.spec_region_len();
        let space = capacity - self.header_bytes;
        let asked = layout::pages_for(desired, page_size);
        let full = self.num_full_regions as int;
        let wanted = asked / pages;
        let fits = space / len;
        layout::lemma_div(desired + page_size - 1, page_size);
        layout::lemma_div(asked, pages);
        layout::lemma_mul_le(pages, 1, pages, page_size);
        layout::lemma_div(space, len);
        layout::lemma_mul_le(full, pages, wanted, pages);
        // Of no more than `asked` pages, all but one are asked for
        assert forall|n: int| #[trigger] (n * page_size) < desired implies n < asked by {
            assert(n < asked) by (nonlinear_arith)
                requires
                    n * page_size < desired,
                    desired <= asked * page_size,
                    1 <= page_size,
            ;
        }
        assert(asked >= 1 ==> (asked - 1) * page_size < desired) by (nonlinear_arith)
            requires
                asked * page_size <= desired + page_size - 1,
                1 <= page_size,
        ;
        let rest = space - full * len - self.region_header_bytes;
        if rest >= 0 {
            layout::lemma_div(rest, page_size);
        }
        if self.page_count() != 10 {
            assert(self.page_count() <= asked) by {
                if full == 0 {
                    assert(full * pages == 0) by (nonlinear_arith)
                        requires
                            full == 0,
                    ;
                }
            }
            if full > 0 {
                layout::lemma_mul_le(1, pages, full, pages);
            }
            layout::lemma_mul_le(self.page_count() - 1, page_size, asked - 1, page_size);
        }
        if self.could_be(other, capacity) && (other.page_count() - 1) * page_size < desired {
            let f = other.num_full_regions as int;
            let t = other.trailing_pages as int;
            assert(other.page_count() <= asked);
            layout::lemma_mul_le(t, page_size, t, page_size);
            layout::lemma_mul_le(f, len, f, len);
            layout::lemma_mul_le(f, pages, f, pages);
            assert(f <= fits) by (nonlinear_arith)
                requires
                    f * len <= space,
                    space < fits * len + len,
                    1 <= len,
            ;
            assert(f <= wanted) by (nonlinear_arith)
                requires
                    f * pages <= asked,
                    asked < wanted * pages + pages,
                    1 <= pages,
            ;
            if f < full {
                layout::lemma_mul_le(f + 1, pages, full, pages);
                assert((f + 1) * pages == f * pages + pages) by (nonlinear_arith);
            } else {
                assert(f == full);
                if t > 0 {
                    assert(t <= rest / page_size) by (nonlinear_arith)
                        requires
                            t * page_size <= rest,
                            rest < rest / page_size * page_size + page_size,
                            1 <= page_size,
                    ;
                }
            }
        }
    }

    /// Of two layouts that the file could have, the one with more pages is the longer one, and has
    /// what the other has.
    pub proof fn lemma_more_is_longer(self, other: DatabaseLayout)
        requires
            self.valid(),
            other.valid(),
            self.header_bytes == other.header_bytes,
            self.tracker_bytes == other.tracker_bytes,
            self.page_size == other.page_size,
            self.region_header_bytes == other.region_header_bytes,
            self.max_order == other.max_order,
            self.region_pages == other.region_pages,
        ensures
            self.page_count() <= other.page_count() ==> self.grows_to(other),
            self.page_count() == other.page_count() ==> self == other,
    {
        let pages = self.region_pages as int;
        let f1 = self.num_full_regions as int;
        let f2 = other.num_full_regions as int;
        if f1 < f2 {
            layout::lemma_mul_le(f1 + 1, pages, f2, pages);
            assert((f1 + 1) * pages == f1 * pages + pages) by (nonlinear_arith);
        } else if f2 < f1 {
            layout::lemma_mul_le(f2 + 1, pages, f1, pages);
            assert((f2 + 1) * pages == f2 * pages + pages) by (nonlinear_arith);
        }
    }

    /// Whether the fixed parts of the layout are as they have to be: a region has the pages that
    /// its limit allows; its allocator state, and the header with a bit for every region that the
    /// capacity has room for, in whole words, take as many whole pages as they need.
    pub open spec fn has_parts(self, capacity: int, max_usable: int, page_size: int) -> bool {
        let space = BuddyAllocator::spec_required_space(self.region_pages as int);
        let len = self.region_header_bytes + self.region_pages * page_size;
        &&& self.page_size == page_size
        &&& self.region_pages * page_size <= max_usable < (self.region_pages + 1) * page_size
        &&& space <= self.region_header_bytes < space + page_size
        &&& self.region_header_bytes as int % page_size == 0
        &&& capacity / len < 8 * self.tracker_bytes <= capacity / len + 64
        &&& self.tracker_bytes % 8 == 0
        &&& 384 + self.tracker_bytes <= self.header_bytes < 384 + self.tracker_bytes + page_size
        &&& self.header_bytes as int % page_size == 0
    }

    /// A layout has the parts that it has to have, and where there is none, no layout that has them
    /// would fit in the capacity.
    pub proof fn lemma_parts(
        self,
        capacity: int,
        desired: int,
        max_usable: int,
        page_size: int,
    )
        requires
            layout::addressable(capacity, max_usable, page_size),
            0 <= desired,
        ensures
            self.is_for(capacity, desired, max_usable, page_size) ==> self.has_parts(
                capacity,
                max_usable,
                page_size,
            ),
            self.has_parts(capacity, max_usable, page_size) && self.valid() && self.page_count()
                >= 10 && self.spec_len() <= capacity ==> layout::has_room(
                capacity,
                max_usable,
                page_size,
            ),
    {
        let pages = layout::full_pages(max_usable, page_size);
        let space = BuddyAllocator::spec_required_space(pages);
        if self.is_for(capacity, desired, max_usable, page_size) {
            self.lemma_is_for(capacity, desired, max_usable, page_size);
            self.lemma_region_sizes(capacity, desired, max_usable, page_size);
            layout::lemma_geometry(capacity, max_usable, page_size);
            layout::lemma_round_up(space, page_size);
            lemma_multiple((space + page_size - 1) / page_size, page_size);
            let held = DB_HEADER_SIZE + self.tracker_bytes;
            lemma_multiple((held + page_size - 1) / page_size, page_size);
        }
        if self.has_parts(capacity, max_usable, page_size) && self.valid() && self.page_count()
            >= 10 && self.spec_len() <= capacity {
            let r = self.region_pages as int;
            let f = self.num_full_regions as int;
            let t = self.trailing_pages as int;
            layout::lemma_div(max_usable, page_size);
            assert((r + 1) * page_size == r * page_size + page_size) by (nonlinear_arith);
            assert(pages == r) by (nonlinear_arith)
                requires
                    r * page_size <= max_usable < r * page_size + page_size,
                    pages * page_size <= max_usable < pages * page_size + page_size,
                    1 <= page_size,
            ;
            layout::lemma_geometry(capacity, max_usable, page_size);
            lemma_rounded(self.region_header_bytes as int, space, page_size);
            layout::lemma_mul_le(r, 1, r, page_size);
            let regions = capacity / layout::region_len(max_usable, page_size) + 1;
            layout::lemma_div(regions + 63, 64);
            assert(self.tracker_bytes == layout::tracker_bytes(capacity, max_usable, page_size));
            lemma_rounded(
                self.header_bytes as int,
                DB_HEADER_SIZE + self.tracker_bytes,
                page_size,
            );
            self.lemma_length();
            layout::lemma_mul_le(10, page_size, self.page_count(), page_size);
            layout::lemma_mul_le(
                1,
                self.region_header_bytes as int,
                self.spec_num_regions(),
                self.region_header_bytes as int,
            );
        }
    }

    /// A file is as long as its header, the allocator state of each of its regions and its pages
    /// together, and has room for the bytes of its pages. All regions but the last are full ones,
    /// and lie one after the other.
    pub proof fn lemma_length(self)
        ensures
            forall|r: int|
                0 <= r < self.num_full_regions ==> #[trigger] self.pages_of(r)
                    == self.region_pages,
            self.pages_of(self.num_full_regions as int) == self.trailing_pages,
            forall|r: int| #[trigger]
                self.base(r) == self.header_bytes + r * (self.region_header_bytes
                    + self.region_pages * self.page_size),
            self.spec_len() == self.header_bytes + self.spec_num_regions()
                * self.region_header_bytes + self.page_count() * self.page_size,
            self.spec_usable_bytes() == self.page_count() * self.page_size,
            self.spec_num_regions() == self.num_full_regions + (if self.trailing_pages == 0 {
                0int
            } else {
                1int
            }),
    {
        let f = self.num_full_regions as int;
        let header = self.region_header_bytes as int;
        let size = self.region_pages as int;
        let p = self.page_size as int;
        let t = self.trailing_pages as int;
        assert(f * (header + size * p) == f * header + (f * size) * p) by (nonlinear_arith);
        assert((f * size + t) * p == (f * size) * p + t * p) by (nonlinear_arith);
        assert((f + 1) * header == f * header + header) by (nonlinear_arith);
        if t == 0 {
            assert(t * p == 0) by (nonlinear_arith)
                requires
                    t == 0,
            ;
        }
    }

    /// A layout's regions are as large as may be: one page more would be over the limit. Its blocks
    /// may be as large as a region has the pages for, up to an order of twenty.
    pub proof fn lemma_region_sizes(
        self,
        capacity: int,
        desired: int,
        max_usable: int,
        page_size: int,
    )
        requires
            layout::addressable(capacity, max_usable, page_size),
            0 <= desired,
            self.is_for(capacity, desired, max_usable, page_size),
        ensures
            self.page_size == page_size,
            self.region_pages * page_size <= max_usable < (self.region_pages + 1) * page_size,
            math::pow2(self.max_order as int) <= self.region_pages,
            self.max_order <= 20,
            self.max_order == 20 || self.region_pages < math::pow2(self.max_order + 1),
            10 < self.region_pages,
    {
        let pages = self.region_pages as int;
        layout::lemma_div(max_usable, page_size);
        assert((pages + 1) * page_size == pages * page_size + page_size) by (nonlinear_arith);
        math::lemma_log2_floor(pages);
        math::lemma_pow2_le(self.max_order as int, math::log2_floor(pages));
    }
}

impl DatabaseLayout {
    /// A file without a full region could have twice its pages in its one region, where it could
    /// have more than that and the region has room for them.
    proof fn lemma_doubled(self, other: DatabaseLayout, capacity: int)
        requires
            self.valid(),
            self.num_full_regions == 0,
            self.could_be(self, capacity),
            self.could_be(other, capacity),
            2 * self.trailing_pages < self.region_pages,
            2 * self.trailing_pages < other.page_count(),
        ensures
            self.could_be(
                (DatabaseLayout { trailing_pages: (2 * self.trailing_pages) as usize, ..self }),
                capacity,
            ),
    {
        let double = DatabaseLayout { trailing_pages: (2 * self.trailing_pages) as usize, ..self };
        let size = self.region_pages as int;
        let p = self.page_size as int;
        let len = self.region_header_bytes + size * p;
        let n = 2 * self.trailing_pages;
        let over = other.num_full_regions as int;
        let t = other.trailing_pages as int;
        let tail = if t > 0 {
            self.region_header_bytes + t * p
        } else {
            0
        };
        assert(double.trailing_pages == n && double.num_full_regions == 0);
        assert(0 * len == 0 && 0 * size == 0) by (nonlinear_arith);
        layout::lemma_mul_le(n, p, size, p);
        layout::lemma_mul_le(t, p, t, p);
        assert(self.header_bytes + over * len + tail <= capacity);
        if over == 0 {
            layout::lemma_mul_le(n, p, t, p);
            assert(over * len == 0 && over * size == 0) by (nonlinear_arith)
                requires
                    over == 0,
            ;
        } else {
            layout::lemma_mul_le(1, len, over, len);
        }
        assert(self.header_bytes + self.region_header_bytes + n * p <= capacity);
    }

    /// A layout that the file could have is a layout, and one that it grows to or has grown from:
    /// the one with more pages is the longer one.
    pub proof fn lemma_could_be(
        self,
        other: DatabaseLayout,
        capacity: int,
        desired: int,
        max_usable: int,
        page_size: int,
    )
        requires
            layout::addressable(capacity, max_usable, page_size),
            0 <= desired,
            self.is_for(capacity, desired, max_usable, page_size),
            self.could_be(other, capacity),
        ensures
            other.valid(),
            other.spec_len() <= capacity,
            self.page_count() <= other.page_count() ==> self.grows_to(other),
            other.page_count() <= self.page_count() ==> other.grows_to(self),
            self.page_count() < other.page_count() ==> self.spec_len() < other.spec_len(),
            self.page_count() == other.page_count() ==> self == other,
    {
        let len = self.spec_region_len();
        let full = other.num_full_regions as int;
        let t = other.trailing_pages as int;
        self.lemma_is_for(capacity, desired, max_usable, page_size);
        layout::lemma_geometry(capacity, max_usable, page_size);
        layout::lemma_mul_le(self.region_pages as int, 1, self.region_pages as int, page_size);
        layout::lemma_div(capacity, len);
        layout::lemma_mul_le(t, page_size, t, page_size);
        layout::lemma_mul_le(full, len, full, len);
        let most = capacity / len;
        assert(full <= most) by (nonlinear_arith)
            requires
                full * len <= capacity,
                capacity < most * len + len,
                1 <= len,
        ;
        self.lemma_more_is_longer(other);
        other.lemma_more_is_longer(self);
        if self.page_count() < other.page_count() {
            self.lemma_grows(other);
        }
    }
}

impl TransactionalMemory {
    /// Whether `other` is a layout that the file could have.
    pub open spec fn could_have(self, other: DatabaseLayout) -> bool {
        self.layout.could_be(other, self.header().max_capacity as int)
    }

    /// The layout that the file grows to is one that it could have, for the bytes that it is to
    /// have room for.
    proof fn lemma_grown_layout(self, order: int)
        requires
            self.geometry(),
            0 <= order,
        ensures
            ({
                let h = self.header();
                let desired = growth::desired_size(
                    self.layout,
                    h.region_max_usable_bytes as int,
                    order,
                );
                &&& 0 <= desired
                &&& self.grown(order).is_for(
                    h.max_capacity as int,
                    desired,
                    h.region_max_usable_bytes as int,
                    self.page_size as int,
                )
                &&& self.could_have(self.grown(order))
                &&& self.layout.page_count() <= self.grown(order).page_count()
                &&& 10 <= self.layout.page_count()
            }),
    {
        let h = self.header();
        let c = h.max_capacity as int;
        let m = h.region_max_usable_bytes as int;
        let p = self.page_size as int;
        let l = self.layout;
        let full = l.num_full_regions as int;
        let size = l.region_pages as int;
        let usable = l.spec_usable_bytes();
        let desired = growth::desired_size(l, m, order);
        math::lemma_pow2_positive(order);
        layout::lemma_mul_le(math::pow2(order), p, math::pow2(order), p);
        l.lemma_is_for(c, usable, m, p);
        layout::lemma_mul_le(full, size, full, size);
        layout::lemma_mul_le(l.usable_pages(), p, l.usable_pages(), p);
        layout::lemma_geometry(c, m, p);
        layout::lemma_mul_le(l.trailing_pages as int, p, l.region_pages as int, p);
        DatabaseLayout::lemma_calculates(c, desired, m, p);
        l.lemma_monotone(self.grown(order), c, usable, desired, m, p);
        self.grown(order).lemma_is_for(c, desired, m, p);
        l.lemma_grows(self.grown(order));
        l.lemma_best(l, c, usable, m, p);
        self.grown(order).lemma_best(l, c, desired, m, p);
        if l.num_full_regions > 0 {
            layout::lemma_mul_le(1, size, full, size);
        }
    }

    /// What a file without a full region grows to.
    proof fn lemma_growth_of_small(self, order: int, other: DatabaseLayout)
        requires
            self.geometry(),
            0 <= order,
            self.could_have(other),
            self.layout.num_full_regions == 0,
        ensures
            ({
                let now = self.layout.page_count();
                let new = self.grown(order).page_count();
                &&& other.page_count() <= 2 * now ==> other.page_count() <= new
                &&& other.page_count() <= now + 2 * math::pow2(order) ==> other.page_count() <= new
                &&& new <= 2 * now || new <= now + 2 * math::pow2(order)
            }),
    {
        let h = self.header();
        let c = h.max_capacity as int;
        let m = h.region_max_usable_bytes as int;
        let p = self.page_size as int;
        let new = self.grown(order);
        let now = self.layout.page_count();
        let more = now + 2 * math::pow2(order);
        let desired = growth::desired_size(self.layout, m, order);
        let n = other.page_count();
        let k = new.page_count();
        self.lemma_grown_layout(order);
        new.lemma_best(other, c, desired, m, p);
        assert(now * p + 2 * (math::pow2(order) * p) == more * p && 2 * (now * p) == (2 * now) * p)
            by (nonlinear_arith)
            requires
                more == now + 2 * math::pow2(order),
        ;
        assert(desired >= (2 * now) * p && desired >= more * p);
        assert(n <= 2 * now ==> (n - 1) * p < (2 * now) * p) by (nonlinear_arith)
            requires
                1 <= p,
        ;
        assert(n <= more ==> (n - 1) * p < more * p) by (nonlinear_arith)
            requires
                1 <= p,
        ;
        assert((k - 1) * p < (2 * now) * p ==> k <= 2 * now) by (nonlinear_arith)
            requires
                1 <= p,
        ;
        assert((k - 1) * p < more * p ==> k <= more) by (nonlinear_arith)
            requires
                1 <= p,
        ;
    }

    /// A file with a full region grows, as far as the capacity allows, by the pages that its last
    /// region lacks, where twice the request is less than the room that there would be, else by
    /// the pages of a region; and by no more, but for one page where the limit of a region is not a
    /// whole number of pages.
    pub proof fn lemma_growth_of_large(self, order: int, other: DatabaseLayout)
        requires
            self.geometry(),
            0 <= order,
            self.could_have(other),
            self.layout.num_full_regions > 0,
        ensures
            ({
                let now = self.layout.page_count();
                let new = self.grown(order).page_count();
                let size = self.layout.region_pages as int;
                let filled = (self.layout.num_full_regions + 1) * size;
                let last = self.layout.trailing_pages as int;
                let limit = self.header().region_max_usable_bytes as int;
                let page_size = self.page_size as int;
                let most = if last > 0 && 2 * (math::pow2(order) * page_size) < limit - last
                    * page_size {
                    filled
                } else {
                    now + size
                };
                &&& other.page_count() <= most ==> other.page_count() <= new
                &&& new <= most + 1
                &&& size * page_size == limit ==> new <= most
                &&& filled <= most
            }),
    {
        let h = self.header();
        let c = h.max_capacity as int;
        let m = h.region_max_usable_bytes as int;
        let p = self.page_size as int;
        let l = self.layout;
        let new = self.grown(order);
        let now = l.page_count();
        let size = l.region_pages as int;
        let last = l.trailing_pages as int;
        let full = l.num_full_regions as int;
        let desired = growth::desired_size(l, m, order);
        let n = other.page_count();
        let k = new.page_count();
        let most = if last > 0 && 2 * (math::pow2(order) * p) < m - last * p {
            (full + 1) * size
        } else {
            now + size
        };
        self.lemma_grown_layout(order);
        new.lemma_best(other, c, desired, m, p);
        l.lemma_region_sizes(c, l.spec_usable_bytes(), m, p);
        layout::lemma_mul_le(1, size, full, size);
        assert((full + 1) * size == full * size + size) by (nonlinear_arith);
        assert((size + 1) * p == size * p + p) by (nonlinear_arith);
        let base = most - size;
        assert(now * p - last * p == (now - last) * p) by (nonlinear_arith);
        assert(desired == base * p + m);
        assert(n <= most ==> (n - 1) * p < base * p + m) by (nonlinear_arith)
            requires
                1 <= p,
                base == most - size,
                size * p <= m,
        ;
        assert((k - 1) * p < base * p + m ==> k <= most + 1) by (nonlinear_arith)
            requires
                1 <= p,
                base == most - size,
                m < size * p + p,
        ;
        assert((k - 1) * p < base * p + m && size * p == m ==> k <= most) by (nonlinear_arith)
            requires
                1 <= p,
                base == most - size,
        ;
    }

    /// A file that grows gets pages, unless no layout that it could have has more than it has. One
    /// without a full region comes to have twice the pages, and the pages that it has and twice
    /// those of the request, as far as the capacity allows, and no more than the larger of the two.
    pub proof fn lemma_growth(self, order: int, other: DatabaseLayout)
        requires
            self.geometry(),
            0 <= order,
            self.could_have(other),
        ensures
            ({
                let now = self.layout.page_count();
                let new = self.grown(order).page_count();
                &&& self.could_have(self.grown(order))
                &&& self.layout.grows_to(self.grown(order))
                &&& now < other.page_count() ==> now < new
                &&& self.layout.num_full_regions == 0 ==> {
                    &&& other.page_count() <= 2 * now ==> other.page_count() <= new
                    &&& other.page_count() <= now + 2 * math::pow2(order) ==> other.page_count()
                        <= new
                    &&& new <= 2 * now || new <= now + 2 * math::pow2(order)
                }
            }),
    {
        let h = self.header();
        let c = h.max_capacity as int;
        let m = h.region_max_usable_bytes as int;
        let p = self.page_size as int;
        let l = self.layout;
        let new = self.grown(order);
        let now = l.page_count();
        self.lemma_grown_layout(order);
        l.lemma_could_be(new, c, l.spec_usable_bytes(), m, p);
        let last = l.trailing_pages as int;
        let size = l.region_pages as int;
        let full = l.num_full_regions as int;
        let len = l.spec_region_len();
        let over = other.num_full_regions as int;
        let t = other.trailing_pages as int;
        layout::lemma_mul_le(over, len, over, len);
        layout::lemma_mul_le(over, size, over, size);
        layout::lemma_mul_le(t, p, t, p);
        assert((full + 1) * size == full * size + size) by (nonlinear_arith);
        // A region more, or twice the pages, is room that the file could have
        let region = DatabaseLayout {
            num_full_regions: (full + 1) as usize,
            trailing_pages: 0,
            ..l
        };
        let double = DatabaseLayout { trailing_pages: (2 * last) as usize, ..l };
        if over > full {
            layout::lemma_mul_le(full + 1, len, over, len);
            assert(self.could_have(region));
        } else {
            layout::lemma_mul_le(over, size, full, size);
        }
        if full > 0 {
            self.lemma_growth_of_large(order, other);
            if over > full {
                self.lemma_growth_of_large(order, region);
            }
        } else {
            assert(full * len == 0 && full * size == 0) by (nonlinear_arith)
                requires
                    full == 0,
            ;
            self.lemma_growth_of_small(order, other);
            if over > full {
                self.lemma_growth_of_small(order, region);
            }
            if 2 * last < size && 2 * now < other.page_count() {
                l.lemma_best(l, c, l.spec_usable_bytes(), m, p);
                l.lemma_doubled(other, c);
                self.lemma_growth_of_small(order, double);
            }
        }
    }
}

impl DatabaseLayout {
    /// The pages of a layout take no more bytes than there are after the header.
    proof fn lemma_pages_fit(self, other: DatabaseLayout, capacity: int)
        requires
            self.valid(),
            self.could_be(other, capacity),
        ensures
            other.page_count() * self.page_size < capacity,
            10 <= other.page_count(),
    {
        let f = other.num_full_regions as int;
        let size = self.region_pages as int;
        let p = self.page_size as int;
        let header = self.region_header_bytes as int;
        let t = other.trailing_pages as int;
        assert(f * (header + size * p) == f * header + (f * size) * p) by (nonlinear_arith);
        assert((f * size + t) * p == (f * size) * p + t * p) by (nonlinear_arith);
        layout::lemma_mul_le(f, header, f, header);
        if f > 0 {
            layout::lemma_mul_le(1, size, f, size);
        }
    }
}

impl TransactionalMemory {
    /// No layout that the file could have has more pages than the largest one.
    pub proof fn lemma_largest(self, other: DatabaseLayout)
        requires
            self.geometry(),
            self.could_have(other),
        ensures
            self.could_have(self.largest_layout()),
            self.could_have(self.layout),
            other.page_count() <= self.largest_layout().page_count(),
    {
        let h = self.header();
        let c = h.max_capacity as int;
        let m = h.region_max_usable_bytes as int;
        let p = self.page_size as int;
        let l = self.layout;
        let n = other.page_count();
        l.lemma_is_for(c, l.spec_usable_bytes(), m, p);
        layout::lemma_mul_le(l.usable_pages(), p, l.usable_pages(), p);
        DatabaseLayout::lemma_calculates(c, c, m, p);
        l.lemma_best(l, c, l.spec_usable_bytes(), m, p);
        l.lemma_pages_fit(other, c);
        assert((n - 1) * p <= n * p) by (nonlinear_arith)
            requires
                1 <= p,
        ;
        self.largest_layout().lemma_best(other, c, c, m, p);
    }

    /// The pages that are available and those that are in use are together just the pages that the
    /// file has at its largest. So a file at its largest without a free page has none available.
    pub proof fn lemma_available(self, other: DatabaseLayout)
        requires
            self.geometry(),
            self.has_allocators(),
            self.allocation(),
            self.could_have(other),
        ensures
            ({
                let in_use = regions::all_pages(self.layout).difference(self.free_set());
                &&& self.free_set().finite()
                &&& in_use.finite()
                &&& in_use.len() == self.layout.page_count() - self.free_set().len()
                &&& self.available_pages() + in_use.len() == self.largest_layout().page_count()
                &&& self.available_pages() >= other.page_count() - in_use.len()
                &&& self.free_set().len() <= self.available_pages()
                &&& self.free_set().len() == 0 && self.layout == self.largest_layout()
                    ==> self.available_pages() == 0
            }),
    {
        let all = regions::all_pages(self.layout);
        let free = self.free_set();
        let in_use = all.difference(free);
        let h = self.header();
        self.layout.lemma_is_for(
            h.max_capacity as int,
            self.layout.spec_usable_bytes(),
            h.region_max_usable_bytes as int,
            self.page_size as int,
        );
        self.lemma_largest(other);
        self.lemma_largest(self.layout);
        self.lemma_allocators();
        self.lemma_free_pages_counted();
        self.lemma_potential();
        statistics::lemma_all_pages(self.layout);
        vstd::set_lib::lemma_set_disjoint_lens(free, in_use);
        assert(all =~= free + in_use);
    }
}

impl Opening {
    /// A new file that is not to grow has all the pages that its capacity allows. One that is to
    /// grow has the first mebibyte, as far as the capacity allows and in whole pages, and no more,
    /// but for the ten pages that any file has.
    pub proof fn lemma_new_size(self, other: DatabaseLayout)
        requires
            self.request_ok(),
            self.has_room(),
            self.new_layout().could_be(other, self.max_capacity as int),
        ensures
            ({
                let new = self.new_layout().page_count();
                &&& self.new_layout().could_be(self.new_layout(), self.max_capacity as int)
                &&& !self.dynamic_growth ==> other.page_count() <= new
                &&& self.dynamic_growth ==> {
                    &&& (other.page_count() - 1) * self.page_size < 0x10_0000
                        ==> other.page_count() <= new
                    &&& new == 10 || (new - 1) * self.page_size < 0x10_0000
                }
            }),
    {
        let c = self.max_capacity as int;
        let m = opening::max_usable_region(c);
        let p = self.page_size as int;
        let desired = opening::starting_size(c, self.dynamic_growth);
        let n = other.page_count();
        let l = self.new_layout();
        Opening::lemma_region_limit(c);
        math::lemma_log2_floor(p);
        math::lemma_pow2_positive(math::log2_floor(p));
        DatabaseLayout::lemma_calculates(c, desired, m, p);
        l.lemma_is_for(c, desired, m, p);
        l.lemma_best(other, c, desired, m, p);
        l.lemma_pages_fit(other, c);
        assert((n - 1) * p <= n * p) by (nonlinear_arith)
            requires
                1 <= p,
        ;
    }

    /// The regions of a new file are the smallest power of two that holds the capacity, or four
    /// gibibytes where that is less.
    pub proof fn lemma_region_limit(capacity: int)
        requires
            0 <= capacity <= usize::MAX / 2 + 1,
        ensures
            ({
                let limit = opening::max_usable_region(capacity);
                &&& exists|k: int| 0 <= k <= 32 && limit == #[trigger] math::pow2(k)
                &&& limit <= 0x1_0000_0000
                &&& limit < 0x1_0000_0000 ==> capacity <= limit
                &&& capacity < 0x1_0000_0000 && capacity > 1 ==> limit < 2 * capacity
                &&& capacity >= 0x1_0000_0000 ==> limit == 0x1_0000_0000
                &&& layout::addressable(capacity, limit, 1)
            }),
    {
        let k = math::log2_ceil(capacity);
        vstd::arithmetic::power2::lemma2_to64();
        assert(math::pow2(0) == 1 && math::pow2(32) == 0x1_0000_0000);
        math::lemma_usize_half();
        math::lemma_log2_ceil(capacity);
        if k > 0 {
            math::lemma_pow2_step(k);
        }
        if k > usize::BITS - 1 {
            math::lemma_pow2_le(usize::BITS - 1, k - 1);
        }
        math::lemma_pow2_le(k, usize::BITS - 1);
        if k > 32 {
            math::lemma_pow2_le(32, k);
        } else {
            math::lemma_pow2_le(k, 32);
        }
    }
}

} // verus!
