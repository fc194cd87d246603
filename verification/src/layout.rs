//! Where the parts of the database file lie.
//!
//! The file starts with the header and the region allocator, padded to whole pages. The regions
//! follow: some full ones, and then at most one that has fewer pages. Each region starts with the
//! state of its page allocator, padded to whole pages.

use crate::buddy_allocator::BuddyAllocator;
use crate::bytes;
use crate::bytes::{read_u64, write_u64};
use crate::error::Error;
use crate::grouped_bitmap::U64GroupedBitMapMut;
use crate::header::DB_HEADER_SIZE;
use crate::math;
use crate::math::floor_log2;
use core::ops::Range;
use vstd::prelude::*;

verus! {

/// The largest order of a page.
pub const MAX_PAGE_ORDER: usize = 20;

/// A database has at least this many pages.
pub const MIN_USABLE_PAGES: usize = 10;

pub open spec fn round_up(x: int, unit: int) -> int {
    (x + unit - 1) / unit * unit
}

/// The pages of a full region.
pub open spec fn full_pages(max_usable: int, page_size: int) -> int {
    max_usable / page_size
}

/// The bytes before the pages of a region.
pub open spec fn region_header(max_usable: int, page_size: int) -> int {
    round_up(BuddyAllocator::spec_required_space(full_pages(max_usable, page_size)), page_size)
}

/// The bytes of a full region.
pub open spec fn region_len(max_usable: int, page_size: int) -> int {
    region_header(max_usable, page_size) + full_pages(max_usable, page_size) * page_size
}

/// The bytes of the region allocator: a bit for every region that a file of `capacity` bytes can
/// have.
pub open spec fn tracker_bytes(capacity: int, max_usable: int, page_size: int) -> int {
    U64GroupedBitMapMut::spec_required_bytes(capacity / region_len(max_usable, page_size) + 1)
}

/// The bytes before the first region.
pub open spec fn file_header(capacity: int, max_usable: int, page_size: int) -> int {
    round_up(DB_HEADER_SIZE + tracker_bytes(capacity, max_usable, page_size), page_size)
}

/// The largest order of a block in a region.
pub open spec fn largest_order(max_usable: int, page_size: int) -> int {
    let order = math::log2_floor(full_pages(max_usable, page_size));
    if order < MAX_PAGE_ORDER {
        order
    } else {
        MAX_PAGE_ORDER as int
    }
}

/// Whether a file of `capacity` bytes has room for the smallest database.
pub open spec fn has_room(capacity: int, max_usable: int, page_size: int) -> bool {
    &&& MIN_USABLE_PAGES < full_pages(max_usable, page_size) <= (usize::MAX / 2 + 1) / 4
    &&& file_header(capacity, max_usable, page_size) + region_header(max_usable, page_size)
        + MIN_USABLE_PAGES * page_size <= capacity
}

/// The pages that `bytes` bytes take.
pub open spec fn pages_for(bytes: int, page_size: int) -> int {
    (bytes + page_size - 1) / page_size
}

/// The full regions of a file that is to have room for `desired` bytes, as far as `capacity`
/// allows.
pub open spec fn full_regions(capacity: int, desired: int, max_usable: int, page_size: int) -> int {
    let wanted = pages_for(desired, page_size) / full_pages(max_usable, page_size);
    let possible = (capacity - file_header(capacity, max_usable, page_size)) / region_len(
        max_usable,
        page_size,
    );
    if wanted < possible {
        wanted
    } else {
        possible
    }
}

/// The pages of the last region of such a file, where that is not a full one, else zero.
pub open spec fn last_pages(capacity: int, desired: int, max_usable: int, page_size: int) -> int {
    let full = full_regions(capacity, desired, max_usable, page_size);
    let wanted = pages_for(desired, page_size) - full * full_pages(max_usable, page_size);
    let rest = capacity - file_header(capacity, max_usable, page_size) - full * region_len(
        max_usable,
        page_size,
    ) - region_header(max_usable, page_size);
    let possible = if rest < 0 {
        0
    } else {
        rest / page_size
    };
    let pages = if wanted < possible {
        wanted
    } else {
        possible
    };
    if pages >= MIN_USABLE_PAGES {
        pages
    } else if full == 0 {
        MIN_USABLE_PAGES as int
    } else {
        0
    }
}

/// A region: its size and the place of its pages.
#[derive(Clone, Copy, Debug, PartialEq, Eq, Structural)]
pub struct RegionLayout {
    pub num_pages: usize,
    pub header_bytes: usize,
    pub page_size: usize,
    pub max_order: usize,
}

impl RegionLayout {
    pub open spec fn spec_usable_bytes(self) -> int {
        self.num_pages * self.page_size
    }

    pub open spec fn spec_len(self) -> int {
        self.header_bytes + self.spec_usable_bytes()
    }

    pub open spec fn valid(self) -> bool {
        self.spec_len() <= usize::MAX
    }

    pub fn num_pages(&self) -> (n: usize)
        ensures
            n == self.num_pages,
    {
        self.num_pages
    }

    pub fn max_order(&self) -> (order: usize)
        ensures
            order == self.max_order,
    {
        self.max_order
    }

    /// The bytes of the allocator's state.
    pub fn header_len(&self) -> (n: usize)
        ensures
            n == self.header_bytes,
    {
        self.header_bytes
    }

    pub fn usable_bytes(&self) -> (n: usize)
        requires
            self.valid(),
        ensures
            n == self.spec_usable_bytes(),
    {
        self.num_pages * self.page_size
    }

    pub fn len(&self) -> (n: usize)
        requires
            self.valid(),
        ensures
            n == self.spec_len(),
    {
        self.header_bytes + self.usable_bytes()
    }

    /// Where the pages lie, counted from the start of the region.
    pub fn data_section(&self) -> (range: Range<usize>)
        requires
            self.valid(),
        ensures
            range.start == self.header_bytes,
            range.end == self.spec_len(),
    {
        Range { start: self.header_bytes, end: self.len() }
    }
}

/// The layout of the whole file.
#[derive(Clone, Copy, Debug, PartialEq, Eq, Structural)]
pub struct DatabaseLayout {
    /// The bytes before the first region.
    pub header_bytes: usize,
    /// The bytes of the region allocator.
    pub tracker_bytes: usize,
    pub page_size: usize,
    /// The bytes before the pages of a region.
    pub region_header_bytes: usize,
    pub max_order: usize,
    /// The pages of a full region.
    pub region_pages: usize,
    pub num_full_regions: usize,
    /// The pages of the last region, where that is not a full one, else zero.
    pub trailing_pages: usize,
}

impl DatabaseLayout {
    /// Whether this is the layout of a file of at most `capacity` bytes with room for `desired`
    /// bytes, in regions of up to `max_usable` bytes.
    pub open spec fn is_for(
        self,
        capacity: int,
        desired: int,
        max_usable: int,
        page_size: int,
    ) -> bool {
        &&& has_room(capacity, max_usable, page_size)
        &&& self.page_size == page_size
        &&& self.region_pages == full_pages(max_usable, page_size)
        &&& self.region_header_bytes == region_header(max_usable, page_size)
        &&& self.max_order == largest_order(max_usable, page_size)
        &&& self.tracker_bytes == tracker_bytes(capacity, max_usable, page_size)
        &&& self.header_bytes == file_header(capacity, max_usable, page_size)
        &&& self.num_full_regions == full_regions(capacity, desired, max_usable, page_size)
        &&& self.trailing_pages == last_pages(capacity, desired, max_usable, page_size)
    }

    /// The layout of a file of at most `capacity` bytes with room for `desired` bytes.
    pub open spec fn spec_calculate(
        capacity: int,
        desired: int,
        max_usable: int,
        page_size: int,
    ) -> Self {
        DatabaseLayout {
            header_bytes: file_header(capacity, max_usable, page_size) as usize,
            tracker_bytes: tracker_bytes(capacity, max_usable, page_size) as usize,
            page_size: page_size as usize,
            region_header_bytes: region_header(max_usable, page_size) as usize,
            max_order: largest_order(max_usable, page_size) as usize,
            region_pages: full_pages(max_usable, page_size) as usize,
            num_full_regions: full_regions(capacity, desired, max_usable, page_size) as usize,
            trailing_pages: last_pages(capacity, desired, max_usable, page_size) as usize,
        }
    }

    pub open spec fn spec_region_len(self) -> int {
        self.region_header_bytes + self.region_pages * self.page_size
    }

    pub open spec fn spec_num_regions(self) -> int {
        self.num_full_regions + (if self.trailing_pages > 0 {
            1int
        } else {
            0int
        })
    }

    /// The pages of region `region`.
    pub open spec fn pages_of(self, region: int) -> int {
        if region < self.num_full_regions {
            self.region_pages as int
        } else {
            self.trailing_pages as int
        }
    }

    pub open spec fn usable_pages(self) -> int {
        self.num_full_regions * self.region_pages + self.trailing_pages
    }

    pub open spec fn spec_usable_bytes(self) -> int {
        self.usable_pages() * self.page_size
    }

    /// Where region `region` starts.
    pub open spec fn base(self, region: int) -> int {
        self.header_bytes + region * self.spec_region_len()
    }

    pub open spec fn spec_len(self) -> int {
        self.base(self.num_full_regions as int) + (if self.trailing_pages > 0 {
            self.region_header_bytes + self.trailing_pages * self.page_size
        } else {
            0
        })
    }

    /// The regions are ones that there can be allocators for.
    pub open spec fn allocatable(self) -> bool {
        &&& self.region_pages <= (usize::MAX / 2 + 1) / 4
        &&& self.trailing_pages <= self.region_pages
        &&& math::pow2(self.max_order as int) <= self.region_pages
    }

    /// The parts lie one after the other, and the whole can be addressed.
    pub open spec fn valid(self) -> bool {
        &&& 1 <= self.page_size
        &&& DB_HEADER_SIZE + self.tracker_bytes <= self.header_bytes
        &&& self.spec_num_regions() <= 8 * self.tracker_bytes <= usize::MAX
        &&& MIN_USABLE_PAGES < self.region_pages <= (usize::MAX / 2 + 1) / 4
        &&& self.trailing_pages < self.region_pages
        &&& 1 <= self.spec_num_regions()
        &&& math::pow2(self.max_order as int) <= self.region_pages
        &&& self.max_order <= MAX_PAGE_ORDER
        &&& BuddyAllocator::spec_required_space(self.region_pages as int)
            <= self.region_header_bytes
        &&& self.spec_len() <= usize::MAX
        &&& self.spec_region_len() <= usize::MAX
    }
}

/// The numbers that a layout is computed from can be computed with.
pub open spec fn addressable(capacity: int, max_usable: int, page_size: int) -> bool {
    &&& 1 <= page_size
    &&& 0 <= capacity <= usize::MAX / 2 + 1
    &&& 0 <= max_usable <= usize::MAX / 2 + 1
}

pub proof fn lemma_div(x: int, d: int)
    requires
        0 <= x,
        1 <= d,
    ensures
        0 <= x / d <= x,
        x / d * d <= x < x / d * d + d,
{
    vstd::arithmetic::div_mod::lemma_fundamental_div_mod(x, d);
    vstd::arithmetic::div_mod::lemma_mod_bound(x, d);
    assert(d * (x / d) == x / d * d) by (nonlinear_arith);
    assert(0 <= x / d <= x) by (nonlinear_arith)
        requires
            0 <= x,
            1 <= d,
    ;
}

/// A product is at most another with larger factors.
pub proof fn lemma_mul_le(a: int, b: int, c: int, d: int)
    requires
        0 <= a <= c,
        0 <= b <= d,
    ensures
        0 <= a * b <= c * d,
{
    assert(0 <= a * b <= c * d) by (nonlinear_arith)
        requires
            0 <= a <= c,
            0 <= b <= d,
    ;
}

pub proof fn lemma_round_up(x: int, unit: int)
    requires
        0 <= x,
        1 <= unit,
    ensures
        x <= round_up(x, unit) < x + unit,
{
    lemma_div(x + unit - 1, unit);
}

/// The sizes of the fixed parts.
pub proof fn lemma_geometry(capacity: int, max_usable: int, page_size: int)
    requires
        addressable(capacity, max_usable, page_size),
        full_pages(max_usable, page_size) >= 1,
        full_pages(max_usable, page_size) <= (usize::MAX / 2 + 1) / 4,
    ensures
        BuddyAllocator::spec_required_space(full_pages(max_usable, page_size)) <= region_header(
            max_usable,
            page_size,
        ),
        1 <= BuddyAllocator::spec_required_space(full_pages(max_usable, page_size)),
        region_header(max_usable, page_size) <= full_pages(max_usable, page_size) / 2 + page_size
            + 1,
        full_pages(max_usable, page_size) * page_size <= max_usable,
        full_pages(max_usable, page_size) <= region_len(max_usable, page_size),
        0 <= capacity / region_len(max_usable, page_size) <= capacity / full_pages(
            max_usable,
            page_size,
        ),
        capacity / region_len(max_usable, page_size) + 1 <= 8 * tracker_bytes(
            capacity,
            max_usable,
            page_size,
        ) <= capacity / region_len(max_usable, page_size) + 64,
        DB_HEADER_SIZE + tracker_bytes(capacity, max_usable, page_size) <= file_header(
            capacity,
            max_usable,
            page_size,
        ) < DB_HEADER_SIZE + tracker_bytes(capacity, max_usable, page_size) + page_size,
{
    let pages = full_pages(max_usable, page_size);
    let height = math::log2_ceil(pages);
    lemma_div(max_usable, page_size);
    math::lemma_log2_ceil(pages);
    math::lemma_pow2_zero();
    if height > 0 {
        math::lemma_pow2_step(height);
    }
    math::lemma_pow2_positive(height);
    let space = BuddyAllocator::spec_required_space(pages);
    assert(1 <= space <= pages / 2 + 1);
    lemma_round_up(space, page_size);
    let len = region_len(max_usable, page_size);
    lemma_mul_le(pages, 1, pages, page_size);
    lemma_div(capacity, len);
    assert(0 <= capacity / len <= capacity / pages) by (nonlinear_arith)
        requires
            1 <= pages <= len,
            0 <= capacity,
    ;
    let regions = capacity / len + 1;
    lemma_div(regions + 63, 64);
    lemma_round_up(DB_HEADER_SIZE + tracker_bytes(capacity, max_usable, page_size), page_size);
}

/// The shares of the file that full regions and the last region take.
proof fn lemma_shares(capacity: int, desired: int, max_usable: int, page_size: int)
    requires
        addressable(capacity, max_usable, page_size),
        has_room(capacity, max_usable, page_size),
        0 <= desired,
    ensures
        0 <= full_regions(capacity, desired, max_usable, page_size),
        full_regions(capacity, desired, max_usable, page_size) <= capacity / region_len(
            max_usable,
            page_size,
        ),
        0 <= last_pages(capacity, desired, max_usable, page_size) < full_pages(
            max_usable,
            page_size,
        ),
        full_regions(capacity, desired, max_usable, page_size) * region_len(max_usable, page_size)
            + file_header(capacity, max_usable, page_size) + (if last_pages(
            capacity,
            desired,
            max_usable,
            page_size,
        ) > 0 {
            region_header(max_usable, page_size) + last_pages(
                capacity,
                desired,
                max_usable,
                page_size,
            ) * page_size
        } else {
            0
        }) <= capacity,
{
    lemma_geometry(capacity, max_usable, page_size);
    let pages = full_pages(max_usable, page_size);
    let len = region_len(max_usable, page_size);
    let header = region_header(max_usable, page_size);
    let space = capacity - file_header(capacity, max_usable, page_size);
    let full = full_regions(capacity, desired, max_usable, page_size);
    let last = last_pages(capacity, desired, max_usable, page_size);
    let asked = pages_for(desired, page_size);
    lemma_div(desired + page_size - 1, page_size);
    lemma_div(asked, pages);
    lemma_div(space, len);
    lemma_mul_le(full, len, space / len, len);
    assert(space / len <= capacity / len) by (nonlinear_arith)
        requires
            0 <= space <= capacity,
            1 <= len,
    ;
    let rest = space - full * len - header;
    if rest >= 0 {
        lemma_div(rest, page_size);
    }
    if full < space / len {
        assert(asked - full * pages < pages);
    } else if rest >= 0 {
        assert(rest < pages * page_size);
        assert(rest / page_size < pages) by (nonlinear_arith)
            requires
                rest < pages * page_size,
                0 <= rest,
                1 <= page_size,
        ;
    }
    if last > 0 {
        if full == 0 {
            assert(full * len == 0) by (nonlinear_arith)
                requires
                    full == 0,
            ;
        }
        if last != MIN_USABLE_PAGES as int || full != 0 {
            lemma_mul_le(last, page_size, rest / page_size, page_size);
        }
    }
}

impl DatabaseLayout {
    /// A computed layout is a layout, and fits in the capacity.
    pub proof fn lemma_is_for(self, capacity: int, desired: int, max_usable: int, page_size: int)
        requires
            addressable(capacity, max_usable, page_size),
            0 <= desired,
            self.is_for(capacity, desired, max_usable, page_size),
        ensures
            self.valid(),
            self.spec_len() <= capacity,
    {
        lemma_geometry(capacity, max_usable, page_size);
        lemma_shares(capacity, desired, max_usable, page_size);
        let pages = full_pages(max_usable, page_size);
        math::lemma_log2_floor(pages);
        math::lemma_pow2_le(self.max_order as int, math::log2_floor(pages));
        assert(capacity / pages <= capacity / 11) by (nonlinear_arith)
            requires
                11 <= pages,
                0 <= capacity,
        ;
        assert(MIN_USABLE_PAGES * page_size <= capacity);
    }
}

impl DatabaseLayout {
    /// Whether `other` is the same file, perhaps with more pages.
    pub open spec fn grows_to(self, other: Self) -> bool {
        &&& self.header_bytes == other.header_bytes
        &&& self.tracker_bytes == other.tracker_bytes
        &&& self.page_size == other.page_size
        &&& self.region_header_bytes == other.region_header_bytes
        &&& self.max_order == other.max_order
        &&& self.region_pages == other.region_pages
        &&& self.num_full_regions <= other.num_full_regions
        &&& self.num_full_regions == other.num_full_regions ==> self.trailing_pages
            <= other.trailing_pages
    }

    /// There is one layout for each request.
    pub proof fn lemma_calculated(
        self,
        capacity: int,
        desired: int,
        max_usable: int,
        page_size: int,
    )
        requires
            self.is_for(capacity, desired, max_usable, page_size),
        ensures
            self == Self::spec_calculate(capacity, desired, max_usable, page_size),
    {
    }

    /// There is a layout for each request that there is room for.
    pub proof fn lemma_calculates(capacity: int, desired: int, max_usable: int, page_size: int)
        requires
            addressable(capacity, max_usable, page_size),
            0 <= desired,
            has_room(capacity, max_usable, page_size),
        ensures
            Self::spec_calculate(capacity, desired, max_usable, page_size).is_for(
                capacity,
                desired,
                max_usable,
                page_size,
            ),
    {
        lemma_geometry(capacity, max_usable, page_size);
        lemma_shares(capacity, desired, max_usable, page_size);
        let pages = full_pages(max_usable, page_size);
        math::lemma_log2_floor(pages);
        assert(capacity / pages <= capacity / 11) by (nonlinear_arith)
            requires
                11 <= pages,
                0 <= capacity,
        ;
        assert(MIN_USABLE_PAGES * page_size <= capacity);
    }

    /// A layout is the one for just the bytes that it has room for.
    pub proof fn lemma_canonical(self, capacity: int, desired: int, max_usable: int, page_size: int)
        requires
            addressable(capacity, max_usable, page_size),
            0 <= desired,
            self.is_for(capacity, desired, max_usable, page_size),
        ensures
            self.is_for(capacity, self.spec_usable_bytes(), max_usable, page_size),
    {
        lemma_geometry(capacity, max_usable, page_size);
        lemma_shares(capacity, desired, max_usable, page_size);
        let pages = full_pages(max_usable, page_size);
        let len = region_len(max_usable, page_size);
        let space = capacity - file_header(capacity, max_usable, page_size);
        let full = self.num_full_regions as int;
        let last = self.trailing_pages as int;
        let usable = self.usable_pages();
        lemma_mul_le(full, pages, full, pages);
        assert(pages_for(usable * page_size, page_size) == usable) by {
            lemma_mul_le(usable, page_size, usable, page_size);
            let x = usable * page_size + page_size - 1;
            lemma_div(x, page_size);
            let q = x / page_size;
            assert(q == usable) by (nonlinear_arith)
                requires
                    q * page_size <= usable * page_size + page_size - 1,
                    usable * page_size + page_size - 1 < q * page_size + page_size,
                    1 <= page_size,
            ;
        }
        assert(usable / pages == full) by {
            lemma_div(usable, pages);
            let q = usable / pages;
            assert(q == full) by (nonlinear_arith)
                requires
                    q * pages <= full * pages + last < q * pages + pages,
                    0 <= last < pages,
            ;
        }
        lemma_div(desired + page_size - 1, page_size);
        lemma_div(space, len);
    }

    /// A request for more gives no less.
    pub proof fn lemma_monotone(
        self,
        other: Self,
        capacity: int,
        less: int,
        more: int,
        max_usable: int,
        page_size: int,
    )
        requires
            addressable(capacity, max_usable, page_size),
            0 <= less <= more,
            self.is_for(capacity, less, max_usable, page_size),
            other.is_for(capacity, more, max_usable, page_size),
        ensures
            self.grows_to(other),
    {
        lemma_geometry(capacity, max_usable, page_size);
        let pages = full_pages(max_usable, page_size);
        let a = pages_for(less, page_size);
        let b = pages_for(more, page_size);
        assert(a <= b) by (nonlinear_arith)
            requires
                a == (less + page_size - 1) / page_size,
                b == (more + page_size - 1) / page_size,
                0 <= less <= more,
                1 <= page_size,
        ;
        lemma_div(less + page_size - 1, page_size);
        assert(a / pages <= b / pages) by (nonlinear_arith)
            requires
                0 <= a <= b,
                1 <= pages,
        ;
    }

    /// A file that grows keeps its regions: none loses pages, and the length does not shrink.
    pub proof fn lemma_grows(self, other: Self)
        requires
            self.valid(),
            other.valid(),
            self.grows_to(other),
        ensures
            self.spec_num_regions() <= other.spec_num_regions(),
            self.spec_len() <= other.spec_len(),
            self.usable_pages() <= other.usable_pages(),
            self.spec_usable_bytes() <= other.spec_usable_bytes(),
            self.spec_len() == other.spec_len() ==> self == other,
            forall|i: int|
                0 <= i < self.spec_num_regions() ==> #[trigger] self.pages_of(i) <= other.pages_of(
                    i,
                ),
            forall|i: int| #[trigger] self.base(i) == other.base(i),
    {
        let len = self.spec_region_len();
        let size = self.page_size as int;
        let f1 = self.num_full_regions as int;
        let f2 = other.num_full_regions as int;
        let t1 = self.trailing_pages as int;
        let t2 = other.trailing_pages as int;
        let pages = self.region_pages as int;
        assert(t1 * size < pages * size) by (nonlinear_arith)
            requires
                0 <= t1 < pages,
                1 <= size,
        ;
        lemma_mul_le(t2, size, t2, size);
        assert(t1 < t2 ==> t1 * size < t2 * size) by (nonlinear_arith)
            requires
                1 <= size,
        ;
        lemma_mul_le(f1, len, f2, len);
        lemma_mul_le(f1, pages, f2, pages);
        if f1 < f2 {
            lemma_mul_le(f1 + 1, len, f2, len);
            lemma_mul_le(f1 + 1, pages, f2, pages);
            assert((f1 + 1) * len == f1 * len + len) by (nonlinear_arith);
            assert((f1 + 1) * pages == f1 * pages + pages) by (nonlinear_arith);
        }
        lemma_mul_le(self.usable_pages(), size, other.usable_pages(), size);
    }

    /// The layout of a file of at most `capacity` bytes with room for `desired` bytes.
    #[verifier::rlimit(40)]
    pub fn calculate(
        capacity: usize,
        desired: usize,
        max_usable_region_bytes: usize,
        page_size: usize,
    ) -> (layout: Result<Self, Error>)
        requires
            addressable(capacity as int, max_usable_region_bytes as int, page_size as int),
            MIN_USABLE_PAGES * page_size <= capacity,
        ensures
            match layout {
                Ok(l) => l.is_for(
                    capacity as int,
                    desired as int,
                    max_usable_region_bytes as int,
                    page_size as int,
                ) && l.valid() && l.spec_len() <= capacity,
                Err(e) => e == Error::OutOfSpace && !has_room(
                    capacity as int,
                    max_usable_region_bytes as int,
                    page_size as int,
                ),
            },
    {
        let ghost c = capacity as int;
        let ghost d = desired as int;
        let ghost m = max_usable_region_bytes as int;
        let ghost p = page_size as int;
        let region_pages: usize = max_usable_region_bytes / page_size;
        if region_pages <= MIN_USABLE_PAGES || region_pages > (usize::MAX / 2 + 1) / 4 {
            return Err(Error::OutOfSpace);
        }
        proof {
            lemma_geometry(c, m, p);
            lemma_div(m, p);
        }
        let space: usize = BuddyAllocator::required_space(region_pages);
        assert(space <= usize::MAX / 8);
        let region_header_bytes: usize = (space + (page_size - 1)) / page_size * page_size;
        let usable: usize = region_pages * page_size;
        let region_len: usize = region_header_bytes + usable;
        proof {
            assert(c / (region_pages as int) <= c / 11) by (nonlinear_arith)
                requires
                    11 <= region_pages,
                    0 <= c,
            ;
        }
        let tracker_bytes: usize = U64GroupedBitMapMut::required_bytes(capacity / region_len + 1);
        let header_bytes: usize = (DB_HEADER_SIZE + tracker_bytes + (page_size - 1)) / page_size
            * page_size;
        if capacity < header_bytes || capacity - header_bytes < region_header_bytes || capacity
            - header_bytes - region_header_bytes < MIN_USABLE_PAGES * page_size {
            return Err(Error::OutOfSpace);
        }
        proof {
            lemma_shares(c, d, m, p);
            lemma_div(d, p);
        }
        let order: usize = floor_log2(region_pages);
        let max_order: usize = if order < MAX_PAGE_ORDER {
            order
        } else {
            MAX_PAGE_ORDER
        };
        let asked: usize = if desired % page_size == 0 {
            desired / page_size
        } else {
            assert(p >= 2);
            assert(d / p <= d / 2) by (nonlinear_arith)
                requires
                    p >= 2,
                    d >= 0,
            ;
            desired / page_size + 1
        };
        assert(asked == pages_for(d, p)) by {
            let q = d / p;
            let r = d % p;
            vstd::arithmetic::div_mod::lemma_fundamental_div_mod(d, p);
            vstd::arithmetic::div_mod::lemma_mod_bound(d, p);
            let x = d + p - 1;
            lemma_div(x, p);
            let y = x / p;
            assert(p * q == q * p) by (nonlinear_arith);
            assert(y == (if r == 0 {
                q
            } else {
                q + 1
            })) by (nonlinear_arith)
                requires
                    d == q * p + r,
                    0 <= r < p,
                    y * p <= d + p - 1 < y * p + p,
            ;
        }
        let wanted: usize = asked / region_pages;
        let possible: usize = (capacity - header_bytes) / region_len;
        let num_full_regions: usize = if wanted < possible {
            wanted
        } else {
            possible
        };
        proof {
            lemma_div(asked as int, region_pages as int);
            lemma_mul_le(
                num_full_regions as int,
                region_pages as int,
                wanted as int,
                region_pages as int,
            );
        }
        let rest: usize = capacity - header_bytes - num_full_regions * region_len;
        let room: usize = if rest < region_header_bytes {
            0
        } else {
            (rest - region_header_bytes) / page_size
        };
        let missing: usize = asked - num_full_regions * region_pages;
        let pages: usize = if missing < room {
            missing
        } else {
            room
        };
        let trailing_pages: usize = if pages >= MIN_USABLE_PAGES {
            pages
        } else if num_full_regions == 0 {
            MIN_USABLE_PAGES
        } else {
            0
        };
        let layout = DatabaseLayout {
            header_bytes,
            tracker_bytes,
            page_size,
            region_header_bytes,
            max_order,
            region_pages,
            num_full_regions,
            trailing_pages,
        };
        proof {
            layout.lemma_is_for(c, d, m, p);
        }
        Ok(layout)
    }
}

impl DatabaseLayout {
    /// The bytes of a stored layout.
    pub fn serialized_size() -> (size: usize)
        ensures
            size == 64,
    {
        64
    }

    /// The layout that `data` holds, as eight little-endian numbers.
    pub open spec fn spec_from_le_bytes(data: Seq<u8>) -> Self {
        DatabaseLayout {
            header_bytes: bytes::u64_at(data, 0) as usize,
            tracker_bytes: bytes::u64_at(data, 8) as usize,
            page_size: bytes::u64_at(data, 16) as usize,
            region_header_bytes: bytes::u64_at(data, 24) as usize,
            max_order: bytes::u64_at(data, 32) as usize,
            region_pages: bytes::u64_at(data, 40) as usize,
            num_full_regions: bytes::u64_at(data, 48) as usize,
            trailing_pages: bytes::u64_at(data, 56) as usize,
        }
    }

    /// `data` with the stored form of this layout at its start.
    pub open spec fn spec_write(self, data: Seq<u8>) -> Seq<u8> {
        let d0 = bytes::with_u64(data, 0, self.header_bytes as u64);
        let d1 = bytes::with_u64(d0, 8, self.tracker_bytes as u64);
        let d2 = bytes::with_u64(d1, 16, self.page_size as u64);
        let d3 = bytes::with_u64(d2, 24, self.region_header_bytes as u64);
        let d4 = bytes::with_u64(d3, 32, self.max_order as u64);
        let d5 = bytes::with_u64(d4, 40, self.region_pages as u64);
        let d6 = bytes::with_u64(d5, 48, self.num_full_regions as u64);
        bytes::with_u64(d6, 56, self.trailing_pages as u64)
    }

    /// The stored form.
    pub open spec fn spec_to_le_bytes(self) -> Seq<u8> {
        self.spec_write(Seq::new(64, |i: int| 0u8))
    }

    /// A layout that was stored is the layout that is read back.
    pub proof fn lemma_round_trip(self)
        ensures
            self.spec_to_le_bytes().len() == 64,
            Self::spec_from_le_bytes(self.spec_to_le_bytes()) == self,
    {
        let data = Seq::new(64, |i: int| 0u8);
        let values = seq![
            self.header_bytes as u64,
            self.tracker_bytes as u64,
            self.page_size as u64,
            self.region_header_bytes as u64,
            self.max_order as u64,
            self.region_pages as u64,
            self.num_full_regions as u64,
            self.trailing_pages as u64,
        ];
        let d0 = bytes::with_u64(data, 0, values[0]);
        let d1 = bytes::with_u64(d0, 8, values[1]);
        let d2 = bytes::with_u64(d1, 16, values[2]);
        let d3 = bytes::with_u64(d2, 24, values[3]);
        let d4 = bytes::with_u64(d3, 32, values[4]);
        let d5 = bytes::with_u64(d4, 40, values[5]);
        let d6 = bytes::with_u64(d5, 48, values[6]);
        let d7 = bytes::with_u64(d6, 56, values[7]);
        bytes::lemma_u64_round_trip(data, 0, values[0]);
        bytes::lemma_u64_round_trip(d0, 8, values[1]);
        bytes::lemma_u64_round_trip(d1, 16, values[2]);
        bytes::lemma_u64_round_trip(d2, 24, values[3]);
        bytes::lemma_u64_round_trip(d3, 32, values[4]);
        bytes::lemma_u64_round_trip(d4, 40, values[5]);
        bytes::lemma_u64_round_trip(d5, 48, values[6]);
        bytes::lemma_u64_round_trip(d6, 56, values[7]);
        assert forall|x: u64| #[trigger]
            vstd::bytes::spec_u64_to_le_bytes(x).len() == 8 by {
            bytes::lemma_u64_bytes_len(x);
        }
        bytes::lemma_u64_same(d0, d7, 0);
        bytes::lemma_u64_same(d1, d7, 8);
        bytes::lemma_u64_same(d2, d7, 16);
        bytes::lemma_u64_same(d3, d7, 24);
        bytes::lemma_u64_same(d4, d7, 32);
        bytes::lemma_u64_same(d5, d7, 40);
        bytes::lemma_u64_same(d6, d7, 48);
    }

    pub fn to_le_bytes(&self) -> (data: Vec<u8>)
        ensures
            data@ == self.spec_to_le_bytes(),
    {
        let mut data: Vec<u8> = vec![0u8; 64];
        assert(data@ =~= Seq::new(64, |i: int| 0u8));
        let image = data.as_mut_slice();
        write_u64(image, 0, self.header_bytes as u64);
        write_u64(image, 8, self.tracker_bytes as u64);
        write_u64(image, 16, self.page_size as u64);
        write_u64(image, 24, self.region_header_bytes as u64);
        write_u64(image, 32, self.max_order as u64);
        write_u64(image, 40, self.region_pages as u64);
        write_u64(image, 48, self.num_full_regions as u64);
        write_u64(image, 56, self.trailing_pages as u64);
        data
    }

    pub fn from_le_bytes(data: &[u8]) -> (layout: Self)
        requires
            data@.len() == 64,
        ensures
            layout == Self::spec_from_le_bytes(data@),
    {
        DatabaseLayout {
            header_bytes: read_u64(data, 0) as usize,
            tracker_bytes: read_u64(data, 8) as usize,
            page_size: read_u64(data, 16) as usize,
            region_header_bytes: read_u64(data, 24) as usize,
            max_order: read_u64(data, 32) as usize,
            region_pages: read_u64(data, 40) as usize,
            num_full_regions: read_u64(data, 48) as usize,
            trailing_pages: read_u64(data, 56) as usize,
        }
    }

    /// Whether the length of a full region can be computed with.
    pub fn has_region_len(&self) -> (yes: bool)
        ensures
            yes == (self.spec_region_len() <= usize::MAX),
    {
        match self.region_pages.checked_mul(self.page_size) {
            Some(bytes) => bytes <= usize::MAX - self.region_header_bytes,
            None => false,
        }
    }

    /// Whether the regions are ones that there can be allocators for.
    pub fn is_allocatable(&self) -> (yes: bool)
        ensures
            yes == self.allocatable(),
    {
        if self.region_pages > (usize::MAX / 2 + 1) / 4 || self.trailing_pages > self.region_pages {
            return false;
        }
        proof {
            let order = self.max_order as int;
            math::lemma_pow2_positive(order);
            if self.region_pages >= 1 {
                let largest = math::log2_floor(self.region_pages as int);
                math::lemma_log2_floor(self.region_pages as int);
                if order <= largest {
                    math::lemma_pow2_le(order, largest);
                } else {
                    math::lemma_pow2_le(largest + 1, order);
                }
            }
        }
        self.region_pages >= 1 && self.max_order <= floor_log2(self.region_pages)
    }

    /// Whether this is a layout that `calculate` gives for the capacity and the region size.
    pub fn is_calculated(
        &self,
        capacity: usize,
        max_usable_region_bytes: usize,
        page_size: usize,
    ) -> (yes: bool)
        requires
            addressable(capacity as int, max_usable_region_bytes as int, page_size as int),
            MIN_USABLE_PAGES * page_size <= capacity,
        ensures
            yes == self.is_for(
                capacity as int,
                self.spec_usable_bytes(),
                max_usable_region_bytes as int,
                page_size as int,
            ),
    {
        let ghost c = capacity as int;
        let ghost m = max_usable_region_bytes as int;
        let ghost p = page_size as int;
        proof {
            let full = self.num_full_regions as int;
            let pages = self.region_pages as int;
            lemma_mul_le(full, pages, full, pages);
            lemma_mul_le(self.usable_pages(), self.page_size as int, self.usable_pages(), self.page_size as int);
            if self.is_for(c, self.spec_usable_bytes(), m, p) {
                self.lemma_is_for(c, self.spec_usable_bytes(), m, p);
                self.lemma_usable_fits();
            }
        }
        let full: usize = match self.num_full_regions.checked_mul(self.region_pages) {
            Some(x) => x,
            None => {
                return false;
            },
        };
        let pages: usize = match full.checked_add(self.trailing_pages) {
            Some(x) => x,
            None => {
                return false;
            },
        };
        let usable: usize = match pages.checked_mul(self.page_size) {
            Some(x) => x,
            None => {
                return false;
            },
        };
        match Self::calculate(capacity, usable, max_usable_region_bytes, page_size) {
            Ok(layout) => *self == layout,
            Err(_) => false,
        }
    }

    /// The pages are part of the file.
    pub proof fn lemma_usable_fits(self)
        requires
            self.valid(),
        ensures
            0 <= self.usable_pages() <= self.spec_usable_bytes() <= self.spec_len() <= usize::MAX,
            self.header_bytes + self.spec_usable_bytes() <= self.spec_len(),
            0 <= self.num_full_regions * self.region_pages <= usize::MAX,
            self.region_pages * self.page_size + self.region_header_bytes <= usize::MAX,
            0 <= self.trailing_pages * self.page_size <= self.region_pages * self.page_size,
    {
        let full = self.num_full_regions as int;
        let pages = self.region_pages as int;
        let size = self.page_size as int;
        let last = self.trailing_pages as int;
        lemma_mul_le(full, pages, full, pages);
        lemma_mul_le(self.usable_pages(), 1, self.usable_pages(), size);
        lemma_mul_le(last, size, pages, size);
        lemma_mul_le(full, pages * size, full, self.spec_region_len());
        assert((full * pages + last) * size == full * (pages * size) + last * size)
            by (nonlinear_arith);
        assert(last == 0 ==> last * size == 0) by (nonlinear_arith);
    }

    /// A region lies inside the file, behind the ones before it.
    pub proof fn lemma_region(self, region: int)
        requires
            self.valid(),
            0 <= region < self.spec_num_regions(),
        ensures
            self.header_bytes <= self.base(region),
            0 <= self.pages_of(region) * self.page_size <= self.region_pages * self.page_size,
            self.pages_of(region) > 0,
            self.pages_of(region) <= self.region_pages,
            self.base(region) + self.region_header_bytes + self.pages_of(region) * self.page_size
                <= self.spec_len(),
            self.base(region) + self.spec_region_len() == self.base(region + 1),
    {
        let len = self.spec_region_len();
        let full = self.num_full_regions as int;
        self.lemma_usable_fits();
        lemma_mul_le(region, len, region, len);
        assert((region + 1) * len == region * len + len) by (nonlinear_arith);
        lemma_mul_le(self.pages_of(region), self.page_size as int, self.region_pages as int, self.page_size as int);
        if region < full {
            lemma_mul_le(region + 1, len, full, len);
        }
    }

    pub fn header_bytes(&self) -> (n: usize)
        ensures
            n == self.header_bytes,
    {
        self.header_bytes
    }

    pub fn num_full_regions(&self) -> (n: usize)
        ensures
            n == self.num_full_regions,
    {
        self.num_full_regions
    }

    pub fn num_regions(&self) -> (n: usize)
        requires
            self.valid(),
        ensures
            n == self.spec_num_regions(),
    {
        if self.trailing_pages > 0 {
            self.num_full_regions + 1
        } else {
            self.num_full_regions
        }
    }

    /// The layout of a region of `pages` pages of this file.
    pub open spec fn region_of(self, pages: int) -> RegionLayout {
        RegionLayout {
            num_pages: pages as usize,
            header_bytes: self.region_header_bytes,
            page_size: self.page_size,
            max_order: self.max_order,
        }
    }

    pub fn full_region_layout(&self) -> (region: RegionLayout)
        ensures
            region == self.region_of(self.region_pages as int),
            self.valid() ==> region.valid(),
    {
        RegionLayout {
            num_pages: self.region_pages,
            header_bytes: self.region_header_bytes,
            page_size: self.page_size,
            max_order: self.max_order,
        }
    }

    pub fn trailing_region_layout(&self) -> (region: Option<RegionLayout>)
        ensures
            region == (if self.trailing_pages > 0 {
                Some(self.region_of(self.trailing_pages as int))
            } else {
                None
            }),
            self.valid() && region is Some ==> region->0.valid(),
    {
        proof {
            if self.valid() {
                self.lemma_usable_fits();
            }
        }
        if self.trailing_pages > 0 {
            Some(
                RegionLayout {
                    num_pages: self.trailing_pages,
                    header_bytes: self.region_header_bytes,
                    page_size: self.page_size,
                    max_order: self.max_order,
                },
            )
        } else {
            None
        }
    }

    pub fn region_layout(&self, region: usize) -> (layout: RegionLayout)
        requires
            self.valid(),
            region < self.spec_num_regions(),
        ensures
            layout == self.region_of(self.pages_of(region as int)),
            layout.num_pages == self.pages_of(region as int),
            layout.valid(),
    {
        proof {
            self.lemma_region(region as int);
            self.lemma_usable_fits();
        }
        RegionLayout {
            num_pages: if region < self.num_full_regions {
                self.region_pages
            } else {
                self.trailing_pages
            },
            header_bytes: self.region_header_bytes,
            page_size: self.page_size,
            max_order: self.max_order,
        }
    }

    pub fn region_base_address(&self, region: usize) -> (at: usize)
        requires
            self.valid(),
            region < self.spec_num_regions(),
        ensures
            at == self.base(region as int),
    {
        proof {
            self.lemma_region(region as int);
            let len = self.spec_region_len();
            lemma_mul_le(region as int, len, region as int, len);
        }
        self.header_bytes + region * (self.region_header_bytes + self.region_pages * self.page_size)
    }

    pub fn usable_bytes(&self) -> (n: usize)
        requires
            self.valid(),
        ensures
            n == self.spec_usable_bytes(),
    {
        proof {
            self.lemma_usable_fits();
        }
        (self.num_full_regions * self.region_pages + self.trailing_pages) * self.page_size
    }

    /// The length of the file.
    pub fn len(&self) -> (n: usize)
        requires
            self.valid(),
        ensures
            n == self.spec_len(),
    {
        proof {
            self.lemma_usable_fits();
            let len = self.spec_region_len();
            lemma_mul_le(self.num_full_regions as int, len, self.num_full_regions as int, len);
        }
        let full: usize = self.header_bytes + self.num_full_regions * (self.region_header_bytes
            + self.region_pages * self.page_size);
        if self.trailing_pages > 0 {
            full + (self.region_header_bytes + self.trailing_pages * self.page_size)
        } else {
            full
        }
    }

    /// Where the region allocator lies.
    pub fn region_allocator_address_range(&self) -> (range: Range<usize>)
        requires
            self.valid(),
        ensures
            range.start == DB_HEADER_SIZE,
            range.end == DB_HEADER_SIZE + self.tracker_bytes,
    {
        Range { start: DB_HEADER_SIZE, end: DB_HEADER_SIZE + self.tracker_bytes }
    }
}

} // verus!
