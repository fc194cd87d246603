//! The name of a page.

use crate::math;
use crate::math::exp2;
use core::ops::Range;
use vstd::prelude::*;

verus! {

/// Block `page_index` of order `page_order` in a region: `2` to the power of `page_order` pages
/// that start at page `page_index` times that number.
#[derive(Clone, Copy, Debug, PartialEq, Eq, Hash, Structural)]
pub struct PageNumber {
    pub region: u32,
    pub page_index: u32,
    pub page_order: u8,
}

impl PageNumber {
    pub fn new(region: u32, page_index: u32, page_order: u8) -> (page: Self)
        ensures
            page == (PageNumber { region, page_index, page_order }),
    {
        PageNumber { region, page_index, page_order }
    }

    /// The bytes of a stored page number.
    pub fn serialized_size() -> (size: usize)
        ensures
            size == 8,
    {
        8
    }

    /// The 64-bit form: 5 bits of order, 27 bits of region, 32 bits of index.
    pub open spec fn spec_encode(self) -> u64 {
        ((self.page_order % 32) * 0x0800_0000_0000_0000 + (self.region % 0x0800_0000)
            * 0x1_0000_0000 + self.page_index) as u64
    }

    pub open spec fn spec_decode(x: u64) -> Self {
        PageNumber {
            region: (x as int / 0x1_0000_0000 % 0x0800_0000) as u32,
            page_index: (x as int % 0x1_0000_0000) as u32,
            page_order: (x as int / 0x0800_0000_0000_0000) as u8,
        }
    }

    /// Whether the 64-bit form has room for this number.
    pub open spec fn storable(self) -> bool {
        self.region < 0x0800_0000 && self.page_order < 32
    }

    /// A number that the 64-bit form has room for is read back as it was stored.
    pub proof fn lemma_encode_round_trip(self)
        requires
            self.storable(),
        ensures
            Self::spec_decode(self.spec_encode()) == self,
    {
        let x = self.page_order * 0x0800_0000_0000_0000 + self.region * 0x1_0000_0000
            + self.page_index;
        assert(0 <= x <= u64::MAX);
        assert(x / 0x0800_0000_0000_0000 == self.page_order);
        assert(x % 0x1_0000_0000 == self.page_index);
        assert(x / 0x1_0000_0000 == self.page_order * 0x0800_0000 + self.region);
    }

    pub fn encode(&self) -> (x: u64)
        ensures
            x == self.spec_encode(),
    {
        (self.page_order % 32) as u64 * 0x0800_0000_0000_0000 + (self.region % 0x0800_0000) as u64
            * 0x1_0000_0000 + self.page_index as u64
    }

    pub fn decode(x: u64) -> (page: Self)
        ensures
            page == Self::spec_decode(x),
    {
        PageNumber {
            region: (x / 0x1_0000_0000 % 0x0800_0000) as u32,
            page_index: (x % 0x1_0000_0000) as u32,
            page_order: (x / 0x0800_0000_0000_0000) as u8,
        }
    }

    /// A number of its own for each page number.
    pub open spec fn spec_key(self) -> u128 {
        (self.region * 0x100_0000_0000 + self.page_index * 0x100 + self.page_order) as u128
    }

    pub fn key(&self) -> (k: u128)
        ensures
            k == self.spec_key(),
    {
        self.region as u128 * 0x100_0000_0000 + self.page_index as u128 * 0x100
            + self.page_order as u128
    }

    pub proof fn lemma_key_injective(self, other: Self)
        requires
            self.spec_key() == other.spec_key(),
        ensures
            self == other,
    {
    }

    /// The bytes of the page.
    pub open spec fn spec_page_size_bytes(self, page_size: int) -> int {
        page_size * math::pow2(self.page_order as int)
    }

    /// Where the page starts.
    pub open spec fn address(
        self,
        data_section_offset: int,
        region_size: int,
        region_pages_start: int,
        page_size: int,
    ) -> int {
        data_section_offset + self.region * region_size + region_pages_start + self.page_index
            * self.spec_page_size_bytes(page_size)
    }

    /// Where the page lies, in a file whose regions start at `data_section_offset`, are
    /// `region_size` bytes apart and hold their pages from `region_pages_start` on.
    pub fn address_range(
        &self,
        data_section_offset: usize,
        region_size: usize,
        region_pages_start: usize,
        page_size: usize,
    ) -> (range: Range<usize>)
        requires
            1 <= page_size,
            self.address(
                data_section_offset as int,
                region_size as int,
                region_pages_start as int,
                page_size as int,
            ) + self.spec_page_size_bytes(page_size as int) <= usize::MAX,
        ensures
            range.start == self.address(
                data_section_offset as int,
                region_size as int,
                region_pages_start as int,
                page_size as int,
            ),
            range.end == range.start + self.spec_page_size_bytes(page_size as int),
    {
        proof {
            let power = math::pow2(self.page_order as int);
            let bytes = self.spec_page_size_bytes(page_size as int);
            let index = self.page_index as int;
            let base = self.region * region_size;
            math::lemma_pow2_positive(self.page_order as int);
            assert(page_size as int * power >= power) by (nonlinear_arith)
                requires
                    page_size >= 1,
                    power >= 1,
            ;
            assert(index * bytes >= 0) by (nonlinear_arith)
                requires
                    index >= 0,
                    bytes >= 1,
            ;
            assert(base >= 0) by (nonlinear_arith)
                requires
                    base == self.region * region_size,
            ;
        }
        let size: usize = page_size * exp2(self.page_order as usize);
        let base: usize = self.region as usize * region_size;
        let start: usize = data_section_offset + base + region_pages_start + self.page_index as usize
            * size;
        Range { start, end: start + size }
    }
}

} // verus!
