//! Access to the bytes of pages.

use crate::bytes;
use crate::bytes::range_mut;
use crate::header;
use crate::layout;
use crate::math;
use crate::page_manager::TransactionalMemory;
use crate::page_number::PageNumber;
use crate::regions;
use vstd::prelude::*;
use vstd::slice::slice_subrange;

verus! {

/// A page, for reading.
pub struct PageImpl<'a> {
    pub mem: &'a [u8],
    pub page_number: PageNumber,
}

impl<'a> PageImpl<'a> {
    pub fn memory(&self) -> (mem: &[u8])
        ensures
            mem@ == self.mem@,
    {
        self.mem
    }

    pub fn get_page_number(&self) -> (page_number: PageNumber)
        ensures
            page_number == self.page_number,
    {
        self.page_number
    }
}

/// A page, for writing.
pub struct PageMut<'a> {
    pub mem: &'a mut [u8],
    pub page_number: PageNumber,
}

impl<'a> PageMut<'a> {
    pub open spec fn view(self) -> Seq<u8> {
        self.mem@
    }

    pub fn memory_mut(&mut self) -> (mem: &mut [u8])
        ensures
            mem@ == old(self)@,
            final(mem)@ == final(self)@,
            final(self).page_number == old(self).page_number,
            final(final(self).mem)@ == final(old(self).mem)@,
    {
        self.mem
    }

    pub fn get_page_number(&self) -> (page_number: PageNumber)
        ensures
            page_number == self.page_number,
    {
        self.page_number
    }
}

impl TransactionalMemory {
    /// A page, for reading.
    pub fn get_page(&self, page_number: PageNumber) -> (page: PageImpl<'_>)
        requires
            1 <= self.page_size,
            self.page_in_memory(page_number),
        ensures
            page.mem@ == self.page_bytes(page_number),
            page.page_number == page_number,
    {
        let len: usize = self.metadata.mmap.len();
        assert(self.image().len() == len);
        let range = page_number.address_range(
            self.db_header_size,
            self.region_size,
            self.region_header_with_padding_size,
            self.page_size,
        );
        let mem = slice_subrange(self.metadata.mmap.as_slice(), range.start, range.end);
        PageImpl { mem, page_number }
    }

    /// A page, for writing. What is left there is what the file then holds.
    pub fn get_page_mut(&mut self, page_number: PageNumber) -> (page: PageMut<'_>)
        requires
            1 <= old(self).page_size,
            old(self).page_in_memory(page_number),
        ensures
            page@ == old(self).page_bytes(page_number),
            page.page_number == page_number,
            final(self).same_but_image(*old(self)),
            final(page.mem)@.len() == page_number.spec_page_size_bytes(old(self).page_size as int)
                ==> final(self).image() == bytes::splice(
                old(self).image(),
                old(self).page_address(page_number),
                final(page.mem)@,
            ),
    {
        let len: usize = self.metadata.mmap.len();
        assert(self.image().len() == len);
        let range = page_number.address_range(
            self.db_header_size,
            self.region_size,
            self.region_header_with_padding_size,
            self.page_size,
        );
        let mem = range_mut(&mut self.metadata.mmap, range.start, range.end);
        PageMut { mem, page_number }
    }

    /// Writing to a page changes nothing but the page.
    pub proof fn lemma_page_write(self, before: Self, page: PageNumber, content: Seq<u8>)
        requires
            before.wf(),
            before.has_allocators(),
            regions::has_page(before.allocators(), page),
            content.len() == page.spec_page_size_bytes(before.page_size as int),
            self.same_but_image(before),
            self.image() == bytes::splice(before.image(), before.page_address(page), content),
        ensures
            self.wf(),
            before.marks_sound() ==> self.marks_sound(),
            header::header_kept(before.image(), self.image()),
            self.free_set() == before.free_set(),
            regions::state_same(before.image(), self.image(), self.layout),
            self.page_bytes(page) == content,
            regions::data_kept_but(
                before.image(),
                self.image(),
                self.layout,
                self.page_address(page),
                self.page_address(page) + content.len(),
            ),
    {
        let start = before.page_address(page);
        before.lemma_allocators();
        before.lemma_page_inside(page);
        before.layout.lemma_region(page.region as int);
        regions::lemma_data_write(
            before.image(),
            self.image(),
            self.layout,
            page.region as int,
            start,
            start + content.len(),
        );
        self.lemma_state_kept(before);
        assert(self.page_bytes(page) =~= content);
    }

    /// A page holds what was written to it as long as nothing writes to it: whatever keeps the
    /// bytes of all pages keeps the bytes of each.
    pub proof fn lemma_page_kept(self, before: Self, page: PageNumber)
        requires
            before.geometry(),
            regions::has_page(regions::layout_allocators(before.layout), page),
            self.page_size == before.page_size,
            self.region_size == before.region_size,
            self.region_header_with_padding_size == before.region_header_with_padding_size,
            self.db_header_size == before.db_header_size,
            self.image().len() >= before.image().len(),
            regions::data_kept(before.image(), self.image(), before.layout),
        ensures
            self.page_in_memory(page),
            self.page_bytes(page) == before.page_bytes(page),
    {
        let layout = before.layout;
        let at = before.page_address(page);
        let r = page.region as int;
        let size = page.spec_page_size_bytes(before.page_size as int);
        before.lemma_page_inside(page);
        assert forall|i: int| at <= i < at + size implies self.image()[i] == before.image()[i] by {
            let k = i - layout.base(r);
            assert(regions::byte_at(self.image(), layout, r, k) == regions::byte_at(
                before.image(),
                layout,
                r,
                k,
            ));
        }
        assert(self.page_bytes(page) =~= before.page_bytes(page));
    }

    /// The bytes of a block are those of its pages.
    proof fn lemma_byte_in_block(page: PageNumber, page_size: int, offset: int)
        requires
            1 <= page_size,
            page.page_index * page.spec_page_size_bytes(page_size) <= offset,
            offset < page.page_index * page.spec_page_size_bytes(page_size)
                + page.spec_page_size_bytes(page_size),
        ensures
            regions::block(page).contains((page.region as int, offset / page_size)),
    {
        let index = page.page_index as int;
        let power = math::pow2(page.page_order as int);
        let p = offset / page_size;
        math::lemma_pow2_positive(page.page_order as int);
        layout::lemma_mul_le(index, page_size * power, index, page_size * power);
        layout::lemma_div(offset, page_size);
        assert(index * (page_size * power) == (index * power) * page_size) by (nonlinear_arith);
        assert(index * (page_size * power) + page_size * power == ((index + 1) * power) * page_size)
            by (nonlinear_arith);
        let low = index * power;
        let high = (index + 1) * power;
        assert(low <= p < high) by (nonlinear_arith)
            requires
                low * page_size <= offset < high * page_size,
                p * page_size <= offset < p * page_size + page_size,
                1 <= page_size,
        ;
    }

    /// The pages of two blocks that have no page in common have no byte in common: what keeps the
    /// bytes of every other page keeps the bytes of such a block.
    pub proof fn lemma_other_page(self, before: Self, page: PageNumber, other: PageNumber)
        requires
            before.geometry(),
            regions::has_page(regions::layout_allocators(before.layout), page),
            regions::has_page(regions::layout_allocators(before.layout), other),
            regions::block(page).disjoint(regions::block(other)),
            self.geometry(),
            self.layout == before.layout,
            self.image().len() == before.image().len(),
            regions::data_kept_but(
                before.image(),
                self.image(),
                self.layout,
                before.page_address(page),
                before.page_address(page) + page.spec_page_size_bytes(before.page_size as int),
            ),
        ensures
            self.page_bytes(other) == before.page_bytes(other),
    {
        let layout = before.layout;
        let at = before.page_address(other);
        let r = other.region as int;
        let size = other.spec_page_size_bytes(before.page_size as int);
        before.lemma_page_inside(page);
        before.lemma_page_inside(other);
        assert forall|i: int| at <= i < at + size implies self.image()[i] == before.image()[i] by {
            let k = i - layout.base(r);
            let start = before.page_address(page);
            if start <= i < start + page.spec_page_size_bytes(before.page_size as int) {
                let q = page.region as int;
                if q < r {
                    regions::lemma_regions_apart(layout, q, r);
                } else if r < q {
                    regions::lemma_regions_apart(layout, r, q);
                } else {
                    let offset = k - layout.region_header_bytes;
                    let x = (r, offset / before.page_size as int);
                    Self::lemma_byte_in_block(page, before.page_size as int, offset);
                    Self::lemma_byte_in_block(other, before.page_size as int, offset);
                    assert(regions::block(page).contains(x) && regions::block(other).contains(x));
                }
            }
            assert(regions::byte_at(self.image(), layout, r, k) == regions::byte_at(
                before.image(),
                layout,
                r,
                k,
            ));
        }
        assert(self.page_bytes(other) =~= before.page_bytes(other));
    }
}

} // verus!
