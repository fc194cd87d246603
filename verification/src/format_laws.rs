//! Where the file holds what.

use crate::bytes;
use crate::header;
use crate::layout;
use crate::math;
use crate::page_manager::TransactionalMemory;
use crate::page_number::PageNumber;
use vstd::prelude::*;

verus! {

/// The header of a file has its fields at fixed places: the magic number, the exponent of the page
/// size, the god byte, the sizes, and two commit slots. The lowest bit of the god byte says which
/// slot is the primary one, the next whether the allocators need a repair.
pub proof fn lemma_header_format(image: Seq<u8>)
    requires
        image.len() >= 384,
    ensures
        ({
            let h = header::header(image);
            let slots = (
                header::commit_slot(image.subrange(128, 256)),
                header::commit_slot(image.subrange(256, 384)),
            );
            &&& h.magic == image.subrange(0, 9)
            &&& h.page_size_exponent == image[9]
            &&& h.dirty == (image[10] & 2 != 0)
            &&& h.region_max_usable_bytes == bytes::u64_at(image, 16) as usize
            &&& h.max_capacity == bytes::u64_at(image, 24) as usize
            &&& image[10] & 1 == 0 ==> h.primary() == slots.0 && h.secondary() == slots.1
            &&& image[10] & 1 != 0 ==> h.primary() == slots.1 && h.secondary() == slots.0
        }),
{
}

/// A commit slot has its fields at fixed places: the version, a byte for each of the two roots that
/// says whether there is one, their numbers, and the transaction id.
pub proof fn lemma_slot_format(slot: Seq<u8>)
    requires
        slot.len() == 128,
    ensures
        ({
            let held = header::commit_slot(slot);
            &&& held.version == slot[0]
            &&& held.root is Some == (slot[1] != 0)
            &&& held.freed_root is Some == (slot[2] != 0)
            &&& held.root matches Some(page) ==> page == PageNumber::spec_decode(
                bytes::u64_at(slot, 8),
            )
            &&& held.freed_root matches Some(page) ==> page == PageNumber::spec_decode(
                bytes::u64_at(slot, 16),
            )
            &&& held.transaction_id == bytes::u64_at(slot, 24)
        }),
{
}

/// A page number is read back as it was written: its region up to 27 bits, all of its index, and its
/// order up to five bits.
pub proof fn lemma_page_number_format(page: PageNumber)
    requires
        page.region < 0x0800_0000,
        page.page_order < 32,
    ensures
        PageNumber::spec_decode(page.spec_encode()) == page,
        header::stored_root(Some(page)) == Some(page),
        header::stored_root(None) is None,
        header::storable_root(Some(page)),
        header::storable_root(None),
{
    page.lemma_encode_round_trip();
}

impl TransactionalMemory {
    /// Whether a repair is needed, and what reads are served from, is in the header.
    pub proof fn lemma_read_from_header(self)
        requires
            self.image().len() >= 384,
        ensures
            self.repair_needed() == (self.image()[10] & 2 != 0),
            ({
                let second = (self.image()[10] & 1 != 0) != self.read_from_secondary;
                let slot = if second {
                    self.image().subrange(256, 384)
                } else {
                    self.image().subrange(128, 256)
                };
                &&& self.data_root() is Some == (slot[1] != 0)
                &&& self.data_root() matches Some(page) ==> page == PageNumber::spec_decode(
                    bytes::u64_at(slot, 8),
                )
                &&& self.freed_root() is Some == (slot[2] != 0)
                &&& self.freed_root() matches Some(page) ==> page == PageNumber::spec_decode(
                    bytes::u64_at(slot, 16),
                )
                &&& self.last_transaction_id() == bytes::u64_at(slot, 24)
            }),
    {
        lemma_header_format(self.image());
    }

    /// The pages of a region lie one after the other behind its allocator state, and a block is made
    /// up of its pages.
    pub proof fn lemma_addresses(self, page: PageNumber, single: PageNumber)
        requires
            self.geometry(),
            single.page_order == 0,
            single.region == page.region,
        ensures
            self.page_address(single) == self.layout.header_bytes + single.region * (
            self.layout.region_header_bytes + self.layout.region_pages * self.page_size)
                + self.layout.region_header_bytes + single.page_index * self.page_size,
            self.page_bytes(single).len() == self.page_size || !self.page_in_memory(single),
            self.page_address(page) + (single.page_index - page.page_index * math::pow2(
                page.page_order as int,
            )) * self.page_size == self.page_address(single),
            page.spec_page_size_bytes(self.page_size as int) == math::pow2(page.page_order as int)
                * self.page_size,
    {
        let k = math::pow2(page.page_order as int);
        let i = page.page_index as int;
        let j = single.page_index as int;
        let p = self.page_size as int;
        let r = single.region as int;
        let len = self.layout.spec_region_len();
        math::lemma_pow2_zero();
        assert(p * 1 == p);
        assert(p * k == k * p) by (nonlinear_arith);
        assert(i * (p * k) + (j - i * k) * p == j * p) by (nonlinear_arith);
        layout::lemma_mul_le(j, p, j, p);
        layout::lemma_mul_le(r, len, r, len);
    }
}

} // verus!
