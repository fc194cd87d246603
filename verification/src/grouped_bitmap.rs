//! Bits stored in a byte image, in groups of little-endian 64-bit words.
//!
//! Bit `i` of the map is bit `i % 64` of word `i / 64`. With little-endian words that is bit
//! `i % 8` of byte `i / 8`.

use vstd::prelude::*;

verus! {

/// Bit `i` of `image`.
pub open spec fn bit(image: Seq<u8>, i: int) -> bool {
    (image[i / 8] >> ((i % 8) as u8)) & 1u8 == 1u8
}

/// The first `n` bits of `image`.
pub open spec fn bits(image: Seq<u8>, n: nat) -> Seq<bool> {
    Seq::new(n, |i: int| bit(image, i))
}

/// Whether `after` is `before` with bit `i` set to `value` and every other bit kept.
pub open spec fn bit_written(before: Seq<u8>, after: Seq<u8>, i: int, value: bool) -> bool {
    &&& after.len() == before.len()
    &&& forall|j: int| #![trigger bit(after, j)]
        0 <= j < 8 * before.len() ==> bit(after, j) == (if j == i {
            value
        } else {
            bit(before, j)
        })
}

pub fn get_bit(image: &[u8], i: usize) -> (value: bool)
    requires
        i < 8 * image@.len(),
    ensures
        value == bit(image@, i as int),
{
    (image[i / 8] >> ((i % 8) as u8)) & 1u8 == 1u8
}

pub fn set_bit(image: &mut [u8], i: usize, value: bool)
    requires
        i < 8 * old(image)@.len(),
    ensures
        bit_written(old(image)@, final(image)@, i as int, value),
{
    let ghost before = image@;
    let byte: u8 = image[i / 8];
    let shift: u8 = (i % 8) as u8;
    let updated: u8 = if value {
        byte | (1u8 << shift)
    } else {
        byte & !(1u8 << shift)
    };
    image[i / 8] = updated;
    proof {
        assert forall|j: int| 0 <= j < 8 * before.len() implies #[trigger] bit(image@, j) == (if j
            == i {
            value
        } else {
            bit(before, j)
        }) by {
            if j / 8 == i as int / 8 {
                let other = (j % 8) as u8;
                assert(shift < 8 && other < 8);
                if value {
                    assert(((byte | (1u8 << shift)) >> other) & 1u8 == (if other == shift {
                        1u8
                    } else {
                        (byte >> other) & 1u8
                    })) by (bit_vector)
                        requires
                            shift < 8,
                            other < 8,
                    ;
                } else {
                    assert(((byte & !(1u8 << shift)) >> other) & 1u8 == (if other == shift {
                        0u8
                    } else {
                        (byte >> other) & 1u8
                    })) by (bit_vector)
                        requires
                            shift < 8,
                            other < 8,
                    ;
                }
                assert(j == i <==> other == shift);
            }
        }
    }
}

/// A bitmap over borrowed bytes.
pub struct U64GroupedBitMapMut<'a> {
    pub data: &'a mut [u8],
}

impl<'a> U64GroupedBitMapMut<'a> {
    /// The bytes that hold the map.
    pub open spec fn view(self) -> Seq<u8> {
        self.data@
    }

    pub fn new(data: &'a mut [u8]) -> (map: Self)
        ensures
            map@ == old(data)@,
            final(map.data)@ == final(data)@,
    {
        U64GroupedBitMapMut { data }
    }

    /// The bytes that a map of at least `elements` bits takes: whole words.
    pub open spec fn spec_required_bytes(elements: int) -> int {
        (elements + 63) / 64 * 8
    }

    pub fn required_bytes(elements: usize) -> (bytes: usize)
        requires
            elements + 63 <= usize::MAX,
        ensures
            bytes == Self::spec_required_bytes(elements as int),
    {
        (elements + 63) / 64 * 8
    }

    /// The number of bits.
    pub fn len(&self) -> (n: usize)
        requires
            8 * self@.len() <= usize::MAX,
        ensures
            n == 8 * self@.len(),
    {
        self.data.len() * 8
    }

    pub fn get(&self, i: usize) -> (value: bool)
        requires
            i < 8 * self@.len(),
        ensures
            value == bit(self@, i as int),
    {
        get_bit(&*self.data, i)
    }

    pub fn set(&mut self, i: usize)
        requires
            i < 8 * old(self)@.len(),
        ensures
            bit_written(old(self)@, final(self)@, i as int, true),
            final(final(self).data)@ == final(old(self).data)@,
    {
        set_bit(self.data, i, true);
    }

    pub fn clear(&mut self, i: usize)
        requires
            i < 8 * old(self)@.len(),
        ensures
            bit_written(old(self)@, final(self)@, i as int, false),
            final(final(self).data)@ == final(old(self).data)@,
    {
        set_bit(self.data, i, false);
    }
}

} // verus!
