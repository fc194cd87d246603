//! Reading and writing fixed-size values inside a byte image.

use vstd::bytes::{u64_from_le_bytes, u64_to_le_bytes};
use vstd::prelude::*;
use vstd::slice::slice_subrange;

verus! {

/// `image` with the bytes from `at` on replaced by `data`.
pub open spec fn splice(image: Seq<u8>, at: int, data: Seq<u8>) -> Seq<u8> {
    Seq::new(
        image.len(),
        |i: int| if at <= i < at + data.len() { data[i - at] } else { image[i] },
    )
}

/// The little-endian 64-bit number that `image` holds at `at`.
pub open spec fn u64_at(image: Seq<u8>, at: int) -> u64 {
    vstd::bytes::spec_u64_from_le_bytes(image.subrange(at, at + 8))
}

/// `image` with the little-endian form of `x` written at `at`.
pub open spec fn with_u64(image: Seq<u8>, at: int, x: u64) -> Seq<u8> {
    splice(image, at, vstd::bytes::spec_u64_to_le_bytes(x))
}

/// `image`, with zeros behind it to a length of at least `len`.
pub open spec fn extended(image: Seq<u8>, len: int) -> Seq<u8> {
    Seq::new(
        if image.len() < len {
            len as nat
        } else {
            image.len()
        },
        |i: int|
            if i < image.len() {
                image[i]
            } else {
                0
            },
    )
}

/// Whether two images of one length agree everywhere outside `[start, end)`.
pub open spec fn same_outside(a: Seq<u8>, b: Seq<u8>, start: int, end: int) -> bool {
    &&& a.len() == b.len()
    &&& forall|i: int| #![trigger a[i]] #![trigger b[i]]
        0 <= i < a.len() && !(start <= i < end) ==> a[i] == b[i]
}

/// A number that was written is the number that is read back.
pub proof fn lemma_u64_round_trip(image: Seq<u8>, at: int, x: u64)
    requires
        0 <= at,
        at + 8 <= image.len(),
    ensures
        u64_at(with_u64(image, at, x), at) == x,
{
    vstd::bytes::lemma_auto_spec_u64_to_from_le_bytes();
    assert(with_u64(image, at, x).subrange(at, at + 8) =~= vstd::bytes::spec_u64_to_le_bytes(x));
}

/// Bytes that agree hold the same number.
pub proof fn lemma_u64_same(a: Seq<u8>, b: Seq<u8>, at: int)
    requires
        0 <= at,
        at + 8 <= a.len(),
        at + 8 <= b.len(),
        forall|i: int| at <= i < at + 8 ==> a[i] == b[i],
    ensures
        u64_at(a, at) == u64_at(b, at),
{
    assert(a.subrange(at, at + 8) =~= b.subrange(at, at + 8));
}

pub proof fn lemma_u64_bytes_len(x: u64)
    ensures
        vstd::bytes::spec_u64_to_le_bytes(x).len() == 8,
{
    vstd::bytes::lemma_auto_spec_u64_to_from_le_bytes();
}

/// Zero bytes hold the number zero.
pub proof fn lemma_u64_zero(image: Seq<u8>, at: int)
    requires
        0 <= at,
        at + 8 <= image.len(),
        forall|i: int| at <= i < at + 8 ==> image[i] == 0,
    ensures
        u64_at(image, at) == 0,
{
    vstd::bytes::lemma_auto_spec_u64_to_from_le_bytes();
    lemma_zero_bytes();
    assert(image.subrange(at, at + 8) =~= vstd::bytes::spec_u64_to_le_bytes(0));
}

/// The number zero is zero bytes.
pub proof fn lemma_zero_bytes()
    ensures
        vstd::bytes::spec_u64_to_le_bytes(0) == Seq::new(8, |i: int| 0u8),
{
    vstd::bytes::spec_u64_to_le_bytes_to_open(0);
    assert(0u64 & 0xff == 0 && (0u64 >> 8) & 0xff == 0 && (0u64 >> 16) & 0xff == 0 && (0u64 >> 24)
        & 0xff == 0 && (0u64 >> 32) & 0xff == 0 && (0u64 >> 40) & 0xff == 0 && (0u64 >> 48) & 0xff
        == 0 && (0u64 >> 56) & 0xff == 0) by (bit_vector);
    assert(vstd::bytes::spec_u64_to_le_bytes(0) =~= Seq::new(8, |i: int| 0u8));
}

/// Reads the little-endian number at `at`.
pub fn read_u64(image: &[u8], at: usize) -> (x: u64)
    requires
        at + 8 <= image@.len(),
    ensures
        x == u64_at(image@, at as int),
{
    let len: usize = image.len();
    assert(at + 8 <= len);
    u64_from_le_bytes(slice_subrange(image, at, at + 8))
}

/// Overwrites the bytes of `image` from `at` on with `data`.
pub fn copy_into(image: &mut [u8], at: usize, data: &[u8])
    requires
        at + data@.len() <= old(image)@.len(),
    ensures
        final(image)@ == splice(old(image)@, at as int, data@),
{
    let ghost before = image@;
    let len: usize = image.len();
    let mut i: usize = 0;
    while i < data.len()
        invariant
            i <= data@.len(),
            len == before.len(),
            at + data@.len() <= before.len(),
            image@.len() == before.len(),
            forall|j: int| #![trigger image@[j]]
                0 <= j < before.len() ==> image@[j] == (if at <= j < at + i {
                    data@[j - at]
                } else {
                    before[j]
                }),
        decreases data@.len() - i,
    {
        image[at + i] = data[i];
        i = i + 1;
    }
    assert(image@ =~= splice(before, at as int, data@));
}

/// Writes `x` in little-endian form at `at`.
pub fn write_u64(image: &mut [u8], at: usize, x: u64)
    requires
        at + 8 <= old(image)@.len(),
    ensures
        final(image)@ == with_u64(old(image)@, at as int, x),
{
    proof {
        lemma_u64_bytes_len(x);
    }
    let data = u64_to_le_bytes(x);
    copy_into(image, at, data.as_slice());
}

/// Sets every byte of `image` to zero.
pub fn fill_zero(image: &mut [u8])
    ensures
        final(image)@ == Seq::new(old(image)@.len(), |i: int| 0u8),
{
    let ghost before = image@;
    let len: usize = image.len();
    let mut i: usize = 0;
    while i < len
        invariant
            i <= len,
            len == before.len(),
            image@.len() == before.len(),
            forall|j: int| 0 <= j < i ==> image@[j] == 0,
        decreases len - i,
    {
        image[i] = 0;
        i = i + 1;
    }
    assert(image@ =~= Seq::new(before.len(), |i: int| 0u8));
}

/// Extends `image` with zeros to a length of at least `len`.
pub fn extend_zero(image: &mut Vec<u8>, len: usize)
    ensures
        final(image)@ == extended(old(image)@, len as int),
{
    let ghost before = image@;
    while image.len() < len
        invariant
            before.len() <= image@.len(),
            image@.len() <= len || image@.len() == before.len(),
            forall|i: int| #![trigger image@[i]]
                0 <= i < image@.len() ==> image@[i] == (if i < before.len() {
                    before[i]
                } else {
                    0
                }),
        decreases len - image@.len(),
    {
        image.push(0);
    }
    assert(image@ =~= extended(before, len as int));
}

/// The part `[start, end)` of `image`, for writing.
///
/// Whatever is left there when the borrow ends is what `image` then holds at that place.
pub fn range_mut(image: &mut Vec<u8>, start: usize, end: usize) -> (part: &mut [u8])
    requires
        start <= end <= old(image)@.len(),
    ensures
        part@ == old(image)@.subrange(start as int, end as int),
        final(part)@.len() == end - start ==> final(image)@ == splice(
            old(image)@,
            start as int,
            final(part)@,
        ),
{
    let ghost before = image@;
    let (_low, rest) = image.as_mut_slice().split_at_mut(start);
    let ghost tail = rest@;
    let (part, _high) = rest.split_at_mut(end - start);
    proof {
        assert(tail.subrange(0, end - start) =~= before.subrange(start as int, end as int));
        assert(final(part)@.len() == end - start ==> before.subrange(0, start as int) + (final(part)@
            + tail.subrange(end - start, tail.len() as int)) =~= splice(
            before,
            start as int,
            final(part)@,
        ));
    }
    part
}

} // verus!
