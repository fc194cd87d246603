//! Powers of two.

use vstd::prelude::*;

verus! {

/// `2` to the power of `e`.
pub open spec fn pow2(e: int) -> int {
    vstd::arithmetic::power2::pow2(e as nat) as int
}

pub proof fn lemma_pow2_step(e: int)
    requires
        0 < e,
    ensures
        pow2(e) == 2 * pow2(e - 1),
{
    vstd::arithmetic::power2::lemma_pow2_unfold(e as nat);
}

pub proof fn lemma_pow2_zero()
    ensures
        pow2(0) == 1,
{
    vstd::arithmetic::power2::lemma2_to64();
}

pub proof fn lemma_pow2_positive(e: int)
    requires
        0 <= e,
    ensures
        pow2(e) >= 1,
{
    vstd::arithmetic::power2::lemma_pow2_pos(e as nat);
}

pub proof fn lemma_pow2_le(a: int, b: int)
    requires
        0 <= a <= b,
    ensures
        pow2(a) <= pow2(b),
{
    if a < b {
        vstd::arithmetic::power2::lemma_pow2_strictly_increases(a as nat, b as nat);
    }
}

pub proof fn lemma_pow2_lt(a: int, b: int)
    requires
        0 <= a < b,
    ensures
        pow2(a) < pow2(b),
{
    vstd::arithmetic::power2::lemma_pow2_strictly_increases(a as nat, b as nat);
}

pub proof fn lemma_pow2_add(a: int, b: int)
    requires
        0 <= a,
        0 <= b,
    ensures
        pow2(a + b) == pow2(a) * pow2(b),
{
    vstd::arithmetic::power2::lemma_pow2_adds(a as nat, b as nat);
}

/// `2` to the power of `e`, where it fits.
pub fn exp2(e: usize) -> (x: usize)
    requires
        pow2(e as int) <= usize::MAX,
    ensures
        x == pow2(e as int),
{
    proof {
        lemma_pow2_zero();
    }
    let mut x: usize = 1;
    let mut i: usize = 0;
    while i < e
        invariant
            i <= e,
            x == pow2(i as int),
            pow2(e as int) <= usize::MAX,
        decreases e - i,
    {
        proof {
            lemma_pow2_step(i + 1);
            lemma_pow2_le(i + 1, e as int);
        }
        x = 2 * x;
        i = i + 1;
    }
    x
}

/// The smallest `k` with `2` to the power of `k` at least `x`.
pub open spec fn log2_ceil(x: int) -> int
    decreases x,
{
    if x <= 1 {
        0
    } else {
        1 + log2_ceil((x + 1) / 2)
    }
}

/// The largest `k` with `2` to the power of `k` at most `x`.
pub open spec fn log2_floor(x: int) -> int
    decreases x,
{
    if x <= 1 {
        0
    } else {
        1 + log2_floor(x / 2)
    }
}

/// Whether `x` is a power of two.
pub open spec fn is_power_of_two(x: int) -> bool {
    1 <= x && pow2(log2_floor(x)) == x
}

pub proof fn lemma_log2_ceil(x: int)
    ensures
        0 <= log2_ceil(x),
        x <= pow2(log2_ceil(x)),
        0 < log2_ceil(x) ==> pow2(log2_ceil(x) - 1) < x,
    decreases x,
{
    lemma_pow2_zero();
    if x > 1 {
        lemma_log2_ceil((x + 1) / 2);
        lemma_pow2_step(log2_ceil(x));
        let k = log2_ceil((x + 1) / 2);
        if k > 0 {
            lemma_pow2_step(k);
        }
    }
}

pub proof fn lemma_log2_floor(x: int)
    requires
        1 <= x,
    ensures
        0 <= log2_floor(x),
        pow2(log2_floor(x)) <= x < pow2(log2_floor(x) + 1),
    decreases x,
{
    lemma_pow2_zero();
    lemma_pow2_step(1);
    if x > 1 {
        lemma_log2_floor(x / 2);
        lemma_pow2_step(log2_floor(x));
        lemma_pow2_step(log2_floor(x) + 1);
    }
}

/// The powers of two are what they are taken for, and nothing else is.
pub proof fn lemma_power_of_two(x: int, k: int)
    requires
        0 <= k,
    ensures
        is_power_of_two(pow2(k)),
        is_power_of_two(x) ==> exists|e: int| 0 <= e && x == #[trigger] pow2(e),
{
    let y = pow2(k);
    lemma_pow2_positive(k);
    lemma_log2_floor(y);
    let e = log2_floor(y);
    if e < k {
        lemma_pow2_le(e + 1, k);
    } else if k < e {
        lemma_pow2_lt(k, e);
    }
    if is_power_of_two(x) {
        lemma_log2_floor(x);
    }
}

/// The conditions of `log2_ceil` name one number.
pub proof fn lemma_log2_ceil_unique(x: int, k: int)
    requires
        0 <= k,
        x <= pow2(k),
        0 < k ==> pow2(k - 1) < x,
    ensures
        k == log2_ceil(x),
{
    lemma_log2_ceil(x);
    let c = log2_ceil(x);
    if k < c {
        lemma_pow2_le(k, c - 1);
    } else if c < k {
        lemma_pow2_le(c, k - 1);
    }
}

/// The order of the smallest power of two that is at least `x`.
pub fn ceil_log2(x: usize) -> (k: usize)
    requires
        x <= usize::MAX / 2 + 1,
    ensures
        k == log2_ceil(x as int),
        x <= pow2(k as int),
        0 < k ==> pow2(k - 1) < x,
        pow2(k as int) <= usize::MAX,
{
    let ghost e: int = usize::BITS - 1;
    proof {
        lemma_pow2_zero();
        lemma_usize_half();
    }
    let mut k: usize = 0;
    let mut power: usize = 1;
    while power < x
        invariant
            0 <= e,
            x <= pow2(e) <= usize::MAX,
            power == pow2(k as int),
            k <= e,
            k > 0 ==> pow2(k - 1) < x,
        decreases e - k,
    {
        proof {
            if k >= e {
                lemma_pow2_le(e, k as int);
            }
            lemma_pow2_step(k + 1);
            lemma_pow2_le(k + 1, e);
            lemma_log2_bound(k + 1);
        }
        k = k + 1;
        power = 2 * power;
    }
    proof {
        lemma_log2_ceil_unique(x as int, k as int);
    }
    k
}

/// The largest power of two that a `usize` holds.
pub proof fn lemma_usize_half()
    ensures
        pow2(usize::BITS - 1) == usize::MAX / 2 + 1,
        pow2(usize::BITS - 1) <= usize::MAX,
{
    vstd::arithmetic::power2::lemma2_to64();
    vstd::arithmetic::power2::lemma2_to64_rest();
    if usize::BITS == 32 {
        assert(usize::MAX == 0xffff_ffff);
    } else {
        assert(usize::MAX == 0xffff_ffff_ffff_ffff);
    }
}

/// A power of two that fits in a `usize` has a small exponent.
pub proof fn lemma_exponent_bound(e: int)
    requires
        0 <= e,
        pow2(e) <= usize::MAX,
    ensures
        e < 64,
{
    vstd::arithmetic::power2::lemma2_to64();
    vstd::arithmetic::power2::lemma2_to64_rest();
    if e >= 64 {
        lemma_pow2_le(64, e);
    }
}

proof fn lemma_log2_bound(k: int)
    requires
        0 <= k,
    ensures
        k < pow2(k),
    decreases k,
{
    if k == 0 {
        lemma_pow2_zero();
    } else {
        lemma_log2_bound(k - 1);
        lemma_pow2_step(k);
    }
}

/// The order of the largest power of two that is at most `x`.
pub fn floor_log2(x: usize) -> (k: usize)
    requires
        1 <= x,
    ensures
        k == log2_floor(x as int),
{
    let mut k: usize = 0;
    let mut rest: usize = x;
    while rest > 1
        invariant
            1 <= rest,
            k + rest <= x,
            log2_floor(x as int) == k + log2_floor(rest as int),
        decreases rest,
    {
        rest = rest / 2;
        k = k + 1;
    }
    k
}

/// How often `2` divides `x`; the number of bits where `x` is zero.
pub open spec fn zeros_at_end(x: int) -> int
    decreases x,
{
    if x <= 0 {
        usize::BITS as int
    } else if x % 2 == 1 {
        0
    } else {
        1 + zeros_at_end(x / 2)
    }
}

/// The exponent of a power of two.
pub proof fn lemma_zeros_at_end(x: int)
    requires
        is_power_of_two(x),
    ensures
        zeros_at_end(x) == log2_floor(x),
    decreases x,
{
    lemma_pow2_zero();
    if x > 1 {
        let k = log2_floor(x);
        lemma_log2_floor(x / 2);
        lemma_pow2_step(k);
        assert(pow2(k) == 2 * pow2(k - 1));
        lemma_zeros_at_end(x / 2);
    }
}

/// The number of zeros at the end of the binary form of `x`.
pub fn trailing_zeros(x: usize) -> (k: usize)
    ensures
        k == zeros_at_end(x as int),
        k <= usize::BITS,
{
    if x == 0 {
        return usize::BITS as usize;
    }
    let mut k: usize = 0;
    let mut rest: usize = x;
    proof {
        lemma_pow2_zero();
    }
    while rest % 2 == 0
        invariant
            1 <= rest,
            rest * pow2(k as int) <= x,
            k <= usize::BITS,
            zeros_at_end(x as int) == k + zeros_at_end(rest as int),
        decreases rest,
    {
        let ghost half = rest as int / 2;
        proof {
            let power = pow2(k as int);
            lemma_pow2_step(k + 1);
            lemma_pow2_positive(k as int);
            assert(half * (2 * power) == (2 * half) * power) by (nonlinear_arith);
            assert(power <= rest * power) by (nonlinear_arith)
                requires
                    1 <= rest,
                    0 <= power,
            ;
            lemma_usize_half();
            if k >= usize::BITS {
                lemma_pow2_step(usize::BITS as int);
                lemma_pow2_le(usize::BITS as int, k as int);
            }
        }
        rest = rest / 2;
        k = k + 1;
    }
    k
}

/// Whether `x` is a power of two.
pub fn check_power_of_two(x: usize) -> (yes: bool)
    ensures
        yes == is_power_of_two(x as int),
{
    if x == 0 {
        return false;
    }
    let k: usize = floor_log2(x);
    proof {
        lemma_log2_floor(x as int);
    }
    exp2(k) == x
}

} // verus!
