//! Comparison of products that do not fit in 128 bits.

use vstd::prelude::*;

verus! {

/// Two to the power 64.
pub const LIMB: u128 = 0x1_0000_0000_0000_0000;

/// Two to the power 124: the bound on the factors.
pub const FACTOR_LIMIT: u128 = 0x1000_0000_0000_0000_0000_0000_0000_0000;

/// A 256-bit product, as its upper and lower 128 bits.
pub struct Wide {
    pub hi: u128,
    pub lo: u128,
}

impl Wide {
    /// The number that the two halves stand for.
    pub open spec fn value(self) -> int {
        self.hi * LIMB * LIMB + self.lo
    }
}

/// The exact product of `a` and `b`.
pub fn wide_mul(a: u128, b: u128) -> (product: Wide)
    requires
        a < FACTOR_LIMIT,
        b < FACTOR_LIMIT,
    ensures
        product.value() == a * b,
{
    let limb: u128 = LIMB;
    let a1: u128 = a / limb;
    let a0: u128 = a % limb;
    let b1: u128 = b / limb;
    let b0: u128 = b % limb;
    assert(a1 < 0x1000_0000_0000_0000 && b1 < 0x1000_0000_0000_0000);
    assert(a0 * b0 <= 0xffff_ffff_ffff_ffff * 0xffff_ffff_ffff_ffff) by (nonlinear_arith)
        requires
            a0 <= 0xffff_ffff_ffff_ffff,
            b0 <= 0xffff_ffff_ffff_ffff,
    ;
    assert(a0 * b1 <= 0xffff_ffff_ffff_ffff * 0xfff_ffff_ffff_ffff) by (nonlinear_arith)
        requires
            a0 <= 0xffff_ffff_ffff_ffff,
            b1 <= 0xfff_ffff_ffff_ffff,
    ;
    assert(a1 * b0 <= 0xfff_ffff_ffff_ffff * 0xffff_ffff_ffff_ffff) by (nonlinear_arith)
        requires
            a1 <= 0xfff_ffff_ffff_ffff,
            b0 <= 0xffff_ffff_ffff_ffff,
    ;
    assert(a1 * b1 <= 0xfff_ffff_ffff_ffff * 0xfff_ffff_ffff_ffff) by (nonlinear_arith)
        requires
            a1 <= 0xfff_ffff_ffff_ffff,
            b1 <= 0xfff_ffff_ffff_ffff,
    ;
    let low: u128 = a0 * b0;
    let mid: u128 = a0 * b1 + a1 * b0;
    let high: u128 = a1 * b1;
    let carried: u128 = low / limb + mid % limb;
    let lo: u128 = (carried % limb) * limb + low % limb;
    let hi: u128 = high + mid / limb + carried / limb;
    assert(hi * LIMB * LIMB + lo == a * b) by (nonlinear_arith)
        requires
            a == a1 * LIMB + a0,
            b == b1 * LIMB + b0,
            low == a0 * b0,
            mid == a0 * b1 + a1 * b0,
            high == a1 * b1,
            carried == low / LIMB + mid % LIMB,
            lo == (carried % LIMB) * LIMB + low % LIMB,
            hi == high + mid / LIMB + carried / LIMB,
            LIMB == 0x1_0000_0000_0000_0000,
    ;
    Wide { hi, lo }
}

/// Whether `a * b <= c * d`, computed without overflow.
pub fn product_le(a: u128, b: u128, c: u128, d: u128) -> (le: bool)
    requires
        a < FACTOR_LIMIT,
        b < FACTOR_LIMIT,
        c < FACTOR_LIMIT,
        d < FACTOR_LIMIT,
    ensures
        le == (a * b <= c * d),
{
    let left = wide_mul(a, b);
    let right = wide_mul(c, d);
    assert(LIMB * LIMB == 0x1_0000_0000_0000_0000_0000_0000_0000_0000);
    assert(left.value() <= right.value() <==> (left.hi < right.hi || (left.hi == right.hi
        && left.lo <= right.lo))) by (nonlinear_arith)
        requires
            left.value() == left.hi * LIMB * LIMB + left.lo,
            right.value() == right.hi * LIMB * LIMB + right.lo,
            0 <= left.lo < LIMB * LIMB,
            0 <= right.lo < LIMB * LIMB,
            LIMB * LIMB > 0,
    ;
    left.hi < right.hi || (left.hi == right.hi && left.lo <= right.lo)
}

} // verus!
