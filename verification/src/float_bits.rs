//! Integer facts about IEEE 754 bit patterns.

use vstd::arithmetic::power2::pow2;
use vstd::prelude::*;

verus! {

/// Bit pattern of binary64 negative zero.
pub const F64_SIGN: u64 = 0x8000_0000_0000_0000;

/// Bit pattern of binary64 positive infinity.
pub const F64_INFINITY: u64 = 0x7ff0_0000_0000_0000;

/// Weight of one exponent step in a binary64 pattern.
pub const F64_EXPONENT_STEP: u64 = 0x0010_0000_0000_0000;

/// Bit pattern of binary32 negative zero.
pub const F32_SIGN: u32 = 0x8000_0000;

/// Bit pattern of binary32 positive infinity.
pub const F32_INFINITY: u32 = 0x7f80_0000;

/// The pattern with its sign bit cleared.
pub open spec fn f64_magnitude(bits: u64) -> nat {
    (bits % F64_SIGN) as nat
}

/// Whether the pattern denotes a finite binary64 value.
pub open spec fn f64_finite(bits: u64) -> bool {
    f64_magnitude(bits) < F64_INFINITY
}

/// Whether the pattern denotes a finite value that compares `>= 0`, negative
/// zero included.
pub open spec fn f64_finite_nonnegative(bits: u64) -> bool {
    bits < F64_INFINITY || bits == F64_SIGN
}

/// The pattern of a nonnegative value with negative zero folded onto zero.
pub open spec fn f64_canonical(bits: u64) -> u64 {
    if bits == F64_SIGN {
        0
    } else {
        bits
    }
}

/// Value of a finite nonnegative pattern as a multiple of `2^-1074`, the
/// smallest positive binary64.
pub open spec fn f64_units(bits: u64) -> nat {
    let canonical = f64_canonical(bits);
    if canonical < F64_EXPONENT_STEP {
        canonical as nat
    } else {
        (F64_EXPONENT_STEP + canonical % F64_EXPONENT_STEP) as nat * pow2(
            (canonical / F64_EXPONENT_STEP - 1) as nat,
        )
    }
}

/// Whether a binary32 pattern denotes a finite value.
pub open spec fn f32_finite(bits: u32) -> bool {
    bits % F32_SIGN < F32_INFINITY
}

/// Whether a pattern is a finite binary64.
pub fn f64_is_finite(bits: u64) -> (finite: bool)
    ensures
        finite == f64_finite(bits),
{
    bits % F64_SIGN < F64_INFINITY
}

/// Whether a pattern is finite and compares `>= 0`.
pub fn f64_is_finite_nonnegative(bits: u64) -> (accepted: bool)
    ensures
        accepted == f64_finite_nonnegative(bits),
{
    bits < F64_INFINITY || bits == F64_SIGN
}

/// Fold negative zero onto positive zero.
pub fn canonical_nonnegative_bits(bits: u64) -> (canonical: u64)
    ensures
        canonical == f64_canonical(bits),
{
    if bits == F64_SIGN {
        0
    } else {
        bits
    }
}

/// Where a pattern stands in the total order of binary64 patterns.
pub open spec fn total_rank(bits: u64) -> int {
    if bits < F64_SIGN {
        bits as int
    } else {
        -1 - (bits - F64_SIGN)
    }
}

/// A number that orders patterns as their total order does.
pub fn total_position(bits: u64) -> (at: u128)
    ensures
        at == total_rank(bits) + 0x8000_0000_0000_0000,
{
    if bits < F64_SIGN {
        bits as u128 + 0x8000_0000_0000_0000
    } else {
        0x7fff_ffff_ffff_ffff - (bits - F64_SIGN) as u128
    }
}

/// Whether a binary64 pattern is not a number.
pub open spec fn f64_nan(bits: u64) -> bool {
    f64_magnitude(bits) > F64_INFINITY
}

/// Where a pattern's value stands among binary64 values; both zeros stand at zero.
pub open spec fn f64_rank(bits: u64) -> int {
    if bits < F64_SIGN {
        bits as int
    } else {
        -(bits - F64_SIGN)
    }
}

/// Whether one binary64 value is less than another.
pub open spec fn f64_less(left: u64, right: u64) -> bool {
    !f64_nan(left) && !f64_nan(right) && f64_rank(left) < f64_rank(right)
}

/// Whether one binary64 value is less than another.
pub fn f64_is_less(left: u64, right: u64) -> (less: bool)
    ensures
        less == f64_less(left, right),
{
    if left % F64_SIGN > F64_INFINITY || right % F64_SIGN > F64_INFINITY {
        return false;
    }
    let first: i128 = if left < F64_SIGN {
        left as i128
    } else {
        -((left - F64_SIGN) as i128)
    };
    let second: i128 = if right < F64_SIGN {
        right as i128
    } else {
        -((right - F64_SIGN) as i128)
    };
    first < second
}

/// Whether two binary64 values are equal: both zeros are, and nothing equals a NaN.
pub open spec fn f64_equal(left: u64, right: u64) -> bool {
    !f64_nan(left) && !f64_nan(right) && f64_rank(left) == f64_rank(right)
}

/// Whether two binary64 values are equal.
pub fn f64_is_equal(left: u64, right: u64) -> (equal: bool)
    ensures
        equal == f64_equal(left, right),
{
    if left % F64_SIGN > F64_INFINITY || right % F64_SIGN > F64_INFINITY {
        return false;
    }
    left == right || (left % F64_SIGN == 0 && right % F64_SIGN == 0)
}

/// Whether a binary32 pattern denotes a finite value that compares `>= 0`.
pub open spec fn f32_finite_nonnegative(bits: u32) -> bool {
    bits < F32_INFINITY || bits == F32_SIGN
}

/// Whether a binary32 pattern is finite and compares `>= 0`.
pub fn f32_is_finite_nonnegative(bits: u32) -> (accepted: bool)
    ensures
        accepted == f32_finite_nonnegative(bits),
{
    bits < F32_INFINITY || bits == F32_SIGN
}

/// Whether a binary32 pattern is finite.
pub fn f32_is_finite(bits: u32) -> (finite: bool)
    ensures
        finite == f32_finite(bits),
{
    bits % F32_SIGN < F32_INFINITY
}

/// Order of finite nonnegative patterns is order of their values.
pub proof fn f64_units_order(left: u64, right: u64)
    requires
        f64_finite_nonnegative(left),
        f64_finite_nonnegative(right),
    ensures
        f64_units(left) < f64_units(right) <==> f64_canonical(left) < f64_canonical(right),
        f64_units(left) == f64_units(right) <==> f64_canonical(left) == f64_canonical(right),
{
    let a = f64_canonical(left);
    let b = f64_canonical(right);
    if a < b {
        f64_units_strictly_increase(a, b);
    } else if b < a {
        f64_units_strictly_increase(b, a);
    }
}

proof fn f64_units_strictly_increase(a: u64, b: u64)
    requires
        a < b < F64_INFINITY,
    ensures
        f64_units(a) < f64_units(b),
{
    broadcast use vstd::arithmetic::power2::lemma_pow2_pos;

    let step = F64_EXPONENT_STEP as nat;
    let ea = a as nat / step;
    let eb = b as nat / step;
    let fa = a as nat % step;
    let fb = b as nat % step;
    if b < F64_EXPONENT_STEP {
    } else if a < F64_EXPONENT_STEP {
        assert((step + fb) * pow2((eb - 1) as nat) >= step) by (nonlinear_arith)
            requires
                pow2((eb - 1) as nat) >= 1,
                step >= 0,
                fb >= 0,
        ;
    } else if ea == eb {
        assert(fa < fb);
        assert((step + fa) * pow2((ea - 1) as nat) < (step + fb) * pow2((ea - 1) as nat))
            by (nonlinear_arith)
            requires
                pow2((ea - 1) as nat) >= 1,
                fa < fb,
        ;
    } else {
        assert(ea < eb);
        let p = pow2((ea - 1) as nat);
        let q = pow2((eb - 1) as nat);
        vstd::arithmetic::power2::lemma_pow2_unfold(ea);
        if ea < eb - 1 {
            vstd::arithmetic::power2::lemma_pow2_strictly_increases(ea, (eb - 1) as nat);
        }
        assert(q >= 2 * p);
        assert((step + fa) * p < (step + fb) * q) by (nonlinear_arith)
            requires
                p >= 1,
                q >= 2 * p,
                fa < step,
                fb >= 0,
        ;
    }
}

} // verus!
