//! What exact distortions promise of their rounding.

use crate::exact::{f64_rounded, rounding_shift};
use crate::float_bits::{f64_units, f64_units_order, F64_EXPONENT_STEP, F64_INFINITY};
use vstd::arithmetic::power2::{lemma2_to64, lemma_pow2_adds, lemma_pow2_pos, lemma_pow2_unfold, pow2};
use vstd::prelude::*;

verus! {

/// How far a binary64 value is from a number of units.
pub open spec fn distance(units: nat, bits: u64) -> int {
    if f64_units(bits) >= units {
        f64_units(bits) - units
    } else {
        units - f64_units(bits)
    }
}

/// A number whose 53-bit significand drops `shift` bits lies between the matching powers.
proof fn lemma_shift_range(units: nat)
    ensures
        rounding_shift(units) == 0 ==> units < 0x20_0000_0000_0000,
        rounding_shift(units) > 0 ==> 0x10_0000_0000_0000 * pow2(rounding_shift(units)) <= units
            < 0x20_0000_0000_0000 * pow2(rounding_shift(units)),
    decreases units,
{
    lemma2_to64();
    if units >= 0x20_0000_0000_0000 {
        let half = units / 2;
        lemma_shift_range(half);
        let lower = rounding_shift(half);
        lemma_pow2_unfold(lower + 1);
        assert(units == 2 * half + units % 2);
        assert(0x10_0000_0000_0000 * pow2(lower + 1) == 2 * (0x10_0000_0000_0000 * pow2(lower)));
        assert(0x20_0000_0000_0000 * pow2(lower + 1) == 2 * (0x20_0000_0000_0000 * pow2(lower)));
    }
}

/// A pattern with at least `shift` exponent steps more than a subnormal one is a multiple of the
/// matching power.
proof fn lemma_multiple(bits: u64, shift: nat) -> (times: int)
    requires
        (shift + 1) * F64_EXPONENT_STEP <= bits < F64_INFINITY,
    ensures
        f64_units(bits) == times * pow2(shift),
{
    let exponent = bits as nat / F64_EXPONENT_STEP as nat;
    let significand = F64_EXPONENT_STEP as nat + bits as nat % F64_EXPONENT_STEP as nat;
    assert(exponent >= shift + 1) by (nonlinear_arith)
        requires
            (shift + 1) * F64_EXPONENT_STEP <= bits,
            bits < (exponent + 1) * F64_EXPONENT_STEP,
            F64_EXPONENT_STEP == 0x10_0000_0000_0000u64,
    ;
    let rest = (exponent - 1 - shift) as nat;
    lemma_pow2_adds(rest, shift);
    assert(f64_units(bits) == significand * pow2((exponent - 1) as nat));
    assert(significand * (pow2(rest) * pow2(shift)) == (significand * pow2(rest)) * pow2(shift))
        by (nonlinear_arith);
    (significand * pow2(rest)) as int
}

/// A 53-bit significand above `shift` dropped bits has the value that it stands for.
proof fn lemma_pattern_value(bits: u64, shift: nat, kept: nat)
    requires
        shift > 0,
        bits == shift * F64_EXPONENT_STEP + kept,
        0x10_0000_0000_0000 <= kept <= 0x20_0000_0000_0000,
        bits < F64_INFINITY,
    ensures
        f64_units(bits) == kept * pow2(shift),
{
    if kept < 0x20_0000_0000_0000 {
        assert(bits as nat / F64_EXPONENT_STEP as nat == shift + 1 && bits as nat
            % F64_EXPONENT_STEP as nat == kept - F64_EXPONENT_STEP) by {
            vstd::arithmetic::div_mod::lemma_fundamental_div_mod_converse(
                bits as int,
                F64_EXPONENT_STEP as int,
                (shift + 1) as int,
                kept - F64_EXPONENT_STEP,
            );
        }
    } else {
        assert(bits as nat / F64_EXPONENT_STEP as nat == shift + 2 && bits as nat
            % F64_EXPONENT_STEP as nat == 0) by {
            vstd::arithmetic::div_mod::lemma_fundamental_div_mod_converse(
                bits as int,
                F64_EXPONENT_STEP as int,
                (shift + 2) as int,
                0,
            );
        }
        lemma_pow2_unfold(shift + 1);
        assert(f64_units(bits) == 0x10_0000_0000_0000 * pow2(shift + 1));
        assert(0x10_0000_0000_0000 * (2 * pow2(shift)) == 0x20_0000_0000_0000 * pow2(shift));
    }
}

/// A rounded total is the binary64 value nearest to it: no finite nonnegative value is nearer,
/// and where another is as near, the rounded pattern is even.
pub proof fn rounded_totals_are_nearest(units: nat, bits: u64, other: u64)
    requires
        f64_rounded(units) == Some(bits),
        other < F64_INFINITY,
    ensures
        bits < F64_INFINITY,
        distance(units, bits) <= distance(units, other),
        distance(units, bits) == distance(units, other) && bits != other ==> bits % 2 == 0,
{
    let shift = rounding_shift(units);
    let unit = pow2(shift) as int;
    lemma_pow2_pos(shift);
    lemma_shift_range(units);
    lemma2_to64();
    let kept = units as int / unit;
    let dropped = units as int % unit;
    vstd::arithmetic::div_mod::lemma_fundamental_div_mod(units as int, unit);
    if shift == 0 {
        assert(unit == 1);
        assert(units as int / 1 == units && units as int % 1 == 0);
        assert(kept == units && dropped == 0);
        assert(bits == units);
        assert(f64_units(bits) == units) by {
            if bits >= F64_EXPONENT_STEP {
                assert(bits / F64_EXPONENT_STEP == 1);
                let significand = (F64_EXPONENT_STEP + bits % F64_EXPONENT_STEP) as nat;
                assert(significand * 1 == significand);
            }
        }
        if other != bits {
            f64_units_order(bits, other);
        }
    } else {
        assert(unit * kept == kept * unit) by (nonlinear_arith);
        assert(0x10_0000_0000_0000 <= kept < 0x20_0000_0000_0000) by (nonlinear_arith)
            requires
                0x10_0000_0000_0000 * unit <= units,
                units < 0x20_0000_0000_0000 * unit,
                units == kept * unit + dropped,
                0 <= dropped < unit,
                unit > 0,
        ;
        let up = 2 * dropped > unit || (2 * dropped == unit && kept % 2 == 1);
        let rounded = if up {
            kept + 1
        } else {
            kept
        };
        assert(bits == shift * F64_EXPONENT_STEP + rounded);
        lemma_pattern_value(bits, shift, rounded as nat);
        assert((kept + 1) * unit == kept * unit + unit) by (nonlinear_arith);
        assert(2 * distance(units, bits) <= unit);
        assert(shift * F64_EXPONENT_STEP % 2 == 0) by {
            assert(shift * F64_EXPONENT_STEP == 2 * (shift * 0x8_0000_0000_0000))
                by (nonlinear_arith)
                requires
                    F64_EXPONENT_STEP == 0x10_0000_0000_0000u64,
            ;
        }
        assert(2 * distance(units, bits) == unit ==> rounded % 2 == 0);
        let least = (shift + 1) * F64_EXPONENT_STEP;
        assert((shift + 1) * F64_EXPONENT_STEP == shift * F64_EXPONENT_STEP + F64_EXPONENT_STEP)
            by (nonlinear_arith);
        if other >= least {
            let times = lemma_multiple(other, shift);
            if other != bits {
                f64_units_order(bits, other);
                assert(times != rounded);
                assert(times * unit >= rounded * unit + unit || times * unit <= rounded * unit
                    - unit) by (nonlinear_arith)
                    requires
                        times != rounded,
                        unit > 0,
                ;
            }
        } else {
            let floor = least as u64;
            lemma_pattern_value(floor, shift, 0x10_0000_0000_0000);
            f64_units_order(other, floor);
            assert(f64_units(other) < 0x10_0000_0000_0000 * unit <= units);
            assert(rounded * unit >= 0x10_0000_0000_0000 * unit) by (nonlinear_arith)
                requires
                    rounded >= 0x10_0000_0000_0000,
                    unit > 0,
            ;
            if rounded * unit > units {
                assert(kept * unit >= 0x10_0000_0000_0000 * unit) by (nonlinear_arith)
                    requires
                        kept >= 0x10_0000_0000_0000,
                        unit > 0,
                ;
                assert(up);
            }
        }
    }
}

} // verus!
