//! Exact sums and differences of finite nonnegative binary64 values.

use crate::float_bits::{
    canonical_nonnegative_bits, f64_canonical, f64_finite_nonnegative, f64_is_finite_nonnegative,
    f64_units, f64_units_order, F64_EXPONENT_STEP, F64_INFINITY,
};
use vstd::arithmetic::div_mod::{
    lemma_div_denominator, lemma_fundamental_div_mod, lemma_fundamental_div_mod_converse,
};
use vstd::arithmetic::power2::{
    lemma2_to64, lemma2_to64_rest, lemma_pow2_adds, lemma_pow2_pos, lemma_pow2_strictly_increases,
    lemma_pow2_unfold, pow2,
};
use vstd::prelude::*;

verus! {

/// Number of 64-bit limbs of an exact sum.
///
/// The largest finite binary64 occupies 2098 bits in units of `2^-1074`, and
/// fewer than `2^64` summands carry at most another 64 bits.
pub const EXACT_DISTORTION_LIMBS: usize = 34;

const WORD: u128 = 0x1_0000_0000_0000_0000;

/// Value of little-endian 64-bit limbs.
pub open spec fn limbs_value(limbs: Seq<u64>) -> nat
    decreases limbs.len(),
{
    if limbs.len() == 0 {
        0
    } else {
        limbs_value(limbs.drop_last()) + limbs.last() as nat * pow2(
            (64 * (limbs.len() - 1)) as nat,
        )
    }
}

/// Exclusive upper bound of every exact sum.
pub open spec fn exact_bound() -> nat {
    pow2((64 * EXACT_DISTORTION_LIMBS) as nat)
}

proof fn lemma_word()
    ensures
        pow2(64) == WORD,
{
    lemma2_to64();
    lemma2_to64_rest();
    assert(pow2(64) == 0x1_0000_0000_0000_0000) by {
        lemma_pow2_unfold(64);
    }
}

proof fn lemma_place(index: nat)
    ensures
        pow2(64 * (index + 1)) == pow2(64 * index) * WORD,
        pow2(64 * index) > 0,
{
    lemma_word();
    lemma_pow2_adds(64 * index, 64);
    lemma_pow2_pos(64 * index);
    assert(64 * index + 64 == 64 * (index + 1));
}

proof fn lemma_take_step(limbs: Seq<u64>, index: int)
    requires
        0 <= index < limbs.len(),
    ensures
        limbs_value(limbs.take(index + 1)) == limbs_value(limbs.take(index)) + limbs[index] as nat
            * pow2((64 * index) as nat),
{
    assert(limbs.take(index + 1).drop_last() =~= limbs.take(index));
}

proof fn lemma_limbs_bound(limbs: Seq<u64>)
    ensures
        limbs_value(limbs) < pow2((64 * limbs.len()) as nat),
    decreases limbs.len(),
{
    if limbs.len() == 0 {
        lemma_pow2_pos(0);
    } else {
        let rest = limbs.drop_last();
        lemma_limbs_bound(rest);
        lemma_place(rest.len());
        let place = pow2((64 * rest.len()) as nat);
        assert(limbs.last() as nat * place + place <= place * WORD) by (nonlinear_arith)
            requires
                limbs.last() < WORD,
                place > 0,
        ;
    }
}

/// Replacing one limb moves the value by the difference at that place.
proof fn lemma_update(limbs: Seq<u64>, index: int, word: u64)
    requires
        0 <= index < limbs.len(),
    ensures
        limbs_value(limbs.update(index, word)) == limbs_value(limbs) + (word - limbs[index]) * pow2(
            (64 * index) as nat,
        ),
    decreases limbs.len(),
{
    let place = pow2((64 * index) as nat);
    let updated = limbs.update(index, word);
    if index == limbs.len() - 1 {
        assert(updated.drop_last() =~= limbs.drop_last());
        assert(word as nat * place == limbs[index] as nat * place + (word - limbs[index]) * place)
            by (nonlinear_arith);
    } else {
        lemma_update(limbs.drop_last(), index, word);
        assert(updated.drop_last() =~= limbs.drop_last().update(index, word));
    }
}

proof fn lemma_zero_limbs(limbs: Seq<u64>)
    requires
        forall|i: int| 0 <= i < limbs.len() ==> limbs[i] == 0,
    ensures
        limbs_value(limbs) == 0,
    decreases limbs.len(),
{
    if limbs.len() > 0 {
        lemma_zero_limbs(limbs.drop_last());
        assert(limbs.last() == 0);
    }
}

/// Limbs above `index` that are all zero contribute nothing.
proof fn lemma_top_zero(limbs: Seq<u64>, index: int)
    requires
        0 <= index <= limbs.len(),
        forall|i: int| index <= i < limbs.len() ==> limbs[i] == 0,
    ensures
        limbs_value(limbs) == limbs_value(limbs.take(index)),
    decreases limbs.len(),
{
    if index == limbs.len() {
        assert(limbs.take(index) =~= limbs);
    } else {
        lemma_top_zero(limbs.drop_last(), index);
        assert(limbs.drop_last().take(index) =~= limbs.take(index));
        assert(limbs.last() == 0);
    }
}

/// The highest limb in which two values differ decides their order.
proof fn lemma_order(left: Seq<u64>, right: Seq<u64>, index: int)
    requires
        left.len() == right.len(),
        0 <= index < left.len(),
        left[index] < right[index],
        forall|i: int| index < i < left.len() ==> left[i] == right[i],
    ensures
        limbs_value(left) < limbs_value(right),
    decreases left.len(),
{
    let place = pow2((64 * (left.len() - 1)) as nat);
    if index == left.len() - 1 {
        lemma_limbs_bound(left.drop_last());
        assert(left.last() as nat * place + place <= right.last() as nat * place)
            by (nonlinear_arith)
            requires
                left.last() < right.last(),
        ;
    } else {
        assert(left[left.len() - 1] == right[left.len() - 1]);
        lemma_order(left.drop_last(), right.drop_last(), index);
    }
}

proof fn lemma_low_limbs(limbs: Seq<u64>)
    requires
        limbs.len() >= 1,
    ensures
        limbs_value(limbs.take(1)) == limbs[0],
        limbs.len() >= 2 ==> limbs_value(limbs.take(2)) == limbs[0] + limbs[1] * WORD,
{
    lemma2_to64();
    lemma_word();
    assert(limbs.take(0).len() == 0);
    lemma_take_step(limbs, 0);
    assert(limbs[0] as nat * pow2(0) == limbs[0]) by (nonlinear_arith)
        requires
            pow2(0) == 1,
    ;
    if limbs.len() >= 2 {
        lemma_take_step(limbs, 1);
    }
}

/// Splits a value at a limb boundary.
proof fn lemma_split(limbs: Seq<u64>, index: int)
    requires
        0 <= index <= limbs.len(),
    ensures
        limbs_value(limbs) == limbs_value(limbs.take(index)) + limbs_value(limbs.skip(index))
            * pow2((64 * index) as nat),
    decreases limbs.len(),
{
    let place = pow2((64 * index) as nat);
    if index == limbs.len() {
        assert(limbs.take(index) =~= limbs);
        assert(limbs.skip(index).len() == 0);
        assert(0 * place == 0);
    } else {
        let rest = limbs.drop_last();
        lemma_split(rest, index);
        assert(rest.take(index) =~= limbs.take(index));
        assert(limbs.skip(index).drop_last() =~= rest.skip(index));
        let high = pow2((64 * (limbs.len() - 1 - index)) as nat);
        lemma_pow2_adds((64 * (limbs.len() - 1 - index)) as nat, (64 * index) as nat);
        assert(64 * (limbs.len() - 1 - index) + 64 * index == 64 * (limbs.len() - 1));
        let top = limbs.last() as nat;
        let low = limbs_value(rest.skip(index));
        assert((low + top * high) * place == low * place + top * (high * place))
            by (nonlinear_arith);
    }
}

/// Rounds `units * 2^-1074` to a binary64 pattern, ties to even; `None` when
/// the rounded value is not finite.
///
/// `shift` low bits are dropped from the 53-bit significand that remains. The
/// pattern of a normal value is `shift` exponent steps plus that significand.
pub open spec fn f64_rounded_at(units: nat, shift: nat) -> Option<u64> {
    let unit = pow2(shift);
    let kept = units / unit;
    let dropped = units % unit;
    let up = 2 * dropped > unit || (2 * dropped == unit && kept % 2 == 1);
    let pattern = shift * F64_EXPONENT_STEP + kept + if up {
        1nat
    } else {
        0nat
    };
    if pattern < F64_INFINITY {
        Some(pattern as u64)
    } else {
        None
    }
}

/// The correctly rounded binary64 pattern of `units * 2^-1074`.
pub open spec fn f64_rounded(units: nat) -> Option<u64> {
    f64_rounded_at(units, rounding_shift(units))
}

/// Number of bits above a 53-bit significand.
pub open spec fn rounding_shift(units: nat) -> nat
    decreases units,
{
    if units < 0x20_0000_0000_0000 {
        0
    } else {
        1 + rounding_shift(units / 2)
    }
}

proof fn lemma_rounding_shift(units: nat, shift: nat)
    requires
        shift == 0 ==> units < 0x20_0000_0000_0000,
        shift > 0 ==> 0x10_0000_0000_0000 * pow2(shift) <= units < 0x20_0000_0000_0000 * pow2(
            shift,
        ),
    ensures
        rounding_shift(units) == shift,
    decreases shift,
{
    if shift > 0 {
        let lower = (shift - 1) as nat;
        lemma_pow2_unfold(shift);
        lemma_pow2_pos(lower);
        assert(0x10_0000_0000_0000 * pow2(shift) == 0x20_0000_0000_0000 * pow2(lower));
        assert(0x20_0000_0000_0000 * pow2(lower) >= 0x20_0000_0000_0000);
        if lower == 0 {
            lemma2_to64();
        }
        lemma_rounding_shift(units / 2, lower);
    }
}

/// Rounding gives back every finite nonnegative value that is a binary64.
pub proof fn f64_rounding_is_exact_on_f64(bits: u64)
    requires
        f64_finite_nonnegative(bits),
    ensures
        f64_rounded(f64_units(bits)) == Some(f64_canonical(bits)),
{
    let canonical = f64_canonical(bits);
    let units = f64_units(bits);
    lemma2_to64();
    if canonical < 2 * F64_EXPONENT_STEP {
        if canonical >= F64_EXPONENT_STEP {
            assert(canonical / F64_EXPONENT_STEP == 1);
            let significand = (F64_EXPONENT_STEP + canonical % F64_EXPONENT_STEP) as nat;
            let unit = pow2((canonical / F64_EXPONENT_STEP - 1) as nat);
            assert(significand * unit == significand) by (nonlinear_arith)
                requires
                    unit == 1,
            ;
        }
        assert(rounding_shift(units) == 0);
        assert(units / 1 == units && units % 1 == 0);
    } else {
        let shift = (canonical / F64_EXPONENT_STEP - 1) as nat;
        let significand = (F64_EXPONENT_STEP + canonical % F64_EXPONENT_STEP) as nat;
        let unit = pow2(shift);
        lemma_pow2_pos(shift);
        assert(units == significand * unit);
        assert(0x10_0000_0000_0000 * unit <= units < 0x20_0000_0000_0000 * unit)
            by (nonlinear_arith)
            requires
                units == significand * unit,
                0x10_0000_0000_0000 <= significand < 0x20_0000_0000_0000,
                unit > 0,
        ;
        lemma_rounding_shift(units, shift);
        lemma_fundamental_div_mod_converse(
            units as int,
            unit as int,
            significand as int,
            0,
        );
    }
}

/// Every finite nonnegative binary64 stays below `2^2098` units.
pub proof fn f64_units_bound(bits: u64)
    requires
        f64_finite_nonnegative(bits),
    ensures
        f64_units(bits) < pow2(2098),
{
    let canonical = f64_canonical(bits);
    lemma2_to64();
    lemma2_to64_rest();
    if canonical < F64_EXPONENT_STEP {
        lemma_pow2_strictly_increases(52, 2098);
    } else {
        let exponent = (canonical / F64_EXPONENT_STEP - 1) as nat;
        let significand = (F64_EXPONENT_STEP + canonical % F64_EXPONENT_STEP) as nat;
        lemma_pow2_pos(exponent);
        lemma_pow2_adds(53, exponent);
        assert(significand * pow2(exponent) < pow2(53) * pow2(exponent)) by (nonlinear_arith)
            requires
                significand < pow2(53),
                pow2(exponent) > 0,
        ;
        if exponent + 53 < 2098 {
            lemma_pow2_strictly_increases(53 + exponent, 2098);
        }
    }
}

/// Fewer than `2^68` binary64 values never overflow an exact sum.
pub proof fn exact_sum_fits(total: nat, count: nat)
    requires
        total <= count * pow2(2098),
        count <= 16 * u64::MAX,
    ensures
        total < exact_bound(),
{
    lemma_word();
    lemma2_to64();
    lemma_pow2_pos(2098);
    lemma_pow2_adds(64, 4);
    lemma_pow2_adds(68, 2098);
    assert(count * pow2(2098) < pow2(68) * pow2(2098)) by (nonlinear_arith)
        requires
            count < pow2(68),
            pow2(2098) > 0,
    ;
    lemma_pow2_strictly_increases(2166, (64 * EXACT_DISTORTION_LIMBS) as nat);
}

/// Exact sum of finite nonnegative binary64 values in units of `2^-1074`.
#[derive(Clone, Copy, Debug, PartialEq, Eq)]
pub struct ExactDistortion {
    limbs: [u64; EXACT_DISTORTION_LIMBS],
}

impl ExactDistortion {
    /// The held sum as a multiple of `2^-1074`.
    pub closed spec fn value(self) -> nat {
        limbs_value(self.limbs@)
    }

    /// Every held sum stays below the fixed-width bound.
    pub proof fn value_is_bounded(self)
        ensures
            self.value() < exact_bound(),
    {
        lemma_limbs_bound(self.limbs@);
    }

    /// The words of the held sum, the least significant first.
    pub fn limbs(&self) -> (limbs: &[u64; EXACT_DISTORTION_LIMBS])
        ensures
            limbs_value(limbs@) == self.value(),
    {
        &self.limbs
    }

    /// The empty sum.
    pub fn zero() -> (sum: Self)
        ensures
            sum.value() == 0,
    {
        let limbs: [u64; EXACT_DISTORTION_LIMBS] = [0u64; EXACT_DISTORTION_LIMBS];
        let sum = ExactDistortion { limbs };
        proof {
            broadcast use vstd::array::group_array_axioms;

            assert forall|i: int| 0 <= i < EXACT_DISTORTION_LIMBS implies #[trigger] limbs@[i]
                == 0 by {
                let filled = vstd::array::spec_array_fill_for_copy_type::<
                    u64,
                    EXACT_DISTORTION_LIMBS,
                >(0u64);
                assert(filled@[i] == 0);
            }
            lemma_zero_limbs(sum.limbs@);
        }
        sum
    }

    /// Expand one binary64 pattern; `None` unless it is finite and `>= 0`.
    pub fn from_f64_bits(bits: u64) -> (sum: Option<Self>)
        ensures
            sum is Some <==> f64_finite_nonnegative(bits),
            sum is Some ==> sum->0.value() == f64_units(bits),
    {
        if !f64_is_finite_nonnegative(bits) {
            return None;
        }
        let canonical: u64 = canonical_nonnegative_bits(bits);
        let raw_exponent: u64 = canonical / F64_EXPONENT_STEP;
        let fraction: u64 = canonical % F64_EXPONENT_STEP;
        let mut exact = Self::zero();
        if raw_exponent == 0 {
            let fits = exact.checked_add_shifted(fraction, 0);
            proof {
                lemma2_to64();
                assert(fraction * pow2(0) == fraction);
                lemma_pow2_strictly_increases(64, (64 * EXACT_DISTORTION_LIMBS) as nat);
                lemma_word();
                assert(fits);
            }
        } else {
            let significand: u64 = F64_EXPONENT_STEP + fraction;
            let shift: usize = (raw_exponent - 1) as usize;
            let fits = exact.checked_add_shifted(significand, shift);
            proof {
                lemma_word();
                lemma_pow2_adds(64, shift as nat);
                lemma_pow2_pos(shift as nat);
                assert(significand * pow2(shift as nat) < pow2(64) * pow2(shift as nat))
                    by (nonlinear_arith)
                    requires
                        significand < pow2(64),
                        pow2(shift as nat) > 0,
                ;
                lemma_pow2_strictly_increases(
                    (64 + shift) as nat,
                    (64 * EXACT_DISTORTION_LIMBS) as nat,
                );
                assert(fits);
            }
        }
        Some(exact)
    }

    /// Add `word` at limb `start`; `false` exactly when the sum leaves the
    /// fixed width.
    fn checked_add_word(&mut self, start: usize, word: u64) -> (fits: bool)
        requires
            start <= EXACT_DISTORTION_LIMBS,
        ensures
            fits <==> old(self).value() + word * pow2((64 * start) as nat) < exact_bound(),
            fits ==> final(self).value() == old(self).value() + word * pow2((64 * start) as nat),
    {
        proof {
            lemma_limbs_bound(self.limbs@);
        }
        if word == 0 {
            return true;
        }
        let ghost target = self.value() + word * pow2((64 * start) as nat);
        let mut limb: usize = start;
        let mut carry: u64 = word;
        while limb < EXACT_DISTORTION_LIMBS && carry != 0
            invariant
                start <= limb <= EXACT_DISTORTION_LIMBS,
                self.value() + carry * pow2((64 * limb) as nat) == target,
            decreases EXACT_DISTORTION_LIMBS - limb,
        {
            let sum: u128 = self.limbs[limb] as u128 + carry as u128;
            let low: u64 = (sum % WORD) as u64;
            let high: u64 = (sum / WORD) as u64;
            let ghost before = self.limbs@;
            self.limbs[limb] = low;
            proof {
                assert(self.limbs@ =~= before.update(limb as int, low));
                lemma_update(before, limb as int, low);
                lemma_place(limb as nat);
                let place = pow2((64 * limb) as nat);
                let previous = before[limb as int];
                assert(sum == low + high * WORD);
                assert((low - previous) * place + high * (place * WORD) == carry * place)
                    by (nonlinear_arith)
                    requires
                        previous + carry == low + high * WORD,
                ;
            }
            carry = high;
            limb = limb + 1;
        }
        proof {
            lemma_limbs_bound(self.limbs@);
            let place = pow2((64 * limb) as nat);
            assert(0 * place == 0);
            if carry != 0 {
                assert(carry * place >= place) by (nonlinear_arith)
                    requires
                        carry >= 1,
                        place >= 0,
                ;
            }
        }
        carry == 0
    }

    /// Add `value * 2^shift`; `false` exactly when the sum leaves the fixed
    /// width.
    fn checked_add_shifted(&mut self, value: u64, shift: usize) -> (fits: bool)
        ensures
            fits <==> old(self).value() + value * pow2(shift as nat) < exact_bound(),
            fits ==> final(self).value() == old(self).value() + value * pow2(shift as nat),
    {
        proof {
            lemma_limbs_bound(self.limbs@);
        }
        if value == 0 {
            return true;
        }
        let limb: usize = shift / 64;
        let offset: usize = shift % 64;
        if limb >= EXACT_DISTORTION_LIMBS {
            proof {
                let bound = (64 * EXACT_DISTORTION_LIMBS) as nat;
                if bound < shift {
                    lemma_pow2_strictly_increases(bound, shift as nat);
                }
                assert(value * pow2(shift as nat) >= pow2(shift as nat)) by (nonlinear_arith)
                    requires
                        value >= 1,
                ;
            }
            return false;
        }
        let factor: u64 = power_of_two(offset);
        assert(value * factor <= u128::MAX) by (nonlinear_arith)
            requires
                value <= u64::MAX,
                factor <= u64::MAX,
        ;
        let scaled: u128 = value as u128 * factor as u128;
        let low: u64 = (scaled % WORD) as u64;
        let high: u64 = (scaled / WORD) as u64;
        let ghost before = self.value();
        let ghost place = pow2((64 * limb) as nat);
        proof {
            lemma_place(limb as nat);
            lemma_pow2_adds((64 * limb) as nat, offset as nat);
            assert(64 * limb + offset == shift);
            assert(value * pow2(shift as nat) == low * place + high * (place * WORD))
                by (nonlinear_arith)
                requires
                    pow2(shift as nat) == place * pow2(offset as nat),
                    value * pow2(offset as nat) == low + high * WORD,
            ;
        }
        if !self.checked_add_word(limb, low) {
            proof {
                assert(high * (place * WORD) >= 0) by (nonlinear_arith);
            }
            return false;
        }
        self.checked_add_word(limb + 1, high)
    }

    /// Add another exact sum; `None` exactly when the result leaves the fixed
    /// width.
    pub fn checked_add(self, rhs: Self) -> (sum: Option<Self>)
        ensures
            sum is Some <==> self.value() + rhs.value() < exact_bound(),
            sum is Some ==> sum->0.value() == self.value() + rhs.value(),
    {
        let mut out = self;
        let mut carry: u64 = 0;
        let mut index: usize = 0;
        assert(rhs.limbs@.take(0).len() == 0);
        assert(0 * pow2(0) == 0);
        while index < EXACT_DISTORTION_LIMBS
            invariant
                index <= EXACT_DISTORTION_LIMBS,
                carry <= 1,
                out.value() + carry * pow2((64 * index) as nat) == self.value() + limbs_value(
                    rhs.limbs@.take(index as int),
                ),
            decreases EXACT_DISTORTION_LIMBS - index,
        {
            let sum: u128 = out.limbs[index] as u128 + rhs.limbs[index] as u128 + carry as u128;
            let low: u64 = (sum % WORD) as u64;
            let high: u64 = (sum / WORD) as u64;
            let ghost before = out.limbs@;
            out.limbs[index] = low;
            proof {
                assert(out.limbs@ =~= before.update(index as int, low));
                lemma_update(before, index as int, low);
                lemma_take_step(rhs.limbs@, index as int);
                lemma_place(index as nat);
                let place = pow2((64 * index) as nat);
                let previous = before[index as int];
                let addend = rhs.limbs@[index as int];
                assert((low - previous) * place + high * (place * WORD) == carry * place + addend
                    * place) by (nonlinear_arith)
                    requires
                        previous + addend + carry == low + high * WORD,
                ;
            }
            carry = high;
            index = index + 1;
        }
        proof {
            assert(rhs.limbs@.take(index as int) =~= rhs.limbs@);
            lemma_limbs_bound(out.limbs@);
            let place = pow2((64 * index) as nat);
            assert(0 * place == 0);
            if carry != 0 {
                assert(carry * place >= place) by (nonlinear_arith)
                    requires
                        carry >= 1,
                        place >= 0,
                ;
            }
        }
        if carry == 0 {
            Some(out)
        } else {
            None
        }
    }

    /// Add one binary64 pattern; `None` when it is not finite and `>= 0` or the
    /// result leaves the fixed width.
    pub fn checked_add_f64_bits(self, bits: u64) -> (sum: Option<Self>)
        ensures
            sum is Some <==> f64_finite_nonnegative(bits) && self.value() + f64_units(bits)
                < exact_bound(),
            sum is Some ==> sum->0.value() == self.value() + f64_units(bits),
    {
        match Self::from_f64_bits(bits) {
            None => None,
            Some(exact) => self.checked_add(exact),
        }
    }

    /// Subtract an exact sum; `None` exactly when the result is negative.
    pub fn checked_sub(self, rhs: Self) -> (difference: Option<Self>)
        ensures
            difference is Some <==> self.value() >= rhs.value(),
            difference is Some ==> difference->0.value() == self.value() - rhs.value(),
    {
        if self.less_than(&rhs) {
            return None;
        }
        let mut out = self;
        let mut borrow: u64 = 0;
        let mut index: usize = 0;
        assert(rhs.limbs@.take(0).len() == 0);
        assert(0 * pow2(0) == 0);
        while index < EXACT_DISTORTION_LIMBS
            invariant
                index <= EXACT_DISTORTION_LIMBS,
                borrow <= 1,
                out.value() + limbs_value(rhs.limbs@.take(index as int)) == self.value() + borrow
                    * pow2((64 * index) as nat),
            decreases EXACT_DISTORTION_LIMBS - index,
        {
            let needed: u128 = rhs.limbs[index] as u128 + borrow as u128;
            let have: u128 = out.limbs[index] as u128;
            let next_borrow: u64 = if have < needed {
                1
            } else {
                0
            };
            let low: u64 = (have + next_borrow as u128 * WORD - needed) as u64;
            let ghost before = out.limbs@;
            out.limbs[index] = low;
            proof {
                assert(out.limbs@ =~= before.update(index as int, low));
                lemma_update(before, index as int, low);
                lemma_take_step(rhs.limbs@, index as int);
                lemma_place(index as nat);
                let place = pow2((64 * index) as nat);
                let previous = before[index as int];
                let subtrahend = rhs.limbs@[index as int];
                assert((low - previous) * place + subtrahend * place + borrow * place
                    == next_borrow * (place * WORD)) by (nonlinear_arith)
                    requires
                        low + subtrahend + borrow == previous + next_borrow * WORD,
                ;
            }
            borrow = next_borrow;
            index = index + 1;
        }
        proof {
            assert(rhs.limbs@.take(index as int) =~= rhs.limbs@);
            lemma_limbs_bound(out.limbs@);
            let place = pow2((64 * index) as nat);
            assert(0 * place == 0);
            assert(1 * place == place);
        }
        Some(out)
    }

    /// Whether this sum is strictly smaller.
    pub fn less_than(&self, other: &Self) -> (less: bool)
        ensures
            less == (self.value() < other.value()),
    {
        let mut index: usize = EXACT_DISTORTION_LIMBS;
        while index > 0
            invariant
                index <= EXACT_DISTORTION_LIMBS,
                forall|i: int|
                    index <= i < EXACT_DISTORTION_LIMBS ==> self.limbs@[i] == other.limbs@[i],
            decreases index,
        {
            index = index - 1;
            if self.limbs[index] < other.limbs[index] {
                proof {
                    lemma_order(self.limbs@, other.limbs@, index as int);
                }
                return true;
            }
            if other.limbs[index] < self.limbs[index] {
                proof {
                    lemma_order(other.limbs@, self.limbs@, index as int);
                }
                return false;
            }
        }
        assert(self.limbs@ =~= other.limbs@);
        false
    }

    /// Position of the highest set bit; `None` for zero.
    fn highest_set_bit(&self) -> (bit: Option<usize>)
        ensures
            bit is None <==> self.value() == 0,
            bit matches Some(position) ==> position < 64 * EXACT_DISTORTION_LIMBS && pow2(
                position as nat,
            ) <= self.value() < pow2((position + 1) as nat),
    {
        let mut index: usize = EXACT_DISTORTION_LIMBS;
        while index > 0
            invariant
                index <= EXACT_DISTORTION_LIMBS,
                forall|i: int| index <= i < EXACT_DISTORTION_LIMBS ==> self.limbs@[i] == 0,
            decreases index,
        {
            index = index - 1;
            let limb: u64 = self.limbs[index];
            if limb != 0 {
                let mut remaining: u64 = limb;
                let mut bit: usize = 0;
                proof {
                    lemma2_to64();
                }
                while remaining > 1
                    invariant
                        remaining >= 1,
                        bit + (if remaining > 1 {
                            1int
                        } else {
                            0int
                        }) <= 63,
                        pow2(bit as nat) > 0,
                        remaining * pow2(bit as nat) <= limb < (remaining + 1) * pow2(bit as nat),
                    decreases remaining,
                {
                    let halved: u64 = remaining / 2;
                    proof {
                        let unit = pow2(bit as nat);
                        lemma_pow2_unfold((bit + 1) as nat);
                        let doubled = pow2((bit + 1) as nat);
                        assert(halved * doubled <= remaining * unit && (remaining + 1) * unit <= (
                        halved + 1) * doubled) by (nonlinear_arith)
                            requires
                                doubled == 2 * unit,
                                2 * halved <= remaining,
                                remaining + 1 <= 2 * (halved + 1),
                                unit > 0,
                        ;
                        if halved > 1 && bit + 2 > 63 {
                            lemma_word();
                            lemma_pow2_unfold(64);
                            if bit + 1 > 63 {
                                lemma_pow2_strictly_increases(63, (bit + 1) as nat);
                            }
                            assert(halved * doubled >= 2 * doubled) by (nonlinear_arith)
                                requires
                                    halved >= 2,
                                    doubled > 0,
                            ;
                            assert(false);
                        }
                        if bit + 1 > 63 {
                            assert(false);
                        }
                    }
                    remaining = halved;
                    bit = bit + 1;
                }
                let position: usize = index * 64 + bit;
                proof {
                    assert(remaining == 1);
                    lemma_pow2_unfold((bit + 1) as nat);
                    assert(pow2(bit as nat) <= limb < pow2((bit + 1) as nat)) by (nonlinear_arith)
                        requires
                            1 * pow2(bit as nat) <= limb < (1 + 1) * pow2(bit as nat),
                            pow2((bit + 1) as nat) == 2 * pow2(bit as nat),
                    ;
                    lemma_top_zero(self.limbs@, index + 1);
                    lemma_take_step(self.limbs@, index as int);
                    lemma_limbs_bound(self.limbs@.take(index as int));
                    let place = pow2((64 * index) as nat);
                    let low = limbs_value(self.limbs@.take(index as int));
                    lemma_pow2_pos((64 * index) as nat);
                    lemma_pow2_adds((64 * index) as nat, bit as nat);
                    lemma_pow2_adds((64 * index) as nat, (bit + 1) as nat);
                    let unit = pow2(bit as nat);
                    let above = pow2((bit + 1) as nat);
                    assert(place * unit <= low + limb * place < place * above) by (nonlinear_arith)
                        requires
                            unit <= limb < above,
                            0 <= low < place,
                    ;
                    lemma_pow2_pos(position as nat);
                }
                return Some(position);
            }
        }
        proof {
            lemma_zero_limbs(self.limbs@);
        }
        None
    }

    /// The value with its `shift` low bits dropped, when it fits one word.
    fn shifted_low_word(&self, shift: usize) -> (word: u64)
        requires
            self.value() / pow2(shift as nat) < WORD,
            shift < 64 * EXACT_DISTORTION_LIMBS,
        ensures
            word == self.value() / pow2(shift as nat),
    {
        let limb: usize = shift / 64;
        let offset: usize = shift % 64;
        let low: u64 = self.limbs[limb];
        let high: u64 = if limb + 1 < EXACT_DISTORTION_LIMBS {
            self.limbs[limb + 1]
        } else {
            0
        };
        let pair: u128 = low as u128 + high as u128 * WORD;
        let divisor: u128 = power_of_two(offset) as u128;
        proof {
            let place = pow2((64 * limb) as nat);
            let value = self.value();
            let tail = self.limbs@.skip(limb as int);
            lemma_split(self.limbs@, limb as int);
            lemma_limbs_bound(self.limbs@.take(limb as int));
            lemma_pow2_pos((64 * limb) as nat);
            lemma_fundamental_div_mod_converse(
                value as int,
                place as int,
                limbs_value(tail) as int,
                limbs_value(self.limbs@.take(limb as int)) as int,
            );
            lemma_pow2_adds((64 * limb) as nat, offset as nat);
            assert(64 * limb + offset == shift);
            lemma_pow2_pos(offset as nat);
            lemma_div_denominator(value as int, place as int, pow2(offset as nat) as int);
            assert(value / pow2(shift as nat) == limbs_value(tail) / pow2(offset as nat));
            // Limbs above the pair are zero because the quotient fits one word.
            let pair_len: int = if limb + 1 < EXACT_DISTORTION_LIMBS {
                2
            } else {
                1
            };
            lemma_split(tail, pair_len);
            let head = tail.take(pair_len);
            assert(limbs_value(head) == pair) by {
                lemma_low_limbs(head);
                assert(head.take(pair_len) =~= head);
            }
            let above = limbs_value(tail.skip(pair_len));
            if above > 0 {
                assert(pair_len == 2);
                lemma_pow2_adds(64, 64);
                lemma_word();
                let unit = pow2(offset as nat);
                lemma_fundamental_div_mod(limbs_value(tail) as int, unit as int);
                let quotient = limbs_value(tail) / unit;
                lemma_pow2_strictly_increases(offset as nat, 64);
                assert(unit * quotient + unit <= WORD * WORD) by (nonlinear_arith)
                    requires
                        quotient + 1 <= WORD,
                        0 < unit <= WORD,
                ;
                assert(above * (WORD * WORD) >= WORD * WORD) by (nonlinear_arith)
                    requires
                        above >= 1,
                ;
                assert(false);
            }
            assert(0 * pow2((64 * pair_len) as nat) == 0);
            assert(limbs_value(tail) == pair);
        }
        (pair / divisor) as u64
    }

    /// Whether any of the `exclusive` low bits is set.
    fn any_bit_below(&self, exclusive: usize) -> (any: bool)
        requires
            exclusive < 64 * EXACT_DISTORTION_LIMBS,
        ensures
            any == (self.value() % pow2(exclusive as nat) != 0),
    {
        let limb: usize = exclusive / 64;
        let offset: usize = exclusive % 64;
        let ghost place = pow2((64 * limb) as nat);
        let ghost unit = pow2(offset as nat);
        let ghost low = limbs_value(self.limbs@.take(limb as int));
        let part: u64 = self.limbs[limb] % power_of_two(offset);
        proof {
            let tail = self.limbs@.skip(limb as int);
            lemma_split(self.limbs@, limb as int);
            lemma_limbs_bound(self.limbs@.take(limb as int));
            lemma_pow2_pos((64 * limb) as nat);
            lemma_pow2_pos(offset as nat);
            lemma_pow2_adds((64 * limb) as nat, offset as nat);
            assert(64 * limb + offset == exclusive);
            // The tail is its lowest limb plus a multiple of one word.
            lemma_split(tail, 1);
            lemma_low_limbs(tail);
            lemma_word();
            let above = limbs_value(tail.skip(1));
            let word = self.limbs@[limb as int] as nat;
            assert(limbs_value(tail) == word + above * WORD);
            lemma_pow2_adds(offset as nat, (64 - offset) as nat);
            let steps = pow2((64 - offset) as nat);
            lemma_fundamental_div_mod(word as int, unit as int);
            let quotient = word / unit + above * steps;
            assert(low + (word + above * WORD) * place == quotient * (place * unit) + (low + part
                * place)) by (nonlinear_arith)
                requires
                    word == unit * (word / unit) + part,
                    quotient == word / unit + above * steps,
                    WORD == unit * steps,
            ;
            assert(0 <= low + part * place < place * unit) by (nonlinear_arith)
                requires
                    0 <= low < place,
                    0 <= part < unit,
            ;
            lemma_fundamental_div_mod_converse(
                self.value() as int,
                (place * unit) as int,
                quotient as int,
                (low + part * place) as int,
            );
            if part > 0 {
                assert(part * place > 0) by (nonlinear_arith)
                    requires
                        part > 0,
                        place > 0,
                ;
            } else {
                assert(0 * place == 0);
            }
        }
        let mut index: usize = 0;
        while index < limb
            invariant
                index <= limb < EXACT_DISTORTION_LIMBS,
                low == limbs_value(self.limbs@.take(limb as int)),
                self.value() % pow2(exclusive as nat) == low + part * place,
                part * place >= 0,
                forall|i: int| 0 <= i < index ==> self.limbs@[i] == 0,
            decreases limb - index,
        {
            if self.limbs[index] != 0 {
                proof {
                    let prefix = self.limbs@.take(limb as int);
                    lemma_nonzero_limb(prefix, index as int);
                }
                return true;
            }
            index = index + 1;
        }
        proof {
            lemma_zero_limbs(self.limbs@.take(limb as int));
        }
        part != 0
    }

    /// The correctly rounded binary64 pattern of the sum; `None` when it is not
    /// finite.
    pub fn to_f64_bits(&self) -> (bits: Option<u64>)
        ensures
            bits == f64_rounded(self.value()),
    {
        let highest: usize = match self.highest_set_bit() {
            None => {
                proof {
                    lemma2_to64();
                }
                return Some(0);
            },
            Some(position) => position,
        };
        let ghost value = self.value();
        proof {
            lemma2_to64();
            lemma2_to64_rest();
        }
        if highest < 53 {
            proof {
                if highest < 52 {
                    lemma_pow2_strictly_increases((highest + 1) as nat, 53);
                }
                lemma_rounding_shift(value, 0);
                assert(value / 1 == value && value % 1 == 0);
            }
            let bits: u64 = self.shifted_low_word(0);
            return Some(bits);
        }
        let shift: usize = highest - 52;
        proof {
            let unit = pow2(shift as nat);
            lemma_pow2_adds(52, shift as nat);
            lemma_pow2_adds(53, shift as nat);
            lemma_rounding_shift(value, shift as nat);
            let half = pow2((shift - 1) as nat);
            lemma_pow2_unfold(shift as nat);
            lemma_pow2_pos((shift - 1) as nat);
            lemma_fundamental_div_mod(value as int, half as int);
            let doubled = value / half;
            assert(doubled < 0x40_0000_0000_0000) by (nonlinear_arith)
                requires
                    half * doubled <= value,
                    value < 0x20_0000_0000_0000 * (2 * half),
                    half > 0,
            ;
            // Dropping `shift` bits is dropping one bit after `shift - 1`.
            let sticky = value % half;
            assert(value == (doubled / 2) * unit + ((doubled % 2) * half + sticky))
                by (nonlinear_arith)
                requires
                    value == half * doubled + sticky,
                    doubled == 2 * (doubled / 2) + doubled % 2,
                    unit == 2 * half,
            ;
            assert(0 <= (doubled % 2) * half + sticky < unit) by (nonlinear_arith)
                requires
                    0 <= doubled % 2 <= 1,
                    0 <= sticky < half,
                    unit == 2 * half,
            ;
            lemma_fundamental_div_mod_converse(
                value as int,
                unit as int,
                (doubled / 2) as int,
                ((doubled % 2) * half + sticky) as int,
            );
            if doubled % 2 == 0 {
                assert((doubled % 2) * half == 0) by (nonlinear_arith)
                    requires
                        doubled % 2 == 0,
                ;
            } else {
                assert((doubled % 2) * half == half) by (nonlinear_arith)
                    requires
                        doubled % 2 == 1,
                ;
            }
        }
        let doubled: u64 = self.shifted_low_word(shift - 1);
        let sticky: bool = self.any_bit_below(shift - 1);
        let significand: u64 = doubled / 2;
        let up: u64 = if doubled % 2 == 1 && (sticky || significand % 2 == 1) {
            1
        } else {
            0
        };
        let pattern: u64 = shift as u64 * F64_EXPONENT_STEP + significand + up;
        if pattern < F64_INFINITY {
            Some(pattern)
        } else {
            None
        }
    }
}

proof fn lemma_nonzero_limb(limbs: Seq<u64>, index: int)
    requires
        0 <= index < limbs.len(),
        limbs[index] != 0,
    ensures
        limbs_value(limbs) > 0,
    decreases limbs.len(),
{
    let place = pow2((64 * (limbs.len() - 1)) as nat);
    lemma_pow2_pos((64 * (limbs.len() - 1)) as nat);
    if index == limbs.len() - 1 {
        assert(limbs.last() as nat * place > 0) by (nonlinear_arith)
            requires
                limbs.last() > 0,
                place > 0,
        ;
    } else {
        lemma_nonzero_limb(limbs.drop_last(), index);
    }
}

/// `2^exponent` for an exponent below 64.
fn power_of_two(exponent: usize) -> (power: u64)
    requires
        exponent < 64,
    ensures
        power == pow2(exponent as nat),
        power > 0,
{
    let mut power: u64 = 1;
    let mut done: usize = 0;
    proof {
        lemma2_to64();
    }
    while done < exponent
        invariant
            done <= exponent < 64,
            power == pow2(done as nat),
        decreases exponent - done,
    {
        proof {
            lemma_pow2_unfold((done + 1) as nat);
            lemma_word();
            if done + 1 < 64 {
                lemma_pow2_strictly_increases((done + 1) as nat, 64);
            }
        }
        power = power * 2;
        done = done + 1;
    }
    proof {
        lemma_pow2_pos(exponent as nat);
    }
    power
}

/// Exact difference of two finite nonnegative binary64 values, kept as the two
/// patterns.
#[derive(Clone, Copy, Debug, PartialEq, Eq)]
pub struct ExactReduction {
    from_bits: u64,
    to_bits: u64,
}

impl ExactReduction {
    /// Both patterns are canonical and the difference is not negative.
    pub closed spec fn wf(self) -> bool {
        &&& self.from_bits < F64_INFINITY
        &&& self.to_bits <= self.from_bits
    }

    /// The difference as a multiple of `2^-1074`.
    pub closed spec fn value(self) -> int {
        f64_units(self.from_bits) - f64_units(self.to_bits)
    }

    /// A well-formed difference is not negative.
    pub proof fn value_is_nonnegative(self)
        requires
            self.wf(),
        ensures
            self.value() >= 0,
    {
        f64_units_order(self.from_bits, self.to_bits);
    }

    /// A well-formed difference is at most one binary64 value.
    pub proof fn value_is_bounded(self)
        requires
            self.wf(),
        ensures
            self.value() <= pow2(2098),
    {
        f64_units_bound(self.from_bits);
    }

    /// `from - to`; `None` unless both are finite and `from >= to >= 0`.
    pub fn new(from_bits: u64, to_bits: u64) -> (reduction: Option<Self>)
        ensures
            reduction is Some <==> f64_finite_nonnegative(from_bits) && f64_finite_nonnegative(
                to_bits,
            ) && f64_units(to_bits) <= f64_units(from_bits),
            reduction matches Some(r) ==> r.wf() && r.value() == f64_units(from_bits) - f64_units(
                to_bits,
            ),
    {
        if !f64_is_finite_nonnegative(from_bits) || !f64_is_finite_nonnegative(to_bits) {
            return None;
        }
        let from: u64 = canonical_nonnegative_bits(from_bits);
        let to: u64 = canonical_nonnegative_bits(to_bits);
        proof {
            f64_units_order(from_bits, to_bits);
        }
        if from < to {
            return None;
        }
        Some(ExactReduction { from_bits: from, to_bits: to })
    }

    /// Whether the two values are equal.
    pub fn is_zero(self) -> (zero: bool)
        requires
            self.wf(),
        ensures
            zero == (self.value() == 0),
    {
        proof {
            f64_units_order(self.from_bits, self.to_bits);
        }
        self.from_bits == self.to_bits
    }

    /// Expand the difference.
    pub fn exact(self) -> (sum: ExactDistortion)
        requires
            self.wf(),
        ensures
            sum.value() == self.value(),
    {
        proof {
            f64_units_order(self.from_bits, self.to_bits);
        }
        let from = ExactDistortion::from_f64_bits(self.from_bits).unwrap();
        let to = ExactDistortion::from_f64_bits(self.to_bits).unwrap();
        from.checked_sub(to).unwrap()
    }

    /// Whether this difference is strictly smaller.
    pub fn less_than(self, other: Self) -> (less: bool)
        requires
            self.wf(),
            other.wf(),
        ensures
            less == (self.value() < other.value()),
    {
        self.exact().less_than(&other.exact())
    }
}

} // verus!
