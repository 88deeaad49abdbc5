//! Binary64 floating-point numbers as bit patterns, with the three
//! operations that converting amounts needs: the quotient of an integer and
//! a factor, the product of a number and a factor, and the integer that is
//! left of a number without its fraction.
//!
//! Each operation is exact integer arithmetic on the fields of the bit
//! pattern, and is stated over `Number`, the value that a bit pattern stands
//! for.

use crate::arith::{lemma_at_most, lemma_floor_between, lemma_pow2_grows, lemma_shift_below};
use vstd::arithmetic::div_mod::{
    lemma_basic_div, lemma_div_denominator, lemma_fundamental_div_mod, lemma_mod_bound,
};
use vstd::arithmetic::power2::{
    lemma2_to64, lemma2_to64_rest, lemma_pow2_pos, lemma_pow2_unfold, pow2,
};
use vstd::prelude::*;
use vstd::std_specs::cmp::PartialEqSpecImpl;

verus! {

/// 2^63: the sign bit of a binary64 bit pattern.
pub const SIGN_BIT: u64 = 0x8000_0000_0000_0000;

/// 2^52: the implicit leading bit of a normal significand, and one more than
/// the largest fraction field.
pub const HIDDEN_BIT: u64 = 0x10_0000_0000_0000;

/// 2^53: one more than the largest significand.
pub const SIGNIFICAND_LIMIT: u64 = 0x20_0000_0000_0000;

/// The exponent of the last place of subnormal numbers and of the smallest
/// normal ones.
pub const MIN_EXPONENT: i64 = -1074;

/// The largest exponent that the last place of a finite number can have.
pub const MAX_EXPONENT: i64 = 971;

/// What a binary64 bit pattern stands for.
///
/// A finite number is `significand * 2^exponent`, negated where `negative`
/// holds. Zero keeps its sign.
pub enum Number {
    Nan,
    Infinite { negative: bool },
    Finite { negative: bool, significand: nat, exponent: int },
}

/// Reads a bit pattern as IEEE 754 binary64: one sign bit, eleven bits of
/// biased exponent, fifty-two bits of fraction.
///
/// The finite numbers come out in one form only: the significand is below
/// 2^53, the exponent lies between -1074 and 971, and a significand below
/// 2^52 goes with the exponent -1074.
pub open spec fn decode(bits: u64) -> Number {
    let negative = bits >= SIGN_BIT;
    let biased = (bits / HIDDEN_BIT) % 2048;
    let fraction = bits % HIDDEN_BIT;
    if biased == 2047 {
        if fraction == 0 {
            Number::Infinite { negative }
        } else {
            Number::Nan
        }
    } else if biased == 0 {
        Number::Finite { negative, significand: fraction as nat, exponent: MIN_EXPONENT as int }
    } else {
        Number::Finite {
            negative,
            significand: (HIDDEN_BIT + fraction) as nat,
            exponent: biased - 1075,
        }
    }
}

/// Whether a number is in the form in which `decode` gives it.
pub open spec fn canonical(number: Number) -> bool {
    match number {
        Number::Finite { negative, significand, exponent } => {
            &&& significand < SIGNIFICAND_LIMIT
            &&& MIN_EXPONENT <= exponent <= MAX_EXPONENT
            &&& significand < HIDDEN_BIT ==> exponent == MIN_EXPONENT
        },
        _ => true,
    }
}

/// The bit pattern of a number in the form that `decode` gives; for
/// not-a-number, of which there are many, the quiet one with no payload.
pub open spec fn encode(number: Number) -> u64 {
    match number {
        Number::Nan => 0x7ff8_0000_0000_0000,
        Number::Infinite { negative } => if negative {
            0xfff0_0000_0000_0000
        } else {
            0x7ff0_0000_0000_0000
        },
        Number::Finite { negative, significand, exponent } => {
            let sign = if negative {
                SIGN_BIT as int
            } else {
                0
            };
            if significand < HIDDEN_BIT {
                (sign + significand) as u64
            } else {
                (sign + (exponent + 1075) * HIDDEN_BIT + (significand - HIDDEN_BIT)) as u64
            }
        },
    }
}

/// A bit pattern that stands for a number is the only one that does, and the
/// number is in the form that `decode` gives.
pub proof fn lemma_encode_decode(bits: u64)
    requires
        !(decode(bits) is Nan),
    ensures
        encode(decode(bits)) == bits,
        canonical(decode(bits)),
{
}

/// A number in the form that `decode` gives is what its bit pattern stands
/// for.
pub proof fn lemma_decode_encode(number: Number)
    requires
        canonical(number),
    ensures
        decode(encode(number)) == number,
{
}

/// The integer nearest to `numerator / denominator`; of two that are equally
/// near, the even one.
pub open spec fn round_half_even(numerator: nat, denominator: nat) -> nat
    recommends
        denominator > 0,
{
    let quotient = numerator / denominator;
    let twice_rest = 2 * (numerator % denominator);
    if twice_rest < denominator || (twice_rest == denominator && quotient % 2 == 0) {
        quotient
    } else {
        quotient + 1
    }
}

/// A rounded quotient is at most half a unit away from the exact one.
pub proof fn lemma_round_half_even(numerator: nat, denominator: nat)
    requires
        denominator > 0,
    ensures
        -denominator <= 2 * (round_half_even(numerator, denominator) * denominator - numerator)
            <= denominator,
{
    lemma_fundamental_div_mod(numerator as int, denominator as int);
    lemma_mod_bound(numerator as int, denominator as int);
    let whole = numerator / denominator;
    assert((whole + 1) * denominator == whole * denominator + denominator) by (nonlinear_arith);
    assert(whole * denominator == denominator * whole) by (nonlinear_arith);
}

/// The number `significand * 2^exponent` with the given sign, as binary64
/// holds it, for a significand of 53 bits that rounding may have carried up
/// to 2^53. Past the largest exponent the number is infinite.
pub open spec fn rounded(negative: bool, significand: nat, exponent: int) -> Number {
    let (significand, exponent) = if significand == SIGNIFICAND_LIMIT {
        (HIDDEN_BIT as nat, exponent + 1)
    } else {
        (significand, exponent)
    };
    if exponent > MAX_EXPONENT {
        Number::Infinite { negative }
    } else {
        Number::Finite { negative, significand, exponent }
    }
}

/// How often `start` must be doubled to reach `bound`.
pub open spec fn doublings(start: nat, bound: nat) -> nat
    decreases
        (if start < bound {
            bound - start
        } else {
            0
        }),
{
    if 0 < start < bound {
        1 + doublings(2 * start, bound)
    } else {
        0
    }
}

/// Doubling a positive number until it reaches a bound brings it to the
/// bound or above, and not to twice the bound.
pub proof fn lemma_doublings(start: nat, bound: nat)
    requires
        0 < start < 2 * bound,
    ensures
        bound <= start * pow2(doublings(start, bound)) < 2 * bound,
    decreases
        (if start < bound {
            bound - start
        } else {
            0
        }),
{
    if start < bound {
        lemma_doublings(2 * start, bound);
        let rest = doublings(2 * start, bound);
        lemma_pow2_unfold(rest + 1);
        assert(start * (2 * pow2(rest)) == (2 * start) * pow2(rest)) by (nonlinear_arith);
    } else {
        lemma2_to64();
    }
}

/// The binary64 number nearest to `numerator / denominator`, ties going to
/// the even significand: what dividing the two, each held exactly as
/// binary64, gives.
///
/// The quotient is scaled by the power of two that brings it between 2^52
/// and 2^53, and rounded there to an integer, the significand.
pub open spec fn quotient(numerator: int, denominator: nat) -> Number
    recommends
        denominator > 0,
        -HIDDEN_BIT < numerator < HIDDEN_BIT,
{
    if numerator == 0 {
        Number::Finite { negative: false, significand: 0, exponent: MIN_EXPONENT as int }
    } else {
        let magnitude = vstd::math::abs(numerator);
        let shift = doublings(magnitude, (HIDDEN_BIT * denominator) as nat);
        rounded(
            numerator < 0,
            round_half_even(magnitude * pow2(shift), denominator),
            -(shift as int),
        )
    }
}

/// The quotient of an integer of 32 bits and a factor up to a thousand is a
/// normal number. Its significand has 53 bits and is, at the scale of the
/// last of them, the integer nearest to the exact quotient.
pub proof fn lemma_quotient_nearest(numerator: int, denominator: nat)
    requires
        numerator != 0,
        -0x8000_0000 <= numerator <= 0x8000_0000,
        1 <= denominator <= 1000,
    ensures
        ({
            let magnitude = vstd::math::abs(numerator);
            let shift = doublings(magnitude, (HIDDEN_BIT * denominator) as nat);
            let significand = round_half_even(magnitude * pow2(shift), denominator);
            &&& 21 <= shift <= 62
            &&& HIDDEN_BIT * denominator <= magnitude * pow2(shift) < SIGNIFICAND_LIMIT
                * denominator
            &&& HIDDEN_BIT <= significand < SIGNIFICAND_LIMIT
            &&& -denominator <= 2 * (significand * denominator - magnitude * pow2(shift))
                <= denominator
            &&& quotient(numerator, denominator) == Number::Finite {
                negative: numerator < 0,
                significand,
                exponent: -(shift as int),
            }
        }),
{
    let magnitude = vstd::math::abs(numerator);
    let bound = (HIDDEN_BIT * denominator) as nat;
    let shift = doublings(magnitude, bound);
    let scaled = magnitude * pow2(shift);
    let significand = round_half_even(scaled, denominator);
    lemma2_to64();
    lemma2_to64_rest();
    lemma_doublings(magnitude, bound);
    assert(21 <= shift <= 62) by {
        if shift <= 20 {
            lemma_pow2_grows(shift, 20);
            assert(magnitude * pow2(shift) <= 0x8000_0000 * 0x10_0000) by (nonlinear_arith)
                requires
                    magnitude <= 0x8000_0000,
                    pow2(shift) <= 0x10_0000,
            ;
        }
        if shift >= 63 {
            lemma_pow2_grows(63, shift);
            assert(magnitude * pow2(shift) >= pow2(63)) by (nonlinear_arith)
                requires
                    magnitude >= 1,
                    pow2(shift) >= pow2(63),
            ;
        }
    }
    lemma_round_half_even(scaled, denominator);
    assert(SIGNIFICAND_LIMIT as nat * denominator == 2 * bound) by (nonlinear_arith)
        requires
            bound == HIDDEN_BIT * denominator,
    ;
    lemma_floor_between(scaled, denominator, HIDDEN_BIT as nat, SIGNIFICAND_LIMIT as nat);
    // Rounding cannot carry the significand up to 2^53: the scaled integer
    // and 2^53 times the factor are multiples of 2^21, too far apart.
    assert(significand < SIGNIFICAND_LIMIT) by {
        if significand == SIGNIFICAND_LIMIT {
            lemma_pow2_grows(21, shift);
            let coarse = magnitude * pow2((shift - 21) as nat);
            assert(scaled == 0x20_0000 * coarse) by (nonlinear_arith)
                requires
                    scaled == magnitude * pow2(shift),
                    pow2(shift) == 0x20_0000 * pow2((shift - 21) as nat),
                    coarse == magnitude * pow2((shift - 21) as nat),
            ;
            assert(SIGNIFICAND_LIMIT as nat * denominator == 0x20_0000 * (0x1_0000_0000
                * denominator)) by (nonlinear_arith);
        }
    }
}

/// By how many bits a significand is longer than the 53 that binary64 holds.
pub open spec fn excess_bits(significand: nat) -> nat
    decreases significand,
{
    if significand < SIGNIFICAND_LIMIT {
        0
    } else {
        1 + excess_bits(significand / 2)
    }
}

/// A significand without its excess bits has 53 bits; one of 53 bits or
/// fewer has no excess bits.
pub proof fn lemma_excess_bits(significand: nat)
    ensures
        significand < SIGNIFICAND_LIMIT * pow2(excess_bits(significand)),
        excess_bits(significand) > 0 ==> significand >= HIDDEN_BIT * pow2(
            excess_bits(significand),
        ),
        excess_bits(significand) == 0 <==> significand < SIGNIFICAND_LIMIT,
    decreases significand,
{
    lemma2_to64();
    if significand >= SIGNIFICAND_LIMIT {
        let half = significand / 2;
        lemma_excess_bits(half);
        let rest = excess_bits(half);
        lemma_pow2_unfold(rest + 1);
        let unit = pow2(rest);
        assert(SIGNIFICAND_LIMIT * (2 * unit) == 2 * (SIGNIFICAND_LIMIT * unit))
            by (nonlinear_arith);
        assert(HIDDEN_BIT * (2 * unit) == 2 * (HIDDEN_BIT * unit)) by (nonlinear_arith);
    }
}

/// The binary64 product of a number and a positive integer factor: the exact
/// product, rounded to 53 bits where it is longer, ties going to the even
/// significand. Not-a-number and the infinities stay what they are.
pub open spec fn product(number: Number, factor: nat) -> Number
    recommends
        factor > 0,
{
    match number {
        Number::Finite { negative, significand, exponent } => {
            let exact = significand * factor;
            let dropped = excess_bits(exact);
            rounded(negative, round_half_even(exact, pow2(dropped)), exponent + dropped)
        },
        _ => number,
    }
}

/// The product of a normal significand and a factor up to a thousand has at
/// most ten bits too many. The significand of the product has 53 bits, or
/// 2^53 where rounding carried it up, and is, at the scale of its last bit,
/// the integer nearest to the exact product.
pub proof fn lemma_product_nearest(significand: nat, factor: nat)
    requires
        HIDDEN_BIT <= significand < SIGNIFICAND_LIMIT,
        1 <= factor <= 1000,
    ensures
        ({
            let exact = significand * factor;
            let dropped = excess_bits(exact);
            let kept = round_half_even(exact, pow2(dropped));
            &&& dropped <= 10
            &&& factor < 2 * pow2(dropped)
            &&& HIDDEN_BIT <= kept <= SIGNIFICAND_LIMIT
            &&& -pow2(dropped) <= 2 * (kept * pow2(dropped) - exact) <= pow2(dropped)
        }),
{
    let exact = significand * factor;
    let dropped = excess_bits(exact);
    let unit = pow2(dropped);
    lemma2_to64();
    assert(HIDDEN_BIT * factor <= exact < SIGNIFICAND_LIMIT * factor) by (nonlinear_arith)
        requires
            exact == significand * factor,
            HIDDEN_BIT <= significand < SIGNIFICAND_LIMIT,
            factor >= 1,
    ;
    lemma_excess_bits(exact);
    lemma_pow2_pos(dropped);
    assert(dropped <= 10) by {
        if dropped >= 11 {
            lemma_pow2_grows(11, dropped);
            assert(HIDDEN_BIT * pow2(dropped) >= HIDDEN_BIT * 0x800) by (nonlinear_arith)
                requires
                    pow2(dropped) >= 0x800,
            ;
            assert(SIGNIFICAND_LIMIT * factor <= SIGNIFICAND_LIMIT * 1000) by (nonlinear_arith)
                requires
                    factor <= 1000,
            ;
        }
    }
    assert(factor < 2 * unit) by (nonlinear_arith)
        requires
            HIDDEN_BIT * factor <= exact < SIGNIFICAND_LIMIT * unit,
    ;
    assert(HIDDEN_BIT * unit <= exact) by {
        if dropped == 0 {
            assert(HIDDEN_BIT * factor >= HIDDEN_BIT * 1) by (nonlinear_arith)
                requires
                    factor >= 1,
            ;
        }
    }
    lemma_round_half_even(exact, unit);
    lemma_floor_between(exact, unit, HIDDEN_BIT as nat, SIGNIFICAND_LIMIT as nat);
}

/// Whether `significand * 2^exponent` is at most `bound`.
pub open spec fn at_most(significand: nat, exponent: int, bound: nat) -> bool {
    if exponent >= 0 {
        significand * pow2(exponent as nat) <= bound
    } else {
        significand <= bound * pow2((-exponent) as nat)
    }
}

/// Whether `significand * 2^exponent` is less than `bound`.
pub open spec fn below(significand: nat, exponent: int, bound: nat) -> bool {
    if exponent >= 0 {
        significand * pow2(exponent as nat) < bound
    } else {
        significand < bound * pow2((-exponent) as nat)
    }
}

/// The whole part of `significand * 2^exponent`.
pub open spec fn whole_part(significand: nat, exponent: int) -> nat {
    if exponent >= 0 {
        significand * pow2(exponent as nat)
    } else {
        significand / pow2((-exponent) as nat)
    }
}

/// The integer that is left of a number when its fraction is cut off,
/// where the number lies between `i32::MIN` and `i32::MAX`, both included.
/// Not-a-number, the infinities and every number outside these bounds have
/// none.
pub open spec fn truncated(number: Number) -> Option<int> {
    match number {
        Number::Finite { negative, significand, exponent } => {
            if negative {
                if at_most(significand, exponent, 0x8000_0000) {
                    Some(-(whole_part(significand, exponent) as int))
                } else {
                    None
                }
            } else {
                if at_most(significand, exponent, 0x7fff_ffff) {
                    Some(whole_part(significand, exponent) as int)
                } else {
                    None
                }
            }
        },
        _ => None,
    }
}

/// A binary64 floating-point number, held as its bit pattern.
#[derive(Copy, Clone, Debug)]
pub struct Binary64 {
    pub bits: u64,
}

impl View for Binary64 {
    type V = Number;

    open spec fn view(&self) -> Number {
        decode(self.bits)
    }
}

/// Whether two numbers are equal as binary64 compares them: not-a-number
/// equals nothing, itself included, and the two zeros are equal.
pub open spec fn equal(left: Number, right: Number) -> bool {
    match (left, right) {
        (Number::Nan, _) => false,
        (_, Number::Nan) => false,
        (
            Number::Finite { significand: left_significand, .. },
            Number::Finite { significand: right_significand, .. },
        ) => left == right || (left_significand == 0 && right_significand == 0),
        _ => left == right,
    }
}

impl PartialEq for Binary64 {
    fn eq(&self, other: &Self) -> (r: bool) {
        let left: u64 = self.bits % SIGN_BIT;
        let right: u64 = other.bits % SIGN_BIT;
        proof {
            if !(self@ is Nan) && !(other@ is Nan) {
                lemma_encode_decode(self.bits);
                lemma_encode_decode(other.bits);
            }
        }
        if left > 2047 * HIDDEN_BIT || right > 2047 * HIDDEN_BIT {
            false
        } else {
            self.bits == other.bits || (left == 0 && right == 0)
        }
    }
}

impl PartialEqSpecImpl for Binary64 {
    open spec fn obeys_eq_spec() -> bool {
        true
    }

    open spec fn eq_spec(&self, other: &Self) -> bool {
        equal(self@, other@)
    }
}

impl Binary64 {
    /// The number that a bit pattern stands for.
    pub fn from_bits(bits: u64) -> (x: Self)
        ensures
            x.bits == bits,
    {
        Binary64 { bits }
    }

    /// Packs a finite number that is in the form that `decode` gives.
    fn pack(negative: bool, significand: u64, exponent: i64) -> (x: Self)
        requires
            significand < SIGNIFICAND_LIMIT,
            MIN_EXPONENT <= exponent <= MAX_EXPONENT,
            significand < HIDDEN_BIT ==> exponent == MIN_EXPONENT,
        ensures
            x@ == (Number::Finite {
                negative,
                significand: significand as nat,
                exponent: exponent as int,
            }),
            x.bits == encode(x@),
    {
        let sign: u64 = if negative { SIGN_BIT } else { 0 };
        if significand < HIDDEN_BIT {
            Binary64 { bits: sign + significand }
        } else {
            let biased: u64 = (exponent + 1075) as u64;
            Binary64 { bits: sign + biased * HIDDEN_BIT + (significand - HIDDEN_BIT) }
        }
    }

    /// The infinity of the given sign.
    fn infinity(negative: bool) -> (x: Self)
        ensures
            x@ == (Number::Infinite { negative }),
            x.bits == encode(x@),
    {
        let sign: u64 = if negative { SIGN_BIT } else { 0 };
        Binary64 { bits: sign + 2047 * HIDDEN_BIT }
    }

    /// Packs a significand of 53 bits that rounding may have carried up to
    /// 2^53.
    fn pack_rounded(negative: bool, significand: u64, exponent: i64) -> (x: Self)
        requires
            HIDDEN_BIT <= significand <= SIGNIFICAND_LIMIT,
            MIN_EXPONENT <= exponent < i64::MAX,
        ensures
            x@ == rounded(negative, significand as nat, exponent as int),
            x.bits == encode(x@),
    {
        let (significand, exponent) = if significand == SIGNIFICAND_LIMIT {
            (HIDDEN_BIT, exponent + 1)
        } else {
            (significand, exponent)
        };
        if exponent > MAX_EXPONENT {
            Self::infinity(negative)
        } else {
            Self::pack(negative, significand, exponent)
        }
    }

    /// The binary64 number nearest to `numerator / denominator`, for a
    /// denominator that a subunit factor can be: from 1 to 1000.
    pub fn ratio(numerator: i32, denominator: i16) -> (x: Self)
        requires
            1 <= denominator <= 1000,
        ensures
            x@ == quotient(numerator as int, denominator as nat),
            x.bits == encode(x@),
    {
        if numerator == 0 {
            return Self::pack(false, 0, MIN_EXPONENT);
        }
        let magnitude: u64 = if numerator < 0 {
            (0 - (numerator as i64)) as u64
        } else {
            numerator as u64
        };
        let divisor: u64 = denominator as u64;
        let bound: u64 = HIDDEN_BIT * divisor;
        let mut scaled: u64 = magnitude;
        let mut shift: u64 = 0;
        proof {
            lemma2_to64();
        }
        while scaled < bound
            invariant
                0 < magnitude,
                bound == HIDDEN_BIT * divisor,
                1 <= divisor <= 1000,
                scaled == magnitude * pow2(shift as nat),
                scaled < 2 * bound,
                shift < scaled,
                doublings(magnitude as nat, bound as nat) == shift + doublings(
                    scaled as nat,
                    bound as nat,
                ),
            decreases
                (if scaled < bound {
                    bound - scaled
                } else {
                    0
                }),
        {
            proof {
                lemma_pow2_unfold((shift + 1) as nat);
                assert(magnitude * (2 * pow2(shift as nat)) == 2 * (magnitude * pow2(shift as nat)))
                    by (nonlinear_arith);
            }
            scaled = scaled * 2;
            shift = shift + 1;
        }
        proof {
            lemma2_to64_rest();
            lemma_shift_below(magnitude as nat, shift as nat, 63);
        }
        let floor: u64 = scaled / divisor;
        let rest: u64 = scaled % divisor;
        let significand: u64 = if 2 * rest < divisor || (2 * rest == divisor && floor % 2 == 0) {
            floor
        } else {
            floor + 1
        };
        proof {
            assert(SIGNIFICAND_LIMIT * divisor == 2 * bound) by (nonlinear_arith)
                requires
                    bound == HIDDEN_BIT * divisor,
            ;
            lemma_floor_between(
                scaled as nat,
                divisor as nat,
                HIDDEN_BIT as nat,
                SIGNIFICAND_LIMIT as nat,
            );
        }
        Self::pack_rounded(numerator < 0, significand, 0 - (shift as i64))
    }

    /// The product of the number and `factor`, as binary64 multiplication
    /// gives it, for what a subunit factor can be: from 1 to 1000. Of
    /// not-a-number only that it stays one is stated.
    pub fn times(self, factor: i16) -> (x: Self)
        requires
            1 <= factor <= 1000,
        ensures
            x@ == product(self@, factor as nat),
            !(self@ is Nan) ==> x.bits == encode(x@),
    {
        let negative = self.bits >= SIGN_BIT;
        let biased: u64 = (self.bits / HIDDEN_BIT) % 2048;
        let fraction: u64 = self.bits % HIDDEN_BIT;
        if biased == 2047 {
            proof {
                if fraction == 0 {
                    lemma_encode_decode(self.bits);
                }
            }
            return self;
        }
        let significand: u64 = if biased == 0 {
            fraction
        } else {
            HIDDEN_BIT + fraction
        };
        let exponent: i64 = if biased == 0 {
            MIN_EXPONENT
        } else {
            biased as i64 - 1075
        };
        assert(significand * factor < 1024 * SIGNIFICAND_LIMIT) by (nonlinear_arith)
            requires
                significand < SIGNIFICAND_LIMIT,
                1 <= factor <= 1000,
        ;
        assert(significand * factor >= significand) by (nonlinear_arith)
            requires
                factor >= 1,
        ;
        let exact: u64 = significand * (factor as u64);
        let mut kept: u64 = exact;
        let mut unit: u64 = 1;
        let mut dropped: i64 = 0;
        proof {
            lemma2_to64();
        }
        while kept >= SIGNIFICAND_LIMIT
            invariant
                exact < 1024 * SIGNIFICAND_LIMIT,
                1 <= unit,
                kept * unit <= exact,
                0 <= dropped <= 10,
                dropped > 0 ==> kept >= HIDDEN_BIT,
                unit == pow2(dropped as nat),
                kept == exact / unit,
                excess_bits(exact as nat) == dropped + excess_bits(kept as nat),
            decreases kept,
        {
            proof {
                lemma_pow2_unfold((dropped + 1) as nat);
                lemma_div_denominator(exact as int, unit as int, 2);
                assert((kept / 2) * (unit * 2) <= kept * unit) by (nonlinear_arith)
                    requires
                        unit >= 1,
                        (kept / 2) * 2 <= kept,
                ;
                assert(unit < 1024) by (nonlinear_arith)
                    requires
                        kept >= SIGNIFICAND_LIMIT,
                        kept * unit < 1024 * SIGNIFICAND_LIMIT,
                ;
                lemma2_to64();
                lemma_shift_below(1, dropped as nat, 10);
            }
            kept = kept / 2;
            unit = unit * 2;
            dropped = dropped + 1;
        }
        if dropped == 0 {
            return Self::pack(negative, exact, exponent);
        }
        let rest: u64 = exact % unit;
        let significand: u64 = if 2 * rest < unit || (2 * rest == unit && kept % 2 == 0) {
            kept
        } else {
            kept + 1
        };
        Self::pack_rounded(negative, significand, exponent + dropped)
    }

    /// The number without its fraction, where that is an `i32`.
    pub fn to_i32(self) -> (r: Option<i32>)
        ensures
            match r {
                Some(n) => truncated(self@) == Some(n as int),
                None => truncated(self@) is None,
            },
    {
        let negative = self.bits >= SIGN_BIT;
        let biased: u64 = (self.bits / HIDDEN_BIT) % 2048;
        let fraction: u64 = self.bits % HIDDEN_BIT;
        if biased == 2047 {
            return None;
        }
        if biased < 1075 - 63 {
            proof {
                let shift = if biased == 0 {
                    1074nat
                } else {
                    (1075 - biased) as nat
                };
                lemma2_to64_rest();
                lemma_pow2_grows(64, shift);
                let significand = if biased == 0 {
                    fraction as int
                } else {
                    HIDDEN_BIT + fraction
                };
                let unit = pow2(shift) as int;
                lemma_basic_div(significand, unit);
                assert(0x7fff_ffff * unit >= unit && 0x8000_0000 * unit >= unit)
                    by (nonlinear_arith)
                    requires
                        unit > 0,
                ;
            }
            return Some(0);
        }
        if biased >= 1075 {
            proof {
                lemma_pow2_pos((biased - 1075) as nat);
                assert((HIDDEN_BIT + fraction) * pow2((biased - 1075) as nat) >= HIDDEN_BIT)
                    by (nonlinear_arith)
                    requires
                        pow2((biased - 1075) as nat) >= 1,
                ;
            }
            return None;
        }
        let significand: u64 = HIDDEN_BIT + fraction;
        let shift: u64 = 1075 - biased;
        let unit: u64 = power_of_two(shift);
        let whole: u64 = significand / unit;
        let rest: u64 = significand % unit;
        let bound: u64 = if negative {
            0x8000_0000
        } else {
            0x7fff_ffff
        };
        proof {
            lemma_at_most(significand as nat, unit as nat, bound as nat);
        }
        if whole < bound || (whole == bound && rest == 0) {
            if negative {
                Some((0 - (whole as i64)) as i32)
            } else {
                Some(whole as i32)
            }
        } else {
            None
        }
    }

    /// The bit pattern of the number.
    pub fn to_bits(self) -> (bits: u64)
        ensures
            bits == self.bits,
    {
        self.bits
    }
}

/// 2^exponent, for an exponent that a `u64` can hold.
fn power_of_two(exponent: u64) -> (r: u64)
    requires
        exponent < 64,
    ensures
        r == pow2(exponent as nat),
        r > 0,
{
    proof {
        lemma_pow2_grows(exponent as nat, 63);
        lemma2_to64_rest();
        vstd::bits::lemma_u64_shl_is_mul(1, exponent);
    }
    1u64 << exponent
}

} // verus!
