//! What comes back of an amount in subunits that is converted to major units
//! and converted back.
//!
//! Division by the factor and multiplication by it are each rounded to 53
//! bits, and the fraction of the product is cut off. So an amount comes back
//! as it was where the product is not below it, and as the amount next to it
//! toward zero where it is: 29 hundredths, for one, come back as 28.

use crate::amount::{
    to_highest_unit, to_lowest_subunit, LowestSubunit, MoneyConversionError, MoneyInner,
};
use crate::arith::lemma_pow2_grows;
use crate::binary64::{
    at_most, below, canonical, doublings, excess_bits, lemma_decode_encode, lemma_doublings,
    lemma_excess_bits, lemma_product_nearest, lemma_quotient_nearest, product, quotient,
    round_half_even, rounded, truncated, whole_part, Number, HIDDEN_BIT, SIGNIFICAND_LIMIT,
};
use crate::factor::{is_zero_decimal, lemma_one_class, subunit_factor, FromCurrency};
use vstd::arithmetic::div_mod::{
    lemma_fundamental_div_mod, lemma_fundamental_div_mod_converse, lemma_mod_bound,
};
use vstd::arithmetic::power2::{
    lemma2_to64, lemma2_to64_rest, lemma_pow2_pos, lemma_pow2_unfold, pow2,
};
use vstd::prelude::*;

verus! {

/// What is left of a count of subunits that was divided by the factor of its
/// currency and multiplied by it again, both as binary64 does it.
pub open spec fn scaled_back(subunits: int, factor: nat) -> Number {
    product(quotient(subunits, factor), factor)
}

/// Whether a number is finite and nearer to zero than `bound`.
pub open spec fn falls_short(number: Number, bound: nat) -> bool {
    match number {
        Number::Finite { negative, significand, exponent } => below(significand, exponent, bound),
        _ => false,
    }
}

/// The integer next to `subunits` on the side of zero.
pub open spec fn toward_zero(subunits: int) -> int {
    if subunits > 0 {
        subunits - 1
    } else if subunits < 0 {
        subunits + 1
    } else {
        0
    }
}

/// A count of subunits, divided by a factor and multiplied by it again, each
/// time rounded as binary64 rounds: the significand that comes back is the
/// count at the scale of the product, or the integer next to it.
proof fn lemma_scaled_back(magnitude: nat, factor: nat)
    requires
        0 < magnitude <= 0x8000_0000,
        1 <= factor <= 1000,
    ensures
        ({
            let shift = doublings(magnitude, (HIDDEN_BIT * factor) as nat);
            let significand = round_half_even(magnitude * pow2(shift), factor);
            let exact = significand * factor;
            let dropped = excess_bits(exact);
            let back = round_half_even(exact, pow2(dropped));
            &&& 21 <= shift <= 62
            &&& dropped <= 10
            &&& HIDDEN_BIT <= back <= SIGNIFICAND_LIMIT
            &&& -1 <= back - magnitude * pow2((shift - dropped) as nat) <= 1
        }),
{
    let shift = doublings(magnitude, (HIDDEN_BIT * factor) as nat);
    let scaled = magnitude * pow2(shift);
    let significand = round_half_even(scaled, factor);
    let exact = significand * factor;
    let dropped = excess_bits(exact);
    let unit = pow2(dropped);
    let back = round_half_even(exact, unit);
    lemma_quotient_nearest(magnitude as int, factor);
    lemma_product_nearest(significand, factor);
    // The scaled count is a multiple of the unit of the product's last
    // place, and the product is less than that unit away from it.
    let gap = (shift - dropped) as nat;
    let count = magnitude * pow2(gap);
    lemma_pow2_grows(dropped, shift);
    assert(scaled == count * unit) by (nonlinear_arith)
        requires
            scaled == magnitude * pow2(shift),
            pow2(shift) == unit * pow2(gap),
            count == magnitude * pow2(gap),
    ;
    assert(-1 <= back - count <= 1) by (nonlinear_arith)
        requires
            unit > 0,
            factor < 2 * unit,
            -unit <= 2 * (back * unit - exact) <= unit,
            -factor <= 2 * (exact - count * unit) <= factor,
    ;
}

/// Halving a significand and raising its exponent leaves the whole part
/// and the comparisons with an integer as they were.
proof fn lemma_carry(gap: nat, bound: nat)
    requires
        gap >= 2,
    ensures
        whole_part(HIDDEN_BIT as nat, 1 - gap) == whole_part(SIGNIFICAND_LIMIT as nat, -(gap as int)),
        at_most(HIDDEN_BIT as nat, 1 - gap, bound) == at_most(
            SIGNIFICAND_LIMIT as nat,
            -(gap as int),
            bound,
        ),
        below(HIDDEN_BIT as nat, 1 - gap, bound) == below(
            SIGNIFICAND_LIMIT as nat,
            -(gap as int),
            bound,
        ),
{
    let half = pow2((gap - 1) as nat);
    let unit = pow2(gap);
    lemma_pow2_unfold(gap);
    lemma_pow2_pos((gap - 1) as nat);
    assert(bound * (2 * half) == 2 * (bound * half)) by (nonlinear_arith);
    lemma_fundamental_div_mod(HIDDEN_BIT as int, half as int);
    lemma_mod_bound(HIDDEN_BIT as int, half as int);
    let whole = HIDDEN_BIT as int / half as int;
    let rest = HIDDEN_BIT as int % half as int;
    assert(SIGNIFICAND_LIMIT == whole * (2 * half) + 2 * rest) by (nonlinear_arith)
        requires
            HIDDEN_BIT == half * whole + rest,
            SIGNIFICAND_LIMIT == 2 * HIDDEN_BIT,
    ;
    lemma_fundamental_div_mod_converse(
        SIGNIFICAND_LIMIT as int,
        unit as int,
        whole,
        2 * rest,
    );
}

/// What is left, without its fraction, of a number whose significand is a
/// count at the scale 2^gap or the integer next to it.
proof fn lemma_truncated_back(negative: bool, magnitude: nat, gap: nat, back: nat)
    requires
        0 < magnitude,
        magnitude <= if negative {
            0x8000_0000int
        } else {
            0x7fff_ffffint
        },
        gap >= 2,
        HIDDEN_BIT <= back <= SIGNIFICAND_LIMIT,
        -1 <= back - magnitude * pow2(gap) <= 1,
    ensures
        ({
            let number = rounded(negative, back, -(gap as int));
            let offset = back - magnitude * pow2(gap);
            let bound = if negative {
                0x8000_0000int
            } else {
                0x7fff_ffffint
            };
            let same = if negative {
                -(magnitude as int)
            } else {
                magnitude as int
            };
            &&& falls_short(number, magnitude) <==> offset == -1
            &&& offset == -1 ==> truncated(number) == Some(toward_zero(same))
            &&& offset == 0 ==> truncated(number) == Some(same)
            &&& offset == 1 && magnitude < bound ==> truncated(number) == Some(same)
            &&& offset == 1 && magnitude == bound ==> truncated(number) is None
        }),
{
    let unit = pow2(gap);
    let offset = back - magnitude * unit;
    let bound: nat = if negative {
        0x8000_0000
    } else {
        0x7fff_ffff
    };
    lemma_pow2_grows(2, gap);
    lemma2_to64();
    lemma_carry(gap, bound);
    lemma_carry(gap, magnitude);
    // In either form the number is `back * 2^-gap`.
    let whole = back / unit;
    assert(whole == if offset == -1 {
        magnitude - 1
    } else {
        magnitude as int
    }) by {
        if offset == -1 {
            assert(back == (magnitude - 1) * unit + (unit - 1)) by (nonlinear_arith)
                requires
                    back == magnitude * unit - 1,
            ;
            lemma_fundamental_div_mod_converse(
                back as int,
                unit as int,
                magnitude - 1,
                unit - 1,
            );
        } else {
            lemma_fundamental_div_mod_converse(
                back as int,
                unit as int,
                magnitude as int,
                offset,
            );
        }
    }
    assert(back <= bound * unit <==> (offset <= 0 || magnitude < bound)) by (nonlinear_arith)
        requires
            back == magnitude * unit + offset,
            -1 <= offset <= 1,
            unit >= 4,
            magnitude <= bound,
    ;
}

/// The number of doublings is the only exponent that brings the start
/// between the bound and twice the bound.
proof fn lemma_doublings_unique(start: nat, bound: nat, shift: nat)
    requires
        0 < start,
        bound <= start * pow2(shift) < 2 * bound,
    ensures
        doublings(start, bound) == shift,
{
    let found = doublings(start, bound);
    lemma_pow2_pos(shift);
    assert(start < 2 * bound) by (nonlinear_arith)
        requires
            start * pow2(shift) < 2 * bound,
            pow2(shift) >= 1,
            start > 0,
    ;
    lemma_doublings(start, bound);
    if found < shift {
        lemma_pow2_grows(found + 1, shift);
        lemma_pow2_unfold(found + 1);
        assert(start * pow2(shift) >= 2 * (start * pow2(found))) by (nonlinear_arith)
            requires
                pow2(shift) >= 2 * pow2(found),
                start > 0,
        ;
    }
    if shift < found {
        lemma_pow2_grows(shift + 1, found);
        lemma_pow2_unfold(shift + 1);
        assert(start * pow2(found) >= 2 * (start * pow2(shift))) by (nonlinear_arith)
            requires
                pow2(found) >= 2 * pow2(shift),
                start > 0,
        ;
    }
}

/// The number of excess bits is the only exponent that brings the
/// significand to 53 bits.
proof fn lemma_excess_bits_unique(significand: nat, dropped: nat)
    requires
        HIDDEN_BIT * pow2(dropped) <= significand < SIGNIFICAND_LIMIT * pow2(dropped),
    ensures
        excess_bits(significand) == dropped,
{
    let found = excess_bits(significand);
    lemma_excess_bits(significand);
    lemma_pow2_pos(dropped);
    lemma_pow2_pos(found);
    if found < dropped {
        lemma_pow2_grows(found + 1, dropped);
        lemma_pow2_unfold(found + 1);
        assert(HIDDEN_BIT * pow2(dropped) >= SIGNIFICAND_LIMIT * pow2(found)) by (nonlinear_arith)
            requires
                pow2(dropped) >= 2 * pow2(found),
        ;
    }
    if dropped < found {
        lemma_pow2_grows(dropped + 1, found);
        lemma_pow2_unfold(dropped + 1);
        assert(HIDDEN_BIT * pow2(found) >= SIGNIFICAND_LIMIT * pow2(dropped)) by (nonlinear_arith)
            requires
                pow2(found) >= 2 * pow2(dropped),
        ;
    }
}

/// The significand that comes back of a count, given the two exponents that
/// occur on the way.
proof fn lemma_scaled_back_is(magnitude: nat, factor: nat, shift: nat, dropped: nat, scaled: nat)
    requires
        0 < magnitude,
        0 < factor,
        scaled == magnitude * pow2(shift),
        HIDDEN_BIT * factor <= scaled < SIGNIFICAND_LIMIT * factor,
        HIDDEN_BIT * pow2(dropped) <= round_half_even(scaled, factor) * factor < SIGNIFICAND_LIMIT
            * pow2(dropped),
    ensures
        doublings(magnitude, (HIDDEN_BIT * factor) as nat) == shift,
        excess_bits(round_half_even(scaled, factor) * factor) == dropped,
{
    assert(SIGNIFICAND_LIMIT * factor == 2 * (HIDDEN_BIT * factor)) by (nonlinear_arith);
    lemma_doublings_unique(magnitude, (HIDDEN_BIT * factor) as nat, shift);
    lemma_excess_bits_unique(round_half_even(scaled, factor) * factor, dropped);
}

/// The two bounds of `i32` come back as they were.
proof fn lemma_bounds_come_back(magnitude: nat, factor: nat)
    requires
        magnitude == 0x7fff_ffff || magnitude == 0x8000_0000,
        factor == 100 || factor == 1000,
    ensures
        ({
            let shift = doublings(magnitude, (HIDDEN_BIT * factor) as nat);
            let exact = round_half_even(magnitude * pow2(shift), factor) * factor;
            let dropped = excess_bits(exact);
            round_half_even(exact, pow2(dropped)) == magnitude * pow2((shift - dropped) as nat)
        }),
{
    lemma2_to64();
    lemma2_to64_rest();
    let shift: nat = if factor == 100 {
        28
    } else {
        31
    };
    let dropped: nat = if magnitude == 0x7fff_ffff {
        if factor == 100 {
            6
        } else {
            9
        }
    } else {
        if factor == 100 {
            7
        } else {
            10
        }
    };
    let scaled = magnitude * pow2(shift);
    let gap = (shift - dropped) as nat;
    assert(gap == 22 || gap == 21);
    let count = magnitude * pow2(gap);
    if magnitude == 0x7fff_ffff {
        if factor == 100 {
            assert(scaled == 576460752034988032) by (nonlinear_arith)
                requires
                    scaled == magnitude * pow2(shift),
                    magnitude == 0x7fff_ffff,
                    pow2(shift) == 0x1000_0000,
            ;
            assert(round_half_even(scaled, factor) == 5764607520349880);
            assert(5764607520349880 * factor == 576460752034988000) by (nonlinear_arith)
                requires
                    factor == 100,
            ;
        } else {
            assert(scaled == 4611686016279904256) by (nonlinear_arith)
                requires
                    scaled == magnitude * pow2(shift),
                    magnitude == 0x7fff_ffff,
                    pow2(shift) == 0x8000_0000,
            ;
            assert(round_half_even(scaled, factor) == 4611686016279904);
            assert(4611686016279904 * factor == 4611686016279904000) by (nonlinear_arith)
                requires
                    factor == 1000,
            ;
        }
        assert(count == 9007199250546688) by (nonlinear_arith)
            requires
                count == magnitude * pow2(gap),
                magnitude == 0x7fff_ffff,
                pow2(gap) == 0x40_0000,
        ;
    } else {
        if factor == 100 {
            assert(scaled == 576460752303423488) by (nonlinear_arith)
                requires
                    scaled == magnitude * pow2(shift),
                    magnitude == 0x8000_0000,
                    pow2(shift) == 0x1000_0000,
            ;
            assert(round_half_even(scaled, factor) == 5764607523034235);
            assert(5764607523034235 * factor == 576460752303423500) by (nonlinear_arith)
                requires
                    factor == 100,
            ;
        } else {
            assert(scaled == 4611686018427387904) by (nonlinear_arith)
                requires
                    scaled == magnitude * pow2(shift),
                    magnitude == 0x8000_0000,
                    pow2(shift) == 0x8000_0000,
            ;
            assert(round_half_even(scaled, factor) == 4611686018427388);
            assert(4611686018427388 * factor == 4611686018427388000) by (nonlinear_arith)
                requires
                    factor == 1000,
            ;
        }
        assert(count == 4503599627370496) by (nonlinear_arith)
            requires
                count == magnitude * pow2(gap),
                magnitude == 0x8000_0000,
                pow2(gap) == 0x20_0000,
        ;
    }
    let exact = round_half_even(scaled, factor) * factor;
    assert(HIDDEN_BIT * factor <= scaled < SIGNIFICAND_LIMIT * factor);
    assert(HIDDEN_BIT * pow2(dropped) <= exact < SIGNIFICAND_LIMIT * pow2(dropped));
    lemma_scaled_back_is(magnitude, factor, shift, dropped, scaled);
    assert(round_half_even(exact, pow2(dropped)) == count);
}

/// What comes back of a count of subunits that is divided by a factor and
/// multiplied by it again: the count itself, or the integer next to it toward
/// zero where the product was rounded below the count. A multiple of the
/// factor comes back as it was. With the factors of the three classes of
/// currencies something always comes back; with others the two bounds of
/// `i32` may be lost.
pub proof fn lemma_scaled_back_truncated(subunits: int, factor: nat)
    requires
        i32::MIN <= subunits <= i32::MAX,
        1 <= factor <= 1000,
    ensures
        ({
            let back = truncated(scaled_back(subunits, factor));
            let short = falls_short(scaled_back(subunits, factor), vstd::math::abs(subunits));
            &&& short ==> back == Some(toward_zero(subunits)) && subunits != 0
            &&& !short ==> back == Some(subunits) || back is None
            &&& back is None ==> subunits == i32::MAX || subunits == i32::MIN
            &&& subunits % (factor as int) == 0 ==> back == Some(subunits)
            &&& factor == 100 || factor == 1000 ==> back is Some
            &&& canonical(quotient(subunits, factor))
        }),
{
    lemma2_to64();
    if subunits == 0 {
        lemma_pow2_pos(1074);
        assert(0nat * factor == 0) by (nonlinear_arith);
        assert(excess_bits(0) == 0);
    } else {
        let magnitude = vstd::math::abs(subunits);
        let shift = doublings(magnitude, (HIDDEN_BIT * factor) as nat);
        let significand = round_half_even(magnitude * pow2(shift), factor);
        let exact = significand * factor;
        let dropped = excess_bits(exact);
        let back = round_half_even(exact, pow2(dropped));
        lemma_quotient_nearest(subunits, factor);
        lemma_scaled_back(magnitude, factor);
        assert(quotient(subunits, factor) == Number::Finite {
            negative: subunits < 0,
            significand,
            exponent: -(shift as int),
        });
        assert(scaled_back(subunits, factor) == rounded(
            subunits < 0,
            back,
            -((shift - dropped) as int),
        ));
        lemma_truncated_back(subunits < 0, magnitude, (shift - dropped) as nat, back);
        if subunits % (factor as int) == 0 {
            // The quotient is exact, and so is the product.
            let scaled = magnitude * pow2(shift);
            let unit = pow2(dropped);
            let gap = (shift - dropped) as nat;
            let count = magnitude * pow2(gap);
            lemma_fundamental_div_mod(subunits, factor as int);
            let units = vstd::math::abs(subunits / (factor as int));
            assert(magnitude == factor * units) by (nonlinear_arith)
                requires
                    subunits == factor * (subunits / (factor as int)),
                    magnitude == vstd::math::abs(subunits),
                    units == vstd::math::abs(subunits / (factor as int)),
                    factor > 0,
            ;
            assert(scaled == (units * pow2(shift)) * factor + 0) by (nonlinear_arith)
                requires
                    scaled == magnitude * pow2(shift),
                    magnitude == factor * units,
            ;
            lemma_fundamental_div_mod_converse(
                scaled as int,
                factor as int,
                (units * pow2(shift)) as int,
                0,
            );
            assert(exact == scaled);
            lemma_pow2_grows(dropped, shift);
            assert(exact == count * unit + 0) by (nonlinear_arith)
                requires
                    exact == magnitude * pow2(shift),
                    pow2(shift) == unit * pow2(gap),
                    count == magnitude * pow2(gap),
            ;
            lemma_fundamental_div_mod_converse(exact as int, unit as int, count as int, 0);
            assert(back == count);
        }
        if (factor == 100 || factor == 1000) && (subunits == i32::MAX || subunits == i32::MIN) {
            lemma_bounds_come_back(magnitude, factor);
        }
    }
}

/// Whether converting an amount to major units and back rounds it below what
/// it was: the product of its amount in major units and the factor of its
/// currency, as binary64 gives it, is nearer to zero than the amount.
pub open spec fn rounded_below<Cur: FromCurrency>(money: MoneyInner<LowestSubunit, Cur>) -> bool {
    match subunit_factor(money.currency.code()) {
        Some(factor) => falls_short(
            scaled_back(money.amount as int, factor as nat),
            vstd::math::abs(money.amount as int),
        ),
        None => false,
    }
}

/// An amount in subunits that is converted to major units and back is the
/// amount that it was, whatever its currency, unless it is rounded below
/// itself on the way.
pub proof fn lemma_round_trip<Cur: FromCurrency>(money: MoneyInner<LowestSubunit, Cur>)
    requires
        !rounded_below(money),
    ensures
        to_highest_unit(money) matches Ok(major) && to_lowest_subunit(major) == Ok::<
            MoneyInner<LowestSubunit, Cur>,
            MoneyConversionError<Cur>,
        >(money),
{
    lemma_there_and_back(money);
}

/// An amount in subunits that is rounded below itself on the way to major
/// units and back comes back as the amount next to it toward zero.
pub proof fn lemma_round_trip_rounded_below<Cur: FromCurrency>(
    money: MoneyInner<LowestSubunit, Cur>,
)
    requires
        rounded_below(money),
    ensures
        to_highest_unit(money) matches Ok(major) && to_lowest_subunit(major) == Ok::<
            MoneyInner<LowestSubunit, Cur>,
            MoneyConversionError<Cur>,
        >(MoneyInner { amount: toward_zero(money.amount as int) as i32, currency: money.currency }),
        toward_zero(money.amount as int) != money.amount,
{
    lemma_there_and_back(money);
}

/// An amount of whole major units comes back as it was.
pub proof fn lemma_round_trip_whole_units<Cur: FromCurrency>(
    money: MoneyInner<LowestSubunit, Cur>,
)
    requires
        subunit_factor(money.currency.code()) matches Some(factor) && money.amount as int % factor
            == 0,
    ensures
        to_highest_unit(money) matches Ok(major) && to_lowest_subunit(major) == Ok::<
            MoneyInner<LowestSubunit, Cur>,
            MoneyConversionError<Cur>,
        >(money),
{
    let factor = subunit_factor(money.currency.code()).unwrap() as nat;
    lemma_one_class(money.currency.code());
    lemma_scaled_back_truncated(money.amount as int, factor);
    lemma_there_and_back(money);
}

/// Of a currency without subunits every amount comes back as it was.
pub proof fn lemma_round_trip_zero_decimal<Cur: FromCurrency>(
    money: MoneyInner<LowestSubunit, Cur>,
)
    requires
        is_zero_decimal(money.currency.code()),
    ensures
        to_highest_unit(money) matches Ok(major) && to_lowest_subunit(major) == Ok::<
            MoneyInner<LowestSubunit, Cur>,
            MoneyConversionError<Cur>,
        >(money),
{
    lemma_one_class(money.currency.code());
    lemma_scaled_back_truncated(money.amount as int, 1);
    lemma_there_and_back(money);
}

/// Converting to major units and back, in the terms of the two conversions.
proof fn lemma_there_and_back<Cur: FromCurrency>(money: MoneyInner<LowestSubunit, Cur>)
    ensures
        to_highest_unit(money) matches Ok(major) && to_lowest_subunit(major) == Ok::<
            MoneyInner<LowestSubunit, Cur>,
            MoneyConversionError<Cur>,
        >(
            MoneyInner {
                amount: if rounded_below(money) {
                    toward_zero(money.amount as int) as i32
                } else {
                    money.amount
                },
                currency: money.currency,
            },
        ),
        rounded_below(money) ==> money.amount != 0,
{
    let code = money.currency.code();
    lemma_one_class(code);
    let factor = subunit_factor(code).unwrap() as nat;
    lemma_scaled_back_truncated(money.amount as int, factor);
    lemma_decode_encode(quotient(money.amount as int, factor));
}

} // verus!
