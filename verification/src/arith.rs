//! Facts about powers of two and about division with remainder.

use vstd::arithmetic::div_mod::{lemma_fundamental_div_mod, lemma_mod_bound};
use vstd::arithmetic::power2::{
    lemma_pow2_adds, lemma_pow2_pos, lemma_pow2_strictly_increases, pow2,
};
use vstd::prelude::*;

verus! {

/// The powers of two are positive and grow with their exponent, each being
/// the product of a lower one and the power of the difference.
pub proof fn lemma_pow2_grows(low: nat, high: nat)
    requires
        low <= high,
    ensures
        0 < pow2(low) <= pow2(high),
        pow2(high) == pow2(low) * pow2((high - low) as nat),
{
    lemma_pow2_pos(low);
    if low < high {
        lemma_pow2_strictly_increases(low, high);
    }
    lemma_pow2_adds(low, (high - low) as nat);
}

/// A positive integer times 2^shift stays below 2^limit only if `shift` is
/// below `limit`.
pub proof fn lemma_shift_below(magnitude: nat, shift: nat, limit: nat)
    requires
        magnitude > 0,
        magnitude * pow2(shift) < pow2(limit),
    ensures
        shift < limit,
{
    if shift >= limit {
        lemma_pow2_grows(limit, shift);
        assert(magnitude * pow2(shift) >= pow2(limit)) by (nonlinear_arith)
            requires
                magnitude >= 1,
                pow2(shift) >= pow2(limit),
        ;
    }
}

/// The floor of a quotient lies between two bounds when the numerator lies
/// between their multiples of the denominator.
pub proof fn lemma_floor_between(numerator: nat, denominator: nat, low: nat, high: nat)
    requires
        denominator > 0,
        low * denominator <= numerator < high * denominator,
    ensures
        low <= numerator / denominator < high,
{
    lemma_fundamental_div_mod(numerator as int, denominator as int);
    lemma_mod_bound(numerator as int, denominator as int);
    let whole = numerator / denominator;
    let rest = numerator % denominator;
    assert(low <= whole < high) by (nonlinear_arith)
        requires
            denominator > 0,
            numerator == denominator * whole + rest,
            0 <= rest < denominator,
            low * denominator <= numerator < high * denominator,
    ;
}

/// A number is at most `bound` times the unit when its quotient by the unit
/// is below `bound`, or equal to it with nothing left over.
pub proof fn lemma_at_most(number: nat, unit: nat, bound: nat)
    requires
        unit > 0,
    ensures
        number <= bound * unit <==> (number / unit < bound || (number / unit == bound && number
            % unit == 0)),
{
    lemma_fundamental_div_mod(number as int, unit as int);
    lemma_mod_bound(number as int, unit as int);
    let whole = number / unit;
    let rest = number % unit;
    assert(number <= bound * unit <==> (whole < bound || (whole == bound && rest == 0)))
        by (nonlinear_arith)
        requires
            unit > 0,
            number == unit * whole + rest,
            0 <= rest < unit,
    ;
}

} // verus!
