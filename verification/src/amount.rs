//! Amounts of money in one of two forms, and the conversion of each form to
//! the other.

use crate::binary64::{encode, product, quotient, truncated, Binary64};
use crate::factor::{get_factor, subunit_factor, FromCurrency};
use crate::round_trip::{
    lemma_round_trip, lemma_round_trip_rounded_below, rounded_below, toward_zero,
};
use vstd::prelude::*;
use vstd::std_specs::convert::TryFromSpecImpl;

verus! {

/// An amount counted in the smallest unit of its currency.
pub type LowestSubunit = i32;

/// An amount in the major unit of its currency, as a binary64 number.
pub type HighestUnit = Binary64;

/// An amount together with its currency.
///
/// The amount is either a count of subunits or a binary64 number of major
/// units; the currency is a value of the caller's own currency type.
#[derive(Copy, Clone, Debug, Eq, PartialEq)]
pub struct MoneyInner<Amt, Cur: FromCurrency> {
    pub amount: Amt,
    pub currency: Cur,
}

/// Why an amount could not be converted.
#[derive(Debug, PartialEq)]
pub enum MoneyConversionError<T> {
    /// The currency is in none of the three classes of subunit factors.
    CurrencyNotFoundInSubunitMap(T),
    /// The amount in subunits is not a number between `i32::MIN` and
    /// `i32::MAX`.
    F64ToI32ConversionFailed,
}

/// The amount in major units of an amount in subunits: the binary64 number
/// nearest to the count divided by the factor of the currency.
pub open spec fn to_highest_unit<Cur: FromCurrency>(
    value: MoneyInner<LowestSubunit, Cur>,
) -> Result<MoneyInner<HighestUnit, Cur>, MoneyConversionError<Cur>> {
    match subunit_factor(value.currency.code()) {
        Some(factor) => Ok(
            MoneyInner {
                amount: Binary64 {
                    bits: encode(quotient(value.amount as int, factor as nat)),
                },
                currency: value.currency,
            },
        ),
        None => Err(MoneyConversionError::CurrencyNotFoundInSubunitMap(value.currency)),
    }
}

/// The amount in subunits of an amount in major units: the binary64 product
/// of the amount and the factor of the currency, without its fraction, where
/// that product lies between `i32::MIN` and `i32::MAX`.
pub open spec fn to_lowest_subunit<Cur: FromCurrency>(
    value: MoneyInner<HighestUnit, Cur>,
) -> Result<MoneyInner<LowestSubunit, Cur>, MoneyConversionError<Cur>> {
    match subunit_factor(value.currency.code()) {
        Some(factor) => match truncated(product(value.amount@, factor as nat)) {
            Some(subunits) => Ok(
                MoneyInner { amount: subunits as i32, currency: value.currency },
            ),
            None => Err(MoneyConversionError::F64ToI32ConversionFailed),
        },
        None => Err(MoneyConversionError::CurrencyNotFoundInSubunitMap(value.currency)),
    }
}

impl<Cur: FromCurrency> MoneyInner<LowestSubunit, Cur> {
    /// An amount of so many subunits of a currency.
    pub fn new(amount: i32, currency: &Cur) -> (money: Self)
        ensures
            money.amount == amount,
            money.currency == *currency,
    {
        Self { amount, currency: *currency }
    }

    /// Converts the amount to major units. It fails only for a currency
    /// that is in none of the three classes of subunit factors.
    pub fn convert(self) -> (r: Result<MoneyInner<HighestUnit, Cur>, MoneyConversionError<Cur>>)
        ensures
            r == to_highest_unit(self),
    {
        self.try_into()
    }

    /// Converts the amount to major units and back. What comes back is the
    /// amount itself, or the amount next to it toward zero where the way
    /// through binary64 rounds it below itself.
    pub fn round_trip(self) -> (r: Result<Self, MoneyConversionError<Cur>>)
        ensures
            r == Ok::<Self, MoneyConversionError<Cur>>(
                MoneyInner {
                    amount: if rounded_below(self) {
                        toward_zero(self.amount as int) as i32
                    } else {
                        self.amount
                    },
                    currency: self.currency,
                },
            ),
    {
        proof {
            if rounded_below(self) {
                lemma_round_trip_rounded_below(self);
            } else {
                lemma_round_trip(self);
            }
        }
        match self.convert() {
            Ok(major) => major.convert(),
            Err(error) => Err(error),
        }
    }
}

impl<Cur: FromCurrency> TryFromSpecImpl<MoneyInner<LowestSubunit, Cur>> for MoneyInner<HighestUnit, Cur> {
    open spec fn obeys_try_from_spec() -> bool {
        true
    }

    open spec fn try_from_spec(value: MoneyInner<LowestSubunit, Cur>) -> Result<
        Self,
        MoneyConversionError<Cur>,
    > {
        to_highest_unit(value)
    }
}

impl<Cur: FromCurrency> TryFrom<MoneyInner<LowestSubunit, Cur>> for MoneyInner<HighestUnit, Cur> {
    type Error = MoneyConversionError<Cur>;

    fn try_from(value: MoneyInner<LowestSubunit, Cur>) -> (r: Result<Self, Self::Error>) {
        match get_factor(&value) {
            Ok(factor) => Ok(
                MoneyInner::<HighestUnit, Cur>::new(
                    Binary64::ratio(value.amount, factor),
                    &value.currency,
                ),
            ),
            Err(error) => Err(error),
        }
    }
}

impl<Cur: FromCurrency> TryFromSpecImpl<MoneyInner<HighestUnit, Cur>> for MoneyInner<LowestSubunit, Cur> {
    open spec fn obeys_try_from_spec() -> bool {
        true
    }

    open spec fn try_from_spec(value: MoneyInner<HighestUnit, Cur>) -> Result<
        Self,
        MoneyConversionError<Cur>,
    > {
        to_lowest_subunit(value)
    }
}

impl<Cur: FromCurrency> TryFrom<MoneyInner<HighestUnit, Cur>> for MoneyInner<LowestSubunit, Cur> {
    type Error = MoneyConversionError<Cur>;

    fn try_from(value: MoneyInner<HighestUnit, Cur>) -> (r: Result<Self, Self::Error>) {
        match get_factor(&value) {
            Ok(factor) => match f64_to_i32(value.amount.times(factor)) {
                Ok(subunits) => Ok(MoneyInner::<LowestSubunit, Cur>::new(subunits, &value.currency)),
                Err(error) => Err(error),
            },
            Err(error) => Err(error),
        }
    }
}

impl<Cur: FromCurrency> MoneyInner<HighestUnit, Cur> {
    /// An amount of so many major units of a currency.
    pub fn new(amount: HighestUnit, currency: &Cur) -> (money: Self)
        ensures
            money.amount == amount,
            money.currency == *currency,
    {
        Self { amount, currency: *currency }
    }

    /// The amount in major units.
    pub fn amount(&self) -> (amount: HighestUnit)
        ensures
            amount == self.amount,
    {
        self.amount
    }

    /// Converts the amount to subunits, cutting off what is less than one
    /// subunit. It fails where the amount in subunits is not a number
    /// between `i32::MIN` and `i32::MAX`.
    pub fn convert(self) -> (r: Result<MoneyInner<LowestSubunit, Cur>, MoneyConversionError<Cur>>)
        ensures
            r == to_lowest_subunit(self),
    {
        self.try_into()
    }

    /// Converts the amount to subunits and back: the amount without what
    /// is less than one subunit, as far as binary64 can hold it.
    pub fn round_trip(self) -> (r: Result<Self, MoneyConversionError<Cur>>)
        ensures
            r == match to_lowest_subunit(self) {
                Ok(subunits) => to_highest_unit(subunits),
                Err(error) => Err(error),
            },
    {
        match self.convert() {
            Ok(subunits) => subunits.convert(),
            Err(error) => Err(error),
        }
    }
}

/// The number without its fraction, or the error where the number does not
/// lie between `i32::MIN` and `i32::MAX`.
pub fn f64_to_i32<T>(f: HighestUnit) -> (r: Result<i32, MoneyConversionError<T>>)
    ensures
        match truncated(f@) {
            Some(n) => r == Ok::<i32, MoneyConversionError<T>>(n as i32) && i32::MIN <= n
                <= i32::MAX,
            None => r == Err::<i32, MoneyConversionError<T>>(
                MoneyConversionError::F64ToI32ConversionFailed,
            ),
        },
{
    match f.to_i32() {
        Some(n) => Ok(n),
        None => Err(MoneyConversionError::F64ToI32ConversionFailed),
    }
}

} // verus!
