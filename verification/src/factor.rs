//! The currencies, in three classes by the number of subunits that make one
//! major unit: 1, 100 or 1000.

use crate::amount::{MoneyConversionError, MoneyInner};
use std::hash::Hash;
use vstd::prelude::*;

verus! {

/// The currencies whose subunit is known, by their ISO 4217 codes.
#[derive(Copy, Clone, Debug, Eq, Hash, PartialEq, Structural)]
pub enum Currency {
    AED,
    ALL,
    AMD,
    ANG,
    ARS,
    AUD,
    AWG,
    AZN,
    BBD,
    BDT,
    BHD,
    BIF,
    BMD,
    BND,
    BOB,
    BRL,
    BSD,
    BWP,
    BZD,
    CAD,
    CHF,
    CLP,
    CNY,
    COP,
    CRC,
    CUP,
    CZK,
    DKK,
    DOP,
    DJF,
    DZD,
    EGP,
    ETB,
    EUR,
    FJD,
    GBP,
    GHS,
    GIP,
    GMD,
    GNF,
    GTQ,
    GYD,
    HKD,
    HNL,
    HRK,
    HTG,
    HUF,
    IDR,
    ILS,
    INR,
    JMD,
    JOD,
    JPY,
    KES,
    KGS,
    KHR,
    KMF,
    KRW,
    KWD,
    KYD,
    KZT,
    LAK,
    LBP,
    LKR,
    LRD,
    LSL,
    MAD,
    MDL,
    MGA,
    MKD,
    MMK,
    MNT,
    MOP,
    MUR,
    MVR,
    MWK,
    MXN,
    MYR,
    NAD,
    NGN,
    NIO,
    NOK,
    NPR,
    NZD,
    OMR,
    PEN,
    PGK,
    PHP,
    PKR,
    PLN,
    PYG,
    QAR,
    RUB,
    RWF,
    SAR,
    SCR,
    SEK,
    SGD,
    SLL,
    SOS,
    SSP,
    SVC,
    SZL,
    THB,
    TND,
    TTD,
    TWD,
    TZS,
    UGX,
    USD,
    UYU,
    UZS,
    VND,
    VUV,
    XAF,
    XOF,
    XPF,
    YER,
    ZAR,
}

/// A currency type of the caller's own, which says for each of its values
/// which currency code it stands for.
pub trait FromCurrency: Eq + Hash + Copy {
    /// The code that `currency` returns for this value. An implementor states
    /// the mapping here; where none is stated it is some fixed mapping of
    /// which nothing more is known.
    open spec fn code(&self) -> Currency {
        arbitrary::<spec_fn(Self) -> Currency>()(*self)
    }

    /// The currency code of this value.
    fn currency(&self) -> (code: Currency)
        ensures
            code == self.code(),
    ;
}

impl FromCurrency for Currency {
    open spec fn code(&self) -> Currency {
        *self
    }

    fn currency(&self) -> (code: Currency) {
        *self
    }
}

/// The currencies without a subunit: one major unit is the smallest amount.
pub open spec fn is_zero_decimal(code: Currency) -> bool {
    match code {
        Currency::BIF | Currency::CLP | Currency::DJF | Currency::GNF | Currency::JPY
        | Currency::KMF | Currency::KRW | Currency::MGA | Currency::PYG | Currency::RWF
        | Currency::UGX | Currency::VND | Currency::VUV | Currency::XAF | Currency::XOF
        | Currency::XPF => true,
        _ => false,
    }
}

/// The currencies whose major unit has a hundred subunits.
pub open spec fn is_two_decimal(code: Currency) -> bool {
    match code {
        Currency::AED | Currency::ALL | Currency::AMD | Currency::ANG | Currency::ARS
        | Currency::AUD | Currency::AWG | Currency::AZN | Currency::BBD | Currency::BDT
        | Currency::BMD | Currency::BND | Currency::BOB | Currency::BRL | Currency::BSD
        | Currency::BWP | Currency::BZD | Currency::CAD | Currency::CHF | Currency::CNY
        | Currency::COP | Currency::CRC | Currency::CUP | Currency::CZK | Currency::DKK
        | Currency::DOP | Currency::DZD | Currency::EGP | Currency::ETB | Currency::EUR
        | Currency::FJD | Currency::GBP | Currency::GHS | Currency::GIP | Currency::GMD
        | Currency::GTQ | Currency::GYD | Currency::HKD | Currency::HNL | Currency::HRK
        | Currency::HTG | Currency::HUF | Currency::IDR | Currency::ILS | Currency::INR
        | Currency::JMD | Currency::KES | Currency::KGS | Currency::KHR | Currency::KYD
        | Currency::KZT | Currency::LAK | Currency::LBP | Currency::LKR | Currency::LRD
        | Currency::LSL | Currency::MAD | Currency::MDL | Currency::MKD | Currency::MMK
        | Currency::MNT | Currency::MOP | Currency::MUR | Currency::MVR | Currency::MWK
        | Currency::MXN | Currency::MYR | Currency::NAD | Currency::NGN | Currency::NIO
        | Currency::NOK | Currency::NPR | Currency::NZD | Currency::PEN | Currency::PGK
        | Currency::PHP | Currency::PKR | Currency::PLN | Currency::QAR | Currency::RUB
        | Currency::SAR | Currency::SCR | Currency::SEK | Currency::SGD | Currency::SLL
        | Currency::SOS | Currency::SSP | Currency::SVC | Currency::SZL | Currency::THB
        | Currency::TTD | Currency::TWD | Currency::TZS | Currency::USD | Currency::UYU
        | Currency::UZS | Currency::YER | Currency::ZAR => true,
        _ => false,
    }
}

/// The currencies whose major unit has a thousand subunits.
pub open spec fn is_three_decimal(code: Currency) -> bool {
    match code {
        Currency::BHD | Currency::JOD | Currency::KWD | Currency::OMR | Currency::TND => true,
        _ => false,
    }
}

/// How many subunits make one major unit of a currency, for the currencies
/// that are in one of the three classes.
pub open spec fn subunit_factor(code: Currency) -> Option<int> {
    if is_zero_decimal(code) {
        Some(1)
    } else if is_two_decimal(code) {
        Some(100)
    } else if is_three_decimal(code) {
        Some(1000)
    } else {
        None
    }
}

/// Every currency code is in exactly one of the three classes, and so has a
/// factor: 1, 100 or 1000.
pub proof fn lemma_one_class(code: Currency)
    ensures
        is_zero_decimal(code) || is_two_decimal(code) || is_three_decimal(code),
        !(is_zero_decimal(code) && is_two_decimal(code)),
        !(is_zero_decimal(code) && is_three_decimal(code)),
        !(is_two_decimal(code) && is_three_decimal(code)),
        subunit_factor(code) is Some,
        is_zero_decimal(code) <==> subunit_factor(code) == Some(1int),
        is_two_decimal(code) <==> subunit_factor(code) == Some(100int),
        is_three_decimal(code) <==> subunit_factor(code) == Some(1000int),
{
}

/// Looks a currency code up in the three classes.
pub fn subunit(code: Currency) -> (factor: Option<i16>)
    ensures
        match factor {
            Some(f) => subunit_factor(code) == Some(f as int),
            None => subunit_factor(code) is None,
        },
{
    match code {
        Currency::BIF | Currency::CLP | Currency::DJF | Currency::GNF | Currency::JPY
        | Currency::KMF | Currency::KRW | Currency::MGA | Currency::PYG | Currency::RWF
        | Currency::UGX | Currency::VND | Currency::VUV | Currency::XAF | Currency::XOF
        | Currency::XPF => Some(1),
        Currency::AED | Currency::ALL | Currency::AMD | Currency::ANG | Currency::ARS
        | Currency::AUD | Currency::AWG | Currency::AZN | Currency::BBD | Currency::BDT
        | Currency::BMD | Currency::BND | Currency::BOB | Currency::BRL | Currency::BSD
        | Currency::BWP | Currency::BZD | Currency::CAD | Currency::CHF | Currency::CNY
        | Currency::COP | Currency::CRC | Currency::CUP | Currency::CZK | Currency::DKK
        | Currency::DOP | Currency::DZD | Currency::EGP | Currency::ETB | Currency::EUR
        | Currency::FJD | Currency::GBP | Currency::GHS | Currency::GIP | Currency::GMD
        | Currency::GTQ | Currency::GYD | Currency::HKD | Currency::HNL | Currency::HRK
        | Currency::HTG | Currency::HUF | Currency::IDR | Currency::ILS | Currency::INR
        | Currency::JMD | Currency::KES | Currency::KGS | Currency::KHR | Currency::KYD
        | Currency::KZT | Currency::LAK | Currency::LBP | Currency::LKR | Currency::LRD
        | Currency::LSL | Currency::MAD | Currency::MDL | Currency::MKD | Currency::MMK
        | Currency::MNT | Currency::MOP | Currency::MUR | Currency::MVR | Currency::MWK
        | Currency::MXN | Currency::MYR | Currency::NAD | Currency::NGN | Currency::NIO
        | Currency::NOK | Currency::NPR | Currency::NZD | Currency::PEN | Currency::PGK
        | Currency::PHP | Currency::PKR | Currency::PLN | Currency::QAR | Currency::RUB
        | Currency::SAR | Currency::SCR | Currency::SEK | Currency::SGD | Currency::SLL
        | Currency::SOS | Currency::SSP | Currency::SVC | Currency::SZL | Currency::THB
        | Currency::TTD | Currency::TWD | Currency::TZS | Currency::USD | Currency::UYU
        | Currency::UZS | Currency::YER | Currency::ZAR => Some(100),
        Currency::BHD | Currency::JOD | Currency::KWD | Currency::OMR | Currency::TND => Some(1000),
    }
}

/// The factor of the currency of an amount, or the error that names the
/// currency where it is in none of the three classes.
pub fn get_factor<T, Cur: FromCurrency>(amount: &MoneyInner<T, Cur>) -> (r: Result<
    i16,
    MoneyConversionError<Cur>,
>)
    ensures
        match subunit_factor(amount.currency.code()) {
            Some(f) => r == Ok::<i16, MoneyConversionError<Cur>>(f as i16) && (f == 1 || f == 100
                || f == 1000),
            None => r == Err::<i16, MoneyConversionError<Cur>>(
                MoneyConversionError::CurrencyNotFoundInSubunitMap(amount.currency),
            ),
        },
{
    match subunit(amount.currency.currency()) {
        Some(factor) => Ok(factor),
        None => Err(MoneyConversionError::CurrencyNotFoundInSubunitMap(amount.currency)),
    }
}

} // verus!
