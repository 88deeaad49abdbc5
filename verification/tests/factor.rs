use amount_conversion::amount::{MoneyConversionError, MoneyInner};
use amount_conversion::binary64::Binary64;
use amount_conversion::factor::{get_factor, subunit, Currency, FromCurrency};

const ZERO_DECIMAL: [Currency; 16] = [
    Currency::BIF, Currency::CLP, Currency::DJF, Currency::GNF, Currency::JPY, Currency::KMF,
    Currency::KRW, Currency::MGA, Currency::PYG, Currency::RWF, Currency::UGX, Currency::VND,
    Currency::VUV, Currency::XAF, Currency::XOF, Currency::XPF,
];

const TWO_DECIMAL: [Currency; 98] = [
    Currency::AED, Currency::ALL, Currency::AMD, Currency::ANG, Currency::ARS, Currency::AUD,
    Currency::AWG, Currency::AZN, Currency::BBD, Currency::BDT, Currency::BMD, Currency::BND,
    Currency::BOB, Currency::BRL, Currency::BSD, Currency::BWP, Currency::BZD, Currency::CAD,
    Currency::CHF, Currency::CNY, Currency::COP, Currency::CRC, Currency::CUP, Currency::CZK,
    Currency::DKK, Currency::DOP, Currency::DZD, Currency::EGP, Currency::ETB, Currency::EUR,
    Currency::FJD, Currency::GBP, Currency::GHS, Currency::GIP, Currency::GMD, Currency::GTQ,
    Currency::GYD, Currency::HKD, Currency::HNL, Currency::HRK, Currency::HTG, Currency::HUF,
    Currency::IDR, Currency::ILS, Currency::INR, Currency::JMD, Currency::KES, Currency::KGS,
    Currency::KHR, Currency::KYD, Currency::KZT, Currency::LAK, Currency::LBP, Currency::LKR,
    Currency::LRD, Currency::LSL, Currency::MAD, Currency::MDL, Currency::MKD, Currency::MMK,
    Currency::MNT, Currency::MOP, Currency::MUR, Currency::MVR, Currency::MWK, Currency::MXN,
    Currency::MYR, Currency::NAD, Currency::NGN, Currency::NIO, Currency::NOK, Currency::NPR,
    Currency::NZD, Currency::PEN, Currency::PGK, Currency::PHP, Currency::PKR, Currency::PLN,
    Currency::QAR, Currency::RUB, Currency::SAR, Currency::SCR, Currency::SEK, Currency::SGD,
    Currency::SLL, Currency::SOS, Currency::SSP, Currency::SVC, Currency::SZL, Currency::THB,
    Currency::TTD, Currency::TWD, Currency::TZS, Currency::USD, Currency::UYU, Currency::UZS,
    Currency::YER, Currency::ZAR,
];

const THREE_DECIMAL: [Currency; 5] = [
    Currency::BHD, Currency::JOD, Currency::KWD, Currency::OMR, Currency::TND,
];

#[test]
fn zero_decimal_currencies_have_factor_one() {
    for currency in ZERO_DECIMAL {
        assert_eq!(subunit(currency), Some(1), "{currency:?}");
    }
    assert_eq!(subunit(Currency::JPY), Some(1));
}

#[test]
fn two_decimal_currencies_have_factor_hundred() {
    for currency in TWO_DECIMAL {
        assert_eq!(subunit(currency), Some(100), "{currency:?}");
    }
    assert_eq!(subunit(Currency::USD), Some(100));
    assert_eq!(subunit(Currency::INR), Some(100));
}

#[test]
fn three_decimal_currencies_have_factor_thousand() {
    for currency in THREE_DECIMAL {
        assert_eq!(subunit(currency), Some(1000), "{currency:?}");
    }
    assert_eq!(subunit(Currency::KWD), Some(1000));
}

#[test]
fn the_three_classes_share_no_currency() {
    let mut all: Vec<Currency> = Vec::new();
    all.extend(ZERO_DECIMAL);
    all.extend(TWO_DECIMAL);
    all.extend(THREE_DECIMAL);
    assert_eq!(all.len(), 119);
    for (index, currency) in all.iter().enumerate() {
        assert!(!all[index + 1..].contains(currency), "{currency:?}");
    }
}

#[test]
fn get_factor_reads_the_currency_of_the_amount() {
    let yen = MoneyInner::<i32, Currency>::new(5, &Currency::JPY);
    assert_eq!(get_factor(&yen), Ok(1));
    let dollars = MoneyInner::<i32, Currency>::new(-7, &Currency::USD);
    assert_eq!(get_factor(&dollars), Ok(100));
    let dinars = MoneyInner::<Binary64, Currency>::new(Binary64::from_bits(0), &Currency::KWD);
    assert_eq!(get_factor(&dinars), Ok(1000));
}

#[test]
fn get_factor_never_misses_a_currency() {
    let mut all: Vec<Currency> = Vec::new();
    all.extend(ZERO_DECIMAL);
    all.extend(TWO_DECIMAL);
    all.extend(THREE_DECIMAL);
    for currency in all {
        let money = MoneyInner::<i32, Currency>::new(1, &currency);
        assert_ne!(
            get_factor(&money),
            Err(MoneyConversionError::CurrencyNotFoundInSubunitMap(currency))
        );
    }
}

#[test]
fn a_currency_code_stands_for_itself() {
    assert_eq!(Currency::USD.currency(), Currency::USD);
    assert_eq!(Currency::BHD.currency(), Currency::BHD);
}

#[derive(Copy, Clone, PartialEq, Eq, Hash, Debug)]
enum Wallet {
    Home,
    Abroad,
}

impl FromCurrency for Wallet {
    fn currency(&self) -> Currency {
        match self {
            Wallet::Home => Currency::JPY,
            Wallet::Abroad => Currency::TND,
        }
    }
}

#[test]
fn get_factor_goes_by_the_code_of_a_currency_type_of_the_caller() {
    let home = MoneyInner::<i32, Wallet>::new(1, &Wallet::Home);
    assert_eq!(get_factor(&home), Ok(1));
    let abroad = MoneyInner::<i32, Wallet>::new(1, &Wallet::Abroad);
    assert_eq!(get_factor(&abroad), Ok(1000));
}
