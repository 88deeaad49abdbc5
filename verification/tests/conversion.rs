use amount_conversion::amount::{f64_to_i32, MoneyConversionError, MoneyInner};
use amount_conversion::binary64::Binary64;
use amount_conversion::factor::Currency;

type Money = MoneyInner<i32, Currency>;
type MoneyHD = MoneyInner<Binary64, Currency>;

fn hd(x: f64) -> Binary64 {
    Binary64::from_bits(x.to_bits())
}

fn major(amount: f64, currency: Currency) -> MoneyHD {
    MoneyHD::new(hd(amount), &currency)
}

fn value(money: MoneyHD) -> f64 {
    f64::from_bits(money.amount().to_bits())
}

fn there_and_back(amount: i32, currency: Currency) -> Money {
    Money::new(amount, &currency).convert().unwrap().convert().unwrap()
}

fn toward_zero(amount: i32) -> i32 {
    amount - amount.signum()
}

#[test]
fn one_cent_is_a_hundredth_of_a_dollar() {
    let cent = Money::new(1, &Currency::USD);
    let dollars = cent.convert().unwrap();
    assert_eq!(value(dollars), 0.01);
    assert_eq!(dollars.amount().to_bits(), 0x3f84_7ae1_47ae_147b);
    assert_eq!(dollars.convert(), Ok(cent));
}

#[test]
fn a_hundred_yen_are_a_hundred() {
    let yen = Money::new(100, &Currency::JPY).convert().unwrap();
    assert_eq!(value(yen), 100.0);
    assert_eq!(yen.amount().to_bits(), 0x4059_0000_0000_0000);
}

#[test]
fn a_thousand_fils_are_one_dinar() {
    let dinars = Money::new(1000, &Currency::KWD).convert().unwrap();
    assert_eq!(value(dinars), 1.0);
    assert_eq!(dinars.amount().to_bits(), 0x3ff0_0000_0000_0000);
}

#[test]
fn nothing_is_positive_zero() {
    for currency in [Currency::JPY, Currency::USD, Currency::KWD] {
        let zero = Money::new(0, &currency).convert().unwrap();
        assert_eq!(zero.amount().to_bits(), 0);
        assert_eq!(zero.convert(), Ok(Money::new(0, &currency)));
    }
}

#[test]
fn negative_amounts_keep_their_sign() {
    let debt = Money::new(-250, &Currency::USD).convert().unwrap();
    assert_eq!(value(debt), -2.5);
    assert_eq!(debt.convert(), Ok(Money::new(-250, &Currency::USD)));
}

#[test]
fn the_fraction_of_a_subunit_is_cut_off() {
    assert_eq!(major(1.239, Currency::USD).convert(), Ok(Money::new(123, &Currency::USD)));
    assert_eq!(major(-1.239, Currency::USD).convert(), Ok(Money::new(-123, &Currency::USD)));
    assert_eq!(major(0.9999, Currency::JPY).convert(), Ok(Money::new(0, &Currency::JPY)));
    assert_eq!(major(-0.9999, Currency::JPY).convert(), Ok(Money::new(0, &Currency::JPY)));
    assert_eq!(major(1.2345, Currency::KWD).convert(), Ok(Money::new(1234, &Currency::KWD)));
}

#[test]
fn the_largest_amount_converts_and_the_next_number_does_not() {
    let max = i32::MAX as f64;
    assert_eq!(major(max, Currency::JPY).convert(), Ok(Money::new(i32::MAX, &Currency::JPY)));
    let above = f64::from_bits(max.to_bits() + 1);
    assert!(above > max && above < max + 1.0);
    assert_eq!(
        major(above, Currency::JPY).convert(),
        Err(MoneyConversionError::F64ToI32ConversionFailed)
    );
    assert_eq!(
        major(max + 1.0, Currency::JPY).convert(),
        Err(MoneyConversionError::F64ToI32ConversionFailed)
    );
    assert_eq!(
        major(21474836.47, Currency::USD).convert(),
        Ok(Money::new(i32::MAX, &Currency::USD))
    );
    assert_eq!(
        major(21474836.48, Currency::USD).convert(),
        Err(MoneyConversionError::F64ToI32ConversionFailed)
    );
}

#[test]
fn the_smallest_amount_converts_and_the_next_number_does_not() {
    let min = i32::MIN as f64;
    assert_eq!(major(min, Currency::JPY).convert(), Ok(Money::new(i32::MIN, &Currency::JPY)));
    let below = f64::from_bits(min.to_bits() + 1);
    assert!(below < min && below > min - 1.0);
    assert_eq!(
        major(below, Currency::JPY).convert(),
        Err(MoneyConversionError::F64ToI32ConversionFailed)
    );
    assert_eq!(
        major(-2147483.648, Currency::KWD).convert(),
        Ok(Money::new(i32::MIN, &Currency::KWD))
    );
    assert_eq!(
        major(-2147483.649, Currency::KWD).convert(),
        Err(MoneyConversionError::F64ToI32ConversionFailed)
    );
}

#[test]
fn what_is_not_a_finite_number_does_not_convert() {
    for amount in [f64::NAN, -f64::NAN, f64::INFINITY, f64::NEG_INFINITY] {
        for currency in [Currency::JPY, Currency::USD, Currency::KWD] {
            assert_eq!(
                major(amount, currency).convert(),
                Err(MoneyConversionError::F64ToI32ConversionFailed)
            );
        }
        let cast: Result<i32, MoneyConversionError<Currency>> = f64_to_i32(hd(amount));
        assert_eq!(cast, Err(MoneyConversionError::F64ToI32ConversionFailed));
    }
}

#[test]
fn a_product_beyond_all_numbers_does_not_convert() {
    assert_eq!(
        major(f64::MAX, Currency::KWD).convert(),
        Err(MoneyConversionError::F64ToI32ConversionFailed)
    );
    assert_eq!(
        major(f64::MIN, Currency::USD).convert(),
        Err(MoneyConversionError::F64ToI32ConversionFailed)
    );
}

#[test]
fn f64_to_i32_keeps_whole_numbers() {
    let cast: Result<i32, MoneyConversionError<Currency>> = f64_to_i32(hd(1234.0));
    assert_eq!(cast, Ok(1234));
    let cast: Result<i32, MoneyConversionError<Currency>> = f64_to_i32(hd(-1234.75));
    assert_eq!(cast, Ok(-1234));
    let cast: Result<i32, MoneyConversionError<Currency>> = f64_to_i32(hd(2147483647.999));
    assert_eq!(cast, Err(MoneyConversionError::F64ToI32ConversionFailed));
    let cast: Result<i32, MoneyConversionError<Currency>> = f64_to_i32(hd(-2147483648.0));
    assert_eq!(cast, Ok(i32::MIN));
}

#[test]
fn amounts_without_subunits_come_back_as_they_were() {
    let mut amount: i32 = i32::MIN;
    loop {
        assert_eq!(there_and_back(amount, Currency::JPY), Money::new(amount, &Currency::JPY));
        match amount.checked_add(104_729) {
            Some(next) => amount = next,
            None => break,
        }
    }
    assert_eq!(there_and_back(i32::MAX, Currency::JPY), Money::new(i32::MAX, &Currency::JPY));
}

#[test]
fn amounts_come_back_as_they_were_or_one_nearer_to_zero() {
    for currency in [Currency::USD, Currency::KWD] {
        let mut lost = 0;
        let mut amount: i32 = i32::MIN;
        loop {
            let back = there_and_back(amount, currency);
            if back != Money::new(amount, &currency) {
                assert_eq!(back, Money::new(toward_zero(amount), &currency));
                lost += 1;
            }
            match amount.checked_add(7_919) {
                Some(next) => amount = next,
                None => break,
            }
        }
        assert!(lost > 0);
    }
}

#[test]
fn twenty_nine_cents_come_back_as_twenty_eight() {
    assert_eq!(there_and_back(29, Currency::USD), Money::new(28, &Currency::USD));
    assert_eq!(there_and_back(-29, Currency::USD), Money::new(-28, &Currency::USD));
    assert_eq!(there_and_back(28, Currency::USD), Money::new(28, &Currency::USD));
    assert_eq!((29_f64 / 100.0 * 100.0) as i32, 28);
}

#[test]
fn the_bounds_of_the_amount_come_back_as_they_were() {
    for currency in [Currency::JPY, Currency::USD, Currency::KWD] {
        assert_eq!(there_and_back(i32::MAX, currency), Money::new(i32::MAX, &currency));
        assert_eq!(there_and_back(i32::MIN, currency), Money::new(i32::MIN, &currency));
    }
}

#[test]
fn new_keeps_amount_and_currency() {
    let money = Money::new(42, &Currency::EUR);
    assert_eq!(money.amount, 42);
    assert_eq!(money.currency, Currency::EUR);
    let money = MoneyHD::new(hd(4.2), &Currency::EUR);
    assert_eq!(money.amount().to_bits(), 4.2_f64.to_bits());
    assert_eq!(money.currency, Currency::EUR);
}

#[test]
fn try_from_is_convert() {
    let cents = Money::new(12345, &Currency::USD);
    let dollars = MoneyHD::try_from(cents).unwrap();
    assert_eq!(Ok(dollars), cents.convert());
    assert_eq!(Money::try_from(dollars), dollars.convert());
    assert_eq!(Money::try_from(dollars), Ok(cents));
}

#[test]
fn round_trip_of_subunits_is_both_conversions() {
    for currency in [Currency::JPY, Currency::USD, Currency::KWD] {
        for amount in [0, 1, -1, 28, 29, 57, 58, 12345, -99999, i32::MAX, i32::MIN] {
            let money = Money::new(amount, &currency);
            assert_eq!(money.round_trip(), Ok(there_and_back(amount, currency)));
        }
    }
    assert_eq!(Money::new(29, &Currency::USD).round_trip(), Ok(Money::new(28, &Currency::USD)));
    assert_eq!(Money::new(29, &Currency::JPY).round_trip(), Ok(Money::new(29, &Currency::JPY)));
    assert_eq!(Money::new(30, &Currency::USD).round_trip(), Ok(Money::new(30, &Currency::USD)));
}

#[test]
fn round_trip_of_major_units_drops_what_is_less_than_a_subunit() {
    let back = major(1.239, Currency::USD).round_trip().unwrap();
    assert_eq!(value(back), 1.23);
    let back = major(-7.9, Currency::JPY).round_trip().unwrap();
    assert_eq!(value(back), -7.0);
    let back = major(0.0004, Currency::KWD).round_trip().unwrap();
    assert_eq!(back.amount().to_bits(), 0);
}

#[test]
fn round_trip_of_major_units_fails_as_the_conversion_does() {
    assert_eq!(
        major(1e12, Currency::USD).round_trip().map(value),
        Err(MoneyConversionError::F64ToI32ConversionFailed)
    );
    assert_eq!(
        major(f64::NAN, Currency::JPY).round_trip().map(value),
        Err(MoneyConversionError::F64ToI32ConversionFailed)
    );
}

#[test]
fn whole_major_units_come_back_as_they_were() {
    for (currency, factor) in [(Currency::USD, 100), (Currency::KWD, 1000)] {
        let mut units: i32 = i32::MIN / factor;
        while units <= i32::MAX / factor {
            let amount = units * factor;
            assert_eq!(there_and_back(amount, currency), Money::new(amount, &currency));
            units += 997 / (factor / 100);
        }
    }
}
