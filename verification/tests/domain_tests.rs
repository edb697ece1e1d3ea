//! Domain value types: decimals, power range and ratio, device state.

use telemetry_core::decimal::Decimal;
use telemetry_core::power::Power;
use telemetry_core::state::DeviceState;
use telemetry_core::temperature::Temperature;

#[test]
fn decimal_value_comparisons() {
    let a = Decimal::new(215, 1); // 21.5
    let b = Decimal::new(2150, 2); // 21.50
    let c = Decimal::new(22, 0);
    assert!(a.eq_value(b));
    assert!(a != b, "representations differ even where values are equal");
    assert!(a.le(b) && b.le(a));
    assert!(a.lt(c));
    assert!(!c.lt(a));
}

#[test]
fn ratio_is_zero_below_the_range() {
    let r = Power::ratio(Decimal::new(400, 0));
    assert_eq!(r.num, 0);
    assert_eq!(r.den, 1);
    let r = Power::ratio(Decimal::new(4999, 1)); // 499.9
    assert_eq!(r.num, 0);
}

#[test]
fn ratio_at_the_range_ends() {
    let r = Power::ratio(Decimal::new(500, 0));
    assert_eq!(r.num, 0);
    assert_eq!(r.den, 1500);
    let r = Power::ratio(Decimal::new(2000, 0));
    assert_eq!(r.num, r.den);
}

#[test]
fn ratio_in_the_middle() {
    // 1250 W stands exactly halfway: (1250 - 500) / 1500 = 1/2
    let r = Power::ratio(Decimal::new(1250, 0));
    assert_eq!(r.num * 2, r.den);
    // 1750.5 W: (1750.5 - 500) / 1500 = 12505 / 15000
    let r = Power::ratio(Decimal::new(17505, 1));
    assert_eq!(r.num, 12505);
    assert_eq!(r.den, 15000);
}

#[test]
fn ratio_grows_with_the_reading() {
    let lo = Power::ratio(Decimal::new(600, 0));
    let hi = Power::ratio(Decimal::new(900, 0));
    assert!(lo.num * hi.den < hi.num * lo.den);
}

#[test]
fn set_accepts_only_the_valid_range() {
    let mut p = Power::new(Decimal::new(600, 0));
    p.set(Decimal::new(100, 0));
    assert_eq!(p.get(), Decimal::new(600, 0), "below the range: no-op");
    p.set(Decimal::new(20005, 1)); // 2000.5
    assert_eq!(p.get(), Decimal::new(600, 0), "above the range: no-op");
    p.set(Decimal::new(1000, 0));
    assert_eq!(p.get(), Decimal::new(1000, 0));
    p.set(Decimal::new(500, 0));
    assert_eq!(p.get(), Decimal::new(500, 0), "the ends are inside");
    p.set(Decimal::new(2000, 0));
    assert_eq!(p.get(), Decimal::new(2000, 0));
}

#[test]
fn construction_is_unchecked() {
    let p = Power::new(Decimal::new(7, 0));
    assert_eq!(p.get(), Decimal::new(7, 0));
}

#[test]
fn temperature_set_is_unchecked() {
    let mut t = Temperature::new(Decimal::new(215, 1));
    assert_eq!(t.get(), Decimal::new(215, 1));
    t.set(Decimal::new(9000, 0));
    assert_eq!(t.get(), Decimal::new(9000, 0));
}

#[test]
fn state_token_parsing_never_fails() {
    assert!(DeviceState::from_token("on").get());
    assert!(!DeviceState::from_token("off").get());
    assert!(!DeviceState::from_token("banana").get());
    assert!(!DeviceState::from_token("").get());
    assert!(!DeviceState::from_token("On").get(), "the token is case-sensitive");
}

#[test]
fn state_tokens_print_back() {
    assert_eq!(DeviceState(true).token(), "on");
    assert_eq!(DeviceState(false).token(), "off");
}
