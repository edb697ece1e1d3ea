use std::str::FromStr;

use telemetry_core::decimal::Decimal;
use telemetry_core::termometer::Termometer;

#[test]
fn test_positive_f32_in_string() {
    let message = "Termometer 21.5C State: on";

    let result = Termometer::from_str(message);

    assert!(result.is_ok(), "Looks like string has been parsed well");

    let termometer = result.unwrap();

    assert!(
        termometer.temperature().get() == Decimal::new(215, 1),
        "Temperature is correct"
    );

    assert!(termometer.state().get(), "... state is 'on'");
}

#[test]
fn test_positive_u32_in_message() {
    let message = "Termometer 21C State: on";

    let result = Termometer::from_str(message);
    assert!(result.is_ok(), "Looks like string has been parsed well");

    let termometer = result.unwrap();

    assert!(
        termometer.temperature().get() == Decimal::new(21, 0),
        "Temperature is correct"
    );

    assert!(termometer.state().get(), "... state is 'on'");
}

#[test]
fn test_negative_missing_temperature() {
    let message = "Termometer xC";

    let termometer = Termometer::from_str(message);

    assert!(!termometer.is_ok(), "Got an error");
}
