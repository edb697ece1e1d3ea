use std::str::FromStr;

use telemetry_core::decimal::Decimal;
use telemetry_core::socket::Socket;

#[test]
fn positive_f32_in_string() {
    let message = "Socket 21.5W State: off";

    let result = Socket::from_str(message);
    assert!(result.is_ok(), "Looks like string has been parsed well");

    let socket = result.unwrap();

    assert!(socket.power().get() == Decimal::new(215, 1), "Power is correct");
    assert!(!socket.state().get(), "... state is 'off'");
}

#[test]
fn positive_u32_in_message() {
    let message = "Socket  1500W State: on";

    let result = Socket::from_str(message);
    assert!(result.is_ok(), "Looks like string has been parsed well");

    let socket = result.unwrap();

    assert!(socket.power().get() == Decimal::new(1500, 0), "Power is correct");
    assert!(socket.state().get(), "... state is 'on'");
}

#[test]
fn negative_missing_temperature() {
    let message = "Socket -x- W";

    let result = Socket::from_str(message);

    assert!(!result.is_ok(), "Got an error");
}
