//! The codec's grammar, edge cases, and the error variants.

use telemetry_core::codec::ParseError;
use telemetry_core::decimal::Decimal;
use telemetry_core::power::Power;
use telemetry_core::socket::Socket;
use telemetry_core::state::DeviceState;
use telemetry_core::termometer::Termometer;

#[test]
fn trailing_characters_are_ignored() {
    let socket = Socket::parse("Socket 500W State: off and some noise").unwrap();
    assert!(!socket.state().get());
    assert_eq!(socket.power().get(), Decimal::new(500, 0));
}

#[test]
fn state_token_is_a_prefix_match() {
    // `online` opens with the `on` token; the rest is trailing text
    let socket = Socket::parse("Socket 500W State: online").unwrap();
    assert!(socket.state().get());
    // `offline` opens with `off`
    let socket = Socket::parse("Socket 500W State: offline").unwrap();
    assert!(!socket.state().get());
}

#[test]
fn incomplete_state_token_fails() {
    assert_eq!(Socket::parse("Socket 100W State: of"), Err(ParseError::WrongShape));
    assert_eq!(Socket::parse("Socket 100W State: "), Err(ParseError::WrongShape));
}

#[test]
fn missing_whitespace_fails() {
    assert_eq!(Socket::parse("Socket21W State: on"), Err(ParseError::WrongShape));
    assert_eq!(Socket::parse("Socket 21WState: on"), Err(ParseError::WrongShape));
    assert_eq!(Socket::parse("Socket 21W State:on"), Err(ParseError::WrongShape));
}

#[test]
fn labels_are_case_sensitive_and_exact() {
    assert_eq!(Socket::parse("socket 21W State: on"), Err(ParseError::WrongShape));
    assert_eq!(Termometer::parse("Thermometer 21C State: on"), Err(ParseError::WrongShape));
    assert_eq!(Socket::parse("Termometer 21C State: on"), Err(ParseError::WrongShape));
}

#[test]
fn wrong_unit_fails() {
    assert_eq!(Socket::parse("Socket 21C State: on"), Err(ParseError::WrongShape));
    assert_eq!(Termometer::parse("Termometer 21W State: on"), Err(ParseError::WrongShape));
}

#[test]
fn multi_dot_number_matches_shape_but_fails() {
    assert_eq!(Socket::parse("Socket 1.2.3W State: on"), Err(ParseError::BadNumber));
    assert_eq!(Termometer::parse("Termometer 1.2.3C State: off"), Err(ParseError::BadNumber));
}

#[test]
fn number_must_open_with_a_digit() {
    assert_eq!(Socket::parse("Socket .5W State: on"), Err(ParseError::WrongShape));
    assert_eq!(Socket::parse("Socket 5.W State: on"), Err(ParseError::WrongShape));
}

#[test]
fn eighteen_digits_fit_and_nineteen_do_not() {
    let socket = Socket::parse("Socket 123456789012345678W State: on").unwrap();
    assert_eq!(socket.power().get(), Decimal::new(123456789012345678, 0));
    assert_eq!(
        Socket::parse("Socket 1234567890123456789W State: on"),
        Err(ParseError::BadNumber)
    );
}

#[test]
fn fraction_digits_keep_leading_zeros() {
    let t = Termometer::parse("Termometer 21.05C State: on").unwrap();
    assert_eq!(t.temperature().get(), Decimal::new(2105, 2));
}

#[test]
fn tab_counts_as_whitespace() {
    let socket = Socket::parse("Socket\t1500W\tState:\ton").unwrap();
    assert!(socket.state().get());
    assert_eq!(socket.power().get(), Decimal::new(1500, 0));
}

#[test]
fn socket_message_encodes_and_parses_back() {
    let socket = Socket::parse("Socket 21.5W State: off").unwrap();
    let text = socket.to_message();
    assert_eq!(text, "Socket 21.5W State: off");
    assert_eq!(Socket::parse(&text), Ok(socket));
}

#[test]
fn termometer_message_encodes_and_parses_back() {
    let t = Termometer::parse("Termometer 21C State: on").unwrap();
    let text = t.to_message();
    assert_eq!(text, "Termometer 21C State: on");
    assert_eq!(Termometer::parse(&text), Ok(t));
}

#[test]
fn encoding_keeps_the_scale() {
    let socket = Socket::new(Power::new(Decimal::new(2105, 2)), DeviceState(true));
    assert_eq!(socket.to_message(), "Socket 21.05W State: on");
    let socket = Socket::new(Power::new(Decimal::new(5, 1)), DeviceState(false));
    assert_eq!(socket.to_message(), "Socket 0.5W State: off");
}
