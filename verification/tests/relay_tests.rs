//! The relay: FIFO delivery, the bound, the consumer, and the dashboard.

use telemetry_core::dashboard::Dashboard;
use telemetry_core::decimal::Decimal;
use telemetry_core::event::{classify, to_event, DeviceKind, Event, Report};
use telemetry_core::power::Power;
use telemetry_core::relay::Relay;
use telemetry_core::socket::Socket;
use telemetry_core::state::DeviceState;
use telemetry_core::temperature::Temperature;
use telemetry_core::termometer::Termometer;

fn socket_report(watts: u64, on: bool) -> Report {
    Report::Socket(Socket::new(Power::new(Decimal::new(watts, 0)), DeviceState(on)))
}

fn termometer_report(degrees: u64, on: bool) -> Report {
    Report::Termometer(Termometer::new(
        Temperature::new(Decimal::new(degrees, 0)),
        DeviceState(on),
    ))
}

#[test]
fn delivery_is_fifo_and_exactly_once() {
    let mut relay = Relay::new(8);
    let reports = [socket_report(600, true), termometer_report(21, true), socket_report(0, false)];
    for r in reports {
        assert!(relay.try_enqueue(r));
    }
    let mut seen = Vec::new();
    while let Some(r) = relay.dequeue() {
        seen.push(r);
    }
    assert_eq!(seen, reports.to_vec(), "each report once, in enqueue order");
    assert_eq!(relay.dequeue(), None);
}

#[test]
fn a_full_relay_refuses_the_report() {
    let mut relay = Relay::new(2);
    assert!(relay.try_enqueue(socket_report(600, true)));
    assert!(relay.try_enqueue(socket_report(700, true)));
    assert!(!relay.try_enqueue(socket_report(800, true)), "bound reached");
    assert_eq!(relay.len(), 2);
    assert_eq!(relay.dequeue(), Some(socket_report(600, true)), "nothing was lost or reordered");
    assert!(relay.try_enqueue(socket_report(800, true)), "room again after a dequeue");
}

#[test]
fn a_closed_sink_does_not_halt_consumption() {
    let mut relay = Relay::new(4);
    assert!(relay.try_enqueue(socket_report(600, true)));
    assert!(relay.try_enqueue(termometer_report(21, false)));
    // sink closed: the report is consumed, the event dropped
    assert_eq!(relay.consume_step(false), None);
    assert_eq!(relay.len(), 1);
    // sink open again: consumption went on with the next report
    assert_eq!(
        relay.consume_step(true),
        Some(Event::DeviceOffline { kind: DeviceKind::Thermometer })
    );
    assert_eq!(relay.consume_step(true), None, "queue is empty");
}

#[test]
fn drain_converts_each_report_once_in_order() {
    let mut relay = Relay::new(8);
    assert!(relay.try_enqueue(socket_report(1500, true)));
    assert!(relay.try_enqueue(socket_report(0, false)));
    assert!(relay.try_enqueue(termometer_report(21, true)));
    let events = relay.drain(true);
    assert_eq!(
        events,
        vec![
            Event::DeviceOnline { kind: DeviceKind::Socket, value: Decimal::new(1500, 0) },
            Event::DeviceOffline { kind: DeviceKind::Socket },
            Event::DeviceOnline { kind: DeviceKind::Thermometer, value: Decimal::new(21, 0) },
        ]
    );
    assert_eq!(relay.len(), 0);
}

#[test]
fn drain_with_a_closed_sink_still_empties_the_queue() {
    let mut relay = Relay::new(8);
    assert!(relay.try_enqueue(socket_report(1500, true)));
    assert!(relay.try_enqueue(termometer_report(21, true)));
    let events = relay.drain(false);
    assert!(events.is_empty());
    assert_eq!(relay.len(), 0);
}

#[test]
fn scenario_socket_off_message() {
    let report = classify("Socket 21.5W State: off").unwrap();
    assert_eq!(
        report,
        Report::Socket(Socket::new(Power::new(Decimal::new(215, 1)), DeviceState(false)))
    );
    assert_eq!(to_event(&report), Event::DeviceOffline { kind: DeviceKind::Socket });
}

#[test]
fn scenario_socket_on_message_with_double_space() {
    let report = classify("Socket  1500W State: on").unwrap();
    assert_eq!(
        report,
        Report::Socket(Socket::new(Power::new(Decimal::new(1500, 0)), DeviceState(true)))
    );
    assert_eq!(
        to_event(&report),
        Event::DeviceOnline { kind: DeviceKind::Socket, value: Decimal::new(1500, 0) }
    );
}

#[test]
fn scenario_garbled_socket_message_yields_nothing() {
    assert_eq!(classify("Socket -x- W"), None);
}

#[test]
fn scenario_termometer_on_message() {
    let report = classify("Termometer 21.5C State: on").unwrap();
    assert_eq!(
        report,
        Report::Termometer(Termometer::new(
            Temperature::new(Decimal::new(215, 1)),
            DeviceState(true)
        ))
    );
    assert_eq!(
        to_event(&report),
        Event::DeviceOnline { kind: DeviceKind::Thermometer, value: Decimal::new(215, 1) }
    );
}

#[test]
fn scenario_garbled_termometer_message_yields_nothing() {
    assert_eq!(classify("Termometer xC"), None);
}

#[test]
fn dashboard_tracks_each_device_independently() {
    let mut dash = Dashboard::new();
    assert!(!dash.socket.online && !dash.termometer.online);
    dash.apply_event(Event::DeviceOnline { kind: DeviceKind::Socket, value: Decimal::new(1500, 0) });
    assert!(dash.socket.online);
    assert_eq!(dash.socket.value, Decimal::new(1500, 0));
    assert!(!dash.termometer.online, "the other widget is untouched");
    dash.apply_event(Event::DeviceOnline {
        kind: DeviceKind::Thermometer,
        value: Decimal::new(21, 0),
    });
    assert!(dash.termometer.online);
    dash.apply_event(Event::DeviceOffline { kind: DeviceKind::Socket });
    assert!(!dash.socket.online);
    assert_eq!(dash.socket.value, Decimal::new(0, 0), "offline resets the value");
    assert!(dash.termometer.online, "the other widget is untouched");
    // a repeated offline event is tolerated
    dash.apply_event(Event::DeviceOffline { kind: DeviceKind::Socket });
    assert!(!dash.socket.online);
}
