//! Reports and the events they become.
//!
//! A [`Report`] is one parsed telemetry message.  The relay's consumer turns
//! each report into exactly one [`Event`]: a device went online with its
//! current value, or went offline.

use vstd::prelude::*;

use crate::codec::{spec_match_at, ParseError};
use crate::decimal::Decimal;
use crate::socket::{socket_label, spec_parse_socket, Socket};
use crate::termometer::{spec_parse_termometer, termometer_label, Termometer};

verus! {

/// One parsed telemetry message from either device.
#[derive(Clone, Copy, Debug, PartialEq, Eq, Structural)]
pub enum Report {
    Socket(Socket),
    Termometer(Termometer),
}

/// Which device an event speaks of.
#[derive(Clone, Copy, Debug, PartialEq, Eq, Structural)]
pub enum DeviceKind {
    Socket,
    Thermometer,
}

/// What the consumer hands the UI: a device came online with a value, or
/// went offline.
#[derive(Clone, Copy, Debug, PartialEq, Eq, Structural)]
pub enum Event {
    DeviceOnline { kind: DeviceKind, value: Decimal },
    DeviceOffline { kind: DeviceKind },
}

impl Report {
    pub open spec fn wf(self) -> bool {
        match self {
            Report::Socket(s) => s.wf(),
            Report::Termometer(t) => t.wf(),
        }
    }
}

/// The one event a report converts into.
pub open spec fn spec_event_of(r: Report) -> Event {
    match r {
        Report::Socket(s) => if s.state.0 {
            Event::DeviceOnline { kind: DeviceKind::Socket, value: s.power.0 }
        } else {
            Event::DeviceOffline { kind: DeviceKind::Socket }
        },
        Report::Termometer(t) => if t.state.0 {
            Event::DeviceOnline { kind: DeviceKind::Thermometer, value: t.temperature.0 }
        } else {
            Event::DeviceOffline { kind: DeviceKind::Thermometer }
        },
    }
}

/// Convert a report into its event.
pub fn to_event(r: &Report) -> (e: Event)
    ensures
        e == spec_event_of(*r),
{
    match r {
        Report::Socket(s) => {
            if s.state.get() {
                Event::DeviceOnline { kind: DeviceKind::Socket, value: s.power.get() }
            } else {
                Event::DeviceOffline { kind: DeviceKind::Socket }
            }
        },
        Report::Termometer(t) => {
            if t.state.get() {
                Event::DeviceOnline { kind: DeviceKind::Thermometer, value: t.temperature.get() }
            } else {
                Event::DeviceOffline { kind: DeviceKind::Thermometer }
            }
        },
    }
}

/// What one connection's bytes classify as: a socket report, a thermometer
/// report, or nothing.
pub open spec fn spec_classify(s: Seq<char>) -> Option<Report> {
    if spec_parse_socket(s) is Ok {
        Some(Report::Socket(spec_parse_socket(s)->Ok_0))
    } else if spec_parse_termometer(s) is Ok {
        Some(Report::Termometer(spec_parse_termometer(s)->Ok_0))
    } else {
        None
    }
}

/// Classify one received message: try the socket shape, then the
/// thermometer shape; neither matching classifies as nothing.
pub fn classify(s: &str) -> (r: Option<Report>)
    ensures
        r == spec_classify(s@),
        r matches Some(rep) ==> rep.wf(),
{
    match Socket::parse(s) {
        Ok(sock) => Some(Report::Socket(sock)),
        Err(_) => match Termometer::parse(s) {
            Ok(t) => Some(Report::Termometer(t)),
            Err(_) => None,
        },
    }
}

/// No message parses as both report kinds: the labels differ in their very
/// first character, so the order in which `classify` tries them cannot
/// matter.
pub proof fn lemma_kinds_exclusive(s: Seq<char>)
    requires
        spec_parse_socket(s) is Ok,
    ensures
        spec_parse_termometer(s) is Err,
{
    assert(s.subrange(0, 6)[0] == s[0]);
    assert(socket_label()[0] == 'S');
    if spec_match_at(s, 0, termometer_label()) {
        assert(s.subrange(0, 10)[0] == s[0]);
        assert(termometer_label()[0] == 'T');
    }
}

/// A string that does not open with either device's label parses as
/// neither report kind, and so classifies as nothing.
pub proof fn lemma_unrecognized(s: Seq<char>)
    requires
        !spec_match_at(s, 0, socket_label()),
        !spec_match_at(s, 0, termometer_label()),
    ensures
        spec_parse_socket(s) == Err::<Socket, ParseError>(ParseError::WrongShape),
        spec_parse_termometer(s) == Err::<Termometer, ParseError>(ParseError::WrongShape),
        spec_classify(s) is None,
{
}

} // verus!
