//! The consumer-side picture of the two devices.
//!
//! The UI keeps, for each device, whether it is online and its last
//! reported value.  Applying an event to that state is plain data logic,
//! and is held here; drawing it is the UI collaborator's business.

use vstd::prelude::*;

use crate::decimal::Decimal;
use crate::event::{DeviceKind, Event};

verus! {

/// What one device's widget shows: online or not, and the last value.
#[derive(Clone, Copy, Debug, PartialEq, Eq, Structural)]
pub struct WidgetState {
    pub online: bool,
    pub value: Decimal,
}

/// Both devices' widget states.
#[derive(Clone, Copy, Debug, PartialEq, Eq, Structural)]
pub struct Dashboard {
    pub socket: WidgetState,
    pub termometer: WidgetState,
}

/// The widget state a fresh dashboard starts from: offline, value zero.
pub open spec fn spec_blank_widget() -> WidgetState {
    WidgetState { online: false, value: Decimal { mantissa: 0, scale: 0 } }
}

/// How one event changes the dashboard: it touches exactly the device it
/// names; online events carry the new value, offline events reset it.
pub open spec fn spec_apply(d: Dashboard, e: Event) -> Dashboard {
    match e {
        Event::DeviceOnline { kind, value } => match kind {
            DeviceKind::Socket => Dashboard {
                socket: WidgetState { online: true, value },
                termometer: d.termometer,
            },
            DeviceKind::Thermometer => Dashboard {
                socket: d.socket,
                termometer: WidgetState { online: true, value },
            },
        },
        Event::DeviceOffline { kind } => match kind {
            DeviceKind::Socket => Dashboard { socket: spec_blank_widget(), termometer: d.termometer },
            DeviceKind::Thermometer => Dashboard { socket: d.socket, termometer: spec_blank_widget() },
        },
    }
}

impl Dashboard {
    /// Both devices start offline with a zero value.
    pub fn new() -> (r: Dashboard)
        ensures
            r == (Dashboard { socket: spec_blank_widget(), termometer: spec_blank_widget() }),
    {
        let blank = WidgetState { online: false, value: Decimal { mantissa: 0, scale: 0 } };
        Dashboard { socket: blank, termometer: blank }
    }

    /// Apply one event.
    pub fn apply_event(&mut self, e: Event)
        ensures
            *final(self) == spec_apply(*old(self), e),
    {
        match e {
            Event::DeviceOnline { kind: DeviceKind::Socket, value } => {
                self.socket = WidgetState { online: true, value };
            },
            Event::DeviceOnline { kind: DeviceKind::Thermometer, value } => {
                self.termometer = WidgetState { online: true, value };
            },
            Event::DeviceOffline { kind: DeviceKind::Socket } => {
                self.socket = WidgetState { online: false, value: Decimal { mantissa: 0, scale: 0 } };
            },
            Event::DeviceOffline { kind: DeviceKind::Thermometer } => {
                self.termometer = WidgetState {
                    online: false,
                    value: Decimal { mantissa: 0, scale: 0 },
                };
            },
        }
    }
}

} // verus!
