//! Telemetry ingestion core for a small smart-home monitor.
//!
//! Two simulated devices (a power socket and a thermometer) report their
//! state over TCP as short text lines.  This crate holds everything about
//! those reports that can be stated and proved: the exact decimal values
//! they carry, the line-protocol grammar and its parser, the classification
//! of an incoming message, the conversion of reports into online/offline
//! events, and the bounded FIFO relay that carries reports to the single
//! consumer.  The I/O around it (listener, per-connection tasks, the event
//! sink) lives in the surrounding binary.

pub mod codec;
pub mod dashboard;
pub mod decimal;
pub mod event;
pub mod power;
pub mod relay;
pub mod socket;
pub mod state;
pub mod temperature;
pub mod termometer;
