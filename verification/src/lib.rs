//! Sampling of host telemetry on per-meter cadences and compositing of the
//! sampled values onto a small auxiliary display.
//!
//! The crate holds the decisions of both halves of that pipeline: which meter
//! is due when, what the measurement table holds, which pixels a widget
//! changes and which rectangle has to reach the device. Sensors, fonts, the
//! device link and the clock stay with the caller, who hands their results in
//! as plain values.

pub mod binding;
pub mod cadence;
pub mod config;
pub mod fonts;
pub mod framebuffer;
pub mod geometry;
pub mod meter;
pub mod pixel;
pub mod render;
pub mod sample;
pub mod scheduler;
