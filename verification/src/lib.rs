//! Decoder for the serial protocol of PMS5003-class laser particulate-matter
//! sensors.
//!
//! The sensor sends 32-byte frames: the marker `42 4D`, a big-endian length
//! field that must read 28, 26 payload bytes and a big-endian additive
//! checksum over the 30 bytes before it. [`PMS5003`] consumes the outcome of
//! one read attempt at a time and reports a [`Measurement`] or an [`Error`]
//! as soon as a frame is settled; it never touches the hardware itself.

pub mod measurement;
pub mod frame;
pub mod device;
pub mod stream;

pub use device::{Command, Line, Poll, PMS5003};
pub use frame::{checksum, Error};
pub use measurement::{Absolutes, Concentrations, Measurement};
