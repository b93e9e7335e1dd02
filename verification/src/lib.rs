//! Verified core of a four-channel thermocouple logger for the TA612C meter.
//!
//! The meter answers a fixed request with a 13-byte frame holding four signed
//! little-endian readings in tenths of a degree Celsius. This crate decodes
//! those frames, keeps the capture session (samples, markers, run/pause/stop
//! state and the running clock) and renders the captured data as CSV.
//! Temperatures are carried as integer tenths of a degree and times as integer
//! milliseconds, so every value the logger shows or writes is computed exactly.

pub mod text;


pub mod protocol;
pub mod capture;
pub mod export;
pub mod readout;
