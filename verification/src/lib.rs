//! Reader for the WPILOG binary telemetry log format: a length-framed,
//! bit-packed record stream with an in-band schema registry keyed by numeric
//! entry identifiers.

pub mod control_records;
pub mod headers;
pub mod records;
pub mod shared;
pub mod wpilog;
