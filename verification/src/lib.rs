//! A performance-regression detector for benchmark measurements.
//!
//! The library parses no files and touches no clock by itself beyond a
//! single trusted timestamp call: callers hand it the parsed measurement
//! files, and it reconstructs the baseline/dev pairing encoded in the
//! file names, validates the shape of every pairing, and decides which
//! metrics have regressed against fixed ratio thresholds.

pub mod calculate;
pub mod laws;
pub mod codec;
pub mod errors;
pub mod loglines;
pub mod measure;
pub mod records;
pub mod strutil;

pub use calculate::regressions;
pub use errors::CalculateError;
pub use errors::IOError;
pub use records::Calculation;
pub use records::Data;
pub use records::Measurement;
pub use records::MeasurementGroup;
pub use records::Measurements;
pub use records::Ratio;
