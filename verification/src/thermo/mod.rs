//! The side of the spectrum source: the spectra it hands out, the cursor
//! that walks it scan by scan, and the dispatcher that schedules its scans
//! for workers.

pub mod parallel;
pub mod reader;
pub mod spectrum;
