//! The MGF interchange format: spectra as records of text, the writer that
//! produces them and the reader that takes them apart again.

pub mod grammar;
pub mod reader;
pub mod roundtrip;
pub mod spectrum;
pub mod writer;
