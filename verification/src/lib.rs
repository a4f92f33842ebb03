//! Conversion of mass-spectrometry spectra into MGF text.
//!
//! The crate holds the parts of the pipeline that decide and compute: the
//! record grammar of the interchange format (writer and reader), the cursor
//! that walks a spectrum source by scan number, and the dispatcher that
//! schedules a bounded number of scans at a time. Reading instrument files,
//! touching the file system and running worker threads are left to the
//! caller, who hands plain values in and takes plain values back.
//!
//! - [`decimal`]: numbers as decimal digits, their text and their rounding;
//!   [`rounding`]: what rounding does to the value of a number.
//! - [`mgf`]: spectra as records, the grammar of a record, the writer, the
//!   reader, and the proof that the reader gives back what the writer wrote.
//! - [`thermo`]: the bounds of a source, the cursor over its scans and the
//!   dispatcher of the parallel conversion.
//! - [`text`]: digits, unsigned numbers and byte searches.
//! - [`error`]: the failures.

pub mod decimal;
pub mod error;
pub mod mgf;
pub mod rounding;
pub mod text;
pub mod thermo;
