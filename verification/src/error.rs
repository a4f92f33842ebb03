//! The failures the library reports.

use vstd::prelude::*;

verus! {

/// Why a record of the interchange format could not be read.
#[derive(Clone, Copy, Debug, PartialEq, Eq, Structural)]
pub enum ParseFault {
    /// The input ended, or a new record began, before `END IONS`.
    MissingTerminator,
    /// A numeric field or a peak value is not a number.
    BadNumber,
    /// A peak line does not hold exactly two values.
    BadPeakLine,
    /// The record has no `TITLE` or no `PEPMASS` line.
    MissingField,
}

/// Everything that can go wrong between a spectrum source and an MGF file.
#[derive(Clone, Copy, Debug, PartialEq, Eq, Structural)]
pub enum MzioError {
    /// The requested scan number lies outside the bounds of the source.
    OutOfRange { index: u32 },
    /// The source could not produce the spectrum of a scan within its bounds.
    BackendFailure { index: u32 },
    /// Creating, writing, flushing or reading the interchange file failed.
    /// The library touches no file; whoever does reports the failure so.
    IoFailure,
    /// The interchange text holds a malformed record.
    ParseFailure { fault: ParseFault },
}

} // verus!
