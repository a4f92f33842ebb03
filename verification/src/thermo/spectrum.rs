//! The spectrum as a source hands it out.

use crate::mgf::spectrum::{
    MgfSpectrum, MgfSpectrumHeader, MgfSpectrumHeaderView, MgfSpectrumView, SpectrumData,
    SpectrumDataView,
};
use vstd::prelude::*;

verus! {

/// The acquisition tier of a fragmentation scan.
pub const MS2_LEVEL: u8 = 2;

/// One spectrum of a source: header, peaks, the acquisition tier (1 for a
/// survey scan, 2 for a fragmentation scan) and the index under which the
/// source holds it.
#[derive(Clone, Debug, PartialEq, Eq)]
pub struct Spectrum {
    pub header: MgfSpectrumHeader,
    pub data: SpectrumData,
    pub ms_level: u8,
    pub index: u32,
}

/// What a spectrum of a source holds.
pub struct SpectrumView {
    pub header: MgfSpectrumHeaderView,
    pub data: SpectrumDataView,
    pub ms_level: u8,
    pub index: u32,
}

impl View for Spectrum {
    type V = SpectrumView;

    open spec fn view(&self) -> SpectrumView {
        SpectrumView {
            header: self.header@,
            data: self.data@,
            ms_level: self.ms_level,
            index: self.index,
        }
    }
}

impl Spectrum {
    /// The acquisition tier.
    pub fn get_ms_level(&self) -> (level: u8)
        ensures
            level == self@.ms_level,
    {
        self.ms_level
    }

    /// Header and peaks as a record of the interchange format.
    pub fn into_mgf(self) -> (record: MgfSpectrum)
        ensures
            record@ == (MgfSpectrumView { header: self@.header, data: self@.data }),
    {
        MgfSpectrum { header: self.header, data: self.data }
    }
}

/// The spectrum itself where it is a fragmentation scan, `None` where it is
/// of any other tier.
pub fn keep_ms2(spectrum: Spectrum) -> (kept: Option<Spectrum>)
    ensures
        kept == (if spectrum.ms_level == MS2_LEVEL {
            Some(spectrum)
        } else {
            None
        }),
{
    if spectrum.ms_level == MS2_LEVEL {
        Some(spectrum)
    } else {
        None
    }
}

/// How many of `levels` are the tier of a fragmentation scan.
pub open spec fn count_ms2(levels: Seq<u8>) -> nat
    decreases levels.len(),
{
    if levels.len() == 0 {
        0
    } else {
        count_ms2(levels.drop_last()) + (if levels.last() == MS2_LEVEL {
            1nat
        } else {
            0nat
        })
    }
}

} // verus!
