//! The spectrum as the interchange format knows it: a header and a peak list.

use crate::decimal::{Decimal, DecimalView};
use vstd::prelude::*;

verus! {

/// The view of an optional number.
pub open spec fn option_view(d: Option<Decimal>) -> Option<DecimalView> {
    match d {
        Some(x) => Some(x@),
        None => None,
    }
}

/// The views of a list of numbers.
pub open spec fn decimals_view(list: Seq<Decimal>) -> Seq<DecimalView> {
    Seq::new(list.len(), |i: int| list[i]@)
}

/// Whether every number of `list` is well formed.
pub open spec fn all_wf(list: Seq<DecimalView>) -> bool {
    forall|i: int| 0 <= i < list.len() ==> (#[trigger] list[i]).wf()
}

/// The header of a spectrum: what identifies it and describes its precursor.
/// A field that is `None` is absent, which is not the same as zero or empty.
#[derive(Clone, Debug, PartialEq, Eq)]
pub struct MgfSpectrumHeader {
    /// The identifier of the spectrum, as bytes of text.
    pub title: Vec<u8>,
    /// The mass-to-charge ratio of the precursor ion.
    pub precursor_mz: Decimal,
    /// The charge of the precursor ion.
    pub precursor_charge: Option<i8>,
    /// The mass of the precursor ion. The writer does not use it.
    pub precursor_mass: Option<Decimal>,
    /// The retention time in seconds.
    pub retention_time: Option<Decimal>,
    /// The number that the acquisition software gave the scan.
    pub scan_number: Option<u32>,
}

/// What a header holds.
pub struct MgfSpectrumHeaderView {
    pub title: Seq<u8>,
    pub precursor_mz: DecimalView,
    pub precursor_charge: Option<i8>,
    pub precursor_mass: Option<DecimalView>,
    pub retention_time: Option<DecimalView>,
    pub scan_number: Option<u32>,
}

impl MgfSpectrumHeaderView {
    /// Every number of the header is well formed.
    pub open spec fn wf(self) -> bool {
        &&& self.precursor_mz.wf()
        &&& self.precursor_mass matches Some(m) ==> m.wf()
        &&& self.retention_time matches Some(rt) ==> rt.wf()
    }
}

impl View for MgfSpectrumHeader {
    type V = MgfSpectrumHeaderView;

    open spec fn view(&self) -> MgfSpectrumHeaderView {
        MgfSpectrumHeaderView {
            title: self.title@,
            precursor_mz: self.precursor_mz@,
            precursor_charge: self.precursor_charge,
            precursor_mass: option_view(self.precursor_mass),
            retention_time: option_view(self.retention_time),
            scan_number: self.scan_number,
        }
    }
}

impl MgfSpectrumHeader {
    /// A header with a title and a precursor m/z, and no optional field.
    pub fn new(title: Vec<u8>, precursor_mz: Decimal) -> (header: Self)
        ensures
            header@ == (MgfSpectrumHeaderView {
                title: title@,
                precursor_mz: precursor_mz@,
                precursor_charge: None,
                precursor_mass: None,
                retention_time: None,
                scan_number: None,
            }),
    {
        MgfSpectrumHeader {
            title,
            precursor_mz,
            precursor_charge: None,
            precursor_mass: None,
            retention_time: None,
            scan_number: None,
        }
    }

    /// The identifier of the spectrum.
    pub fn get_title(&self) -> (title: &Vec<u8>)
        ensures
            title@ == self@.title,
    {
        &self.title
    }

    /// The mass-to-charge ratio of the precursor ion.
    pub fn get_precursor_mz(&self) -> (mz: &Decimal)
        ensures
            mz@ == self@.precursor_mz,
    {
        &self.precursor_mz
    }

    /// The charge of the precursor ion, where it is known.
    pub fn get_precursor_charge(&self) -> (charge: Option<i8>)
        ensures
            charge == self@.precursor_charge,
    {
        self.precursor_charge
    }

    /// The retention time in seconds, where it is known.
    pub fn get_retention_time(&self) -> (rt: &Option<Decimal>)
        ensures
            option_view(*rt) == self@.retention_time,
    {
        &self.retention_time
    }

    /// The scan number, where it is known.
    pub fn get_scan_number(&self) -> (scan: Option<u32>)
        ensures
            scan == self@.scan_number,
    {
        self.scan_number
    }
}

/// The peaks of a spectrum: peak `i` has the mass-to-charge ratio
/// `mz_list[i]` and the intensity `intensity_list[i]`. The two lists are of
/// equal length.
#[derive(Debug, PartialEq, Eq)]
pub struct SpectrumData {
    mz_list: Vec<Decimal>,
    intensity_list: Vec<Decimal>,
}

/// What a peak list holds.
pub struct SpectrumDataView {
    pub mz_list: Seq<DecimalView>,
    pub intensity_list: Seq<DecimalView>,
}

impl SpectrumDataView {
    /// The two lists are of equal length, and every number is well formed.
    pub open spec fn wf(self) -> bool {
        &&& self.mz_list.len() == self.intensity_list.len()
        &&& all_wf(self.mz_list)
        &&& all_wf(self.intensity_list)
    }
}

impl View for SpectrumData {
    type V = SpectrumDataView;

    closed spec fn view(&self) -> SpectrumDataView {
        SpectrumDataView {
            mz_list: decimals_view(self.mz_list@),
            intensity_list: decimals_view(self.intensity_list@),
        }
    }
}

/// A copy of a list of numbers.
fn clone_decimals(list: &Vec<Decimal>) -> (copy: Vec<Decimal>)
    ensures
        decimals_view(copy@) == decimals_view(list@),
{
    let mut copy: Vec<Decimal> = Vec::new();
    let mut i: usize = 0;
    while i < list.len()
        invariant
            0 <= i <= list@.len(),
            decimals_view(copy@) == decimals_view(list@).take(i as int),
        decreases list@.len() - i,
    {
        let ghost before = copy@;
        let item = list[i].clone();
        assert(item@ == list@[i as int]@);
        copy.push(item);
        i += 1;
        assert(before.len() == decimals_view(before).len());
        assert(forall|j: int| 0 <= j < i - 1 ==> copy@[j] == before[j]);
        assert(forall|j: int|
            0 <= j < i - 1 ==> (#[trigger] decimals_view(before)[j]) == decimals_view(list@)[j]);
        assert(decimals_view(copy@) =~= decimals_view(list@).take(i as int));
    }
    assert(decimals_view(list@).take(list@.len() as int) =~= decimals_view(list@));
    copy
}

impl Clone for SpectrumData {
    fn clone(&self) -> (r: Self)
        ensures
            r@ == self@,
    {
        proof {
            use_type_invariant(self);
        }
        let mz_list = clone_decimals(&self.mz_list);
        let intensity_list = clone_decimals(&self.intensity_list);
        assert(mz_list@.len() == decimals_view(mz_list@).len());
        assert(intensity_list@.len() == decimals_view(intensity_list@).len());
        assert(self.mz_list@.len() == decimals_view(self.mz_list@).len());
        assert(self.intensity_list@.len() == decimals_view(self.intensity_list@).len());
        SpectrumData { mz_list, intensity_list }
    }
}

impl SpectrumData {
    #[verifier::type_invariant]
    spec fn inv(self) -> bool {
        self.mz_list@.len() == self.intensity_list@.len()
    }

    /// A peak list without peaks.
    pub fn new() -> (data: Self)
        ensures
            data@.mz_list.len() == 0,
            data@.intensity_list.len() == 0,
    {
        SpectrumData { mz_list: Vec::new(), intensity_list: Vec::new() }
    }

    /// The peak list of the two lists; `None` where their lengths differ.
    pub fn from_lists(mz_list: Vec<Decimal>, intensity_list: Vec<Decimal>) -> (data: Option<Self>)
        ensures
            data is Some <==> mz_list@.len() == intensity_list@.len(),
            data matches Some(d) ==> d@.mz_list == decimals_view(mz_list@) && d@.intensity_list
                == decimals_view(intensity_list@),
    {
        if mz_list.len() == intensity_list.len() {
            Some(SpectrumData { mz_list, intensity_list })
        } else {
            None
        }
    }

    /// The peak list of the two lists, paired as far as the shorter of them
    /// goes; what the longer one holds beyond that is left out.
    pub fn zip(mz_list: Vec<Decimal>, intensity_list: Vec<Decimal>) -> (data: Self)
        ensures
            ({
                let n = if mz_list@.len() <= intensity_list@.len() {
                    mz_list@.len() as int
                } else {
                    intensity_list@.len() as int
                };
                &&& data@.mz_list == decimals_view(mz_list@).take(n)
                &&& data@.intensity_list == decimals_view(intensity_list@).take(n)
            }),
    {
        let n: usize = if mz_list.len() <= intensity_list.len() {
            mz_list.len()
        } else {
            intensity_list.len()
        };
        let mut mz_list = mz_list;
        let mut intensity_list = intensity_list;
        let ghost all_mz = mz_list@;
        let ghost all_intensity = intensity_list@;
        mz_list.truncate(n);
        intensity_list.truncate(n);
        let data = SpectrumData { mz_list, intensity_list };
        assert(data@.mz_list =~= decimals_view(all_mz).take(n as int));
        assert(data@.intensity_list =~= decimals_view(all_intensity).take(n as int));
        data
    }

    /// The peak list with one more peak behind the others.
    pub fn with_peak(self, mz: Decimal, intensity: Decimal) -> (data: Self)
        ensures
            data@.mz_list == self@.mz_list.push(mz@),
            data@.intensity_list == self@.intensity_list.push(intensity@),
    {
        proof {
            use_type_invariant(&self);
        }
        let mut mz_list = self.mz_list;
        let mut intensity_list = self.intensity_list;
        mz_list.push(mz);
        intensity_list.push(intensity);
        let data = SpectrumData { mz_list, intensity_list };
        assert(data@.mz_list =~= self@.mz_list.push(mz@));
        assert(data@.intensity_list =~= self@.intensity_list.push(intensity@));
        data
    }

    /// The number of peaks.
    pub fn len(&self) -> (n: usize)
        ensures
            n == self@.mz_list.len(),
            n == self@.intensity_list.len(),
    {
        proof {
            use_type_invariant(self);
        }
        self.mz_list.len()
    }

    /// The mass-to-charge ratios, peak by peak.
    pub fn get_mz_list(&self) -> (list: &Vec<Decimal>)
        ensures
            decimals_view(list@) == self@.mz_list,
    {
        &self.mz_list
    }

    /// The intensities, peak by peak.
    pub fn get_intensity_list(&self) -> (list: &Vec<Decimal>)
        ensures
            decimals_view(list@) == self@.intensity_list,
    {
        &self.intensity_list
    }
}

/// A spectrum as one record of the interchange format.
#[derive(Clone, Debug, PartialEq, Eq)]
pub struct MgfSpectrum {
    pub header: MgfSpectrumHeader,
    pub data: SpectrumData,
}

/// What a spectrum holds.
pub struct MgfSpectrumView {
    pub header: MgfSpectrumHeaderView,
    pub data: SpectrumDataView,
}

impl MgfSpectrumView {
    /// Header and peak list are well formed.
    pub open spec fn wf(self) -> bool {
        self.header.wf() && self.data.wf()
    }
}

impl View for MgfSpectrum {
    type V = MgfSpectrumView;

    open spec fn view(&self) -> MgfSpectrumView {
        MgfSpectrumView { header: self.header@, data: self.data@ }
    }
}

impl MgfSpectrum {
    /// The spectrum of a header and a peak list.
    pub fn new(header: MgfSpectrumHeader, data: SpectrumData) -> (spectrum: Self)
        ensures
            spectrum@ == (MgfSpectrumView { header: header@, data: data@ }),
    {
        MgfSpectrum { header, data }
    }

    /// The mass-to-charge ratios, peak by peak.
    pub fn get_mz_list(&self) -> (list: &Vec<Decimal>)
        ensures
            decimals_view(list@) == self@.data.mz_list,
    {
        self.data.get_mz_list()
    }

    /// The intensities, peak by peak.
    pub fn get_intensity_list(&self) -> (list: &Vec<Decimal>)
        ensures
            decimals_view(list@) == self@.data.intensity_list,
    {
        self.data.get_intensity_list()
    }
}

/// The views of a list of spectra.
pub open spec fn spectra_view(list: Seq<MgfSpectrum>) -> Seq<MgfSpectrumView> {
    Seq::new(list.len(), |i: int| list[i]@)
}

} // verus!
