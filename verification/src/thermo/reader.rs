//! The reader of a spectrum source and the cursor that walks it.
//!
//! A source holds its spectra under the scan numbers from a first to a last
//! one, both included. Decoding a scan is the work of whoever owns the
//! source; the reader knows the bounds, says which scan is due and takes the
//! outcome of each decoding.

use crate::error::MzioError;
use crate::thermo::parallel::Dispatcher;
use crate::thermo::spectrum::{count_ms2, MS2_LEVEL};
use vstd::prelude::*;

verus! {

/// Where a cursor stands.
pub struct IterView {
    /// The scan that is due; `None` when the cursor has nothing more to give.
    pub pending: Option<u32>,
    /// The last scan of the source.
    pub last: u32,
    /// Whether only fragmentation scans are handed out.
    pub ms2_only: bool,
}

impl IterView {
    /// The scan that is due lies within the bounds.
    pub open spec fn wf(self) -> bool {
        self.pending matches Some(i) ==> i <= self.last
    }

    /// The cursor at the first scan of a source.
    pub open spec fn fresh(first: u32, last: u32, ms2_only: bool) -> IterView {
        IterView {
            pending: if first <= last {
                Some(first)
            } else {
                None
            },
            last,
            ms2_only,
        }
    }

    /// The cursor one scan further; behind the last scan nothing is due.
    pub open spec fn advanced(self) -> IterView {
        IterView {
            pending: match self.pending {
                Some(i) => if i < self.last {
                    Some((i + 1) as u32)
                } else {
                    None
                },
                None => None,
            },
            ..self
        }
    }

    /// The cursor after a failure: nothing is due any more.
    pub open spec fn stopped(self) -> IterView {
        IterView { pending: None, ..self }
    }

    /// The cursor `steps` scans further.
    pub open spec fn advanced_by(self, steps: nat) -> IterView
        decreases steps,
    {
        if steps == 0 {
            self
        } else {
            self.advanced_by((steps - 1) as nat).advanced()
        }
    }

    /// Whether the cursor hands out a spectrum of the tier `ms_level`.
    pub open spec fn keeps(self, ms_level: u8) -> bool {
        !self.ms2_only || ms_level == MS2_LEVEL
    }

    /// The scans that the cursor hands out while one scan after the other is
    /// decoded, where `levels` holds the tiers of the decoded spectra in the
    /// order of their decoding.
    pub open spec fn handed_out(self, levels: Seq<u8>) -> Seq<u32>
        decreases levels.len(),
    {
        if levels.len() == 0 {
            Seq::empty()
        } else {
            let before = self.handed_out(levels.drop_last());
            match self.advanced_by((levels.len() - 1) as nat).pending {
                Some(scan) => if self.keeps(levels.last()) {
                    before.push(scan)
                } else {
                    before
                },
                None => before,
            }
        }
    }
}

/// A cursor over the scans of a source, from the first to the last. Each
/// cursor stands for itself: moving one moves no other.
#[derive(Clone, Copy, Debug, PartialEq, Eq)]
pub struct ThermoSpectrumIter {
    current_spectrum_number: u32,
    last_spectrum_number: u32,
    finished: bool,
    ms2_only: bool,
}

impl View for ThermoSpectrumIter {
    type V = IterView;

    closed spec fn view(&self) -> IterView {
        IterView {
            pending: if self.finished || self.current_spectrum_number > self.last_spectrum_number {
                None
            } else {
                Some(self.current_spectrum_number)
            },
            last: self.last_spectrum_number,
            ms2_only: self.ms2_only,
        }
    }
}

impl ThermoSpectrumIter {
    /// A cursor at the first scan of a source with the given bounds.
    pub fn new(first_scan_number: u32, last_scan_number: u32, ms2_only: bool) -> (iter: Self)
        ensures
            iter@ == IterView::fresh(first_scan_number, last_scan_number, ms2_only),
            iter@.wf(),
    {
        ThermoSpectrumIter {
            current_spectrum_number: first_scan_number,
            last_spectrum_number: last_scan_number,
            finished: first_scan_number > last_scan_number,
            ms2_only,
        }
    }

    /// The scan that is to be decoded next; `None` when the cursor is
    /// behind the last scan or has seen a failure.
    pub fn pending(&self) -> (index: Option<u32>)
        ensures
            index == self@.pending,
    {
        if self.finished || self.current_spectrum_number > self.last_spectrum_number {
            None
        } else {
            Some(self.current_spectrum_number)
        }
    }

    /// Takes the outcome of decoding the scan that is due, and moves on.
    ///
    /// A decoded spectrum comes with its acquisition tier. It is handed out
    /// and the cursor moves to the next scan; one of a tier that the cursor
    /// does not keep is passed over, which is no failure, and `pending`
    /// tells it from the end. A failure is handed out as it is, and after it
    /// nothing is due any more. Where no scan is due the outcome is not
    /// looked at.
    pub fn next<T>(&mut self, fetched: Result<(u8, T), MzioError>) -> (r: Result<
        Option<T>,
        MzioError,
    >)
        ensures
            match (old(self)@.pending, fetched) {
                (None, _) => {
                    &&& r == Ok::<Option<T>, MzioError>(None)
                    &&& final(self)@ == old(self)@
                },
                (Some(_), Err(error)) => {
                    &&& r == Err::<Option<T>, MzioError>(error)
                    &&& final(self)@ == old(self)@.stopped()
                },
                (Some(_), Ok((ms_level, spectrum))) => {
                    &&& r == Ok::<Option<T>, MzioError>(
                        if old(self)@.keeps(ms_level) {
                            Some(spectrum)
                        } else {
                            None
                        },
                    )
                    &&& final(self)@ == old(self)@.advanced()
                },
            },
    {
        if self.finished || self.current_spectrum_number > self.last_spectrum_number {
            return Ok(None);
        }
        match fetched {
            Err(error) => {
                self.finished = true;
                Err(error)
            },
            Ok((ms_level, spectrum)) => {
                if self.current_spectrum_number < self.last_spectrum_number {
                    self.current_spectrum_number = self.current_spectrum_number + 1;
                } else {
                    self.finished = true;
                }
                if !self.ms2_only || ms_level == MS2_LEVEL {
                    Ok(Some(spectrum))
                } else {
                    Ok(None)
                }
            },
        }
    }
}

/// Reader for a Thermo raw file that was opened: the path of the file and
/// the bounds of its scan numbers, which stay as they are for its lifetime.
#[derive(Debug)]
pub struct ThermoReader {
    raw_file_path: String,
    first_scan_number: u32,
    last_scan_number: u32,
}

/// What a reader holds.
pub struct ThermoReaderView {
    pub raw_file_path: Seq<char>,
    pub first_scan_number: u32,
    pub last_scan_number: u32,
}

impl ThermoReaderView {
    /// Whether `number` lies within the bounds of the source.
    pub open spec fn contains(self, number: u32) -> bool {
        self.first_scan_number <= number <= self.last_scan_number
    }

    /// How many scans the source holds.
    pub open spec fn scan_count(self) -> nat {
        if self.first_scan_number <= self.last_scan_number {
            (self.last_scan_number - self.first_scan_number + 1) as nat
        } else {
            0
        }
    }
}

impl View for ThermoReader {
    type V = ThermoReaderView;

    closed spec fn view(&self) -> ThermoReaderView {
        ThermoReaderView {
            raw_file_path: self.raw_file_path@,
            first_scan_number: self.first_scan_number,
            last_scan_number: self.last_scan_number,
        }
    }
}

impl ThermoReader {
    /// The reader of the raw file at `raw_file_path`, whose scans are
    /// numbered from `first_scan_number` to `last_scan_number`.
    pub fn new(raw_file_path: String, first_scan_number: u32, last_scan_number: u32) -> (reader:
        Self)
        ensures
            reader@ == (ThermoReaderView {
                raw_file_path: raw_file_path@,
                first_scan_number,
                last_scan_number,
            }),
    {
        ThermoReader { raw_file_path, first_scan_number, last_scan_number }
    }

    /// The path of the raw file.
    pub fn get_raw_file_path(&self) -> (path: String)
        ensures
            path@ == self@.raw_file_path,
    {
        self.raw_file_path.clone()
    }

    /// The number of the first scan.
    pub fn get_first_scan_number(&self) -> (number: u32)
        ensures
            number == self@.first_scan_number,
    {
        self.first_scan_number
    }

    /// The number of the last scan.
    pub fn get_last_scan_number(&self) -> (number: u32)
        ensures
            number == self@.last_scan_number,
    {
        self.last_scan_number
    }

    /// How many scans the source holds.
    pub fn scan_count(&self) -> (count: u64)
        ensures
            count == self@.scan_count(),
    {
        if self.first_scan_number <= self.last_scan_number {
            (self.last_scan_number - self.first_scan_number) as u64 + 1
        } else {
            0
        }
    }

    /// Whether the scan `number` may be asked of the source: an error where it
    /// lies outside the bounds.
    pub fn check_scan_number(&self, number: u32) -> (r: Result<(), MzioError>)
        ensures
            r == (if self@.contains(number) {
                Ok::<(), MzioError>(())
            } else {
                Err::<(), MzioError>(MzioError::OutOfRange { index: number })
            }),
    {
        if self.first_scan_number <= number && number <= self.last_scan_number {
            Ok(())
        } else {
            Err(MzioError::OutOfRange { index: number })
        }
    }

    /// The spectrum of the scan `number`, given what decoding that scan came
    /// to: `decoded` is `None` where the source could not decode it. A number
    /// outside the bounds is an error whatever was decoded.
    pub fn get_spectrum<T>(&self, number: u32, decoded: Option<T>) -> (r: Result<T, MzioError>)
        ensures
            r == (if !self@.contains(number) {
                Err::<T, MzioError>(MzioError::OutOfRange { index: number })
            } else {
                match decoded {
                    Some(spectrum) => Ok::<T, MzioError>(spectrum),
                    None => Err::<T, MzioError>(MzioError::BackendFailure { index: number }),
                }
            }),
    {
        if number < self.first_scan_number || number > self.last_scan_number {
            return Err(MzioError::OutOfRange { index: number });
        }
        match decoded {
            Some(spectrum) => Ok(spectrum),
            None => Err(MzioError::BackendFailure { index: number }),
        }
    }

    /// A cursor over all scans, at the first one.
    pub fn iter(&self) -> (iter: ThermoSpectrumIter)
        ensures
            iter@ == IterView::fresh(self@.first_scan_number, self@.last_scan_number, false),
            iter@.wf(),
    {
        ThermoSpectrumIter::new(self.first_scan_number, self.last_scan_number, false)
    }

    /// A cursor over all scans, at the first one, that hands out the
    /// fragmentation scans only.
    pub fn ms2_iter(&self) -> (iter: ThermoSpectrumIter)
        ensures
            iter@ == IterView::fresh(self@.first_scan_number, self@.last_scan_number, true),
            iter@.wf(),
    {
        ThermoSpectrumIter::new(self.first_scan_number, self.last_scan_number, true)
    }

    /// A dispatcher that schedules every scan of the source once, with at
    /// most `queue_size` scans at work at a time.
    pub fn process_spectra_in_parallel(&self, queue_size: usize) -> (dispatcher: Dispatcher)
        ensures
            dispatcher@ == crate::thermo::parallel::DispatcherView::fresh(
                self@.first_scan_number,
                self@.last_scan_number,
                queue_size,
            ),
            dispatcher@.wf(),
    {
        Dispatcher::new(self.first_scan_number, self.last_scan_number, queue_size)
    }
}

/// The cursor of a source stays within the bounds of the source.
pub proof fn lemma_advanced_wf(iter: IterView)
    requires
        iter.wf(),
    ensures
        iter.advanced().wf(),
        iter.stopped().wf(),
{
}

/// A cursor that is fed one spectrum after the other walks the whole range:
/// after `steps` of them the scan `first + steps` is due, and behind the
/// last scan none.
pub proof fn lemma_full_traversal(first: u32, last: u32, ms2_only: bool, steps: nat)
    ensures
        IterView::fresh(first, last, ms2_only).advanced_by(steps).pending == (if first + steps
            <= last {
            Some((first + steps) as u32)
        } else {
            None
        }),
        IterView::fresh(first, last, ms2_only).advanced_by(steps).last == last,
        IterView::fresh(first, last, ms2_only).advanced_by(steps).ms2_only == ms2_only,
    decreases steps,
{
    if steps > 0 {
        lemma_full_traversal(first, last, ms2_only, (steps - 1) as nat);
    }
}

/// Two cursors over one source each walk the whole range: wherever the one
/// has got to, the other stands where its own steps have brought it.
pub proof fn lemma_independent_cursors(reader: ThermoReaderView, one: nat, other: nat)
    ensures
        ({
            let a = IterView::fresh(reader.first_scan_number, reader.last_scan_number, false);
            let b = IterView::fresh(reader.first_scan_number, reader.last_scan_number, false);
            &&& a.advanced_by(one).pending == (if reader.first_scan_number + one
                <= reader.last_scan_number {
                Some((reader.first_scan_number + one) as u32)
            } else {
                None
            })
            &&& b.advanced_by(other).pending == (if reader.first_scan_number + other
                <= reader.last_scan_number {
                Some((reader.first_scan_number + other) as u32)
            } else {
                None
            })
            &&& (a.advanced_by(one).pending is Some <==> one < reader.scan_count())
            &&& (b.advanced_by(other).pending is Some <==> other < reader.scan_count())
        }),
{
    lemma_full_traversal(reader.first_scan_number, reader.last_scan_number, false, one);
    lemma_full_traversal(reader.first_scan_number, reader.last_scan_number, false, other);
}

/// The scans from `first` on, as many as `levels` has tiers, of which the
/// tier is that of a fragmentation scan.
pub open spec fn ms2_scans(first: u32, levels: Seq<u8>) -> Seq<u32>
    decreases levels.len(),
{
    if levels.len() == 0 {
        Seq::empty()
    } else {
        let before = ms2_scans(first, levels.drop_last());
        if levels.last() == MS2_LEVEL {
            before.push((first + levels.len() - 1) as u32)
        } else {
            before
        }
    }
}

/// There are as many fragmentation scans as tiers of fragmentation scans.
pub proof fn lemma_ms2_scans_count(first: u32, levels: Seq<u8>)
    ensures
        ms2_scans(first, levels).len() == count_ms2(levels),
    decreases levels.len(),
{
    if levels.len() > 0 {
        lemma_ms2_scans_count(first, levels.drop_last());
    }
}

/// A cursor over the fragmentation scans that walks a source whose scans
/// all decode hands out exactly the fragmentation scans, in ascending order,
/// and passes over the others; a cursor over all scans hands out every scan.
pub proof fn lemma_handed_out(first: u32, last: u32, levels: Seq<u8>)
    requires
        first + levels.len() <= last + 1,
    ensures
        IterView::fresh(first, last, true).handed_out(levels) == ms2_scans(first, levels),
        IterView::fresh(first, last, true).handed_out(levels).len() == count_ms2(levels),
        IterView::fresh(first, last, false).handed_out(levels) == Seq::new(
            levels.len(),
            |k: int| (first + k) as u32,
        ),
    decreases levels.len(),
{
    lemma_ms2_scans_count(first, levels);
    if levels.len() > 0 {
        let k = (levels.len() - 1) as nat;
        lemma_handed_out(first, last, levels.drop_last());
        lemma_full_traversal(first, last, true, k);
        lemma_full_traversal(first, last, false, k);
        assert(IterView::fresh(first, last, false).handed_out(levels) =~= Seq::new(
            levels.len(),
            |k: int| (first + k) as u32,
        ));
    } else {
        assert(IterView::fresh(first, last, false).handed_out(levels) =~= Seq::new(
            levels.len(),
            |k: int| (first + k) as u32,
        ));
    }
}

} // verus!
