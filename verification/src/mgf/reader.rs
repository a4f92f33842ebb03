//! The reader of the interchange format.
//!
//! The reader is given the bytes of the text and hands out its records one
//! by one. It never touches a file: whoever owns the file reads the bytes.

use crate::decimal::{lemma_text_parse_decimal, Decimal, DecimalView};
use crate::error::{MzioError, ParseFault};
use crate::mgf::grammar::{
    empty_draft, finish_draft, lemma_read_record_advances, parse_charge, parse_peak, read_body,
    read_line, read_record, read_records, split_lines, ReadOutcome, RecordDraft,
};
use crate::mgf::spectrum::{
    all_wf, decimals_view, option_view, spectra_view, MgfSpectrum, MgfSpectrumHeader,
    MgfSpectrumView, SpectrumData,
};
use crate::text::{find_byte, lemma_find_from, parse_u32, push_range, LINE_FEED, MINUS, PLUS, SPACE};
use vstd::prelude::*;
use vstd::slice::slice_subrange;
use vstd::string::StringSliceAdditionalSpecFns;

verus! {

/// The records `front`, and behind them those of `rest`, where `rest` has any.
spec fn with_front(
    front: Seq<MgfSpectrumView>,
    rest: Result<Seq<MgfSpectrumView>, ParseFault>,
) -> Result<Seq<MgfSpectrumView>, ParseFault> {
    match rest {
        Ok(list) => Ok(front + list),
        Err(fault) => Err(fault),
    }
}

/// The view of an optional title.
spec fn title_view(title: Option<Vec<u8>>) -> Option<Seq<u8>> {
    match title {
        Some(t) => Some(t@),
        None => None,
    }
}

/// What was gathered of a record so far.
struct Draft {
    title: Option<Vec<u8>>,
    precursor_mz: Option<Decimal>,
    precursor_charge: Option<i8>,
    retention_time: Option<Decimal>,
    scan_number: Option<u32>,
    mz_list: Vec<Decimal>,
    intensity_list: Vec<Decimal>,
}

impl View for Draft {
    type V = RecordDraft;

    closed spec fn view(&self) -> RecordDraft {
        RecordDraft {
            title: title_view(self.title),
            precursor_mz: option_view(self.precursor_mz),
            precursor_charge: self.precursor_charge,
            retention_time: option_view(self.retention_time),
            scan_number: self.scan_number,
            mz_list: decimals_view(self.mz_list@),
            intensity_list: decimals_view(self.intensity_list@),
        }
    }
}

/// Every number of the draft is well formed, and it has as many m/z values
/// as intensities.
spec fn draft_wf(draft: RecordDraft) -> bool {
    &&& draft.precursor_mz matches Some(mz) ==> mz.wf()
    &&& draft.retention_time matches Some(rt) ==> rt.wf()
    &&& draft.mz_list.len() == draft.intensity_list.len()
    &&& all_wf(draft.mz_list)
    &&& all_wf(draft.intensity_list)
}

/// Whether `line` begins with the bytes of `key`.
fn starts_with(line: &[u8], key: &str) -> (yes: bool)
    ensures
        yes == key.spec_bytes().is_prefix_of(line@),
{
    let key_bytes = key.as_bytes();
    let n: usize = key_bytes.len();
    if line.len() < n {
        return false;
    }
    let mut i: usize = 0;
    while i < n
        invariant
            0 <= i <= n,
            n == key_bytes@.len(),
            n <= line@.len(),
            key_bytes@ == key.spec_bytes(),
            forall|j: int| 0 <= j < i ==> line@[j] == key_bytes@[j],
        decreases n - i,
    {
        if line[i] != key_bytes[i] {
            assert(line@.subrange(0, n as int)[i as int] != key_bytes@[i as int]);
            return false;
        }
        i += 1;
    }
    assert(key_bytes@ =~= line@.subrange(0, n as int));
    true
}

/// Whether `line` is the bytes of `key`.
fn same_bytes(line: &[u8], key: &str) -> (yes: bool)
    ensures
        yes == (line@ == key.spec_bytes()),
{
    let yes = line.len() == key.as_bytes().len() && starts_with(line, key);
    proof {
        if yes {
            assert(line@.subrange(0, line@.len() as int) =~= line@);
        }
    }
    yes
}

/// What `line` holds behind the `skip` bytes it begins with.
fn rest_of(line: &[u8], skip: usize) -> (rest: &[u8])
    requires
        skip <= line@.len(),
    ensures
        rest@ == line@.skip(skip as int),
{
    slice_subrange(line, skip, line.len())
}

/// Reads a charge from its text.
fn read_charge(token: &[u8]) -> (r: Option<i8>)
    ensures
        r == parse_charge(token@),
{
    let n: usize = token.len();
    if n < 2 {
        return None;
    }
    let sign: u8 = token[n - 1];
    let leads: bool = token[0] == MINUS;
    let negative: bool = sign == MINUS;
    if sign != PLUS && sign != MINUS {
        return None;
    }
    if leads && !negative {
        return None;
    }
    let from: usize = if leads {
        1
    } else {
        0
    };
    let limit: u32 = if negative {
        128
    } else {
        127
    };
    match parse_u32(slice_subrange(token, from, n - 1), limit) {
        Some(magnitude) => {
            if negative {
                Some((-(magnitude as i32)) as i8)
            } else {
                Some(magnitude as i8)
            }
        },
        None => None,
    }
}

/// Reads a peak from its line.
fn read_peak(line: &[u8]) -> (r: Result<(Decimal, Decimal), ParseFault>)
    ensures
        match r {
            Ok((mz, intensity)) => parse_peak(line@) == Ok::<(DecimalView, DecimalView), ParseFault>(
                (mz@, intensity@),
            ) && mz@.wf() && intensity@.wf(),
            Err(fault) => parse_peak(line@) == Err::<(DecimalView, DecimalView), ParseFault>(
                fault,
            ),
        },
{
    let n: usize = line.len();
    let space: usize = find_byte(line, SPACE, 0);
    if space >= n {
        return Err(ParseFault::BadPeakLine);
    }
    if find_byte(line, SPACE, space + 1) < n {
        return Err(ParseFault::BadPeakLine);
    }
    let mz = Decimal::parse(slice_subrange(line, 0, space));
    let intensity = Decimal::parse(slice_subrange(line, space + 1, n));
    match (mz, intensity) {
        (Some(mz), Some(intensity)) => {
            proof {
                lemma_text_parse_decimal(line@.subrange(0, space as int));
                lemma_text_parse_decimal(line@.subrange(space + 1, n as int));
            }
            Ok((mz, intensity))
        },
        _ => Err(ParseFault::BadNumber),
    }
}

/// Takes one more line of the record into the draft.
fn read_line_into(draft: &mut Draft, line: &[u8]) -> (r: Result<(), ParseFault>)
    requires
        draft_wf(old(draft)@),
    ensures
        match r {
            Ok(()) => read_line(old(draft)@, line@) == Ok::<RecordDraft, ParseFault>(
                final(draft)@,
            ) && draft_wf(final(draft)@),
            Err(fault) => read_line(old(draft)@, line@) == Err::<RecordDraft, ParseFault>(fault),
        },
{
    if starts_with(line, "TITLE=") {
        let mut title: Vec<u8> = Vec::new();
        push_range(&mut title, line, "TITLE=".as_bytes().len(), line.len());
        draft.title = Some(title);
        Ok(())
    } else if starts_with(line, "PEPMASS=") {
        let value = rest_of(line, "PEPMASS=".as_bytes().len());
        match Decimal::parse(value) {
            Some(mz) => {
                proof {
                    lemma_text_parse_decimal(value@);
                }
                draft.precursor_mz = Some(mz);
                Ok(())
            },
            None => Err(ParseFault::BadNumber),
        }
    } else if starts_with(line, "SCANS=") {
        match parse_u32(rest_of(line, "SCANS=".as_bytes().len()), u32::MAX) {
            Some(n) => {
                draft.scan_number = Some(n);
                Ok(())
            },
            None => Err(ParseFault::BadNumber),
        }
    } else if starts_with(line, "RTINSECONDS=") {
        let value = rest_of(line, "RTINSECONDS=".as_bytes().len());
        match Decimal::parse(value) {
            Some(rt) => {
                proof {
                    lemma_text_parse_decimal(value@);
                }
                draft.retention_time = Some(rt);
                Ok(())
            },
            None => Err(ParseFault::BadNumber),
        }
    } else if starts_with(line, "CHARGE=") {
        match read_charge(rest_of(line, "CHARGE=".as_bytes().len())) {
            Some(charge) => {
                draft.precursor_charge = Some(charge);
                Ok(())
            },
            None => Err(ParseFault::BadNumber),
        }
    } else {
        match read_peak(line) {
            Ok((mz, intensity)) => {
                draft.mz_list.push(mz);
                draft.intensity_list.push(intensity);
                proof {
                    assert(final(draft)@.mz_list =~= old(draft)@.mz_list.push(mz@));
                    assert(final(draft)@.intensity_list =~= old(draft)@.intensity_list.push(
                        intensity@,
                    ));
                }
                Ok(())
            },
            Err(fault) => Err(fault),
        }
    }
}

/// The spectrum of a finished draft.
fn finish(draft: Draft) -> (r: Option<MgfSpectrum>)
    requires
        draft_wf(draft@),
    ensures
        match r {
            Some(spectrum) => finish_draft(draft@) == Some(spectrum@) && spectrum@.wf(),
            None => finish_draft(draft@) is None,
        },
{
    assert(draft.mz_list@.len() == decimals_view(draft.mz_list@).len());
    assert(draft.intensity_list@.len() == decimals_view(draft.intensity_list@).len());
    match (draft.title, draft.precursor_mz) {
        (Some(title), Some(precursor_mz)) => {
            let data = SpectrumData::from_lists(draft.mz_list, draft.intensity_list).unwrap();
            let header = MgfSpectrumHeader {
                title,
                precursor_mz,
                precursor_charge: draft.precursor_charge,
                precursor_mass: None,
                retention_time: draft.retention_time,
                scan_number: draft.scan_number,
            };
            Some(MgfSpectrum { header, data })
        },
        _ => None,
    }
}

/// Where a reader stands: at the byte `pos`, which is where the line `line`
/// begins.
struct Place {
    pos: usize,
    line: Ghost<int>,
}

/// Reader for MGF text. It walks the lines of the text it was given and
/// hands out one record at a time.
pub struct MgfReader {
    bytes: Vec<u8>,
    place: Place,
}

impl MgfReader {
    /// The lines of the text that the reader was given.
    pub closed spec fn lines(&self) -> Seq<Seq<u8>> {
        split_lines(self.bytes@, 0)
    }

    /// The index of the line at which the reader stands.
    pub closed spec fn cursor(&self) -> int {
        self.place.line@
    }

    /// The reader stands at the beginning of a line, or at the end.
    #[verifier::type_invariant]
    spec fn wf(&self) -> bool {
        &&& self.place.pos <= self.bytes@.len()
        &&& 0 <= self.place.line@ <= self.lines().len()
        &&& self.lines().skip(self.place.line@) == split_lines(
            self.bytes@,
            self.place.pos as int,
        )
    }

    /// A reader at the first line of the text `bytes`.
    pub fn new(bytes: Vec<u8>) -> (reader: Self)
        ensures
            reader.lines() == split_lines(bytes@, 0),
            reader.cursor() == 0,
    {
        assert(split_lines(bytes@, 0).skip(0) =~= split_lines(bytes@, 0));
        MgfReader { bytes, place: Place { pos: 0, line: Ghost(0) } }
    }

    /// Whether the reader stands behind the last line.
    fn at_end(&self) -> (yes: bool)
        ensures
            yes == (self.cursor() >= self.lines().len()),
            0 <= self.cursor() <= self.lines().len(),
    {
        proof {
            use_type_invariant(self);
            let here = split_lines(self.bytes@, self.place.pos as int);
            assert(here.len() == self.lines().len() - self.place.line@);
            if self.place.pos < self.bytes@.len() {
                assert(here.len() >= 1);
            }
        }
        self.place.pos >= self.bytes.len()
    }

    /// Where the line at the cursor begins and ends; the reader moves on to
    /// the next line.
    fn take_line(&mut self) -> (range: (usize, usize))
        requires
            old(self).cursor() < old(self).lines().len(),
        ensures
            final(self).bytes == old(self).bytes,
            final(self).lines() == old(self).lines(),
            final(self).cursor() == old(self).cursor() + 1,
            range.0 <= range.1 <= old(self).bytes@.len(),
            old(self).bytes@.subrange(range.0 as int, range.1 as int) == old(self).lines()[old(
                self,
            ).cursor()],
    {
        proof {
            use_type_invariant(&*self);
        }
        let ghost lines = self.lines();
        let ghost k = self.place.line@;
        let start: usize = self.place.pos;
        let end: usize = find_byte(self.bytes.as_slice(), LINE_FEED, start);
        proof {
            lemma_find_from(self.bytes@, LINE_FEED, start as int);
            let here = split_lines(self.bytes@, start as int);
            assert(here == seq![self.bytes@.subrange(start as int, end as int)] + split_lines(
                self.bytes@,
                end + 1,
            ));
            assert(lines.skip(k)[0] == lines[k]);
            assert(lines.skip(k + 1) =~= lines.skip(k).skip(1));
            assert(here.skip(1) =~= split_lines(self.bytes@, end + 1));
        }
        let pos: usize = if end < self.bytes.len() {
            end + 1
        } else {
            end
        };
        self.place = Place { pos, line: Ghost(k + 1) };
        (start, end)
    }

    /// Moves the reader behind the last line.
    fn give_up(&mut self)
        ensures
            final(self).bytes == old(self).bytes,
            final(self).lines() == old(self).lines(),
            final(self).cursor() == old(self).lines().len(),
    {
        let ghost lines = self.lines();
        assert(lines.skip(lines.len() as int) =~= Seq::<Seq<u8>>::empty());
        self.place = Place { pos: self.bytes.len(), line: Ghost(lines.len() as int) };
    }

    /// Reads the next record. `Ok(None)` says that no record is left. After
    /// a malformed record the reader stands behind the last line and has
    /// nothing more to give.
    pub fn next(&mut self) -> (r: Result<Option<MgfSpectrum>, MzioError>)
        ensures
            final(self).lines() == old(self).lines(),
            match read_record(old(self).lines(), old(self).cursor()) {
                ReadOutcome::End => r matches Ok(None) && final(self).cursor() == old(
                    self,
                ).lines().len(),
                ReadOutcome::Record { spectrum, next } => r matches Ok(Some(s)) && s@ == spectrum
                    && s@.wf() && final(self).cursor() == next,
                ReadOutcome::Failure { fault } => r == Err::<Option<MgfSpectrum>, MzioError>(
                    MzioError::ParseFailure { fault },
                ) && final(self).cursor() == old(self).lines().len(),
            },
    {
        proof {
            use_type_invariant(&*self);
        }
        let ghost lines = self.lines();
        let ghost first = self.cursor();
        let mut found: bool = false;
        while !found && !self.at_end()
            invariant
                self.lines() == lines,
                lines == old(self).lines(),
                first <= self.cursor() <= lines.len(),
                first == old(self).cursor(),
                !found ==> read_record(lines, first) == read_record(lines, self.cursor()),
                found ==> read_record(lines, first) == read_body(
                    lines,
                    self.cursor(),
                    empty_draft(),
                ),
            decreases lines.len() - self.cursor() + (if found { 0int } else { 1int }),
        {
            let (start, end) = self.take_line();
            let line = slice_subrange(self.bytes.as_slice(), start, end);
            found = same_bytes(line, "BEGIN IONS");
        }
        if !found {
            return Ok(None);
        }
        let mut draft = Draft {
            title: None,
            precursor_mz: None,
            precursor_charge: None,
            retention_time: None,
            scan_number: None,
            mz_list: Vec::new(),
            intensity_list: Vec::new(),
        };
        assert(draft@.mz_list =~= empty_draft().mz_list);
        assert(draft@.intensity_list =~= empty_draft().intensity_list);
        loop
            invariant
                self.lines() == lines,
                lines == old(self).lines(),
                0 <= self.cursor() <= lines.len(),
                draft_wf(draft@),
                first == old(self).cursor(),
                read_record(lines, first) == read_body(lines, self.cursor(), draft@),
            decreases lines.len() - self.cursor(),
        {
            if self.at_end() {
                return Err(MzioError::ParseFailure { fault: ParseFault::MissingTerminator });
            }
            let (start, end) = self.take_line();
            let line = slice_subrange(self.bytes.as_slice(), start, end);
            if same_bytes(line, "END IONS") {
                match finish(draft) {
                    Some(spectrum) => {
                        return Ok(Some(spectrum));
                    },
                    None => {
                        self.give_up();
                        return Err(MzioError::ParseFailure { fault: ParseFault::MissingField });
                    },
                }
            }
            if same_bytes(line, "BEGIN IONS") {
                self.give_up();
                return Err(MzioError::ParseFailure { fault: ParseFault::MissingTerminator });
            }
            match read_line_into(&mut draft, line) {
                Ok(()) => {},
                Err(fault) => {
                    self.give_up();
                    return Err(MzioError::ParseFailure { fault });
                },
            }
        }
    }

    /// Reads every record that is left, in their order. The first malformed
    /// record makes the whole reading fail.
    pub fn read_all(&mut self) -> (r: Result<Vec<MgfSpectrum>, MzioError>)
        ensures
            final(self).lines() == old(self).lines(),
            final(self).cursor() == old(self).lines().len(),
            match read_records(old(self).lines(), old(self).cursor()) {
                Ok(list) => r matches Ok(spectra) && spectra_view(spectra@) == list,
                Err(fault) => r == Err::<Vec<MgfSpectrum>, MzioError>(
                    MzioError::ParseFailure { fault },
                ),
            },
    {
        proof {
            use_type_invariant(&*self);
        }
        let ghost lines = self.lines();
        let ghost first = self.cursor();
        let mut spectra: Vec<MgfSpectrum> = Vec::new();
        assert(spectra_view(spectra@) =~= Seq::<MgfSpectrumView>::empty());
        proof {
            match read_records(lines, first) {
                Ok(list) => {
                    assert(Seq::<MgfSpectrumView>::empty() + list =~= list);
                },
                Err(_) => {},
            }
        }
        loop
            invariant
                self.lines() == lines,
                lines == old(self).lines(),
                first == old(self).cursor(),
                0 <= self.cursor() <= lines.len(),
                read_records(lines, first) == with_front(
                    spectra_view(spectra@),
                    read_records(lines, self.cursor()),
                ),
            decreases lines.len() - self.cursor(),
        {
            let ghost here = self.cursor();
            let ghost front = spectra_view(spectra@);
            proof {
                lemma_read_record_advances(lines, here);
            }
            match self.next() {
                Ok(Some(spectrum)) => {
                    spectra.push(spectrum);
                    proof {
                        let next = self.cursor();
                        assert(spectra_view(spectra@) =~= front.push(spectrum@));
                        match read_records(lines, next) {
                            Ok(rest) => {
                                assert(front + (seq![spectrum@] + rest) =~= front.push(spectrum@)
                                    + rest);
                            },
                            Err(_) => {},
                        }
                    }
                },
                Ok(None) => {
                    proof {
                        assert(front + Seq::<MgfSpectrumView>::empty() =~= front);
                    }
                    return Ok(spectra);
                },
                Err(error) => {
                    return Err(error);
                },
            }
        }
    }
}

} // verus!
