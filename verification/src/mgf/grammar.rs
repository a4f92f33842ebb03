//! The record grammar of the interchange format, line by line.
//!
//! A record is a run of lines, each ended by a line feed:
//!
//! ```text
//! BEGIN IONS
//! TITLE=<title>
//! PEPMASS=<precursor m/z>
//! SCANS=<scan number>            where present
//! RTINSECONDS=<retention time>   where present
//! CHARGE=<charge><sign>          where present
//! <m/z> <intensity>              one line for each peak
//! END IONS
//! ```
//!
//! The first half of this file says which lines the writer produces for a
//! spectrum, the second half what the reader makes of given lines.

use crate::decimal::{parse_decimal, DecimalView};
use crate::error::ParseFault;
use crate::mgf::spectrum::{MgfSpectrumHeaderView, MgfSpectrumView, SpectrumDataView};
use crate::text::{find_from, lemma_find_from, parse_uint, uint_text, LINE_FEED, MINUS, PLUS, SPACE};
use vstd::prelude::*;
use vstd::string::StringSliceAdditionalSpecFns;

verus! {

/// The line that opens a record.
pub open spec fn begin_ions() -> Seq<u8> {
    "BEGIN IONS".spec_bytes()
}

/// The line that closes a record.
pub open spec fn end_ions() -> Seq<u8> {
    "END IONS".spec_bytes()
}

/// What the title line begins with.
pub open spec fn title_key() -> Seq<u8> {
    "TITLE=".spec_bytes()
}

/// What the line of the precursor m/z begins with.
pub open spec fn pepmass_key() -> Seq<u8> {
    "PEPMASS=".spec_bytes()
}

/// What the line of the scan number begins with.
pub open spec fn scans_key() -> Seq<u8> {
    "SCANS=".spec_bytes()
}

/// What the line of the retention time begins with.
pub open spec fn rtinseconds_key() -> Seq<u8> {
    "RTINSECONDS=".spec_bytes()
}

/// What the line of the precursor charge begins with.
pub open spec fn charge_key() -> Seq<u8> {
    "CHARGE=".spec_bytes()
}

/// How many places after the point a rounded m/z has.
pub const MZ_PLACES: usize = 5;

/// How many places after the point a rounded intensity has.
pub const INTENSITY_PLACES: usize = 3;

/// The text of a charge: the number as it is written with its own sign, and
/// behind it `-` for a negative charge, `+` for any other. A negative charge
/// so carries its minus twice: `-2` is written `-2-`.
pub open spec fn charge_text(charge: i8) -> Seq<u8> {
    if charge < 0 {
        seq![MINUS] + uint_text((-charge) as nat) + seq![MINUS]
    } else {
        uint_text(charge as nat) + seq![PLUS]
    }
}

/// The line of one peak: m/z, a space, intensity. Rounded, the m/z has
/// exactly five places after the point and the intensity exactly three.
pub open spec fn peak_line(mz: DecimalView, intensity: DecimalView, round_values: bool) -> Seq<u8> {
    if round_values {
        mz.round_to(MZ_PLACES as nat).text() + seq![SPACE] + intensity.round_to(
            INTENSITY_PLACES as nat,
        ).text()
    } else {
        mz.text() + seq![SPACE] + intensity.text()
    }
}

/// The line of the scan number, where there is one.
pub open spec fn scans_lines(scan_number: Option<u32>) -> Seq<Seq<u8>> {
    match scan_number {
        Some(n) => seq![scans_key() + uint_text(n as nat)],
        None => Seq::empty(),
    }
}

/// The line of the retention time, where there is one.
pub open spec fn rtinseconds_lines(retention_time: Option<DecimalView>) -> Seq<Seq<u8>> {
    match retention_time {
        Some(rt) => seq![rtinseconds_key() + rt.text()],
        None => Seq::empty(),
    }
}

/// The line of the precursor charge, where there is one.
pub open spec fn charge_lines(charge: Option<i8>) -> Seq<Seq<u8>> {
    match charge {
        Some(c) => seq![charge_key() + charge_text(c)],
        None => Seq::empty(),
    }
}

/// The lines of a record up to its peaks. An absent field has no line.
pub open spec fn header_lines(header: MgfSpectrumHeaderView) -> Seq<Seq<u8>> {
    seq![begin_ions(), title_key() + header.title, pepmass_key() + header.precursor_mz.text()]
        + scans_lines(header.scan_number) + rtinseconds_lines(header.retention_time)
        + charge_lines(header.precursor_charge)
}

/// The lines of the peaks, in the order of the peak list.
pub open spec fn peak_lines(data: SpectrumDataView, round_values: bool) -> Seq<Seq<u8>> {
    Seq::new(
        data.mz_list.len(),
        |i: int| peak_line(data.mz_list[i], data.intensity_list[i], round_values),
    )
}

/// All lines of the record of a spectrum.
pub open spec fn record_lines(spectrum: MgfSpectrumView, round_values: bool) -> Seq<Seq<u8>> {
    header_lines(spectrum.header) + peak_lines(spectrum.data, round_values) + seq![end_ions()]
}

/// The text of `lines`: each line followed by a line feed.
pub open spec fn join_lines(lines: Seq<Seq<u8>>) -> Seq<u8>
    decreases lines.len(),
{
    if lines.len() == 0 {
        Seq::empty()
    } else {
        join_lines(lines.drop_last()) + lines.last() + seq![LINE_FEED]
    }
}

/// The text of the record of a spectrum.
pub open spec fn record_text(spectrum: MgfSpectrumView, round_values: bool) -> Seq<u8> {
    join_lines(record_lines(spectrum, round_values))
}

/// The text of the records of `spectra`, one behind the other.
pub open spec fn records_text(spectra: Seq<MgfSpectrumView>, round_values: bool) -> Seq<u8>
    decreases spectra.len(),
{
    if spectra.len() == 0 {
        Seq::empty()
    } else {
        records_text(spectra.drop_last(), round_values) + record_text(spectra.last(), round_values)
    }
}

/// The text of two runs of lines is the text of the first and then the text
/// of the second.
pub proof fn lemma_join_lines_concat(a: Seq<Seq<u8>>, b: Seq<Seq<u8>>)
    ensures
        join_lines(a + b) == join_lines(a) + join_lines(b),
    decreases b.len(),
{
    if b.len() == 0 {
        assert(a + b =~= a);
        assert(join_lines(a) + join_lines(b) =~= join_lines(a));
    } else {
        lemma_join_lines_concat(a, b.drop_last());
        assert((a + b).drop_last() =~= a + b.drop_last());
        assert((a + b).last() == b.last());
        assert(join_lines(a + b) =~= join_lines(a) + join_lines(b));
    }
}

/// The text of a single line is the line and a line feed.
pub proof fn lemma_join_lines_one(line: Seq<u8>)
    ensures
        join_lines(seq![line]) == line + seq![LINE_FEED],
{
    let one = seq![line];
    assert(one.drop_last() =~= Seq::<Seq<u8>>::empty());
    assert(join_lines(one.drop_last()) =~= Seq::<u8>::empty());
    assert(join_lines(one) =~= line + seq![LINE_FEED]);
}

/// The lines of `text` from position `start` on. A line ends before a line
/// feed or at the end of the text; after a final line feed no line follows.
pub open spec fn split_lines(text: Seq<u8>, start: int) -> Seq<Seq<u8>>
    decreases text.len() + 1 - start,
    via split_lines_decreases
{
    if start < 0 || start >= text.len() {
        Seq::empty()
    } else {
        let end = find_from(text, LINE_FEED, start);
        seq![text.subrange(start, end)] + split_lines(text, end + 1)
    }
}

#[via_fn]
proof fn split_lines_decreases(text: Seq<u8>, start: int) {
    if 0 <= start < text.len() {
        lemma_find_from(text, LINE_FEED, start);
    }
}

/// What the reader has gathered of a record so far.
pub struct RecordDraft {
    pub title: Option<Seq<u8>>,
    pub precursor_mz: Option<DecimalView>,
    pub precursor_charge: Option<i8>,
    pub retention_time: Option<DecimalView>,
    pub scan_number: Option<u32>,
    pub mz_list: Seq<DecimalView>,
    pub intensity_list: Seq<DecimalView>,
}

/// The draft of a record of which no line was read yet.
pub open spec fn empty_draft() -> RecordDraft {
    RecordDraft {
        title: None,
        precursor_mz: None,
        precursor_charge: None,
        retention_time: None,
        scan_number: None,
        mz_list: Seq::empty(),
        intensity_list: Seq::empty(),
    }
}

/// The charge that `t` spells: digits and behind them `+` or `-`, where `-`
/// makes the charge negative. A `-` may lead as well, but only together with
/// the `-` behind. `None` for every other text, and for a charge that does
/// not fit.
pub open spec fn parse_charge(t: Seq<u8>) -> Option<i8> {
    if t.len() < 2 {
        None
    } else {
        let leads = t[0] == MINUS;
        let negative = t.last() == MINUS;
        let from: int = if leads {
            1
        } else {
            0
        };
        let limit: nat = if negative {
            128
        } else {
            127
        };
        if t.last() != PLUS && t.last() != MINUS {
            None
        } else if leads && !negative {
            None
        } else {
            match parse_uint(t.subrange(from, t.len() - 1), limit) {
                Some(magnitude) => Some(
                    if negative {
                        (-(magnitude as int)) as i8
                    } else {
                        magnitude as i8
                    },
                ),
                None => None,
            }
        }
    }
}

/// The peak that `line` spells: two numbers with one space between them.
/// A line with no space or with more than one holds another count of values
/// than two.
pub open spec fn parse_peak(line: Seq<u8>) -> Result<(DecimalView, DecimalView), ParseFault> {
    let space = find_from(line, SPACE, 0);
    if space >= line.len() || find_from(line, SPACE, space + 1) < line.len() {
        Err(ParseFault::BadPeakLine)
    } else {
        match (
            parse_decimal(line.subrange(0, space)),
            parse_decimal(line.subrange(space + 1, line.len() as int)),
        ) {
            (Some(mz), Some(intensity)) => Ok((mz, intensity)),
            _ => Err(ParseFault::BadNumber),
        }
    }
}

/// The draft after one more line of the record. A line that begins with one
/// of the five keys sets that field, a later line of the same key
/// replaces an earlier one, and every other line is a peak.
pub open spec fn read_line(draft: RecordDraft, line: Seq<u8>) -> Result<RecordDraft, ParseFault> {
    if title_key().is_prefix_of(line) {
        Ok(RecordDraft { title: Some(line.skip(title_key().len() as int)), ..draft })
    } else if pepmass_key().is_prefix_of(line) {
        match parse_decimal(line.skip(pepmass_key().len() as int)) {
            Some(mz) => Ok(RecordDraft { precursor_mz: Some(mz), ..draft }),
            None => Err(ParseFault::BadNumber),
        }
    } else if scans_key().is_prefix_of(line) {
        match parse_uint(line.skip(scans_key().len() as int), u32::MAX as nat) {
            Some(n) => Ok(RecordDraft { scan_number: Some(n as u32), ..draft }),
            None => Err(ParseFault::BadNumber),
        }
    } else if rtinseconds_key().is_prefix_of(line) {
        match parse_decimal(line.skip(rtinseconds_key().len() as int)) {
            Some(rt) => Ok(RecordDraft { retention_time: Some(rt), ..draft }),
            None => Err(ParseFault::BadNumber),
        }
    } else if charge_key().is_prefix_of(line) {
        match parse_charge(line.skip(charge_key().len() as int)) {
            Some(charge) => Ok(RecordDraft { precursor_charge: Some(charge), ..draft }),
            None => Err(ParseFault::BadNumber),
        }
    } else {
        match parse_peak(line) {
            Ok((mz, intensity)) => Ok(
                RecordDraft {
                    mz_list: draft.mz_list.push(mz),
                    intensity_list: draft.intensity_list.push(intensity),
                    ..draft
                },
            ),
            Err(fault) => Err(fault),
        }
    }
}

/// The spectrum of a draft; `None` where the title or the precursor m/z is
/// missing. The reader knows no precursor mass.
pub open spec fn finish_draft(draft: RecordDraft) -> Option<MgfSpectrumView> {
    match (draft.title, draft.precursor_mz) {
        (Some(title), Some(precursor_mz)) => Some(
            MgfSpectrumView {
                header: MgfSpectrumHeaderView {
                    title,
                    precursor_mz,
                    precursor_charge: draft.precursor_charge,
                    precursor_mass: None,
                    retention_time: draft.retention_time,
                    scan_number: draft.scan_number,
                },
                data: SpectrumDataView {
                    mz_list: draft.mz_list,
                    intensity_list: draft.intensity_list,
                },
            },
        ),
        _ => None,
    }
}

/// What reading one record comes to.
pub enum ReadOutcome {
    /// No record begins in the lines that are left.
    End,
    /// A record was read; `next` is the index of the line behind it.
    Record { spectrum: MgfSpectrumView, next: int },
    /// The record is malformed.
    Failure { fault: ParseFault },
}

/// Reads the lines of a record from line `k` on, behind its `BEGIN IONS`,
/// up to its `END IONS`.
pub open spec fn read_body(lines: Seq<Seq<u8>>, k: int, draft: RecordDraft) -> ReadOutcome
    decreases lines.len() - k,
{
    if k < 0 || k >= lines.len() {
        ReadOutcome::Failure { fault: ParseFault::MissingTerminator }
    } else if lines[k] == end_ions() {
        match finish_draft(draft) {
            Some(spectrum) => ReadOutcome::Record { spectrum, next: k + 1 },
            None => ReadOutcome::Failure { fault: ParseFault::MissingField },
        }
    } else if lines[k] == begin_ions() {
        ReadOutcome::Failure { fault: ParseFault::MissingTerminator }
    } else {
        match read_line(draft, lines[k]) {
            Ok(more) => read_body(lines, k + 1, more),
            Err(fault) => ReadOutcome::Failure { fault },
        }
    }
}

/// Reads the next record from line `k` on: passes over every line up to
/// the next `BEGIN IONS`, then reads the record that it opens.
pub open spec fn read_record(lines: Seq<Seq<u8>>, k: int) -> ReadOutcome
    decreases lines.len() - k,
{
    if k < 0 || k >= lines.len() {
        ReadOutcome::End
    } else if lines[k] == begin_ions() {
        read_body(lines, k + 1, empty_draft())
    } else {
        read_record(lines, k + 1)
    }
}

/// A record that was read ends behind the line at which reading began.
pub proof fn lemma_read_body_advances(lines: Seq<Seq<u8>>, k: int, draft: RecordDraft)
    ensures
        read_body(lines, k, draft) matches ReadOutcome::Record { next, .. } ==> k < next
            <= lines.len(),
    decreases lines.len() - k,
{
    if 0 <= k < lines.len() && lines[k] != end_ions() && lines[k] != begin_ions() {
        if let Ok(more) = read_line(draft, lines[k]) {
            lemma_read_body_advances(lines, k + 1, more);
        }
    }
}

/// A record that was read ends behind the line at which the search began.
pub proof fn lemma_read_record_advances(lines: Seq<Seq<u8>>, k: int)
    ensures
        read_record(lines, k) matches ReadOutcome::Record { next, .. } ==> k < next
            <= lines.len(),
    decreases lines.len() - k,
{
    if 0 <= k < lines.len() {
        if lines[k] == begin_ions() {
            lemma_read_body_advances(lines, k + 1, empty_draft());
        } else {
            lemma_read_record_advances(lines, k + 1);
        }
    }
}

/// Reads every record from line `k` on, in their order; the first malformed
/// record makes the whole reading fail.
pub open spec fn read_records(lines: Seq<Seq<u8>>, k: int) -> Result<
    Seq<MgfSpectrumView>,
    ParseFault,
>
    decreases lines.len() - k,
    via read_records_decreases
{
    match read_record(lines, k) {
        ReadOutcome::End => Ok(Seq::empty()),
        ReadOutcome::Failure { fault } => Err(fault),
        ReadOutcome::Record { spectrum, next } => match read_records(lines, next) {
            Ok(rest) => Ok(seq![spectrum] + rest),
            Err(fault) => Err(fault),
        },
    }
}

#[via_fn]
proof fn read_records_decreases(lines: Seq<Seq<u8>>, k: int) {
    lemma_read_record_advances(lines, k);
}

} // verus!
