//! Writing and reading together: the reader gives back what the writer was
//! given.
//!
//! The proofs go in three steps. Line by line, the reader takes each line
//! that the writer produces for what it is. Record by record, it therefore
//! reads the lines of a record as the spectrum that was written. And since no
//! line of a record holds a line feed, the text splits into the very lines it
//! was joined from.

use crate::decimal::{lemma_parse_decimal_text, lemma_round_to, sign_text, DecimalView};
use crate::error::ParseFault;
use crate::mgf::grammar::{
    begin_ions, charge_key, charge_lines, charge_text, empty_draft, end_ions, finish_draft,
    header_lines, join_lines, lemma_join_lines_concat, lemma_join_lines_one, parse_charge,
    parse_peak, peak_line, peak_lines, pepmass_key, read_body, read_line, read_record,
    read_records, record_lines, record_text, records_text, rtinseconds_key, rtinseconds_lines,
    scans_key, scans_lines, split_lines, title_key, ReadOutcome, RecordDraft, INTENSITY_PLACES,
    MZ_PLACES,
};
use crate::mgf::spectrum::{MgfSpectrumHeaderView, MgfSpectrumView, SpectrumDataView};
use crate::text::{
    all_digits, find_from, is_digit, lemma_find_from, lemma_find_from_is, lemma_uint_text,
    uint_text, LINE_FEED, MINUS, PLUS, POINT, SPACE,
};
use vstd::prelude::*;
use vstd::string::is_ascii_spec_bytes;

verus! {

/// Whether `b` can stand in the text of a number: a digit, `-` or `.`.
pub open spec fn is_number_byte(b: u8) -> bool {
    is_digit(b) || b == MINUS || b == POINT
}

/// Whether `t` holds no line feed.
pub open spec fn single_line(t: Seq<u8>) -> bool {
    forall|i: int| 0 <= i < t.len() ==> #[trigger] t[i] != LINE_FEED
}

/// The bytes of the two markers and the five keys.
pub proof fn lemma_keys()
    ensures
        begin_ions() == seq![66u8, 69, 71, 73, 78, 32, 73, 79, 78, 83],
        end_ions() == seq![69u8, 78, 68, 32, 73, 79, 78, 83],
        title_key() == seq![84u8, 73, 84, 76, 69, 61],
        pepmass_key() == seq![80u8, 69, 80, 77, 65, 83, 83, 61],
        scans_key() == seq![83u8, 67, 65, 78, 83, 61],
        rtinseconds_key() == seq![82u8, 84, 73, 78, 83, 69, 67, 79, 78, 68, 83, 61],
        charge_key() == seq![67u8, 72, 65, 82, 71, 69, 61],
{
    reveal_strlit("BEGIN IONS");
    reveal_strlit("END IONS");
    reveal_strlit("TITLE=");
    reveal_strlit("PEPMASS=");
    reveal_strlit("SCANS=");
    reveal_strlit("RTINSECONDS=");
    reveal_strlit("CHARGE=");
    is_ascii_spec_bytes("BEGIN IONS");
    is_ascii_spec_bytes("END IONS");
    is_ascii_spec_bytes("TITLE=");
    is_ascii_spec_bytes("PEPMASS=");
    is_ascii_spec_bytes("SCANS=");
    is_ascii_spec_bytes("RTINSECONDS=");
    is_ascii_spec_bytes("CHARGE=");
    assert(begin_ions() =~= seq![66u8, 69, 71, 73, 78, 32, 73, 79, 78, 83]);
    assert(end_ions() =~= seq![69u8, 78, 68, 32, 73, 79, 78, 83]);
    assert(title_key() =~= seq![84u8, 73, 84, 76, 69, 61]);
    assert(pepmass_key() =~= seq![80u8, 69, 80, 77, 65, 83, 83, 61]);
    assert(scans_key() =~= seq![83u8, 67, 65, 78, 83, 61]);
    assert(rtinseconds_key() =~= seq![82u8, 84, 73, 78, 83, 69, 67, 79, 78, 68, 83, 61]);
    assert(charge_key() =~= seq![67u8, 72, 65, 82, 71, 69, 61]);
}

/// A line that begins with another byte than `key` neither begins with
/// `key` nor is `key`.
proof fn lemma_other_first_byte(key: Seq<u8>, line: Seq<u8>)
    requires
        key.len() > 0,
        line.len() == 0 || line[0] != key[0],
    ensures
        !key.is_prefix_of(line),
        line != key,
{
    if key.len() <= line.len() {
        assert(line.subrange(0, key.len() as int)[0] == line[0]);
    }
}

/// The text of a number holds digits, `-` and `.` only, and begins with a
/// digit or `-`.
pub proof fn lemma_decimal_text_bytes(d: DecimalView)
    requires
        d.wf(),
    ensures
        d.text().len() >= 1,
        is_digit(d.text()[0]) || d.text()[0] == MINUS,
        forall|i: int| 0 <= i < d.text().len() ==> is_number_byte(#[trigger] d.text()[i]),
{
    let t = d.text();
    let sign: int = if d.negative {
        1
    } else {
        0
    };
    assert(is_digit(d.int_digits[0]));
    assert forall|i: int| 0 <= i < t.len() implies is_number_byte(#[trigger] t[i]) by {
        if i < sign {
        } else if i < sign + d.int_digits.len() {
            assert(is_digit(d.int_digits[i - sign]));
        } else if i == sign + d.int_digits.len() {
        } else {
            assert(is_digit(d.frac_digits[i - sign - d.int_digits.len() - 1]));
        }
    }
}

/// Reading the text of a charge gives that charge.
pub proof fn lemma_parse_charge_text(charge: i8)
    ensures
        parse_charge(charge_text(charge)) == Some(charge),
        forall|i: int|
            0 <= i < charge_text(charge).len() ==> {
                let b = #[trigger] charge_text(charge)[i];
                is_digit(b) || b == MINUS || b == PLUS
            },
{
    let t = charge_text(charge);
    if charge < 0 {
        let digits = uint_text((-charge) as nat);
        lemma_uint_text((-charge) as nat);
        assert(t.subrange(1, t.len() - 1) =~= digits);
        assert forall|i: int| 0 <= i < t.len() implies {
            let b = #[trigger] t[i];
            is_digit(b) || b == MINUS || b == PLUS
        } by {
            if 1 <= i < t.len() - 1 {
                assert(is_digit(digits[i - 1]));
            }
        }
    } else {
        let digits = uint_text(charge as nat);
        lemma_uint_text(charge as nat);
        assert(is_digit(digits[0]));
        assert(t[0] == digits[0]);
        assert(t.subrange(0, t.len() - 1) =~= digits);
        assert forall|i: int| 0 <= i < t.len() implies {
            let b = #[trigger] t[i];
            is_digit(b) || b == MINUS || b == PLUS
        } by {
            if i < t.len() - 1 {
                assert(is_digit(digits[i]));
            }
        }
    }
}

/// Reading the line of two numbers gives the two numbers.
pub proof fn lemma_parse_peak_line(mz: DecimalView, intensity: DecimalView)
    requires
        mz.wf(),
        intensity.wf(),
    ensures
        parse_peak(mz.text() + seq![SPACE] + intensity.text()) == Ok::<
            (DecimalView, DecimalView),
            ParseFault,
        >((mz, intensity)),
{
    let a = mz.text();
    let b = intensity.text();
    let line = a + seq![SPACE] + b;
    lemma_decimal_text_bytes(mz);
    lemma_decimal_text_bytes(intensity);
    lemma_parse_decimal_text(mz);
    lemma_parse_decimal_text(intensity);
    assert forall|i: int| 0 <= i < a.len() implies line[i] != SPACE by {
        assert(is_number_byte(a[i]));
    }
    lemma_find_from_is(line, SPACE, 0, a.len() as int);
    assert forall|i: int| a.len() + 1 <= i < line.len() implies line[i] != SPACE by {
        assert(is_number_byte(b[i - a.len() - 1]));
    }
    lemma_find_from_is(line, SPACE, (a.len() + 1) as int, line.len() as int);
    assert(line.subrange(0, a.len() as int) =~= a);
    assert(line.subrange((a.len() + 1) as int, line.len() as int) =~= b);
}

/// How the reader takes the title line.
proof fn lemma_read_title_line(draft: RecordDraft, title: Seq<u8>)
    ensures
        read_line(draft, title_key() + title) == Ok::<RecordDraft, ParseFault>(
            RecordDraft { title: Some(title), ..draft },
        ),
        title_key() + title != end_ions(),
        title_key() + title != begin_ions(),
{
    lemma_keys();
    let line = title_key() + title;
    assert(line.subrange(0, title_key().len() as int) =~= title_key());
    assert(line.skip(title_key().len() as int) =~= title);
    lemma_other_first_byte(end_ions(), line);
    lemma_other_first_byte(begin_ions(), line);
}

/// How the reader takes the line of the precursor m/z.
proof fn lemma_read_pepmass_line(draft: RecordDraft, mz: DecimalView)
    requires
        mz.wf(),
    ensures
        read_line(draft, pepmass_key() + mz.text()) == Ok::<RecordDraft, ParseFault>(
            RecordDraft { precursor_mz: Some(mz), ..draft },
        ),
        pepmass_key() + mz.text() != end_ions(),
        pepmass_key() + mz.text() != begin_ions(),
{
    lemma_keys();
    let line = pepmass_key() + mz.text();
    assert(line.subrange(0, pepmass_key().len() as int) =~= pepmass_key());
    assert(line.skip(pepmass_key().len() as int) =~= mz.text());
    lemma_parse_decimal_text(mz);
    lemma_other_first_byte(end_ions(), line);
    lemma_other_first_byte(begin_ions(), line);
    lemma_other_first_byte(title_key(), line);
}

/// How the reader takes the line of the scan number.
proof fn lemma_read_scans_line(draft: RecordDraft, n: u32)
    ensures
        read_line(draft, scans_key() + uint_text(n as nat)) == Ok::<RecordDraft, ParseFault>(
            RecordDraft { scan_number: Some(n), ..draft },
        ),
        scans_key() + uint_text(n as nat) != end_ions(),
        scans_key() + uint_text(n as nat) != begin_ions(),
{
    lemma_keys();
    let line = scans_key() + uint_text(n as nat);
    assert(line.subrange(0, scans_key().len() as int) =~= scans_key());
    assert(line.skip(scans_key().len() as int) =~= uint_text(n as nat));
    lemma_uint_text(n as nat);
    lemma_other_first_byte(end_ions(), line);
    lemma_other_first_byte(begin_ions(), line);
    lemma_other_first_byte(title_key(), line);
    lemma_other_first_byte(pepmass_key(), line);
}

/// How the reader takes the line of the retention time.
proof fn lemma_read_rtinseconds_line(draft: RecordDraft, rt: DecimalView)
    requires
        rt.wf(),
    ensures
        read_line(draft, rtinseconds_key() + rt.text()) == Ok::<RecordDraft, ParseFault>(
            RecordDraft { retention_time: Some(rt), ..draft },
        ),
        rtinseconds_key() + rt.text() != end_ions(),
        rtinseconds_key() + rt.text() != begin_ions(),
{
    lemma_keys();
    let line = rtinseconds_key() + rt.text();
    assert(line.subrange(0, rtinseconds_key().len() as int) =~= rtinseconds_key());
    assert(line.skip(rtinseconds_key().len() as int) =~= rt.text());
    lemma_parse_decimal_text(rt);
    lemma_other_first_byte(end_ions(), line);
    lemma_other_first_byte(begin_ions(), line);
    lemma_other_first_byte(title_key(), line);
    lemma_other_first_byte(pepmass_key(), line);
    lemma_other_first_byte(scans_key(), line);
}

/// How the reader takes the line of the precursor charge.
proof fn lemma_read_charge_line(draft: RecordDraft, charge: i8)
    ensures
        read_line(draft, charge_key() + charge_text(charge)) == Ok::<RecordDraft, ParseFault>(
            RecordDraft { precursor_charge: Some(charge), ..draft },
        ),
        charge_key() + charge_text(charge) != end_ions(),
        charge_key() + charge_text(charge) != begin_ions(),
{
    lemma_keys();
    let line = charge_key() + charge_text(charge);
    assert(line.subrange(0, charge_key().len() as int) =~= charge_key());
    assert(line.skip(charge_key().len() as int) =~= charge_text(charge));
    lemma_parse_charge_text(charge);
    lemma_other_first_byte(end_ions(), line);
    lemma_other_first_byte(begin_ions(), line);
    lemma_other_first_byte(title_key(), line);
    lemma_other_first_byte(pepmass_key(), line);
    lemma_other_first_byte(scans_key(), line);
    lemma_other_first_byte(rtinseconds_key(), line);
}

/// How the reader takes the line of a peak.
proof fn lemma_read_peak_line(draft: RecordDraft, mz: DecimalView, intensity: DecimalView)
    requires
        mz.wf(),
        intensity.wf(),
    ensures
        read_line(draft, mz.text() + seq![SPACE] + intensity.text()) == Ok::<
            RecordDraft,
            ParseFault,
        >(
            RecordDraft {
                mz_list: draft.mz_list.push(mz),
                intensity_list: draft.intensity_list.push(intensity),
                ..draft
            },
        ),
        mz.text() + seq![SPACE] + intensity.text() != end_ions(),
        mz.text() + seq![SPACE] + intensity.text() != begin_ions(),
{
    lemma_keys();
    let line = mz.text() + seq![SPACE] + intensity.text();
    lemma_decimal_text_bytes(mz);
    assert(line[0] == mz.text()[0]);
    lemma_parse_peak_line(mz, intensity);
    lemma_other_first_byte(end_ions(), line);
    lemma_other_first_byte(begin_ions(), line);
    lemma_other_first_byte(title_key(), line);
    lemma_other_first_byte(pepmass_key(), line);
    lemma_other_first_byte(scans_key(), line);
    lemma_other_first_byte(rtinseconds_key(), line);
    lemma_other_first_byte(charge_key(), line);
}

/// The m/z of a peak as the writer writes it.
pub open spec fn written_mz(mz: DecimalView, round_values: bool) -> DecimalView {
    if round_values {
        mz.round_to(MZ_PLACES as nat)
    } else {
        mz
    }
}

/// The intensity of a peak as the writer writes it.
pub open spec fn written_intensity(intensity: DecimalView, round_values: bool) -> DecimalView {
    if round_values {
        intensity.round_to(INTENSITY_PLACES as nat)
    } else {
        intensity
    }
}

/// The spectrum that the record of `spectrum` holds: the header without the
/// precursor mass, which is not written, and the peaks as they were written.
pub open spec fn as_read(spectrum: MgfSpectrumView, round_values: bool) -> MgfSpectrumView {
    MgfSpectrumView {
        header: MgfSpectrumHeaderView { precursor_mass: None, ..spectrum.header },
        data: SpectrumDataView {
            mz_list: Seq::new(
                spectrum.data.mz_list.len(),
                |i: int| written_mz(spectrum.data.mz_list[i], round_values),
            ),
            intensity_list: Seq::new(
                spectrum.data.intensity_list.len(),
                |i: int| written_intensity(spectrum.data.intensity_list[i], round_values),
            ),
        },
    }
}

/// The draft after the lines of `part`, taken one after the other. A marker
/// among them is a fault: a record holds none between its two ends.
spec fn read_lines(draft: RecordDraft, part: Seq<Seq<u8>>) -> Result<RecordDraft, ParseFault>
    decreases part.len(),
{
    if part.len() == 0 {
        Ok(draft)
    } else {
        match read_lines(draft, part.drop_last()) {
            Ok(more) => if part.last() == end_ions() || part.last() == begin_ions() {
                Err(ParseFault::MissingTerminator)
            } else {
                read_line(more, part.last())
            },
            Err(fault) => Err(fault),
        }
    }
}

/// Taking no line leaves the draft as it is.
proof fn lemma_read_lines_none(draft: RecordDraft, part: Seq<Seq<u8>>)
    requires
        part.len() == 0,
    ensures
        read_lines(draft, part) == Ok::<RecordDraft, ParseFault>(draft),
{
}

/// Taking one line that is no marker is `read_line`.
proof fn lemma_read_lines_one(draft: RecordDraft, part: Seq<Seq<u8>>)
    requires
        part.len() == 1,
        part[0] != end_ions(),
        part[0] != begin_ions(),
    ensures
        read_lines(draft, part) == read_line(draft, part[0]),
{
    assert(part.drop_last().len() == 0);
    assert(read_lines(draft, part.drop_last()) == Ok::<RecordDraft, ParseFault>(draft));
}

/// Taking the lines of `a` and then those of `b` is taking those of `a + b`.
proof fn lemma_read_lines_concat(
    draft: RecordDraft,
    a: Seq<Seq<u8>>,
    b: Seq<Seq<u8>>,
    middle: RecordDraft,
    last: RecordDraft,
)
    requires
        read_lines(draft, a) == Ok::<RecordDraft, ParseFault>(middle),
        read_lines(middle, b) == Ok::<RecordDraft, ParseFault>(last),
    ensures
        read_lines(draft, a + b) == Ok::<RecordDraft, ParseFault>(last),
    decreases b.len(),
{
    if b.len() == 0 {
        assert(a + b =~= a);
    } else {
        assert((a + b).drop_last() =~= a + b.drop_last());
        assert((a + b).last() == b.last());
        match read_lines(middle, b.drop_last()) {
            Ok(before) => {
                lemma_read_lines_concat(draft, a, b.drop_last(), middle, before);
            },
            Err(_) => {},
        }
    }
}

/// Where the lines of `part` stand among `lines` from line `i` on and the
/// reader can take them all, it stands behind them with the draft they give.
proof fn lemma_read_body_lines(
    lines: Seq<Seq<u8>>,
    i: int,
    part: Seq<Seq<u8>>,
    draft: RecordDraft,
    last: RecordDraft,
)
    requires
        0 <= i,
        i + part.len() <= lines.len(),
        lines.subrange(i, i + part.len()) == part,
        read_lines(draft, part) == Ok::<RecordDraft, ParseFault>(last),
    ensures
        read_body(lines, i, draft) == read_body(lines, i + part.len(), last),
    decreases part.len(),
{
    if part.len() > 0 {
        let shorter = part.drop_last();
        let at = i + part.len() - 1;
        assert(lines.subrange(i, i + shorter.len()) =~= shorter);
        assert(lines.subrange(i, i + part.len())[part.len() - 1] == lines[at]);
        match read_lines(draft, shorter) {
            Ok(before) => {
                lemma_read_body_lines(lines, i, shorter, draft, before);
                assert(read_body(lines, at, before) == read_body(lines, at + 1, last));
            },
            Err(_) => {},
        }
    }
}

/// The draft that the reader holds after the header of `spectrum` and its
/// first `j` peaks.
spec fn draft_at(spectrum: MgfSpectrumView, round_values: bool, j: int) -> RecordDraft {
    RecordDraft {
        title: Some(spectrum.header.title),
        precursor_mz: Some(spectrum.header.precursor_mz),
        precursor_charge: spectrum.header.precursor_charge,
        retention_time: spectrum.header.retention_time,
        scan_number: spectrum.header.scan_number,
        mz_list: as_read(spectrum, round_values).data.mz_list.take(j),
        intensity_list: as_read(spectrum, round_values).data.intensity_list.take(j),
    }
}

/// The draft that the reader holds after the title and the precursor m/z.
spec fn draft_fixed(header: MgfSpectrumHeaderView) -> RecordDraft {
    RecordDraft {
        title: Some(header.title),
        precursor_mz: Some(header.precursor_mz),
        ..empty_draft()
    }
}

/// The reader takes the title line and the line of the precursor m/z.
proof fn lemma_read_fixed_lines(header: MgfSpectrumHeaderView)
    requires
        header.wf(),
    ensures
        read_lines(
            empty_draft(),
            seq![title_key() + header.title, pepmass_key() + header.precursor_mz.text()],
        ) == Ok::<RecordDraft, ParseFault>(draft_fixed(header)),
{
    let first = seq![title_key() + header.title];
    let second = seq![pepmass_key() + header.precursor_mz.text()];
    let d1 = RecordDraft { title: Some(header.title), ..empty_draft() };
    lemma_read_title_line(empty_draft(), header.title);
    lemma_read_lines_one(empty_draft(), first);
    lemma_read_pepmass_line(d1, header.precursor_mz);
    lemma_read_lines_one(d1, second);
    lemma_read_lines_concat(empty_draft(), first, second, d1, draft_fixed(header));
    assert(first + second =~= seq![
        title_key() + header.title,
        pepmass_key() + header.precursor_mz.text(),
    ]);
}

/// The reader takes the line of the scan number, where there is one.
proof fn lemma_read_scans_lines(draft: RecordDraft, scan_number: Option<u32>)
    requires
        draft.scan_number is None,
    ensures
        read_lines(draft, scans_lines(scan_number)) == Ok::<RecordDraft, ParseFault>(
            RecordDraft { scan_number, ..draft },
        ),
{
    match scan_number {
        Some(n) => {
            lemma_read_scans_line(draft, n);
            lemma_read_lines_one(draft, scans_lines(scan_number));
        },
        None => {
            lemma_read_lines_none(draft, scans_lines(scan_number));
        },
    }
}

/// The reader takes the line of the retention time, where there is one.
proof fn lemma_read_rtinseconds_lines(draft: RecordDraft, retention_time: Option<DecimalView>)
    requires
        draft.retention_time is None,
        retention_time matches Some(rt) ==> rt.wf(),
    ensures
        read_lines(draft, rtinseconds_lines(retention_time)) == Ok::<RecordDraft, ParseFault>(
            RecordDraft { retention_time, ..draft },
        ),
{
    match retention_time {
        Some(rt) => {
            lemma_read_rtinseconds_line(draft, rt);
            lemma_read_lines_one(draft, rtinseconds_lines(retention_time));
        },
        None => {
            lemma_read_lines_none(draft, rtinseconds_lines(retention_time));
        },
    }
}

/// The reader takes the line of the precursor charge, where there is one.
proof fn lemma_read_charge_lines(draft: RecordDraft, charge: Option<i8>)
    requires
        draft.precursor_charge is None,
    ensures
        read_lines(draft, charge_lines(charge)) == Ok::<RecordDraft, ParseFault>(
            RecordDraft { precursor_charge: charge, ..draft },
        ),
{
    match charge {
        Some(c) => {
            lemma_read_charge_line(draft, c);
            lemma_read_lines_one(draft, charge_lines(charge));
        },
        None => {
            lemma_read_lines_none(draft, charge_lines(charge));
        },
    }
}

/// The reader takes the first `j` peak lines of `spectrum`.
proof fn lemma_read_peak_lines(spectrum: MgfSpectrumView, round_values: bool, j: int)
    requires
        spectrum.wf(),
        0 <= j <= spectrum.data.mz_list.len(),
    ensures
        read_lines(
            draft_at(spectrum, round_values, 0),
            peak_lines(spectrum.data, round_values).take(j),
        ) == Ok::<RecordDraft, ParseFault>(draft_at(spectrum, round_values, j)),
    decreases j,
{
    let peaks = peak_lines(spectrum.data, round_values);
    let part = peaks.take(j);
    if j > 0 {
        let p = j - 1;
        lemma_read_peak_lines(spectrum, round_values, p);
        let mz = written_mz(spectrum.data.mz_list[p], round_values);
        let intensity = written_intensity(spectrum.data.intensity_list[p], round_values);
        let draft = draft_at(spectrum, round_values, p);
        let more = draft_at(spectrum, round_values, j);
        assert(spectrum.data.mz_list[p].wf());
        assert(spectrum.data.intensity_list[p].wf());
        lemma_round_to(spectrum.data.mz_list[p], MZ_PLACES as nat);
        lemma_round_to(spectrum.data.intensity_list[p], INTENSITY_PLACES as nat);
        lemma_read_peak_line(draft, mz, intensity);
        assert(part.drop_last() =~= peaks.take(p));
        assert(part.last() == mz.text() + seq![SPACE] + intensity.text());
        assert(more.mz_list =~= draft.mz_list.push(mz));
        assert(more.intensity_list =~= draft.intensity_list.push(intensity));
    }
}

/// The lines of a record between its two markers.
spec fn inner_lines(spectrum: MgfSpectrumView, round_values: bool) -> Seq<Seq<u8>> {
    seq![
        title_key() + spectrum.header.title,
        pepmass_key() + spectrum.header.precursor_mz.text(),
    ] + scans_lines(spectrum.header.scan_number) + rtinseconds_lines(
        spectrum.header.retention_time,
    ) + charge_lines(spectrum.header.precursor_charge) + peak_lines(spectrum.data, round_values)
}

/// The reader takes the lines of a record between its two markers.
proof fn lemma_read_inner_lines(spectrum: MgfSpectrumView, round_values: bool)
    requires
        spectrum.wf(),
    ensures
        read_lines(empty_draft(), inner_lines(spectrum, round_values)) == Ok::<
            RecordDraft,
            ParseFault,
        >(draft_at(spectrum, round_values, spectrum.data.mz_list.len() as int)),
{
    let header = spectrum.header;
    let fixed = seq![title_key() + header.title, pepmass_key() + header.precursor_mz.text()];
    let scans = scans_lines(header.scan_number);
    let rts = rtinseconds_lines(header.retention_time);
    let charges = charge_lines(header.precursor_charge);
    let peaks = peak_lines(spectrum.data, round_values);
    let d2 = draft_fixed(header);
    let d3 = RecordDraft { scan_number: header.scan_number, ..d2 };
    let d4 = RecordDraft { retention_time: header.retention_time, ..d3 };
    let d5 = RecordDraft { precursor_charge: header.precursor_charge, ..d4 };
    let n = spectrum.data.mz_list.len() as int;
    lemma_read_fixed_lines(header);
    lemma_read_scans_lines(d2, header.scan_number);
    lemma_read_lines_concat(empty_draft(), fixed, scans, d2, d3);
    lemma_read_rtinseconds_lines(d3, header.retention_time);
    lemma_read_lines_concat(empty_draft(), fixed + scans, rts, d3, d4);
    lemma_read_charge_lines(d4, header.precursor_charge);
    lemma_read_lines_concat(empty_draft(), fixed + scans + rts, charges, d4, d5);
    assert(d5.mz_list =~= draft_at(spectrum, round_values, 0).mz_list);
    assert(d5.intensity_list =~= draft_at(spectrum, round_values, 0).intensity_list);
    lemma_read_peak_lines(spectrum, round_values, n);
    assert(peaks.take(n) =~= peaks);
    lemma_read_lines_concat(
        empty_draft(),
        fixed + scans + rts + charges,
        peaks,
        d5,
        draft_at(spectrum, round_values, n),
    );
}

/// A record is its opening marker, the lines between and its closing marker.
proof fn lemma_record_lines_parts(spectrum: MgfSpectrumView, round_values: bool)
    ensures
        record_lines(spectrum, round_values) == seq![begin_ions()] + inner_lines(
            spectrum,
            round_values,
        ) + seq![end_ions()],
{
    assert(record_lines(spectrum, round_values) =~= seq![begin_ions()] + inner_lines(
        spectrum,
        round_values,
    ) + seq![end_ions()]);
}

/// Where the lines of a record stand among `lines` from line `k` on, the
/// reader reads from there the spectrum that was written, and stops behind
/// its last line.
pub proof fn lemma_read_record_lines(
    lines: Seq<Seq<u8>>,
    k: int,
    spectrum: MgfSpectrumView,
    round_values: bool,
)
    requires
        spectrum.wf(),
        0 <= k,
        k + record_lines(spectrum, round_values).len() <= lines.len(),
        lines.subrange(k, k + record_lines(spectrum, round_values).len()) == record_lines(
            spectrum,
            round_values,
        ),
    ensures
        read_record(lines, k) == (ReadOutcome::Record {
            spectrum: as_read(spectrum, round_values),
            next: k + record_lines(spectrum, round_values).len(),
        }),
{
    let record = record_lines(spectrum, round_values);
    let inner = inner_lines(spectrum, round_values);
    let n = spectrum.data.mz_list.len() as int;
    let m = record.len() as int;
    let last = draft_at(spectrum, round_values, n);
    lemma_record_lines_parts(spectrum, round_values);
    lemma_read_inner_lines(spectrum, round_values);
    assert(m == inner.len() + 2);
    assert(lines.subrange(k, k + m)[0] == lines[k]);
    assert(lines[k] == begin_ions());
    assert(lines.subrange(k, k + m)[m - 1] == lines[k + m - 1]);
    assert(lines[k + m - 1] == end_ions());
    assert(lines.subrange(k + 1, k + 1 + inner.len()) =~= lines.subrange(k, k + m).subrange(
        1,
        m - 1,
    ));
    assert(record.subrange(1, m - 1) =~= inner);
    lemma_read_body_lines(lines, k + 1, inner, empty_draft(), last);
    let read = as_read(spectrum, round_values);
    assert(last.mz_list =~= read.data.mz_list);
    assert(last.intensity_list =~= read.data.intensity_list);
    assert(finish_draft(last) == Some(read));
}

/// The line of a rounded peak holds the m/z with exactly five digits behind
/// its point, a space, and the intensity with exactly three digits behind
/// its point.
pub proof fn lemma_rounded_peak_line(mz: DecimalView, intensity: DecimalView)
    requires
        mz.wf(),
        intensity.wf(),
    ensures
        ({
            let m = mz.round_to(MZ_PLACES as nat);
            let i = intensity.round_to(INTENSITY_PLACES as nat);
            &&& peak_line(mz, intensity, true) == sign_text(m.negative) + m.int_digits + seq![POINT]
                + m.frac_digits + seq![SPACE] + sign_text(i.negative) + i.int_digits + seq![POINT]
                + i.frac_digits
            &&& m.frac_digits.len() == 5
            &&& i.frac_digits.len() == 3
            &&& m.int_digits.len() >= 1
            &&& i.int_digits.len() >= 1
            &&& all_digits(m.int_digits)
            &&& all_digits(m.frac_digits)
            &&& all_digits(i.int_digits)
            &&& all_digits(i.frac_digits)
        }),
{
    let m = mz.round_to(MZ_PLACES as nat);
    let i = intensity.round_to(INTENSITY_PLACES as nat);
    lemma_round_to(mz, MZ_PLACES as nat);
    lemma_round_to(intensity, INTENSITY_PLACES as nat);
    assert(peak_line(mz, intensity, true) =~= sign_text(m.negative) + m.int_digits + seq![POINT]
        + m.frac_digits + seq![SPACE] + sign_text(i.negative) + i.int_digits + seq![POINT]
        + i.frac_digits);
}

/// The byte with which a line of a record begins: the first letter of a
/// marker or of the key of a field that is present, or the first byte of a
/// number.
proof fn lemma_record_line_begins(spectrum: MgfSpectrumView, round_values: bool, i: int)
    requires
        spectrum.wf(),
        0 <= i < record_lines(spectrum, round_values).len(),
    ensures
        ({
            let line = record_lines(spectrum, round_values)[i];
            &&& line.len() >= 1
            &&& line[0] == scans_key()[0] ==> spectrum.header.scan_number is Some
            &&& line[0] == rtinseconds_key()[0] ==> spectrum.header.retention_time is Some
            &&& line[0] == charge_key()[0] ==> spectrum.header.precursor_charge is Some
            &&& line[0] == begin_ions()[0] <==> i == 0
            &&& line[0] == end_ions()[0] <==> i == record_lines(spectrum, round_values).len() - 1
        }),
{
    lemma_keys();
    let header = spectrum.header;
    let fixed = seq![
        begin_ions(),
        title_key() + header.title,
        pepmass_key() + header.precursor_mz.text(),
    ];
    let scans = scans_lines(header.scan_number);
    let rts = rtinseconds_lines(header.retention_time);
    let charges = charge_lines(header.precursor_charge);
    let head = header_lines(header);
    let peaks = peak_lines(spectrum.data, round_values);
    let all = record_lines(spectrum, round_values);
    assert(head == fixed + scans + rts + charges);
    if i < fixed.len() {
        assert(all[i] == fixed[i]);
    } else if i < fixed.len() + scans.len() {
        assert(all[i] == scans[i - fixed.len()]);
    } else if i < fixed.len() + scans.len() + rts.len() {
        assert(all[i] == rts[i - fixed.len() - scans.len()]);
    } else if i < head.len() {
        assert(all[i] == charges[i - fixed.len() - scans.len() - rts.len()]);
    } else if i < head.len() + peaks.len() {
        let p = i - head.len();
        assert(all[i] == peaks[p]);
        assert(spectrum.data.mz_list[p].wf());
        lemma_round_to(spectrum.data.mz_list[p], MZ_PLACES as nat);
        let mz = written_mz(spectrum.data.mz_list[p], round_values);
        lemma_decimal_text_bytes(mz);
        assert(all[i][0] == mz.text()[0]);
    } else {
        assert(all[i] == end_ions());
    }
}

/// A field that is absent leaves no line in the record: without a scan
/// number no line begins with `SCANS=`, without a retention time none with
/// `RTINSECONDS=`, without a charge none with `CHARGE=`.
pub proof fn lemma_absent_fields_have_no_line(spectrum: MgfSpectrumView, round_values: bool)
    requires
        spectrum.wf(),
    ensures
        forall|i: int|
            0 <= i < record_lines(spectrum, round_values).len() ==> {
                let line = #[trigger] record_lines(spectrum, round_values)[i];
                &&& spectrum.header.scan_number is None ==> !scans_key().is_prefix_of(line)
                &&& spectrum.header.retention_time is None ==> !rtinseconds_key().is_prefix_of(line)
                &&& spectrum.header.precursor_charge is None ==> !charge_key().is_prefix_of(line)
            },
{
    lemma_keys();
    assert forall|i: int| 0 <= i < record_lines(spectrum, round_values).len() implies {
        let line = #[trigger] record_lines(spectrum, round_values)[i];
        &&& spectrum.header.scan_number is None ==> !scans_key().is_prefix_of(line)
        &&& spectrum.header.retention_time is None ==> !rtinseconds_key().is_prefix_of(line)
        &&& spectrum.header.precursor_charge is None ==> !charge_key().is_prefix_of(line)
    } by {
        let line = record_lines(spectrum, round_values)[i];
        lemma_record_line_begins(spectrum, round_values, i);
        if spectrum.header.scan_number is None {
            lemma_other_first_byte(scans_key(), line);
        }
        if spectrum.header.retention_time is None {
            lemma_other_first_byte(rtinseconds_key(), line);
        }
        if spectrum.header.precursor_charge is None {
            lemma_other_first_byte(charge_key(), line);
        }
    }
}

/// Searching behind a text that stands in front is searching in what follows.
proof fn lemma_find_from_shift(front: Seq<u8>, rest: Seq<u8>, b: u8, p: int)
    requires
        0 <= p <= rest.len(),
    ensures
        find_from(front + rest, b, front.len() + p) == front.len() + find_from(rest, b, p),
    decreases rest.len() - p,
{
    if p < rest.len() {
        assert((front + rest)[front.len() + p] == rest[p]);
        if rest[p] != b {
            lemma_find_from_shift(front, rest, b, p + 1);
        }
    }
}

/// The lines behind a text that stands in front are the lines of what follows.
proof fn lemma_split_lines_shift(front: Seq<u8>, rest: Seq<u8>, p: int)
    requires
        0 <= p,
    ensures
        split_lines(front + rest, front.len() + p) == split_lines(rest, p),
    decreases rest.len() + 1 - p,
{
    if p < rest.len() {
        let end = find_from(rest, LINE_FEED, p);
        lemma_find_from(rest, LINE_FEED, p);
        lemma_find_from_shift(front, rest, 10, p);
        assert((front + rest).subrange(front.len() + p, front.len() + end) =~= rest.subrange(
            p,
            end,
        ));
        lemma_split_lines_shift(front, rest, end + 1);
    }
}

/// The lines of a text that begins with a line and a line feed are that
/// line and the lines of what follows.
proof fn lemma_split_lines_first(line: Seq<u8>, rest: Seq<u8>)
    requires
        single_line(line),
    ensures
        split_lines(line + seq![LINE_FEED] + rest, 0) == seq![line] + split_lines(rest, 0),
{
    let front = line + seq![LINE_FEED];
    let text = front + rest;
    assert forall|i: int| 0 <= i < line.len() implies text[i] != LINE_FEED by {
        assert(text[i] == line[i]);
    }
    assert(text[line.len() as int] == LINE_FEED);
    lemma_find_from_is(text, LINE_FEED, 0, line.len() as int);
    assert(text.subrange(0, line.len() as int) =~= line);
    lemma_split_lines_shift(front, rest, 0);
}

/// Splitting the text of lines gives the lines again, where no line holds a
/// line feed.
pub proof fn lemma_split_join_lines(lines: Seq<Seq<u8>>)
    requires
        forall|i: int| 0 <= i < lines.len() ==> single_line(#[trigger] lines[i]),
    ensures
        split_lines(join_lines(lines), 0) == lines,
    decreases lines.len(),
{
    if lines.len() == 0 {
    } else {
        let first = lines[0];
        let others = lines.skip(1);
        assert(lines =~= seq![first] + others);
        lemma_join_lines_concat(seq![first], others);
        lemma_join_lines_one(first);
        assert forall|i: int| 0 <= i < others.len() implies single_line(#[trigger] others[i]) by {
            assert(others[i] == lines[i + 1]);
        }
        lemma_split_join_lines(others);
        lemma_split_lines_first(first, join_lines(others));
    }
}

/// A key and a value that hold no line feed make a line that holds none.
proof fn lemma_single_line_concat(a: Seq<u8>, b: Seq<u8>)
    requires
        single_line(a),
        single_line(b),
    ensures
        single_line(a + b),
{
    assert forall|i: int| 0 <= i < (a + b).len() implies #[trigger] (a + b)[i] != LINE_FEED by {
        if i < a.len() {
            assert(a[i] != LINE_FEED);
        } else {
            assert(b[i - a.len()] != LINE_FEED);
        }
    }
}

/// The text of a number holds no line feed.
proof fn lemma_decimal_single_line(d: DecimalView)
    requires
        d.wf(),
    ensures
        single_line(d.text()),
{
    lemma_decimal_text_bytes(d);
    assert forall|i: int| 0 <= i < d.text().len() implies #[trigger] d.text()[i] != LINE_FEED by {
        assert(is_number_byte(d.text()[i]));
    }
}

/// The line of a peak holds no line feed.
proof fn lemma_peak_single_line(mz: DecimalView, intensity: DecimalView, round_values: bool)
    requires
        mz.wf(),
        intensity.wf(),
    ensures
        single_line(peak_line(mz, intensity, round_values)),
{
    lemma_round_to(mz, MZ_PLACES as nat);
    lemma_round_to(intensity, INTENSITY_PLACES as nat);
    let a = written_mz(mz, round_values);
    let b = written_intensity(intensity, round_values);
    lemma_decimal_single_line(a);
    lemma_decimal_single_line(b);
    lemma_single_line_concat(a.text(), seq![SPACE]);
    lemma_single_line_concat(a.text() + seq![SPACE], b.text());
}

/// No line of the header of a record holds a line feed, where the title
/// holds none.
proof fn lemma_header_single_lines(header: MgfSpectrumHeaderView)
    requires
        header.wf(),
        single_line(header.title),
    ensures
        forall|i: int|
            0 <= i < header_lines(header).len() ==> single_line(#[trigger] header_lines(header)[i]),
{
    lemma_keys();
    let fixed = seq![
        begin_ions(),
        title_key() + header.title,
        pepmass_key() + header.precursor_mz.text(),
    ];
    let scans = scans_lines(header.scan_number);
    let rts = rtinseconds_lines(header.retention_time);
    let charges = charge_lines(header.precursor_charge);
    lemma_single_line_concat(title_key(), header.title);
    lemma_decimal_single_line(header.precursor_mz);
    lemma_single_line_concat(pepmass_key(), header.precursor_mz.text());
    assert(forall|i: int| 0 <= i < fixed.len() ==> single_line(#[trigger] fixed[i]));
    if let Some(n) = header.scan_number {
        lemma_uint_text(n as nat);
        assert forall|i: int| 0 <= i < uint_text(n as nat).len() implies #[trigger] uint_text(
            n as nat,
        )[i] != LINE_FEED by {
            assert(is_digit(uint_text(n as nat)[i]));
        }
        lemma_single_line_concat(scans_key(), uint_text(n as nat));
    }
    assert(forall|i: int| 0 <= i < scans.len() ==> single_line(#[trigger] scans[i]));
    if let Some(rt) = header.retention_time {
        lemma_decimal_single_line(rt);
        lemma_single_line_concat(rtinseconds_key(), rt.text());
    }
    assert(forall|i: int| 0 <= i < rts.len() ==> single_line(#[trigger] rts[i]));
    if let Some(c) = header.precursor_charge {
        lemma_parse_charge_text(c);
        lemma_single_line_concat(charge_key(), charge_text(c));
    }
    assert(forall|i: int| 0 <= i < charges.len() ==> single_line(#[trigger] charges[i]));
    let all = header_lines(header);
    assert(all == fixed + scans + rts + charges);
    assert forall|i: int| 0 <= i < all.len() implies single_line(#[trigger] all[i]) by {
        if i < fixed.len() {
            assert(all[i] == fixed[i]);
        } else if i < fixed.len() + scans.len() {
            assert(all[i] == scans[i - fixed.len()]);
        } else if i < fixed.len() + scans.len() + rts.len() {
            assert(all[i] == rts[i - fixed.len() - scans.len()]);
        } else {
            assert(all[i] == charges[i - fixed.len() - scans.len() - rts.len()]);
        }
    }
}

/// No line of a record holds a line feed, where the title holds none.
pub proof fn lemma_record_single_lines(spectrum: MgfSpectrumView, round_values: bool)
    requires
        spectrum.wf(),
        single_line(spectrum.header.title),
    ensures
        forall|i: int|
            0 <= i < record_lines(spectrum, round_values).len() ==> single_line(
                #[trigger] record_lines(spectrum, round_values)[i],
            ),
{
    lemma_keys();
    let head = header_lines(spectrum.header);
    let peaks = peak_lines(spectrum.data, round_values);
    let all = record_lines(spectrum, round_values);
    lemma_header_single_lines(spectrum.header);
    assert forall|i: int| 0 <= i < peaks.len() implies single_line(#[trigger] peaks[i]) by {
        assert(spectrum.data.mz_list[i].wf());
        assert(spectrum.data.intensity_list[i].wf());
        lemma_peak_single_line(
            spectrum.data.mz_list[i],
            spectrum.data.intensity_list[i],
            round_values,
        );
    }
    assert forall|i: int| 0 <= i < all.len() implies single_line(#[trigger] all[i]) by {
        if i < head.len() {
            assert(all[i] == head[i]);
        } else if i < head.len() + peaks.len() {
            assert(all[i] == peaks[i - head.len()]);
        } else {
            assert(all[i] == end_ions());
        }
    }
}

/// Reading the text that was written for one spectrum gives that spectrum:
/// the header without the precursor mass, and its peaks as they were
/// written; and the reader stands behind the last line of the text.
pub proof fn lemma_read_written_record(spectrum: MgfSpectrumView, round_values: bool)
    requires
        spectrum.wf(),
        single_line(spectrum.header.title),
    ensures
        read_record(split_lines(record_text(spectrum, round_values), 0), 0) == (
        ReadOutcome::Record {
            spectrum: as_read(spectrum, round_values),
            next: split_lines(record_text(spectrum, round_values), 0).len() as int,
        }),
        as_read(spectrum, round_values).data.mz_list.len() == spectrum.data.mz_list.len(),
        as_read(spectrum, round_values).data.intensity_list.len() == spectrum.data.mz_list.len(),
{
    let lines = record_lines(spectrum, round_values);
    lemma_record_single_lines(spectrum, round_values);
    lemma_split_join_lines(lines);
    assert(lines.subrange(0, lines.len() as int) =~= lines);
    lemma_read_record_lines(lines, 0, spectrum, round_values);
}

/// Whether every spectrum of `spectra` is well formed and has a title that
/// holds no line feed.
pub open spec fn writable(spectra: Seq<MgfSpectrumView>) -> bool {
    forall|i: int|
        0 <= i < spectra.len() ==> (#[trigger] spectra[i]).wf() && single_line(
            spectra[i].header.title,
        )
}

/// The lines of the records of `spectra`, one record behind the other.
pub open spec fn records_lines(spectra: Seq<MgfSpectrumView>, round_values: bool) -> Seq<Seq<u8>>
    decreases spectra.len(),
{
    if spectra.len() == 0 {
        Seq::empty()
    } else {
        records_lines(spectra.drop_last(), round_values) + record_lines(
            spectra.last(),
            round_values,
        )
    }
}

/// How many of `lines` are the line `marker`.
pub open spec fn count_lines(lines: Seq<Seq<u8>>, marker: Seq<u8>) -> nat
    decreases lines.len(),
{
    if lines.len() == 0 {
        0
    } else {
        count_lines(lines.drop_last(), marker) + (if lines.last() == marker {
            1nat
        } else {
            0nat
        })
    }
}

/// Two runs of lines hold a marker as often as the one and the other
/// together.
proof fn lemma_count_lines_concat(a: Seq<Seq<u8>>, b: Seq<Seq<u8>>, marker: Seq<u8>)
    ensures
        count_lines(a + b, marker) == count_lines(a, marker) + count_lines(b, marker),
    decreases b.len(),
{
    if b.len() == 0 {
        assert(a + b =~= a);
    } else {
        lemma_count_lines_concat(a, b.drop_last(), marker);
        assert((a + b).drop_last() =~= a + b.drop_last());
        assert((a + b).last() == b.last());
    }
}

/// Among the first `j` lines of a record, the opening marker stands once
/// (after the first line) and the closing marker only as the last line.
proof fn lemma_record_markers_upto(spectrum: MgfSpectrumView, round_values: bool, j: int)
    requires
        spectrum.wf(),
        0 <= j <= record_lines(spectrum, round_values).len(),
    ensures
        count_lines(record_lines(spectrum, round_values).take(j), begin_ions()) == (if j >= 1 {
            1nat
        } else {
            0nat
        }),
        count_lines(record_lines(spectrum, round_values).take(j), end_ions()) == (if j
            == record_lines(spectrum, round_values).len() {
            1nat
        } else {
            0nat
        }),
    decreases j,
{
    lemma_keys();
    let lines = record_lines(spectrum, round_values);
    if j > 0 {
        lemma_record_markers_upto(spectrum, round_values, j - 1);
        lemma_record_line_begins(spectrum, round_values, j - 1);
        assert(lines.take(j).drop_last() =~= lines.take(j - 1));
        assert(lines.take(j).last() == lines[j - 1]);
    }
}

/// The lines of the records of `spectra` hold as many opening markers and
/// as many closing markers as there are spectra: one block for each.
pub proof fn lemma_one_block_each(spectra: Seq<MgfSpectrumView>, round_values: bool)
    requires
        forall|i: int| 0 <= i < spectra.len() ==> (#[trigger] spectra[i]).wf(),
    ensures
        count_lines(records_lines(spectra, round_values), begin_ions()) == spectra.len(),
        count_lines(records_lines(spectra, round_values), end_ions()) == spectra.len(),
    decreases spectra.len(),
{
    if spectra.len() > 0 {
        let before = records_lines(spectra.drop_last(), round_values);
        let record = record_lines(spectra.last(), round_values);
        assert forall|i: int| 0 <= i < spectra.drop_last().len() implies (
        #[trigger] spectra.drop_last()[i]).wf() by {
            assert(spectra.drop_last()[i] == spectra[i]);
        }
        lemma_one_block_each(spectra.drop_last(), round_values);
        assert(spectra.last() == spectra[spectra.len() - 1]);
        lemma_record_markers_upto(spectra.last(), round_values, record.len() as int);
        assert(record.take(record.len() as int) =~= record);
        lemma_count_lines_concat(before, record, begin_ions());
        lemma_count_lines_concat(before, record, end_ions());
    }
}

/// The spectra that the records of `spectra` hold.
pub open spec fn all_as_read(spectra: Seq<MgfSpectrumView>, round_values: bool) -> Seq<
    MgfSpectrumView,
> {
    Seq::new(spectra.len(), |i: int| as_read(spectra[i], round_values))
}

/// The text of records is the text of their lines.
proof fn lemma_records_text_lines(spectra: Seq<MgfSpectrumView>, round_values: bool)
    ensures
        records_text(spectra, round_values) == join_lines(records_lines(spectra, round_values)),
    decreases spectra.len(),
{
    if spectra.len() > 0 {
        lemma_records_text_lines(spectra.drop_last(), round_values);
        lemma_join_lines_concat(
            records_lines(spectra.drop_last(), round_values),
            record_lines(spectra.last(), round_values),
        );
    }
}

/// No line of the records holds a line feed.
proof fn lemma_records_single_lines(spectra: Seq<MgfSpectrumView>, round_values: bool)
    requires
        writable(spectra),
    ensures
        forall|i: int|
            0 <= i < records_lines(spectra, round_values).len() ==> single_line(
                #[trigger] records_lines(spectra, round_values)[i],
            ),
    decreases spectra.len(),
{
    if spectra.len() > 0 {
        let before = records_lines(spectra.drop_last(), round_values);
        let record = record_lines(spectra.last(), round_values);
        let all = records_lines(spectra, round_values);
        assert forall|i: int| 0 <= i < spectra.drop_last().len() implies (
        #[trigger] spectra.drop_last()[i]).wf() && single_line(
            spectra.drop_last()[i].header.title,
        ) by {
            assert(spectra.drop_last()[i] == spectra[i]);
        }
        lemma_records_single_lines(spectra.drop_last(), round_values);
        assert(spectra.last() == spectra[spectra.len() - 1]);
        lemma_record_single_lines(spectra.last(), round_values);
        assert forall|i: int| 0 <= i < all.len() implies single_line(#[trigger] all[i]) by {
            if i < before.len() {
                assert(all[i] == before[i]);
            } else {
                assert(all[i] == record[i - before.len()]);
            }
        }
    }
}

/// The lines of the first `j` records stand at the beginning of the lines
/// of all records.
proof fn lemma_records_lines_prefix(spectra: Seq<MgfSpectrumView>, round_values: bool, j: int)
    requires
        0 <= j <= spectra.len(),
    ensures
        records_lines(spectra.take(j), round_values).len() <= records_lines(
            spectra,
            round_values,
        ).len(),
        records_lines(spectra, round_values).subrange(
            0,
            records_lines(spectra.take(j), round_values).len() as int,
        ) == records_lines(spectra.take(j), round_values),
    decreases spectra.len() - j,
{
    let all = records_lines(spectra, round_values);
    if j == spectra.len() {
        assert(spectra.take(j) =~= spectra);
        assert(all.subrange(0, all.len() as int) =~= all);
    } else {
        lemma_records_lines_prefix(spectra, round_values, j + 1);
        let longer = records_lines(spectra.take(j + 1), round_values);
        let shorter = records_lines(spectra.take(j), round_values);
        assert(spectra.take(j + 1).drop_last() =~= spectra.take(j));
        assert(longer == shorter + record_lines(spectra[j], round_values));
        assert(all.subrange(0, shorter.len() as int) =~= all.subrange(
            0,
            longer.len() as int,
        ).subrange(0, shorter.len() as int));
        assert(longer.subrange(0, shorter.len() as int) =~= shorter);
    }
}

/// The lines of record `j` stand among the lines of all records, behind
/// those of the records before it.
proof fn lemma_record_lines_at(spectra: Seq<MgfSpectrumView>, round_values: bool, j: int)
    requires
        0 <= j < spectra.len(),
    ensures
        ({
            let all = records_lines(spectra, round_values);
            let at = records_lines(spectra.take(j), round_values).len() as int;
            let record = record_lines(spectra[j], round_values);
            &&& at + record.len() == records_lines(spectra.take(j + 1), round_values).len()
            &&& at + record.len() <= all.len()
            &&& all.subrange(at, at + record.len()) == record
        }),
{
    let all = records_lines(spectra, round_values);
    let shorter = records_lines(spectra.take(j), round_values);
    let longer = records_lines(spectra.take(j + 1), round_values);
    let record = record_lines(spectra[j], round_values);
    let at = shorter.len() as int;
    lemma_records_lines_prefix(spectra, round_values, j + 1);
    assert(spectra.take(j + 1).drop_last() =~= spectra.take(j));
    assert(longer == shorter + record);
    assert(all.subrange(at, at + record.len()) =~= all.subrange(0, longer.len() as int).subrange(
        at,
        at + record.len(),
    ));
    assert(longer.subrange(at, at + record.len()) =~= record);
}

/// From the first line of record `j` on, the reader reads record `j` and
/// all that follow.
proof fn lemma_read_records_from(spectra: Seq<MgfSpectrumView>, round_values: bool, j: int)
    requires
        writable(spectra),
        0 <= j <= spectra.len(),
    ensures
        read_records(
            records_lines(spectra, round_values),
            records_lines(spectra.take(j), round_values).len() as int,
        ) == Ok::<Seq<MgfSpectrumView>, ParseFault>(all_as_read(spectra, round_values).skip(j)),
    decreases spectra.len() - j,
{
    let all = records_lines(spectra, round_values);
    let at = records_lines(spectra.take(j), round_values).len() as int;
    let expected = all_as_read(spectra, round_values);
    if j == spectra.len() {
        assert(spectra.take(j) =~= spectra);
        assert(expected.skip(j) =~= Seq::<MgfSpectrumView>::empty());
        assert(read_record(all, at) == ReadOutcome::End);
    } else {
        let record = record_lines(spectra[j], round_values);
        let next = records_lines(spectra.take(j + 1), round_values).len() as int;
        lemma_record_lines_at(spectra, round_values, j);
        assert(spectra[j].wf());
        lemma_read_record_lines(all, at, spectra[j], round_values);
        lemma_read_records_from(spectra, round_values, j + 1);
        assert(read_record(all, at) == (ReadOutcome::Record {
            spectrum: as_read(spectra[j], round_values),
            next,
        }));
        assert(seq![as_read(spectra[j], round_values)] + expected.skip(j + 1) =~= expected.skip(
            j,
        ));
    }
}

/// Reading the text that was written for `spectra` gives as many records as
/// there are spectra, in their order; each holds the header that was written,
/// without the precursor mass, and as many peaks as its spectrum has, each
/// as it was written: rounded where the writer rounded, else unchanged.
pub proof fn lemma_read_written(spectra: Seq<MgfSpectrumView>, round_values: bool)
    requires
        writable(spectra),
    ensures
        read_records(split_lines(records_text(spectra, round_values), 0), 0) == Ok::<
            Seq<MgfSpectrumView>,
            ParseFault,
        >(all_as_read(spectra, round_values)),
        all_as_read(spectra, round_values).len() == spectra.len(),
        forall|i: int|
            0 <= i < spectra.len() ==> {
                let read = #[trigger] all_as_read(spectra, round_values)[i];
                &&& read.data.mz_list.len() == spectra[i].data.mz_list.len()
                &&& read.data.intensity_list.len() == spectra[i].data.mz_list.len()
            },
{
    let lines = records_lines(spectra, round_values);
    lemma_records_text_lines(spectra, round_values);
    lemma_records_single_lines(spectra, round_values);
    lemma_split_join_lines(lines);
    lemma_read_records_from(spectra, round_values, 0);
    assert(spectra.take(0) =~= Seq::<MgfSpectrumView>::empty());
    assert(all_as_read(spectra, round_values).skip(0) =~= all_as_read(spectra, round_values));
}

} // verus!
