//! The writer of the interchange format.
//!
//! The writer turns spectra into the bytes of their records and keeps them
//! until they are taken out with `flush`. It never touches a file: whoever
//! owns the file writes the bytes that `flush` hands over.

use crate::decimal::Decimal;
use crate::mgf::grammar::{
    begin_ions, charge_key, charge_lines, charge_text, end_ions, header_lines, join_lines,
    lemma_join_lines_concat, peak_line, peak_lines, pepmass_key, record_lines, record_text,
    records_text, rtinseconds_key, rtinseconds_lines, scans_key, scans_lines, title_key,
    INTENSITY_PLACES, MZ_PLACES,
};
use crate::mgf::spectrum::{
    decimals_view, spectra_view, MgfSpectrum, MgfSpectrumHeader, SpectrumData,
};
use crate::text::{push_range, push_uint, uint_text, LINE_FEED, MINUS, PLUS, SPACE};
use vstd::prelude::*;
use vstd::string::StringSliceAdditionalSpecFns;

verus! {

/// The text of lines that end in `line` is the text of the lines before it,
/// then `line`, then a line feed.
proof fn lemma_join_lines_push(lines: Seq<Seq<u8>>, line: Seq<u8>)
    ensures
        join_lines(lines.push(line)) == join_lines(lines) + line + seq![LINE_FEED],
{
    assert(lines.push(line).drop_last() =~= lines);
}

/// Appends the bytes of `text` to `out`.
fn push_text(out: &mut Vec<u8>, text: &str)
    ensures
        final(out)@ == old(out)@ + text.spec_bytes(),
{
    let bytes = text.as_bytes();
    push_range(out, bytes, 0, bytes.len());
    assert(bytes@.subrange(0, bytes@.len() as int) =~= bytes@);
}

/// Appends the text of a charge to `out`.
fn push_charge(out: &mut Vec<u8>, charge: i8)
    ensures
        final(out)@ == old(out)@ + charge_text(charge),
{
    if charge < 0 {
        let magnitude: u32 = (-(charge as i32)) as u32;
        out.push(MINUS);
        push_uint(out, magnitude);
        out.push(MINUS);
        assert(out@ =~= old(out)@ + charge_text(charge));
    } else {
        push_uint(out, charge as u32);
        out.push(PLUS);
        assert(out@ =~= old(out)@ + charge_text(charge));
    }
}

/// Appends the line of a marker to `out`.
fn write_marker_line(out: &mut Vec<u8>, marker: &str)
    ensures
        final(out)@ == old(out)@ + marker.spec_bytes() + seq![LINE_FEED],
{
    push_text(out, marker);
    out.push(LINE_FEED);
}

/// Appends the title line to `out`.
fn write_title_line(out: &mut Vec<u8>, title: &Vec<u8>)
    ensures
        final(out)@ == old(out)@ + (title_key() + title@) + seq![LINE_FEED],
{
    push_text(out, "TITLE=");
    push_range(out, title.as_slice(), 0, title.len());
    out.push(LINE_FEED);
    assert(title@.subrange(0, title@.len() as int) =~= title@);
    assert(out@ =~= old(out)@ + (title_key() + title@) + seq![LINE_FEED]);
}

/// Appends the line of the precursor m/z to `out`.
fn write_pepmass_line(out: &mut Vec<u8>, precursor_mz: &Decimal)
    ensures
        final(out)@ == old(out)@ + (pepmass_key() + precursor_mz@.text()) + seq![LINE_FEED],
{
    push_text(out, "PEPMASS=");
    precursor_mz.write_to(out);
    out.push(LINE_FEED);
    assert(out@ =~= old(out)@ + (pepmass_key() + precursor_mz@.text()) + seq![LINE_FEED]);
}

/// Appends the line of the scan number to `out`.
fn write_scans_line(out: &mut Vec<u8>, scan_number: u32)
    ensures
        final(out)@ == old(out)@ + (scans_key() + uint_text(scan_number as nat)) + seq![LINE_FEED],
{
    push_text(out, "SCANS=");
    push_uint(out, scan_number);
    out.push(LINE_FEED);
    assert(out@ =~= old(out)@ + (scans_key() + uint_text(scan_number as nat)) + seq![LINE_FEED]);
}

/// Appends the line of the retention time to `out`.
fn write_rtinseconds_line(out: &mut Vec<u8>, retention_time: &Decimal)
    ensures
        final(out)@ == old(out)@ + (rtinseconds_key() + retention_time@.text()) + seq![LINE_FEED],
{
    push_text(out, "RTINSECONDS=");
    retention_time.write_to(out);
    out.push(LINE_FEED);
    assert(out@ =~= old(out)@ + (rtinseconds_key() + retention_time@.text()) + seq![LINE_FEED]);
}

/// Appends the line of the precursor charge to `out`.
fn write_charge_line(out: &mut Vec<u8>, charge: i8)
    ensures
        final(out)@ == old(out)@ + (charge_key() + charge_text(charge)) + seq![LINE_FEED],
{
    push_text(out, "CHARGE=");
    push_charge(out, charge);
    out.push(LINE_FEED);
    assert(out@ =~= old(out)@ + (charge_key() + charge_text(charge)) + seq![LINE_FEED]);
}

/// Appends the three lines that every record begins with to `out`.
fn write_fixed_lines(out: &mut Vec<u8>, header: &MgfSpectrumHeader)
    ensures
        final(out)@ == old(out)@ + join_lines(
            seq![
                begin_ions(),
                title_key() + header@.title,
                pepmass_key() + header@.precursor_mz.text(),
            ],
        ),
{
    let ghost none: Seq<Seq<u8>> = Seq::empty();
    let ghost first = begin_ions();
    let ghost second = title_key() + header@.title;
    let ghost third = pepmass_key() + header@.precursor_mz.text();
    write_marker_line(out, "BEGIN IONS");
    write_title_line(out, &header.title);
    write_pepmass_line(out, &header.precursor_mz);
    proof {
        lemma_join_lines_push(none, first);
        lemma_join_lines_push(none.push(first), second);
        lemma_join_lines_push(none.push(first).push(second), third);
        assert(none.push(first).push(second).push(third) =~= seq![first, second, third]);
        assert(join_lines(none) =~= Seq::<u8>::empty());
        assert(out@ =~= old(out)@ + join_lines(seq![first, second, third]));
    }
}

/// Appends the lines of the optional fields that are present to `out`.
fn write_optional_lines(out: &mut Vec<u8>, header: &MgfSpectrumHeader)
    ensures
        final(out)@ == old(out)@ + join_lines(scans_lines(header@.scan_number)) + join_lines(
            rtinseconds_lines(header@.retention_time),
        ) + join_lines(charge_lines(header@.precursor_charge)),
{
    let ghost none: Seq<Seq<u8>> = Seq::empty();
    assert(join_lines(none) =~= Seq::<u8>::empty());
    let ghost start = out@;
    if let Some(scan_number) = header.scan_number {
        write_scans_line(out, scan_number);
        proof {
            lemma_join_lines_push(none, scans_key() + uint_text(scan_number as nat));
            assert(none.push(scans_key() + uint_text(scan_number as nat)) =~= scans_lines(
                header@.scan_number,
            ));
        }
    }
    assert(out@ =~= start + join_lines(scans_lines(header@.scan_number)));
    let ghost after_scans = out@;
    match &header.retention_time {
        Some(retention_time) => {
            write_rtinseconds_line(out, retention_time);
            proof {
                lemma_join_lines_push(none, rtinseconds_key() + retention_time@.text());
                assert(none.push(rtinseconds_key() + retention_time@.text())
                    =~= rtinseconds_lines(header@.retention_time));
            }
        },
        None => {},
    }
    assert(out@ =~= after_scans + join_lines(rtinseconds_lines(header@.retention_time)));
    let ghost after_rt = out@;
    if let Some(charge) = header.precursor_charge {
        write_charge_line(out, charge);
        proof {
            lemma_join_lines_push(none, charge_key() + charge_text(charge));
            assert(none.push(charge_key() + charge_text(charge)) =~= charge_lines(
                header@.precursor_charge,
            ));
        }
    }
    assert(out@ =~= after_rt + join_lines(charge_lines(header@.precursor_charge)));
}

/// Appends the lines of a record up to its peaks to `out`.
fn write_header(out: &mut Vec<u8>, header: &MgfSpectrumHeader)
    ensures
        final(out)@ == old(out)@ + join_lines(header_lines(header@)),
{
    write_fixed_lines(out, header);
    write_optional_lines(out, header);
    proof {
        let fixed = seq![
            begin_ions(),
            title_key() + header@.title,
            pepmass_key() + header@.precursor_mz.text(),
        ];
        let scans = scans_lines(header@.scan_number);
        let rts = rtinseconds_lines(header@.retention_time);
        let charges = charge_lines(header@.precursor_charge);
        lemma_join_lines_concat(fixed, scans);
        lemma_join_lines_concat(fixed + scans, rts);
        lemma_join_lines_concat(fixed + scans + rts, charges);
        assert(out@ =~= old(out)@ + join_lines(header_lines(header@)));
    }
}

/// Appends the line of one peak to `out`.
fn write_peak(out: &mut Vec<u8>, mz: &Decimal, intensity: &Decimal, round_values: bool)
    ensures
        final(out)@ == old(out)@ + peak_line(mz@, intensity@, round_values) + seq![LINE_FEED],
{
    if round_values {
        let mz_rounded = mz.rounded(MZ_PLACES);
        let intensity_rounded = intensity.rounded(INTENSITY_PLACES);
        mz_rounded.write_to(out);
        out.push(SPACE);
        intensity_rounded.write_to(out);
    } else {
        mz.write_to(out);
        out.push(SPACE);
        intensity.write_to(out);
    }
    out.push(LINE_FEED);
    assert(out@ =~= old(out)@ + peak_line(mz@, intensity@, round_values) + seq![LINE_FEED]);
}

/// Appends the lines of the peaks to `out`.
fn write_peaks(out: &mut Vec<u8>, data: &SpectrumData, round_values: bool)
    ensures
        final(out)@ == old(out)@ + join_lines(peak_lines(data@, round_values)),
{
    let n: usize = data.len();
    let mz_list = data.get_mz_list();
    let intensity_list = data.get_intensity_list();
    let ghost all = peak_lines(data@, round_values);
    assert(all.take(0) =~= Seq::<Seq<u8>>::empty());
    assert(out@ =~= old(out)@ + join_lines(all.take(0)));
    let mut i: usize = 0;
    while i < n
        invariant
            0 <= i <= n,
            n == data@.mz_list.len(),
            n == data@.intensity_list.len(),
            decimals_view(mz_list@) == data@.mz_list,
            decimals_view(intensity_list@) == data@.intensity_list,
            all == peak_lines(data@, round_values),
            out@ == old(out)@ + join_lines(all.take(i as int)),
        decreases n - i,
    {
        assert(mz_list@.len() == decimals_view(mz_list@).len());
        assert(intensity_list@.len() == decimals_view(intensity_list@).len());
        assert(mz_list@[i as int]@ == decimals_view(mz_list@)[i as int]);
        assert(intensity_list@[i as int]@ == decimals_view(intensity_list@)[i as int]);
        write_peak(out, &mz_list[i], &intensity_list[i], round_values);
        proof {
            lemma_join_lines_push(all.take(i as int), all[i as int]);
            assert(all.take(i as int).push(all[i as int]) =~= all.take(i + 1));
            assert(out@ =~= old(out)@ + join_lines(all.take(i + 1)));
        }
        i += 1;
    }
    assert(all.take(n as int) =~= all);
}

/// Appends the record of `spectrum` to `out`.
fn write_record(out: &mut Vec<u8>, spectrum: &MgfSpectrum, round_values: bool)
    ensures
        final(out)@ == old(out)@ + record_text(spectrum@, round_values),
{
    write_header(out, &spectrum.header);
    write_peaks(out, &spectrum.data, round_values);
    push_text(out, "END IONS");
    out.push(LINE_FEED);
    proof {
        let head = header_lines(spectrum@.header);
        let peaks = peak_lines(spectrum@.data, round_values);
        lemma_join_lines_concat(head, peaks);
        lemma_join_lines_push(head + peaks, end_ions());
        assert((head + peaks).push(end_ions()) =~= record_lines(spectrum@, round_values));
        assert(out@ =~= old(out)@ + record_text(spectrum@, round_values));
    }
}

/// Writer for MGF text. What it has written waits in the writer until
/// `flush` takes it out.
pub struct MgfWriter {
    buffer: Vec<u8>,
}

impl View for MgfWriter {
    type V = Seq<u8>;

    /// The bytes written and not yet taken out.
    closed spec fn view(&self) -> Seq<u8> {
        self.buffer@
    }
}

impl MgfWriter {
    /// A writer that holds no bytes.
    pub fn new() -> (writer: Self)
        ensures
            writer@ == Seq::<u8>::empty(),
    {
        MgfWriter { buffer: Vec::new() }
    }

    /// A writer that holds no bytes and has room for `capacity` of them.
    pub fn with_capacity(capacity: usize) -> (writer: Self)
        ensures
            writer@ == Seq::<u8>::empty(),
    {
        MgfWriter { buffer: Vec::with_capacity(capacity) }
    }

    /// Writes the record of one spectrum and returns the number of bytes
    /// written. With `round_values` the peaks are rounded: m/z to five
    /// places, intensity to three.
    pub fn write_spectrum(&mut self, spectrum: &MgfSpectrum, round_values: bool) -> (written: usize)
        ensures
            final(self)@ == old(self)@ + record_text(spectrum@, round_values),
            written == record_text(spectrum@, round_values).len(),
    {
        let before: usize = self.buffer.len();
        write_record(&mut self.buffer, spectrum, round_values);
        self.buffer.len() - before
    }

    /// Writes the records of `spectra` in their order and returns the number
    /// of bytes written.
    pub fn write_all(&mut self, spectra: &[MgfSpectrum], round_values: bool) -> (written: usize)
        ensures
            final(self)@ == old(self)@ + records_text(spectra_view(spectra@), round_values),
            written == records_text(spectra_view(spectra@), round_values).len(),
    {
        let before: usize = self.buffer.len();
        let ghost all = spectra_view(spectra@);
        assert(all.take(0) =~= Seq::empty());
        assert(self.buffer@ =~= old(self).buffer@ + records_text(all.take(0), round_values));
        let mut i: usize = 0;
        while i < spectra.len()
            invariant
                0 <= i <= spectra@.len(),
                all == spectra_view(spectra@),
                before == old(self).buffer@.len(),
                self.buffer@ == old(self).buffer@ + records_text(all.take(i as int), round_values),
            decreases spectra@.len() - i,
        {
            write_record(&mut self.buffer, &spectra[i], round_values);
            proof {
                assert(all.take(i + 1).drop_last() =~= all.take(i as int));
                assert(all.take(i + 1).last() == spectra@[i as int]@);
                assert(self.buffer@ =~= old(self).buffer@ + records_text(
                    all.take(i + 1),
                    round_values,
                ));
            }
            i += 1;
        }
        assert(all.take(spectra@.len() as int) =~= all);
        self.buffer.len() - before
    }

    /// Takes out the bytes written so far. The writer holds none after it.
    pub fn flush(&mut self) -> (bytes: Vec<u8>)
        ensures
            bytes@ == old(self)@,
            final(self)@ == Seq::<u8>::empty(),
    {
        let mut bytes: Vec<u8> = Vec::new();
        bytes.append(&mut self.buffer);
        assert(bytes@ =~= old(self)@);
        bytes
    }

    /// The number of bytes written and not yet taken out.
    pub fn pending(&self) -> (n: usize)
        ensures
            n == self@.len(),
    {
        self.buffer.len()
    }
}

} // verus!
