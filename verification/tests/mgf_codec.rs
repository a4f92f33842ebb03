use mzio::decimal::Decimal;
use mzio::error::{MzioError, ParseFault};
use mzio::mgf::reader::MgfReader;
use mzio::mgf::spectrum::{MgfSpectrum, MgfSpectrumHeader, SpectrumData};
use mzio::mgf::writer::MgfWriter;

fn dec(text: &str) -> Decimal {
    Decimal::parse(text.as_bytes()).unwrap()
}

fn text_of(number: &Decimal) -> String {
    String::from_utf8(number.to_text()).unwrap()
}

fn rounded(text: &str, places: usize) -> String {
    text_of(&dec(text).rounded(places))
}

fn spectrum_with(title: &str, peaks: &[(&str, &str)]) -> MgfSpectrum {
    let header = MgfSpectrumHeader::new(title.as_bytes().to_vec(), dec("500.25"));
    let mz = peaks.iter().map(|p| dec(p.0)).collect();
    let intensity = peaks.iter().map(|p| dec(p.1)).collect();
    MgfSpectrum::new(header, SpectrumData::from_lists(mz, intensity).unwrap())
}

fn sample() -> MgfSpectrum {
    let mut spectrum =
        spectrum_with("scan=7", &[("100.123456789", "1500.25"), ("200.5", "3")]);
    spectrum.header.precursor_mz = dec("445.12");
    spectrum.header.precursor_charge = Some(2);
    spectrum.header.retention_time = Some(dec("12.5"));
    spectrum.header.scan_number = Some(7);
    spectrum
}

fn written(spectrum: &MgfSpectrum, round_values: bool) -> String {
    let mut writer = MgfWriter::new();
    writer.write_spectrum(spectrum, round_values);
    String::from_utf8(writer.flush()).unwrap()
}

fn read_one(text: &str) -> Result<Option<MgfSpectrum>, MzioError> {
    MgfReader::new(text.as_bytes().to_vec()).next()
}

fn fault(text: &str) -> ParseFault {
    match read_one(text) {
        Err(MzioError::ParseFailure { fault }) => fault,
        other => panic!("no parse failure: {:?}", other),
    }
}

#[test]
fn decimal_keeps_its_digits() {
    for text in ["0", "-0", "12.5", "007.50", "-445.120", "1000000000000000000000", "0.0000001"] {
        assert_eq!(text_of(&dec(text)), text);
    }
    assert!(dec("-1.5").is_negative());
    assert!(!dec("1.5").is_negative());
    assert_eq!(dec("1.250").places(), 3);
    assert_eq!(dec("7").places(), 0);
}

#[test]
fn decimal_rejects_what_is_no_number() {
    for text in ["", "-", ".5", "5.", "1e5", "1.2.3", "+1", "NaN", "inf", " 1", "1 ", "--1", "1,5"] {
        assert!(Decimal::parse(text.as_bytes()).is_none(), "{:?}", text);
    }
}

#[test]
fn decimal_rounding_fills_up_with_zeros() {
    assert_eq!(rounded("3", 3), "3.000");
    assert_eq!(rounded("200.5", 5), "200.50000");
    assert_eq!(rounded("-7.25", 3), "-7.250");
    assert_eq!(rounded("12", 0), "12");
    assert_eq!(rounded("1.25000", 5), "1.25000");
}

#[test]
fn decimal_rounding_cuts_to_nearest() {
    assert_eq!(rounded("100.123456789", 5), "100.12346");
    assert_eq!(rounded("100.123454999", 5), "100.12345");
    assert_eq!(rounded("1500.2504", 3), "1500.250");
    assert_eq!(rounded("1500.2506", 3), "1500.251");
    assert_eq!(rounded("2.5001", 0), "3");
    assert_eq!(rounded("-2.4999", 0), "-2");
}

#[test]
fn decimal_rounding_takes_half_to_even() {
    assert_eq!(rounded("0.015625", 5), "0.01562");
    assert_eq!(rounded("0.015635", 5), "0.01564");
    assert_eq!(rounded("1.000005", 5), "1.00000");
    assert_eq!(rounded("1.0000050", 5), "1.00000");
    assert_eq!(rounded("1.0000051", 5), "1.00001");
    assert_eq!(rounded("0.5", 0), "0");
    assert_eq!(rounded("1.5", 0), "2");
    assert_eq!(rounded("2.5", 0), "2");
}

#[test]
fn decimal_rounding_carries_into_a_new_digit() {
    assert_eq!(rounded("9.999996", 5), "10.00000");
    assert_eq!(rounded("999.9995", 3), "1000.000");
    assert_eq!(rounded("0.99999999", 3), "1.000");
    assert_eq!(rounded("99.5", 0), "100");
    assert_eq!(rounded("-0.0000001", 5), "-0.00000");
}

#[test]
fn decimal_rounding_agrees_with_float_formatting() {
    let values: [f64; 12] = [
        100.123456789,
        445.12,
        0.015625,
        0.125,
        2.5,
        0.5,
        1234.000004,
        99999.999996,
        0.0000001,
        -7.25,
        1.0e21,
        3.0,
    ];
    for value in values {
        for places in [0usize, 2, 3, 5] {
            let shortest = format!("{}", value);
            assert_eq!(rounded(&shortest, places), format!("{:.*}", places, value), "{}", value);
        }
    }
    let intensities: [f32; 4] = [1500.25, 0.5, 3.0, 12345.678];
    for value in intensities {
        let shortest = format!("{}", value);
        assert_eq!(rounded(&shortest, 3), format!("{:.3}", value), "{}", value);
    }
}

#[test]
fn decimal_clone_is_equal() {
    let number = dec("-12.0340");
    assert_eq!(number.clone(), number);
}

#[test]
fn writes_record_in_fixed_order() {
    let mut writer = MgfWriter::new();
    let count = writer.write_spectrum(&sample(), false);
    assert_eq!(writer.pending(), count);
    let bytes = writer.flush();
    let expected = "BEGIN IONS\nTITLE=scan=7\nPEPMASS=445.12\nSCANS=7\nRTINSECONDS=12.5\nCHARGE=2+\n100.123456789 1500.25\n200.5 3\nEND IONS\n";
    assert_eq!(String::from_utf8(bytes).unwrap(), expected);
    assert_eq!(count, expected.len());
    assert_eq!(writer.pending(), 0);
}

#[test]
fn rounds_peaks_to_five_and_three_places() {
    let text = written(&sample(), true);
    let expected = "BEGIN IONS\nTITLE=scan=7\nPEPMASS=445.12\nSCANS=7\nRTINSECONDS=12.5\nCHARGE=2+\n100.12346 1500.250\n200.50000 3.000\nEND IONS\n";
    assert_eq!(text, expected);
}

#[test]
fn unrounded_peaks_keep_their_digits() {
    let text = written(&spectrum_with("t", &[("0.1", "1"), ("1234.5678901", "0.000001")]), false);
    assert_eq!(
        text,
        "BEGIN IONS\nTITLE=t\nPEPMASS=500.25\n0.1 1\n1234.5678901 0.000001\nEND IONS\n"
    );
}

#[test]
fn absent_fields_have_no_line() {
    let text = written(&spectrum_with("bare", &[]), false);
    assert_eq!(text, "BEGIN IONS\nTITLE=bare\nPEPMASS=500.25\nEND IONS\n");
    assert!(!text.contains("RTINSECONDS"));
    assert!(!text.contains("SCANS"));
    assert!(!text.contains("CHARGE"));
}

#[test]
fn retention_time_line_only_where_present() {
    let mut spectrum = spectrum_with("rt", &[]);
    assert!(!written(&spectrum, false).contains("RTINSECONDS"));
    spectrum.header.retention_time = Some(dec("12.5"));
    assert_eq!(
        written(&spectrum, false),
        "BEGIN IONS\nTITLE=rt\nPEPMASS=500.25\nRTINSECONDS=12.5\nEND IONS\n"
    );
    assert_eq!(
        written(&spectrum, true),
        "BEGIN IONS\nTITLE=rt\nPEPMASS=500.25\nRTINSECONDS=12.5\nEND IONS\n"
    );
}

#[test]
fn charge_carries_its_sign_behind() {
    let mut spectrum = spectrum_with("z", &[]);
    spectrum.header.precursor_charge = Some(2);
    assert!(written(&spectrum, false).contains("\nCHARGE=2+\n"));
    spectrum.header.precursor_charge = Some(-2);
    assert!(written(&spectrum, false).contains("\nCHARGE=-2-\n"));
    spectrum.header.precursor_charge = Some(0);
    assert!(written(&spectrum, false).contains("\nCHARGE=0+\n"));
    spectrum.header.precursor_charge = Some(127);
    assert!(written(&spectrum, false).contains("\nCHARGE=127+\n"));
    spectrum.header.precursor_charge = Some(-128);
    assert!(written(&spectrum, false).contains("\nCHARGE=-128-\n"));
}

#[test]
fn precursor_mass_is_not_written() {
    let mut spectrum = spectrum_with("m", &[]);
    spectrum.header.precursor_mass = Some(dec("999.5"));
    assert_eq!(written(&spectrum, false), "BEGIN IONS\nTITLE=m\nPEPMASS=500.25\nEND IONS\n");
}

#[test]
fn scan_number_is_written_in_full() {
    let mut spectrum = spectrum_with("s", &[]);
    spectrum.header.scan_number = Some(0);
    assert!(written(&spectrum, false).contains("\nSCANS=0\n"));
    spectrum.header.scan_number = Some(4294967295);
    assert!(written(&spectrum, false).contains("\nSCANS=4294967295\n"));
}

#[test]
fn write_all_writes_in_order_and_counts() {
    let spectra = vec![spectrum_with("a", &[("1", "2")]), sample(), spectrum_with("c", &[])];
    let mut writer = MgfWriter::with_capacity(1024);
    let count = writer.write_all(&spectra, false);
    let text = String::from_utf8(writer.flush()).unwrap();
    let expected = format!(
        "{}{}{}",
        written(&spectra[0], false),
        written(&spectra[1], false),
        written(&spectra[2], false)
    );
    assert_eq!(text, expected);
    assert_eq!(count, expected.len());
    assert_eq!(MgfWriter::new().write_all(&[], true), 0);
}

#[test]
fn flush_hands_over_and_empties() {
    let mut writer = MgfWriter::new();
    assert_eq!(writer.flush(), Vec::<u8>::new());
    let first = writer.write_spectrum(&sample(), false);
    let second = writer.write_spectrum(&sample(), true);
    assert_eq!(writer.pending(), first + second);
    assert_eq!(writer.flush().len(), first + second);
    assert_eq!(writer.flush(), Vec::<u8>::new());
}

#[test]
fn peak_lists_of_unequal_length_are_refused() {
    assert!(SpectrumData::from_lists(vec![dec("1")], vec![]).is_none());
    assert!(SpectrumData::from_lists(vec![], vec![dec("1")]).is_none());
    let data = SpectrumData::from_lists(vec![dec("1")], vec![dec("2")]).unwrap();
    assert_eq!(data.len(), 1);
    let more = data.clone().with_peak(dec("3"), dec("4"));
    assert_eq!(more.len(), 2);
    assert_eq!(more.get_mz_list(), &vec![dec("1"), dec("3")]);
    assert_eq!(more.get_intensity_list(), &vec![dec("2"), dec("4")]);
    assert_eq!(SpectrumData::new().len(), 0);
}

#[test]
fn zip_pairs_up_to_the_shorter_list() {
    let data = SpectrumData::zip(vec![dec("1"), dec("2"), dec("3")], vec![dec("10"), dec("20")]);
    assert_eq!(data.len(), 2);
    assert_eq!(data.get_mz_list(), &vec![dec("1"), dec("2")]);
    assert_eq!(data.get_intensity_list(), &vec![dec("10"), dec("20")]);
    let other = SpectrumData::zip(vec![dec("1")], vec![dec("10"), dec("20")]);
    assert_eq!(other.get_mz_list(), &vec![dec("1")]);
    assert_eq!(other.get_intensity_list(), &vec![dec("10")]);
    assert_eq!(SpectrumData::zip(vec![], vec![dec("10")]).len(), 0);
    assert_eq!(SpectrumData::zip(vec![dec("1")], vec![dec("10")]).len(), 1);
}

#[test]
fn reads_back_what_was_written() {
    let mut reader = MgfReader::new(written(&sample(), false).into_bytes());
    assert_eq!(reader.next(), Ok(Some(sample())));
    assert_eq!(reader.next(), Ok(None));
    assert_eq!(reader.next(), Ok(None));
}

#[test]
fn reads_back_rounded_peaks() {
    let record = read_one(&written(&sample(), true)).unwrap().unwrap();
    assert_eq!(record.header, sample().header);
    assert_eq!(record.get_mz_list(), &vec![dec("100.12346"), dec("200.50000")]);
    assert_eq!(record.get_intensity_list(), &vec![dec("1500.250"), dec("3.000")]);
}

#[test]
fn reading_keeps_the_number_of_peaks() {
    for n in [0usize, 1, 2, 17, 300] {
        let peaks: Vec<(String, String)> =
            (0..n).map(|i| (format!("{}.5", 100 + i), format!("{}", i * 3))).collect();
        let borrowed: Vec<(&str, &str)> =
            peaks.iter().map(|p| (p.0.as_str(), p.1.as_str())).collect();
        let spectrum = spectrum_with("n", &borrowed);
        for round_values in [false, true] {
            let record = read_one(&written(&spectrum, round_values)).unwrap().unwrap();
            assert_eq!(record.get_mz_list().len(), n);
            assert_eq!(record.get_intensity_list().len(), n);
            assert_eq!(record.data.len(), n);
        }
    }
}

#[test]
fn reading_drops_the_precursor_mass() {
    let mut spectrum = sample();
    spectrum.header.precursor_mass = Some(dec("888.1"));
    let record = read_one(&written(&spectrum, false)).unwrap().unwrap();
    assert_eq!(record, sample());
}

#[test]
fn reads_negative_charge_in_both_forms() {
    let quirk = read_one("BEGIN IONS\nTITLE=a\nPEPMASS=1\nCHARGE=-2-\nEND IONS\n");
    assert_eq!(quirk.unwrap().unwrap().header.precursor_charge, Some(-2));
    let plain = read_one("BEGIN IONS\nTITLE=a\nPEPMASS=1\nCHARGE=3-\nEND IONS\n");
    assert_eq!(plain.unwrap().unwrap().header.precursor_charge, Some(-3));
    let positive = read_one("BEGIN IONS\nTITLE=a\nPEPMASS=1\nCHARGE=4+\nEND IONS\n");
    assert_eq!(positive.unwrap().unwrap().header.precursor_charge, Some(4));
    let lowest = read_one("BEGIN IONS\nTITLE=a\nPEPMASS=1\nCHARGE=128-\nEND IONS\n");
    assert_eq!(lowest.unwrap().unwrap().header.precursor_charge, Some(-128));
}

#[test]
fn every_charge_reads_back() {
    for charge in i8::MIN..=i8::MAX {
        let mut spectrum = spectrum_with("z", &[]);
        spectrum.header.precursor_charge = Some(charge);
        let record = read_one(&written(&spectrum, false)).unwrap().unwrap();
        assert_eq!(record.header.precursor_charge, Some(charge));
    }
}

#[test]
fn malformed_charge_is_a_bad_number() {
    for charge in ["2", "-2+", "+", "-", "128+", "129-", "2+-", "x+", ""] {
        let text = format!("BEGIN IONS\nTITLE=a\nPEPMASS=1\nCHARGE={}\nEND IONS\n", charge);
        assert_eq!(fault(&text), ParseFault::BadNumber, "{:?}", charge);
    }
}

#[test]
fn reader_passes_over_what_stands_before_a_record() {
    let text = "# made by a tool\n\nCOM=x\nBEGIN IONS\nTITLE=a\nPEPMASS=1.5\nEND IONS\ntrailing";
    let mut reader = MgfReader::new(text.as_bytes().to_vec());
    let record = reader.next().unwrap().unwrap();
    assert_eq!(record.header.title, b"a".to_vec());
    assert_eq!(record.header.precursor_mz, dec("1.5"));
    assert_eq!(record.header.scan_number, None);
    assert_eq!(record.header.retention_time, None);
    assert_eq!(record.header.precursor_charge, None);
    assert_eq!(record.header.precursor_mass, None);
    assert_eq!(record.data.len(), 0);
    assert_eq!(reader.next(), Ok(None));
}

#[test]
fn reader_takes_header_lines_in_any_order() {
    let text = "BEGIN IONS\n1 2\nCHARGE=1+\nPEPMASS=7\nSCANS=9\n3 4\nTITLE=late\nTITLE=later\nEND IONS";
    let record = read_one(text).unwrap().unwrap();
    assert_eq!(record.header.title, b"later".to_vec());
    assert_eq!(record.header.scan_number, Some(9));
    assert_eq!(record.get_mz_list(), &vec![dec("1"), dec("3")]);
    assert_eq!(record.get_intensity_list(), &vec![dec("2"), dec("4")]);
}

#[test]
fn empty_text_holds_no_record() {
    assert_eq!(read_one(""), Ok(None));
    assert_eq!(read_one("\n\n"), Ok(None));
    assert_eq!(read_one("END IONS\n"), Ok(None));
    assert_eq!(MgfReader::new(Vec::new()).read_all(), Ok(vec![]));
}

#[test]
fn missing_terminator_is_a_parse_failure() {
    assert_eq!(fault("BEGIN IONS\nTITLE=a\nPEPMASS=1\n"), ParseFault::MissingTerminator);
    assert_eq!(fault("BEGIN IONS"), ParseFault::MissingTerminator);
    assert_eq!(
        fault("BEGIN IONS\nTITLE=a\nPEPMASS=1\nBEGIN IONS\nTITLE=b\nPEPMASS=2\nEND IONS\n"),
        ParseFault::MissingTerminator
    );
}

#[test]
fn unparsable_number_is_a_parse_failure() {
    assert_eq!(fault("BEGIN IONS\nTITLE=a\nPEPMASS=abc\nEND IONS\n"), ParseFault::BadNumber);
    assert_eq!(fault("BEGIN IONS\nTITLE=a\nPEPMASS=\nEND IONS\n"), ParseFault::BadNumber);
    assert_eq!(fault("BEGIN IONS\nTITLE=a\nPEPMASS=1\nSCANS=-1\nEND IONS\n"), ParseFault::BadNumber);
    assert_eq!(
        fault("BEGIN IONS\nTITLE=a\nPEPMASS=1\nSCANS=4294967296\nEND IONS\n"),
        ParseFault::BadNumber
    );
    assert_eq!(
        fault("BEGIN IONS\nTITLE=a\nPEPMASS=1\nRTINSECONDS=1e3\nEND IONS\n"),
        ParseFault::BadNumber
    );
    assert_eq!(fault("BEGIN IONS\nTITLE=a\nPEPMASS=1\n1.0 x\nEND IONS\n"), ParseFault::BadNumber);
    assert_eq!(fault("BEGIN IONS\nTITLE=a\nPEPMASS=1\n1.0 \nEND IONS\n"), ParseFault::BadNumber);
}

#[test]
fn wrong_count_of_peak_values_is_a_parse_failure() {
    assert_eq!(fault("BEGIN IONS\nTITLE=a\nPEPMASS=1\n1.0\nEND IONS\n"), ParseFault::BadPeakLine);
    assert_eq!(fault("BEGIN IONS\nTITLE=a\nPEPMASS=1\n1 2 3\nEND IONS\n"), ParseFault::BadPeakLine);
    assert_eq!(fault("BEGIN IONS\nTITLE=a\nPEPMASS=1\n\nEND IONS\n"), ParseFault::BadPeakLine);
    assert_eq!(fault("BEGIN IONS\nTITLE=a\nPEPMASS=1\n1  2\nEND IONS\n"), ParseFault::BadPeakLine);
}

#[test]
fn missing_required_field_is_a_parse_failure() {
    assert_eq!(fault("BEGIN IONS\nPEPMASS=1\nEND IONS\n"), ParseFault::MissingField);
    assert_eq!(fault("BEGIN IONS\nTITLE=a\nEND IONS\n"), ParseFault::MissingField);
    assert_eq!(fault("BEGIN IONS\nEND IONS\n"), ParseFault::MissingField);
}

#[test]
fn reader_gives_nothing_after_a_failure() {
    let text = "BEGIN IONS\nTITLE=a\nPEPMASS=x\nEND IONS\nBEGIN IONS\nTITLE=b\nPEPMASS=2\nEND IONS\n";
    let mut reader = MgfReader::new(text.as_bytes().to_vec());
    assert_eq!(reader.next(), Err(MzioError::ParseFailure { fault: ParseFault::BadNumber }));
    assert_eq!(reader.next(), Ok(None));
}

#[test]
fn read_all_reads_every_record() {
    let spectra = vec![spectrum_with("a", &[("1", "2")]), sample(), spectrum_with("c", &[])];
    let mut writer = MgfWriter::new();
    writer.write_all(&spectra, false);
    let mut reader = MgfReader::new(writer.flush());
    assert_eq!(reader.read_all(), Ok(spectra));
    assert_eq!(reader.next(), Ok(None));
}

#[test]
fn read_all_fails_on_the_first_malformed_record() {
    let text = "BEGIN IONS\nTITLE=a\nPEPMASS=1\nEND IONS\nBEGIN IONS\nTITLE=b\nEND IONS\n";
    let mut reader = MgfReader::new(text.as_bytes().to_vec());
    assert_eq!(
        reader.read_all(),
        Err(MzioError::ParseFailure { fault: ParseFault::MissingField })
    );
}

#[test]
fn header_getters_give_the_fields() {
    let spectrum = sample();
    assert_eq!(spectrum.header.get_title(), &b"scan=7".to_vec());
    assert_eq!(spectrum.header.get_precursor_mz(), &dec("445.12"));
    assert_eq!(spectrum.header.get_precursor_charge(), Some(2));
    assert_eq!(spectrum.header.get_retention_time(), &Some(dec("12.5")));
    assert_eq!(spectrum.header.get_scan_number(), Some(7));
    assert_eq!(spectrum.get_mz_list().len(), 2);
    assert_eq!(spectrum.get_intensity_list().len(), 2);
}
