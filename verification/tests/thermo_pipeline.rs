use mzio::decimal::Decimal;
use mzio::error::MzioError;
use mzio::mgf::reader::MgfReader;
use mzio::mgf::spectrum::{MgfSpectrum, MgfSpectrumHeader, SpectrumData};
use mzio::mgf::writer::MgfWriter;
use mzio::thermo::parallel::{Action, Dispatcher};
use mzio::thermo::reader::{ThermoReader, ThermoSpectrumIter};
use mzio::thermo::spectrum::{keep_ms2, Spectrum};

const TOTAL: u32 = 48;
const MS2: usize = 34;

fn number(value: f64) -> Decimal {
    Decimal::parse(format!("{}", value).as_bytes()).unwrap()
}

// The source of the tests holds the scans 1 to 48: the scans 1 to 14 are
// survey scans, the scans 15 to 48 are fragmentation scans.
fn level_of(scan: u32) -> u8 {
    if scan <= TOTAL - MS2 as u32 {
        1
    } else {
        2
    }
}

fn minutes_of(scan: u32) -> f64 {
    0.25 * scan as f64
}

fn mz_of(scan: u32) -> f64 {
    400.0 + scan as f64 * 1.0078125
}

fn decode(scan: u32) -> Spectrum {
    let mut header =
        MgfSpectrumHeader::new(format!("scan={}", scan).into_bytes(), number(mz_of(scan)));
    header.precursor_charge = Some(2);
    header.retention_time = Some(number(minutes_of(scan)));
    header.scan_number = Some(scan);
    let mz = (0..scan % 5).map(|i| number(100.0 + i as f64 + 0.123456789)).collect();
    let intensity = (0..scan % 5).map(|i| number(10.0 * i as f64 + 0.5)).collect();
    Spectrum {
        header,
        data: SpectrumData::from_lists(mz, intensity).unwrap(),
        ms_level: level_of(scan),
        index: scan,
    }
}

fn source() -> ThermoReader {
    ThermoReader::new("small.RAW".to_string(), 1, TOTAL)
}

fn in_seconds(spectrum: Spectrum) -> MgfSpectrum {
    let scan = spectrum.index;
    let mut record = spectrum.into_mgf();
    record.header.retention_time = Some(number(minutes_of(scan) * 60.0));
    record
}

// Runs the conversion as a pool of workers would, with one twist that makes
// the order of completion differ from the order of dispatch: of the scans at
// work, the one dispatched last finishes first. Returns what was kept.
fn convert(
    reader: &ThermoReader,
    queue_size: usize,
    failing: Option<u32>,
) -> (Result<(), MzioError>, Vec<MgfSpectrum>, Vec<u32>, usize) {
    let mut dispatcher = reader.process_spectra_in_parallel(queue_size);
    let mut at_work: Vec<u32> = Vec::new();
    let mut dispatched: Vec<u32> = Vec::new();
    let mut kept: Vec<MgfSpectrum> = Vec::new();
    let mut most_at_work = 0;
    loop {
        match dispatcher.next_action() {
            Action::Dispatch { index } => {
                at_work.push(index);
                dispatched.push(index);
                most_at_work = most_at_work.max(at_work.len());
                assert_eq!(dispatcher.in_flight(), at_work.len());
            }
            Action::Wait => {
                let index = at_work.pop().unwrap();
                let decoded = if failing == Some(index) { None } else { Some(decode(index)) };
                match reader.get_spectrum(index, decoded) {
                    Ok(spectrum) => {
                        if let Some(ms2) = keep_ms2(spectrum) {
                            kept.push(in_seconds(ms2));
                        }
                        dispatcher.completed(None);
                    }
                    Err(error) => dispatcher.completed(Some(error)),
                }
            }
            Action::Finish { failure } => {
                assert!(at_work.is_empty());
                let result = match failure {
                    Some(error) => Err(error),
                    None => Ok(()),
                };
                return (result, kept, dispatched, most_at_work);
            }
        }
    }
}

fn fetched(scan: u32) -> Result<(u8, Spectrum), MzioError> {
    Ok((level_of(scan), decode(scan)))
}

fn walk(mut iter: ThermoSpectrumIter) -> Vec<u32> {
    let mut seen = Vec::new();
    while let Some(scan) = iter.pending() {
        if let Some(spectrum) = iter.next(fetched(scan)).unwrap() {
            seen.push(spectrum.index);
        }
    }
    seen
}

#[test]
fn reader_knows_its_source() {
    let reader = source();
    assert_eq!(reader.get_raw_file_path(), "small.RAW");
    assert_eq!(reader.get_first_scan_number(), 1);
    assert_eq!(reader.get_last_scan_number(), 48);
    assert_eq!(reader.scan_count(), 48);
    assert_eq!(ThermoReader::new(String::new(), 5, 4).scan_count(), 0);
    assert_eq!(ThermoReader::new(String::new(), 0, u32::MAX).scan_count(), 4294967296);
}

#[test]
fn scan_outside_the_bounds_is_out_of_range() {
    let reader = source();
    assert_eq!(reader.check_scan_number(1), Ok(()));
    assert_eq!(reader.check_scan_number(48), Ok(()));
    assert_eq!(reader.check_scan_number(0), Err(MzioError::OutOfRange { index: 0 }));
    assert_eq!(reader.check_scan_number(49), Err(MzioError::OutOfRange { index: 49 }));
    assert_eq!(
        reader.get_spectrum(49, Some(decode(49))),
        Err(MzioError::OutOfRange { index: 49 })
    );
    assert_eq!(reader.get_spectrum::<Spectrum>(0, None), Err(MzioError::OutOfRange { index: 0 }));
}

#[test]
fn undecoded_scan_is_a_backend_failure() {
    let reader = source();
    assert_eq!(
        reader.get_spectrum::<Spectrum>(7, None),
        Err(MzioError::BackendFailure { index: 7 })
    );
    assert_eq!(reader.get_spectrum(7, Some(decode(7))), Ok(decode(7)));
}

#[test]
fn iterator_walks_the_whole_range() {
    let reader = source();
    let seen = walk(reader.iter());
    assert_eq!(seen, (1..=48).collect::<Vec<u32>>());
}

#[test]
fn two_iterators_do_not_disturb_each_other() {
    let reader = source();
    let mut one = reader.iter();
    let mut other = reader.iter();
    for scan in 1..=10 {
        assert_eq!(one.pending(), Some(scan));
        one.next(fetched(scan)).unwrap();
    }
    assert_eq!(other.pending(), Some(1));
    other.next(fetched(1)).unwrap();
    assert_eq!(one.pending(), Some(11));
    assert_eq!(other.pending(), Some(2));
    assert_eq!(walk(reader.iter()).len(), 48);
    assert_eq!(walk(reader.iter()).len(), 48);
    assert_eq!(walk(one).len(), 38);
    assert_eq!(walk(other).len(), 47);
}

#[test]
fn ms2_iterator_passes_over_survey_scans() {
    let reader = source();
    let seen = walk(reader.ms2_iter());
    assert_eq!(seen.len(), MS2);
    assert_eq!(seen, (15..=48).collect::<Vec<u32>>());
    let mut iter = reader.ms2_iter();
    assert_eq!(iter.next(fetched(1)), Ok(None));
    assert_eq!(iter.pending(), Some(2));
}

#[test]
fn iterator_stops_at_a_failure() {
    let reader = source();
    let mut iter = reader.iter();
    assert_eq!(iter.next(fetched(1)), Ok(Some(decode(1))));
    let failure = MzioError::BackendFailure { index: 2 };
    assert_eq!(iter.next::<Spectrum>(Err(failure)), Err(failure));
    assert_eq!(iter.pending(), None);
    assert_eq!(iter.next(fetched(3)), Ok(None));
    assert_eq!(iter.pending(), None);
}

#[test]
fn iterator_over_nothing_and_up_to_the_highest_number() {
    let mut empty = ThermoReader::new(String::new(), 9, 3).iter();
    assert_eq!(empty.pending(), None);
    assert_eq!(empty.next(fetched(9)), Ok(None));
    let mut highest = ThermoSpectrumIter::new(u32::MAX - 1, u32::MAX, false);
    assert_eq!(highest.pending(), Some(u32::MAX - 1));
    highest.next(fetched(1)).unwrap();
    assert_eq!(highest.pending(), Some(u32::MAX));
    highest.next(fetched(1)).unwrap();
    assert_eq!(highest.pending(), None);
}

#[test]
fn keep_ms2_keeps_fragmentation_scans_only() {
    assert_eq!(keep_ms2(decode(1)), None);
    assert_eq!(keep_ms2(decode(48)), Some(decode(48)));
    let mut third = decode(48);
    third.ms_level = 3;
    assert_eq!(third.get_ms_level(), 3);
    assert_eq!(keep_ms2(third), None);
}

#[test]
fn conversion_keeps_every_ms2_scan_whatever_the_queue() {
    let reader = source();
    for queue_size in [1usize, 10, 1000] {
        let (result, kept, dispatched, most_at_work) = convert(&reader, queue_size, None);
        assert_eq!(result, Ok(()));
        assert_eq!(kept.len(), MS2);
        assert_eq!(dispatched, (1..=48).collect::<Vec<u32>>());
        assert_eq!(most_at_work, queue_size.min(48));
    }
}

#[test]
fn queue_of_size_zero_holds_one() {
    let (result, kept, dispatched, most_at_work) = convert(&source(), 0, None);
    assert_eq!(result, Ok(()));
    assert_eq!(kept.len(), MS2);
    assert_eq!(dispatched.len(), 48);
    assert_eq!(most_at_work, 1);
}

#[test]
fn conversion_of_an_empty_source_finishes_at_once() {
    let mut dispatcher = Dispatcher::new(5, 4, 10);
    assert_eq!(dispatcher.next_action(), Action::Finish { failure: None });
    assert_eq!(dispatcher.in_flight(), 0);
}

#[test]
fn dispatcher_waits_while_the_queue_is_full() {
    let mut dispatcher = Dispatcher::new(1, 5, 2);
    assert_eq!(dispatcher.next_action(), Action::Dispatch { index: 1 });
    assert_eq!(dispatcher.next_action(), Action::Dispatch { index: 2 });
    assert_eq!(dispatcher.next_action(), Action::Wait);
    assert_eq!(dispatcher.next_action(), Action::Wait);
    assert_eq!(dispatcher.in_flight(), 2);
    dispatcher.completed(None);
    assert_eq!(dispatcher.next_action(), Action::Dispatch { index: 3 });
    assert_eq!(dispatcher.next_action(), Action::Wait);
}

#[test]
fn failure_stops_dispatch_and_is_returned() {
    let reader = source();
    let (result, _, dispatched, _) = convert(&reader, 10, Some(20));
    assert_eq!(result, Err(MzioError::BackendFailure { index: 20 }));
    assert!(dispatched.len() < 48);
    assert!(dispatched.contains(&20));

    let mut dispatcher = Dispatcher::new(1, 100, 3);
    assert_eq!(dispatcher.next_action(), Action::Dispatch { index: 1 });
    assert_eq!(dispatcher.next_action(), Action::Dispatch { index: 2 });
    assert_eq!(dispatcher.next_action(), Action::Dispatch { index: 3 });
    let failure = MzioError::BackendFailure { index: 2 };
    dispatcher.completed(Some(failure));
    assert_eq!(dispatcher.next_action(), Action::Wait);
    dispatcher.completed(None);
    assert_eq!(dispatcher.next_action(), Action::Wait);
    dispatcher.completed(Some(MzioError::IoFailure));
    assert_eq!(dispatcher.next_action(), Action::Finish { failure: Some(failure) });
    assert_eq!(dispatcher.next_action(), Action::Finish { failure: Some(failure) });
}

#[test]
fn failure_of_the_sink_is_returned() {
    let mut dispatcher = Dispatcher::new(1, 2, 1);
    assert_eq!(dispatcher.next_action(), Action::Dispatch { index: 1 });
    dispatcher.completed(Some(MzioError::IoFailure));
    assert_eq!(dispatcher.next_action(), Action::Finish { failure: Some(MzioError::IoFailure) });
}

#[test]
fn test_thermo_reader() {
    let reader = source();
    assert_eq!(walk(reader.iter()).len(), 48);
    assert_eq!(walk(reader.iter()).len(), 48);

    let (result, kept, _, _) = convert(&reader, 10, None);
    assert_eq!(result, Ok(()));
    let mut writer = MgfWriter::with_capacity(4 * 1024 * 1024);
    let mut count = 0;
    for record in &kept {
        count += writer.write_spectrum(record, true);
    }
    let bytes = writer.flush();
    assert_eq!(bytes.len(), count);
    let text = String::from_utf8(bytes.clone()).unwrap();
    assert_eq!(text.matches("BEGIN IONS\n").count(), 34);
    assert_eq!(text.matches("END IONS\n").count(), 34);

    let entries = MgfReader::new(bytes).read_all().unwrap();
    assert_eq!(entries.len(), 34);
    let mut scans: Vec<u32> = Vec::new();
    for entry in &entries {
        let scan = entry.header.scan_number.unwrap();
        scans.push(scan);
        assert_eq!(level_of(scan), 2);
        assert_eq!(entry.header.title, format!("scan={}", scan).into_bytes());
        assert_eq!(entry.header.precursor_mz, number(mz_of(scan)));
        assert_eq!(entry.header.retention_time, Some(number(minutes_of(scan) * 60.0)));
        assert_eq!(entry.header.precursor_charge, Some(2));
        let source_peaks = decode(scan);
        assert_eq!(entry.data.len(), source_peaks.data.len());
        for (read, given) in entry.get_mz_list().iter().zip(source_peaks.data.get_mz_list()) {
            assert_eq!(read, &given.rounded(5));
            assert_eq!(read.places(), 5);
        }
        for (read, given) in
            entry.get_intensity_list().iter().zip(source_peaks.data.get_intensity_list())
        {
            assert_eq!(read, &given.rounded(3));
            assert_eq!(read.places(), 3);
        }
    }
    scans.sort();
    assert_eq!(scans, (15..=48).collect::<Vec<u32>>());
}
