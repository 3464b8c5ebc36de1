use poa_bench::bench::{
    maxrss_bytes, measure, parse_cpu_freq, Measured, ResetLog, Sample, Timestamp,
};
use poa_bench::errors::POABenchError;

fn sample(millis: i64, cpu: i32) -> Sample {
    Sample { time: Timestamp { millis }, cpu: Some(cpu), cpu_freq: Some(3_000_000) }
}

#[test]
fn record_holds_what_was_read() {
    let measured = measure(1_000, sample(10, 2), sample(25, 3), 15_000_000, 4_500);
    assert_eq!(
        measured,
        Measured {
            runtime: 15_000_000,
            memory_initial: Some(1_000),
            memory_total: Some(4_500),
            memory: 3_500,
            time_start: Timestamp { millis: 10 },
            time_end: Timestamp { millis: 25 },
            cpu_start: Some(2),
            cpu_end: Some(3),
            cpu_freq_start: Some(3_000_000),
            cpu_freq_end: Some(3_000_000),
        }
    );
}

#[test]
fn memory_delta_never_goes_below_zero() {
    let measured = measure(9_000, sample(0, 0), sample(1, 0), 1, 4_000);
    assert_eq!(measured.memory, 0);
    let measured = measure(u64::MAX, sample(0, 0), sample(1, 0), 1, 0);
    assert_eq!(measured.memory, 0);
    let measured = measure(0, sample(0, 0), sample(1, 0), 1, u64::MAX);
    assert_eq!(measured.memory, u64::MAX);
    let measured = measure(77, sample(0, 0), sample(1, 0), 1, 77);
    assert_eq!(measured.memory, 0);
}

#[test]
fn unknown_core_stays_unknown() {
    let start = Sample { time: Timestamp { millis: 1 }, cpu: None, cpu_freq: None };
    let end = Sample { time: Timestamp { millis: 2 }, cpu: None, cpu_freq: None };
    let measured = measure(0, start, end, 5, 0);
    assert_eq!(measured.cpu_start, None);
    assert_eq!(measured.cpu_end, None);
    assert_eq!(measured.cpu_freq_start, None);
    assert_eq!(measured.cpu_freq_end, None);
}

#[test]
fn kilobytes_become_bytes() {
    assert_eq!(maxrss_bytes(3, false), Some(3072));
    assert_eq!(maxrss_bytes(3, true), Some(3));
    assert_eq!(maxrss_bytes(0, false), Some(0));
    assert_eq!(maxrss_bytes(u64::MAX, true), Some(u64::MAX));
    assert_eq!(maxrss_bytes(u64::MAX / 1024, false), Some(u64::MAX / 1024 * 1024));
    assert_eq!(maxrss_bytes(u64::MAX / 1024 + 1, false), None);
}

#[test]
fn a_sample_keeps_the_readings_and_reads_the_clock() {
    let first = Sample::take(Some(4), Some(1_800_000));
    let second = Sample::take(None, None);
    assert_eq!(first.cpu, Some(4));
    assert_eq!(first.cpu_freq, Some(1_800_000));
    assert_eq!(second.cpu, None);
    // Later than 2020-01-01, and the clock does not run backwards by much.
    assert!(first.time.millis > 1_577_836_800_000);
    assert!(second.time.millis + 60_000 > first.time.millis);
}

#[test]
fn without_reset_the_worker_is_warned_once_and_goes_on() {
    let mut log = ResetLog::new();
    let unsupported: Result<(), POABenchError> = Err(POABenchError::MemoryResetError);
    let baseline = 1_000;
    let mut warnings = 0;
    let mut records = Vec::new();
    // The mark is never reset, so the peak only grows.
    for peak in [5_000u64, 5_000, 6_500] {
        if log.note(&unsupported) {
            warnings += 1;
        }
        records.push(measure(baseline, sample(100, 1), sample(200, 1), 100_000_000, peak));
    }
    assert_eq!(warnings, 1);
    assert_eq!(records.len(), 3);
    assert_eq!(records[0].memory, 4_000);
    assert_eq!(records[1].memory, 4_000);
    assert_eq!(records[2].memory, 5_500);
    for record in &records {
        assert_eq!(record.memory_initial, Some(1_000));
        assert_eq!(record.runtime, 100_000_000);
        assert_eq!(record.time_start, Timestamp { millis: 100 });
        assert_eq!(record.time_end, Timestamp { millis: 200 });
    }
}

#[test]
fn a_reset_that_works_warns_of_nothing() {
    let mut log = ResetLog::new();
    assert!(!log.note(&Ok(())));
    assert!(!log.note(&Ok(())));
    assert!(log.note(&Err(POABenchError::IOError("denied".to_string()))));
    assert!(!log.note(&Ok(())));
    assert!(!log.note(&Err(POABenchError::MemoryResetError)));
}

#[test]
fn frequency_is_read_from_one_numeral() {
    assert_eq!(parse_cpu_freq("2400000\n"), Some(2_400_000));
    assert_eq!(parse_cpu_freq("800000"), Some(800_000));
    assert_eq!(parse_cpu_freq(" \t0\r\n"), Some(0));
    assert_eq!(parse_cpu_freq("18446744073709551615\n"), Some(u64::MAX));
}

#[test]
fn anything_else_is_no_frequency() {
    assert_eq!(parse_cpu_freq(""), None);
    assert_eq!(parse_cpu_freq("\n"), None);
    assert_eq!(parse_cpu_freq("<unknown>\n"), None);
    assert_eq!(parse_cpu_freq("2400000 kHz"), None);
    assert_eq!(parse_cpu_freq("24 00\n"), None);
    assert_eq!(parse_cpu_freq("-5\n"), None);
    assert_eq!(parse_cpu_freq("2.4\n"), None);
    assert_eq!(parse_cpu_freq("0800000\n"), None);
    assert_eq!(parse_cpu_freq("18446744073709551616\n"), None);
}
