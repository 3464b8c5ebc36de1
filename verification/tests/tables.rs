use poa_bench::bench::{Measured, Timestamp};
use poa_bench::jobs::{Algorithm, JobResult};
use poa_bench::tables::{
    amount_cell, full_msa_columns, moment_cell, row_of, seconds_cell, single_columns, time_cell,
};

fn measured() -> Measured {
    Measured {
        runtime: 12_000_345_678,
        memory_initial: Some(2048),
        memory_total: None,
        memory: 512,
        time_start: Timestamp { millis: 947_638_923_004 },
        time_end: Timestamp { millis: 1_000_000_000_555 },
        cpu_start: Some(1),
        cpu_end: Some(1),
        cpu_freq_start: None,
        cpu_freq_end: None,
    }
}

#[test]
fn columns_of_the_single_table() {
    assert_eq!(
        single_columns(),
        vec![
            "dataset", "algorithm", "graph_nodes", "graph_edges", "item_name", "item_length",
            "score", "visited", "runtime", "memory_baseline", "memory_peak", "memory_delta",
            "time_start", "time_end"
        ]
    );
}

#[test]
fn columns_of_the_whole_set_table() {
    assert_eq!(
        full_msa_columns(),
        vec![
            "dataset", "algorithm", "runtime", "memory_baseline", "memory_peak", "memory_delta",
            "time_start", "time_end"
        ]
    );
}

#[test]
fn run_time_is_written_in_seconds() {
    assert_eq!(seconds_cell(0), "0.000000000");
    assert_eq!(seconds_cell(1), "0.000000001");
    assert_eq!(seconds_cell(999_999_999), "0.999999999");
    assert_eq!(seconds_cell(1_000_000_000), "1.000000000");
    assert_eq!(seconds_cell(12_000_345_678), "12.000345678");
    assert_eq!(seconds_cell(u64::MAX), "18446744073.709551615");
}

#[test]
fn unknown_memory_is_an_empty_cell() {
    assert_eq!(amount_cell(None), "");
    assert_eq!(amount_cell(Some(0)), "0");
    assert_eq!(amount_cell(Some(u64::MAX)), "18446744073709551615");
}

#[test]
fn moments_are_shown_as_chrono_shows_them() {
    assert_eq!(time_cell(Timestamp { millis: 947_638_923_004 }), "2000-01-12 01:02:03.004 UTC");
    assert_eq!(time_cell(Timestamp { millis: 0 }), "1970-01-01 00:00:00 UTC");
    assert_eq!(time_cell(Timestamp { millis: -1 }), "1969-12-31 23:59:59.999 UTC");
    let expected = chrono::DateTime::from_timestamp_millis(1_700_000_000_123).unwrap().to_string();
    assert_eq!(time_cell(Timestamp { millis: 1_700_000_000_123 }), expected);
}

#[test]
fn a_moment_outside_the_calendar_is_an_empty_cell() {
    assert_eq!(time_cell(Timestamp { millis: i64::MAX }), "");
    assert_eq!(time_cell(Timestamp { millis: i64::MIN }), "");
    assert_eq!(moment_cell(None), "");
    assert_eq!(moment_cell(Some("then".to_string())), "then");
}

#[test]
fn row_of_a_single_alignment() {
    let message = JobResult::SingleSeqMeasurement(
        Algorithm::SPOA,
        "hla/a".to_string(),
        42,
        1000,
        1500,
        "read7".to_string(),
        250,
        753_003,
        measured(),
    );
    assert_eq!(
        row_of(&message),
        vec![
            "hla/a",
            "spoa",
            "1000",
            "1500",
            "read7",
            "250",
            "42",
            "753003",
            "12.000345678",
            "2048",
            "",
            "512",
            "2000-01-12 01:02:03.004 UTC",
            "2001-09-09 01:46:40.555 UTC",
        ]
    );
}

#[test]
fn row_of_a_whole_set_alignment() {
    let message = JobResult::FullMSAMeasurement(Algorithm::POASTA, "hla/b".to_string(), measured());
    assert_eq!(
        row_of(&message),
        vec![
            "hla/b",
            "poasta",
            "12.000345678",
            "2048",
            "",
            "512",
            "2000-01-12 01:02:03.004 UTC",
            "2001-09-09 01:46:40.555 UTC",
        ]
    );
}

#[test]
fn terminal_messages_have_no_row() {
    assert!(row_of(&JobResult::Finished(Some(1))).is_empty());
    assert!(row_of(&JobResult::Error).is_empty());
}
