use poa_bench::jobs::JobResult;
use poa_bench::protocol::encode;
use poa_bench::reader::{read_stream, LineReader};

#[test]
fn lines_are_forwarded_in_order() {
    let mut reader = LineReader::new();
    assert_eq!(reader.on_line("{\"kind\":\"error\"}"), Some(JobResult::Error));
    assert_eq!(
        reader.on_line("{\"kind\":\"finished\",\"core\":3}"),
        Some(JobResult::Finished(Some(3)))
    );
    assert_eq!(reader.on_close(true), None);
}

#[test]
fn noise_is_skipped_and_reading_goes_on() {
    let mut reader = LineReader::new();
    assert_eq!(reader.on_line("Aligned #3 with score 17"), None);
    assert_eq!(reader.on_line("{\"kind\":\"finished\",\"core\":null}"), Some(JobResult::Finished(None)));
    assert_eq!(reader.on_line("{not json"), None);
    assert_eq!(reader.on_line(""), None);
    // The noise behind the last message does not undo it.
    assert_eq!(reader.on_close(true), None);
}

#[test]
fn a_stream_without_finished_ends_in_error() {
    let reader = LineReader::new();
    assert_eq!(reader.on_close(true), Some(JobResult::Error));
    assert_eq!(reader.on_close(false), Some(JobResult::Error));
}

#[test]
fn a_failed_exit_after_finished_ends_in_error() {
    let mut reader = LineReader::new();
    reader.on_line("{\"kind\":\"finished\",\"core\":1}");
    assert_eq!(reader.on_close(false), Some(JobResult::Error));
}

#[test]
fn a_message_after_finished_counts_as_the_last() {
    let mut reader = LineReader::new();
    reader.on_line("{\"kind\":\"finished\",\"core\":1}");
    reader.on_line("{\"kind\":\"error\"}");
    assert_eq!(reader.on_close(true), Some(JobResult::Error));
}

#[test]
fn whole_stream_with_noise_equals_stream_without() {
    let good = vec![
        encode(&JobResult::Finished(Some(2))),
    ];
    let noisy = vec![
        "warming up".to_string(),
        encode(&JobResult::Finished(Some(2))),
        "{\"kind\":\"finished\"}".to_string(),
    ];
    assert_eq!(read_stream(&good, true), vec![JobResult::Finished(Some(2))]);
    assert_eq!(read_stream(&noisy, true), read_stream(&good, true));
    assert_eq!(read_stream(&noisy, false), read_stream(&good, false));
    assert_eq!(
        read_stream(&noisy, false),
        vec![JobResult::Finished(Some(2)), JobResult::Error]
    );
}

#[test]
fn empty_stream_of_a_failed_worker_is_one_error() {
    assert_eq!(read_stream(&Vec::new(), false), vec![JobResult::Error]);
    assert_eq!(read_stream(&Vec::new(), true), vec![JobResult::Error]);
}
