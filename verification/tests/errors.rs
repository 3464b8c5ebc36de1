use poa_bench::errors::POABenchError;

#[test]
fn descriptions_of_errors_with_a_headline() {
    assert_eq!(
        POABenchError::BuildGraphError("no spoa".to_string()).message(),
        "Could not build graph for data set! Stderr: no spoa"
    );
    assert_eq!(
        POABenchError::SortFastaError("bad fasta".to_string()).message(),
        "Could not create sorted and combined FASTA! Stderr: bad fasta"
    );
    assert_eq!(
        POABenchError::JSONError("EOF".to_string()).message(),
        "Could not parse job result: EOF"
    );
    assert_eq!(
        POABenchError::ParseConfigError("missing field".to_string()).message(),
        "Could not parse dataset config: missing field"
    );
    assert_eq!(
        POABenchError::TSVError("disk full".to_string()).message(),
        "Could not write results to TSV! disk full"
    );
}

#[test]
fn descriptions_of_errors_that_show_their_source() {
    assert_eq!(POABenchError::IOError("not found".to_string()).message(), "not found");
    assert_eq!(POABenchError::SendError("closed".to_string()).message(), "closed");
    assert_eq!(POABenchError::Utf8Error("invalid byte".to_string()).message(), "invalid byte");
    assert_eq!(POABenchError::PoastaError("weights".to_string()).message(), "weights");
}

#[test]
fn descriptions_of_errors_without_detail() {
    assert_eq!(POABenchError::WorkerError.message(), "A worker process did not exit properly!");
    assert_eq!(
        POABenchError::MemoryResetError.message(),
        "Platform does not support resetting max_rss, memory usage measurements will be incorrect!"
    );
}

#[test]
fn which_errors_have_a_source() {
    assert!(POABenchError::IOError(String::new()).has_source());
    assert!(POABenchError::SendError(String::new()).has_source());
    assert!(POABenchError::Utf8Error(String::new()).has_source());
    assert!(POABenchError::PoastaError(String::new()).has_source());
    assert!(POABenchError::JSONError(String::new()).has_source());
    assert!(POABenchError::ParseConfigError(String::new()).has_source());
    assert!(POABenchError::TSVError(String::new()).has_source());
    assert!(!POABenchError::BuildGraphError(String::new()).has_source());
    assert!(!POABenchError::SortFastaError(String::new()).has_source());
    assert!(!POABenchError::WorkerError.has_source());
    assert!(!POABenchError::MemoryResetError.has_source());
}
