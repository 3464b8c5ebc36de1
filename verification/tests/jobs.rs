use poa_bench::dataset::{AlignSet, Dataset, DatasetConfig, GraphSet};
use poa_bench::jobs::{
    all_algorithms, all_benchmark_types, build_jobs, is_applicable, selected_algorithms,
    selected_benchmarks, Algorithm, BenchmarkType, Job, JobResult,
};

fn dataset(name: &str, with_graph: bool) -> Dataset {
    Dataset::new(
        name.to_string(),
        format!("data/{}", name),
        DatasetConfig {
            is_sorted: Some(false),
            graph_set: if with_graph {
                Some(GraphSet { fname: "graph.fna.gz".to_string(), num_seqs: None })
            } else {
                None
            },
            align_set: AlignSet { fname: "align.fna.gz".to_string(), num_seqs: Some(3) },
        },
    )
}

fn job(algorithm: Algorithm, dataset: &str, benchmark_type: BenchmarkType) -> Job {
    Job { algorithm, dataset: dataset.to_string(), benchmark_type }
}

#[test]
fn algorithm_names() {
    assert_eq!(Algorithm::POASTA.to_str(), "poasta");
    assert_eq!(Algorithm::SPOA.to_str(), "spoa");
    assert_eq!(Algorithm::abPOA.to_str(), "abpoa");
}

#[test]
fn benchmark_names() {
    assert_eq!(BenchmarkType::SingleSequence.to_str(), "single-sequence");
    assert_eq!(BenchmarkType::FullMSA.to_str(), "full-msa");
}

#[test]
fn names_are_read_back() {
    for algorithm in all_algorithms() {
        assert_eq!(Algorithm::from_name(algorithm.to_str()), Some(algorithm));
    }
    for kind in all_benchmark_types() {
        assert_eq!(BenchmarkType::from_name(kind.to_str()), Some(kind));
    }
    assert_eq!(Algorithm::from_name("POASTA"), None);
    assert_eq!(Algorithm::from_name(""), None);
    assert_eq!(BenchmarkType::from_name("full_msa"), None);
}

#[test]
fn everything_is_selected_where_nothing_is_asked_for() {
    assert_eq!(
        selected_algorithms(Vec::new()),
        vec![Algorithm::POASTA, Algorithm::SPOA, Algorithm::abPOA]
    );
    assert_eq!(selected_algorithms(vec![Algorithm::SPOA]), vec![Algorithm::SPOA]);
    assert_eq!(
        selected_benchmarks(Vec::new()),
        vec![BenchmarkType::SingleSequence, BenchmarkType::FullMSA]
    );
    assert_eq!(selected_benchmarks(vec![BenchmarkType::FullMSA]), vec![BenchmarkType::FullMSA]);
}

#[test]
fn generated_data_sets_get_no_whole_set_alignment() {
    assert!(!is_applicable(BenchmarkType::FullMSA, &dataset("synthetic/n100", true)));
    assert!(is_applicable(BenchmarkType::FullMSA, &dataset("synthetic", true)));
    assert!(is_applicable(BenchmarkType::FullMSA, &dataset("real/synthetic/x", true)));
    assert!(is_applicable(BenchmarkType::FullMSA, &dataset("hla/a", false)));
}

#[test]
fn single_alignments_need_a_graph_set() {
    assert!(is_applicable(BenchmarkType::SingleSequence, &dataset("synthetic/n100", true)));
    assert!(!is_applicable(BenchmarkType::SingleSequence, &dataset("hla/a", false)));
}

#[test]
fn jobs_come_by_algorithm_then_kind_then_data_set() {
    let datasets = vec![dataset("hla/a", true), dataset("hla/b", false), dataset("synthetic/s", true)];
    let list = build_jobs(
        &vec![Algorithm::SPOA, Algorithm::POASTA],
        &vec![BenchmarkType::SingleSequence, BenchmarkType::FullMSA],
        &datasets,
    );
    assert_eq!(
        list,
        vec![
            job(Algorithm::SPOA, "hla/a", BenchmarkType::SingleSequence),
            job(Algorithm::SPOA, "synthetic/s", BenchmarkType::SingleSequence),
            job(Algorithm::SPOA, "hla/a", BenchmarkType::FullMSA),
            job(Algorithm::SPOA, "hla/b", BenchmarkType::FullMSA),
            job(Algorithm::POASTA, "hla/a", BenchmarkType::SingleSequence),
            job(Algorithm::POASTA, "synthetic/s", BenchmarkType::SingleSequence),
            job(Algorithm::POASTA, "hla/a", BenchmarkType::FullMSA),
            job(Algorithm::POASTA, "hla/b", BenchmarkType::FullMSA),
        ]
    );
}

#[test]
fn no_data_sets_no_jobs() {
    assert!(build_jobs(&all_algorithms(), &all_benchmark_types(), &Vec::new()).is_empty());
    assert!(build_jobs(&Vec::new(), &all_benchmark_types(), &vec![dataset("a", true)]).is_empty());
    assert!(build_jobs(&all_algorithms(), &Vec::new(), &vec![dataset("a", true)]).is_empty());
}

#[test]
fn terminal_messages() {
    assert!(JobResult::Finished(None).is_terminal());
    assert!(JobResult::Finished(Some(1)).is_terminal());
    assert!(JobResult::Error.is_terminal());
}

#[test]
fn data_set_hands_out_its_parts() {
    let set = dataset("hla/a", true);
    assert_eq!(set.name(), "hla/a");
    assert_eq!(set.dir(), "data/hla/a");
    assert_eq!(set.cfg().align_set.fname, "align.fna.gz");
    assert_eq!(set.cfg().is_sorted, Some(false));
    assert!(set.has_graph_set());
    assert!(!dataset("x", false).has_graph_set());
}

#[test]
fn measurements_are_not_terminal() {
    let measured = poa_bench::bench::Measured {
        runtime: 0,
        memory_initial: None,
        memory_total: None,
        memory: 0,
        time_start: poa_bench::bench::Timestamp { millis: 0 },
        time_end: poa_bench::bench::Timestamp { millis: 0 },
        cpu_start: None,
        cpu_end: None,
        cpu_freq_start: None,
        cpu_freq_end: None,
    };
    assert!(!JobResult::FullMSAMeasurement(Algorithm::SPOA, "a".to_string(), measured).is_terminal());
    assert!(!JobResult::SingleSeqMeasurement(
        Algorithm::SPOA,
        "a".to_string(),
        0,
        0,
        0,
        "s".to_string(),
        0,
        0,
        measured
    )
    .is_terminal());
}
