use poa_bench::bench::{Measured, Timestamp};
use poa_bench::jobs::{Algorithm, BenchmarkType, Job, JobResult};
use poa_bench::worker::{
    abpoa_inner_nodes, abpoa_penalties, abpoa_result, benchmark_costs, cost_from_score,
    exit_status, plan, poasta_result, spoa_result, spoa_scores, spoa_visited, CostModel,
    GraphSource, SequenceSource, Step, WorkerArgs, WorkerPlan,
};

fn measured() -> Measured {
    Measured {
        runtime: 1,
        memory_initial: Some(1),
        memory_total: Some(2),
        memory: 1,
        time_start: Timestamp { millis: 3 },
        time_end: Timestamp { millis: 4 },
        cpu_start: Some(0),
        cpu_end: Some(0),
        cpu_freq_start: None,
        cpu_freq_end: None,
    }
}

#[test]
fn command_line_with_a_core() {
    let job = Job {
        algorithm: Algorithm::SPOA,
        dataset: "hla/a".to_string(),
        benchmark_type: BenchmarkType::FullMSA,
    };
    let args = WorkerArgs::for_job("data/", "output/", &job, Some(12));
    assert_eq!(
        args.command_line(),
        vec!["worker", "-d", "data/", "-o", "output/", "-c", "12", "hla/a", "spoa", "full-msa"]
    );
}

#[test]
fn command_line_without_a_core() {
    let args = WorkerArgs {
        datasets_dir: "d".to_string(),
        output_dir: "o".to_string(),
        core_id: None,
        dataset: "synthetic/x".to_string(),
        algorithm: Algorithm::abPOA,
        benchmark_type: BenchmarkType::SingleSequence,
    };
    assert_eq!(
        args.command_line(),
        vec!["worker", "-d", "d", "-o", "o", "synthetic/x", "abpoa", "single-sequence"]
    );
}

#[test]
fn plans_of_single_alignments() {
    assert_eq!(
        plan(Algorithm::POASTA, BenchmarkType::SingleSequence),
        WorkerPlan {
            sequences: SequenceSource::AlignSet,
            graph: GraphSource::MsaFile,
            resets_first: false,
            settle_seconds: 0,
            saves_graph: false,
        }
    );
    assert_eq!(
        plan(Algorithm::SPOA, BenchmarkType::SingleSequence),
        WorkerPlan {
            sequences: SequenceSource::AlignSet,
            graph: GraphSource::GraphSequences,
            resets_first: true,
            settle_seconds: 1,
            saves_graph: false,
        }
    );
    assert_eq!(
        plan(Algorithm::abPOA, BenchmarkType::SingleSequence),
        WorkerPlan {
            sequences: SequenceSource::AlignSet,
            graph: GraphSource::MsaFile,
            resets_first: true,
            settle_seconds: 1,
            saves_graph: false,
        }
    );
}

#[test]
fn plans_of_whole_set_alignments() {
    for algorithm in [Algorithm::POASTA, Algorithm::SPOA, Algorithm::abPOA] {
        let planned = plan(algorithm, BenchmarkType::FullMSA);
        assert_eq!(planned.sequences, SequenceSource::CombinedSorted);
        assert_eq!(planned.graph, GraphSource::Empty);
        assert!(!planned.resets_first);
        assert_eq!(planned.settle_seconds, 0);
        assert_eq!(planned.saves_graph, algorithm == Algorithm::POASTA);
    }
}

#[test]
fn cost_is_the_negative_of_the_score() {
    assert_eq!(cost_from_score(0), Some(0));
    assert_eq!(cost_from_score(-17), Some(17));
    assert_eq!(cost_from_score(i32::MIN), Some(2_147_483_648));
    assert_eq!(cost_from_score(1), None);
    assert_eq!(cost_from_score(i32::MAX), None);
}

#[test]
fn cells_visited_by_spoa() {
    assert_eq!(spoa_visited(0, 0), Some(3));
    assert_eq!(spoa_visited(250, 1000), Some(251 * 1001 * 3));
    assert_eq!(spoa_visited(usize::MAX, 0), None);
    assert_eq!(spoa_visited(0, usize::MAX), None);
    assert_eq!(spoa_visited(usize::MAX / 2, 1), None);
    assert_eq!(spoa_visited(usize::MAX / 3, 0), None);
    assert_eq!(spoa_visited(usize::MAX / 3 - 1, 0), Some(usize::MAX / 3 * 3));
}

#[test]
fn abpoa_graph_without_its_end_markers() {
    assert_eq!(abpoa_inner_nodes(2), Some(0));
    assert_eq!(abpoa_inner_nodes(12), Some(10));
    assert_eq!(abpoa_inner_nodes(1), None);
    assert_eq!(abpoa_inner_nodes(0), None);
}

#[test]
fn message_of_a_poasta_alignment() {
    assert_eq!(
        poasta_result("hla/a", 17, 900, "read1".to_string(), 250, 4321, measured()),
        JobResult::SingleSeqMeasurement(
            Algorithm::POASTA,
            "hla/a".to_string(),
            17,
            900,
            0,
            "read1".to_string(),
            250,
            4321,
            measured()
        )
    );
}

#[test]
fn message_of_a_spoa_alignment() {
    assert_eq!(
        spoa_result("hla/a", -17, 1000, 1500, "read1".to_string(), 250, measured()),
        Some(JobResult::SingleSeqMeasurement(
            Algorithm::SPOA,
            "hla/a".to_string(),
            17,
            1000,
            1500,
            "read1".to_string(),
            250,
            753_753,
            measured()
        ))
    );
    assert_eq!(spoa_result("hla/a", 3, 1000, 1500, "read1".to_string(), 250, measured()), None);
    assert_eq!(
        spoa_result("hla/a", -3, usize::MAX, 0, "read1".to_string(), 250, measured()),
        None
    );
}

#[test]
fn message_of_an_abpoa_alignment() {
    assert_eq!(
        abpoa_result("hla/a", -8, 1002, "read1".to_string(), 250, measured()),
        Some(JobResult::SingleSeqMeasurement(
            Algorithm::abPOA,
            "hla/a".to_string(),
            8,
            1000,
            0,
            "read1".to_string(),
            250,
            0,
            measured()
        ))
    );
    assert_eq!(abpoa_result("hla/a", -8, 1, "read1".to_string(), 250, measured()), None);
    assert_eq!(abpoa_result("hla/a", 8, 1002, "read1".to_string(), 250, measured()), None);
}

#[test]
fn exit_status_is_zero_only_after_finished() {
    assert_eq!(exit_status(true), 0);
    assert_eq!(exit_status(false), 1);
}

#[test]
fn script_of_a_single_sequence_job() {
    let args = WorkerArgs {
        datasets_dir: "d".to_string(),
        output_dir: "o".to_string(),
        core_id: Some(3),
        dataset: "hla/a".to_string(),
        algorithm: Algorithm::SPOA,
        benchmark_type: BenchmarkType::SingleSequence,
    };
    assert_eq!(
        args.script(2),
        vec![
            Step::PrepareGraph(GraphSource::GraphSequences),
            Step::Settle(1),
            Step::ResetMemory,
            Step::ReadBaseline,
            Step::AlignItem(0),
            Step::AlignItem(1),
            Step::Finish(Some(3)),
        ]
    );
    let poasta = WorkerArgs { algorithm: Algorithm::POASTA, core_id: None, ..args.clone() };
    assert_eq!(
        poasta.script(1),
        vec![
            Step::PrepareGraph(GraphSource::MsaFile),
            Step::ReadBaseline,
            Step::AlignItem(0),
            Step::Finish(None),
        ]
    );
    let abpoa = WorkerArgs { algorithm: Algorithm::abPOA, ..args };
    assert_eq!(
        abpoa.script(0),
        vec![
            Step::PrepareGraph(GraphSource::MsaFile),
            Step::Settle(1),
            Step::ResetMemory,
            Step::ReadBaseline,
            Step::Finish(Some(3)),
        ]
    );
}

#[test]
fn script_of_a_whole_set_job() {
    let args = WorkerArgs {
        datasets_dir: "d".to_string(),
        output_dir: "o".to_string(),
        core_id: Some(7),
        dataset: "hla/a".to_string(),
        algorithm: Algorithm::POASTA,
        benchmark_type: BenchmarkType::FullMSA,
    };
    assert_eq!(
        args.script(40),
        vec![Step::ReadBaseline, Step::AlignAll, Step::SaveGraph, Step::Finish(Some(7))]
    );
    let spoa = WorkerArgs { algorithm: Algorithm::SPOA, ..args };
    assert_eq!(
        spoa.script(40),
        vec![Step::ReadBaseline, Step::AlignAll, Step::Finish(Some(7))]
    );
}

#[test]
fn every_tool_is_charged_the_same() {
    let costs = benchmark_costs();
    assert_eq!(costs, CostModel { mismatch: 4, gap_open: 6, gap_extend: 2 });
    assert_eq!(spoa_scores(costs), Some((0, -4, -8, -2)));
    assert_eq!(abpoa_penalties(costs), (0, 4, 6, 2));
}

#[test]
fn scores_for_spoa_have_to_fit_eight_bits() {
    assert_eq!(
        spoa_scores(CostModel { mismatch: 128, gap_open: 100, gap_extend: 28 }),
        Some((0, -128, -128, -28))
    );
    assert_eq!(spoa_scores(CostModel { mismatch: 129, gap_open: 1, gap_extend: 1 }), None);
    assert_eq!(spoa_scores(CostModel { mismatch: 1, gap_open: 100, gap_extend: 29 }), None);
    assert_eq!(spoa_scores(CostModel { mismatch: 0, gap_open: 255, gap_extend: 255 }), None);
    assert_eq!(spoa_scores(CostModel { mismatch: 0, gap_open: 0, gap_extend: 0 }), Some((0, 0, 0, 0)));
}
