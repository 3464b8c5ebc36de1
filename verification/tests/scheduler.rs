use poa_bench::bench::{Measured, Timestamp};
use poa_bench::collector::{collect, Action};
use poa_bench::dataset::{AlignSet, Dataset, DatasetConfig, GraphSet};
use poa_bench::errors::POABenchError;
use poa_bench::jobs::{build_jobs, Algorithm, BenchmarkType, Job, JobResult};
use poa_bench::reader::read_stream;
use poa_bench::protocol::encode;
use poa_bench::scheduler::{detect_cores, plan_cores, CorePlan, Dispatch, Scheduler};

fn dataset(name: &str) -> Dataset {
    Dataset::new(
        name.to_string(),
        format!("data/{}", name),
        DatasetConfig {
            is_sorted: None,
            graph_set: Some(GraphSet { fname: "graph.fna.gz".to_string(), num_seqs: Some(10) }),
            align_set: AlignSet { fname: "align.fna.gz".to_string(), num_seqs: None },
        },
    )
}

fn jobs(count: usize) -> Vec<Job> {
    let mut list = Vec::new();
    for i in 0..count {
        list.push(Job {
            algorithm: Algorithm::POASTA,
            dataset: format!("set{}", i),
            benchmark_type: BenchmarkType::FullMSA,
        });
    }
    list
}

fn measured() -> Measured {
    Measured {
        runtime: 7,
        memory_initial: Some(10),
        memory_total: Some(30),
        memory: 20,
        time_start: Timestamp { millis: 0 },
        time_end: Timestamp { millis: 1 },
        cpu_start: None,
        cpu_end: None,
        cpu_freq_start: None,
        cpu_freq_end: None,
    }
}

fn single(dataset: &str) -> JobResult {
    JobResult::SingleSeqMeasurement(
        Algorithm::SPOA,
        dataset.to_string(),
        4,
        10,
        12,
        "read1".to_string(),
        100,
        3333,
        measured(),
    )
}

#[test]
fn cores_are_split_between_orchestrator_and_workers() {
    let plan = plan_cores(&vec![0, 1, 2, 3, 4, 5], 4);
    assert_eq!(plan, Some(CorePlan { orchestrator: 0, workers: vec![1, 2, 3] }));
}

#[test]
fn at_least_one_worker_core_is_planned() {
    assert_eq!(
        plan_cores(&vec![8, 9, 10], 0),
        Some(CorePlan { orchestrator: 8, workers: vec![9] })
    );
    assert_eq!(
        plan_cores(&vec![8, 9, 10], 1),
        Some(CorePlan { orchestrator: 8, workers: vec![9] })
    );
    assert_eq!(
        plan_cores(&vec![8, 9, 10], 2),
        Some(CorePlan { orchestrator: 8, workers: vec![9] })
    );
}

#[test]
fn a_machine_with_few_cores_gives_what_it_has() {
    assert_eq!(
        plan_cores(&vec![3, 5], 16),
        Some(CorePlan { orchestrator: 3, workers: vec![5] })
    );
}

#[test]
fn fewer_than_two_cores_is_no_plan() {
    assert_eq!(plan_cores(&vec![], 4), None);
    assert_eq!(plan_cores(&vec![0], 4), None);
}

#[test]
fn first_wave_is_one_job_per_core() {
    let mut scheduler = Scheduler::new(jobs(5), vec![4, 6, 8]);
    let wave = scheduler.start();
    assert_eq!(
        wave,
        vec![
            Dispatch { core: 4, job: 0 },
            Dispatch { core: 6, job: 1 },
            Dispatch { core: 8, job: 2 }
        ]
    );
    assert_eq!(scheduler.pending(), 2);
    assert_eq!(scheduler.active(), 3);
    assert_eq!(scheduler.finished(), 0);
    assert!(!scheduler.is_done());
    assert!(scheduler.may_start_more());
    scheduler.on_error();
    assert!(!scheduler.may_start_more());
}

#[test]
fn first_wave_stops_when_the_jobs_run_out() {
    let mut scheduler = Scheduler::new(jobs(2), vec![1, 2, 3, 4]);
    let wave = scheduler.start();
    assert_eq!(wave, vec![Dispatch { core: 1, job: 0 }, Dispatch { core: 2, job: 1 }]);
    assert_eq!(scheduler.pending(), 0);
    assert_eq!(scheduler.active(), 2);
}

#[test]
fn an_empty_queue_is_done_at_once() {
    let mut scheduler = Scheduler::new(Vec::new(), vec![1, 2]);
    assert!(scheduler.start().is_empty());
    assert!(scheduler.is_done());
}

#[test]
fn every_job_is_started_once_and_the_run_ends_after_as_many_reports() {
    let count = 7;
    let mut scheduler = Scheduler::new(jobs(count), vec![10, 11, 12]);
    let mut started: Vec<usize> = Vec::new();
    let mut busy: Vec<usize> = Vec::new();
    for order in scheduler.start() {
        started.push(order.job);
        busy.push(order.core);
    }
    assert_eq!(started.len(), 3);
    let mut reports = 0;
    let mut emptied = 0;
    while !scheduler.is_done() {
        assert!(reports < count);
        let core = busy.remove(0);
        let before = scheduler.pending();
        let order = scheduler.on_finished(Some(core));
        reports += 1;
        assert!(scheduler.pending() <= before);
        if before > 0 && scheduler.pending() == 0 {
            emptied += 1;
        }
        if let Some(order) = order {
            assert_eq!(order.core, core);
            started.push(order.job);
            busy.push(order.core);
        }
        assert_eq!(scheduler.finished(), reports);
    }
    assert_eq!(reports, count);
    assert_eq!(emptied, 1);
    assert_eq!(started, vec![0, 1, 2, 3, 4, 5, 6]);
    assert!(busy.is_empty());
}

#[test]
fn a_report_from_an_idle_or_unknown_core_changes_nothing() {
    let mut scheduler = Scheduler::new(jobs(3), vec![1, 2]);
    scheduler.start();
    assert_eq!(scheduler.on_finished(None), None);
    assert_eq!(scheduler.on_finished(Some(99)), None);
    assert_eq!(scheduler.finished(), 0);
    assert_eq!(scheduler.pending(), 1);
    assert_eq!(scheduler.on_finished(Some(2)), Some(Dispatch { core: 2, job: 2 }));
    assert_eq!(scheduler.on_finished(Some(1)), None);
    assert_eq!(scheduler.on_finished(Some(1)), None);
    assert_eq!(scheduler.finished(), 2);
    assert_eq!(scheduler.active(), 1);
}

#[test]
fn order_names_its_job() {
    let mut scheduler = Scheduler::new(jobs(2), vec![5]);
    let wave = scheduler.start();
    assert_eq!(scheduler.job(&wave[0]).map(|job| job.dataset.clone()), Some("set0".to_string()));
    assert_eq!(scheduler.job(&Dispatch { core: 5, job: 2 }), None);
    assert_eq!(scheduler.jobs().len(), 2);
}

#[test]
fn two_by_two_on_two_cores() {
    let datasets = vec![dataset("a"), dataset("b")];
    let list = build_jobs(
        &vec![Algorithm::POASTA, Algorithm::SPOA],
        &vec![BenchmarkType::SingleSequence],
        &datasets,
    );
    assert_eq!(list.len(), 4);
    let mut scheduler = Scheduler::new(list, vec![1, 2]);
    let wave = scheduler.start();
    assert_eq!(wave, vec![Dispatch { core: 1, job: 0 }, Dispatch { core: 2, job: 1 }]);
    assert_eq!(scheduler.pending(), 2);

    let mut rows = 0;
    let mut finished = 0;
    let mut flushes = 0;
    let stream = vec![
        single("a"),
        JobResult::Finished(Some(2)),
        single("b"),
        JobResult::Finished(Some(1)),
        single("a"),
        single("b"),
        JobResult::Finished(Some(1)),
        JobResult::Finished(Some(2)),
    ];
    let mut orders = Vec::new();
    for message in &stream {
        match collect(&mut scheduler, message) {
            Action::WriteSingle(row) => {
                assert_eq!(row.len(), 14);
                rows += 1;
            }
            Action::Flush(order) => {
                finished += 1;
                flushes += 1;
                if let Some(order) = order {
                    orders.push(order);
                }
            }
            other => panic!("unexpected action {:?}", other),
        }
    }
    assert_eq!(orders, vec![Dispatch { core: 2, job: 2 }, Dispatch { core: 1, job: 3 }]);
    assert_eq!(rows, 4);
    assert_eq!(finished, 4);
    assert_eq!(flushes, 4);
    assert_eq!(scheduler.finished(), 4);
    assert_eq!(scheduler.pending(), 0);
    assert_eq!(scheduler.active(), 0);
    assert!(scheduler.is_done());
    assert!(!scheduler.is_halted());
}

#[test]
fn a_worker_that_dies_after_one_row_halts_the_run() {
    let mut scheduler = Scheduler::new(jobs(4), vec![1, 2]);
    assert_eq!(scheduler.start().len(), 2);

    let lines = vec![encode(&single("set0"))];
    let messages = read_stream(&lines, false);
    assert_eq!(messages, vec![single("set0"), JobResult::Error]);

    let first = collect(&mut scheduler, &messages[0]);
    match first {
        Action::WriteSingle(row) => assert_eq!(row[0], "set0"),
        other => panic!("unexpected action {:?}", other),
    }
    assert!(!scheduler.is_halted());
    let second = collect(&mut scheduler, &messages[1]);
    assert_eq!(second, Action::Fail(POABenchError::WorkerError));
    assert!(scheduler.is_halted());
    assert_eq!(scheduler.pending(), 2);

    // The other worker runs on and reports; nothing more is started.
    assert_eq!(collect(&mut scheduler, &JobResult::Finished(Some(2))), Action::Flush(None));
    assert_eq!(scheduler.pending(), 2);
    assert!(scheduler.start().is_empty());
    assert!(!scheduler.is_done());
}

#[test]
fn whole_set_results_go_to_their_own_table() {
    let mut scheduler = Scheduler::new(jobs(1), vec![1]);
    scheduler.start();
    let message = JobResult::FullMSAMeasurement(Algorithm::abPOA, "set0".to_string(), measured());
    match collect(&mut scheduler, &message) {
        Action::WriteFullMsa(row) => {
            assert_eq!(row.len(), 8);
            assert_eq!(row[1], "abpoa");
        }
        other => panic!("unexpected action {:?}", other),
    }
    assert_eq!(scheduler.active(), 1);
}

#[test]
fn detected_cores_keep_to_what_was_asked_for() {
    for parallel in [0usize, 1, 2, 3, 64] {
        if let Some(plan) = detect_cores(parallel) {
            assert!(!plan.workers.is_empty());
            assert!(plan.workers.len() < parallel.max(2));
            assert!(!plan.workers.contains(&plan.orchestrator));
            for (i, core) in plan.workers.iter().enumerate() {
                assert!(!plan.workers[..i].contains(core));
            }
        }
    }
}

#[test]
fn without_cores_nothing_is_started() {
    let mut scheduler = Scheduler::new(jobs(2), Vec::new());
    assert!(scheduler.start().is_empty());
    assert_eq!(scheduler.pending(), 2);
    assert_eq!(scheduler.active(), 0);
    assert!(!scheduler.is_done());
    assert_eq!(scheduler.on_finished(Some(0)), None);
}

#[test]
fn a_pool_may_name_a_core_twice() {
    let mut scheduler = Scheduler::new(jobs(3), vec![4, 4]);
    assert_eq!(
        scheduler.start(),
        vec![Dispatch { core: 4, job: 0 }, Dispatch { core: 4, job: 1 }]
    );
    assert_eq!(scheduler.on_finished(Some(4)), Some(Dispatch { core: 4, job: 2 }));
    assert_eq!(scheduler.on_finished(Some(4)), None);
    assert_eq!(scheduler.on_finished(Some(4)), None);
    assert!(scheduler.is_done());
    assert_eq!(scheduler.finished(), 3);
}
