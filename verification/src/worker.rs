//! The worker's side of a job: how a worker is called, what it has to load
//! for its job, and how the outcome of one alignment becomes a message.
use vstd::prelude::*;
use crate::bench::Measured;
use crate::jobs::{Algorithm, BenchmarkType, Job, JobResult, JobResultView};
use crate::text::{decimal, decimal_string};

verus! {

/// The arguments of a worker process.
#[derive(Debug, Clone, PartialEq, Eq)]
pub struct WorkerArgs {
    /// The directory that holds the data sets.
    pub datasets_dir: String,
    /// The directory for graphs and tables.
    pub output_dir: String,
    /// The core to pin the process to; unpinned where there is none.
    pub core_id: Option<usize>,
    /// The name of the data set.
    pub dataset: String,
    pub algorithm: Algorithm,
    pub benchmark_type: BenchmarkType,
}

/// The arguments of a worker as mathematical values.
pub struct WorkerArgsView {
    pub datasets_dir: Seq<char>,
    pub output_dir: Seq<char>,
    pub core_id: Option<usize>,
    pub dataset: Seq<char>,
    pub algorithm: Algorithm,
    pub benchmark_type: BenchmarkType,
}

impl View for WorkerArgs {
    type V = WorkerArgsView;

    open spec fn view(&self) -> WorkerArgsView {
        WorkerArgsView {
            datasets_dir: self.datasets_dir@,
            output_dir: self.output_dir@,
            core_id: self.core_id,
            dataset: self.dataset@,
            algorithm: self.algorithm,
            benchmark_type: self.benchmark_type,
        }
    }
}

/// The words behind the program's name with which a worker is called: the
/// role, the two directories, the core if there is one, then the data set,
/// the tool and the kind of benchmark.
pub open spec fn command_line(args: WorkerArgsView) -> Seq<Seq<char>> {
    seq!["worker"@, "-d"@, args.datasets_dir, "-o"@, args.output_dir] + match args.core_id {
        Some(core) => seq!["-c"@, decimal(core as nat)],
        None => Seq::empty(),
    } + seq![args.dataset, args.algorithm.name(), args.benchmark_type.name()]
}

/// The texts of a sequence of words.
pub open spec fn word_texts(words: Seq<String>) -> Seq<Seq<char>> {
    Seq::new(words.len(), |i: int| words[i]@)
}

impl WorkerArgs {
    /// The arguments of the worker that runs `job` on `core`.
    pub fn for_job(datasets_dir: &str, output_dir: &str, job: &Job, core: Option<usize>) -> (args:
        WorkerArgs)
        ensures
            args@ == (WorkerArgsView {
                datasets_dir: datasets_dir@,
                output_dir: output_dir@,
                core_id: core,
                dataset: job@.dataset,
                algorithm: job@.algorithm,
                benchmark_type: job@.benchmark_type,
            }),
    {
        WorkerArgs {
            datasets_dir: datasets_dir.to_owned(),
            output_dir: output_dir.to_owned(),
            core_id: core,
            dataset: job.dataset.clone(),
            algorithm: job.algorithm,
            benchmark_type: job.benchmark_type,
        }
    }

    /// The words with which the worker is called.
    pub fn command_line(&self) -> (words: Vec<String>)
        ensures
            word_texts(words@) == command_line(self@),
    {
        let mut words: Vec<String> = Vec::new();
        words.push("worker".to_owned());
        words.push("-d".to_owned());
        words.push(self.datasets_dir.clone());
        words.push("-o".to_owned());
        words.push(self.output_dir.clone());
        match self.core_id {
            Some(core) => {
                words.push("-c".to_owned());
                words.push(decimal_string(core as u64));
            },
            None => {},
        }
        words.push(self.dataset.clone());
        words.push(self.algorithm.to_str().to_owned());
        words.push(self.benchmark_type.to_str().to_owned());
        assert(word_texts(words@) =~= command_line(self@));
        words
    }
}

/// Which sequences a job aligns.
#[derive(Debug, Clone, Copy, PartialEq, Eq, Structural)]
pub enum SequenceSource {
    /// The sequences set apart for alignment to the graph.
    AlignSet,
    /// All sequences of the data set, combined and sorted.
    CombinedSorted,
}

/// Where the graph comes from to which a job aligns.
#[derive(Debug, Clone, Copy, PartialEq, Eq, Structural)]
pub enum GraphSource {
    /// The job starts from the empty graph.
    Empty,
    /// The alignment file of the data set, built before the run.
    MsaFile,
    /// The graph is built by aligning the data set's graph sequences.
    GraphSequences,
}

/// What a worker does for a job besides aligning.
#[derive(Debug, Clone, Copy, PartialEq, Eq, Structural)]
pub struct WorkerPlan {
    pub sequences: SequenceSource,
    pub graph: GraphSource,
    /// Whether the high-water mark of memory is reset once before the first measurement.
    pub resets_first: bool,
    /// Seconds to wait between preparing the graph and the first alignment.
    pub settle_seconds: u64,
    /// Whether the graph is written to the output directory at the end.
    pub saves_graph: bool,
}

/// The plan of a job, by tool and kind of benchmark.
pub open spec fn plan_of(algorithm: Algorithm, kind: BenchmarkType) -> WorkerPlan {
    match kind {
        BenchmarkType::SingleSequence => WorkerPlan {
            sequences: SequenceSource::AlignSet,
            graph: if algorithm == Algorithm::SPOA {
                GraphSource::GraphSequences
            } else {
                GraphSource::MsaFile
            },
            resets_first: algorithm != Algorithm::POASTA,
            settle_seconds: if algorithm == Algorithm::POASTA {
                0
            } else {
                1
            },
            saves_graph: false,
        },
        BenchmarkType::FullMSA => WorkerPlan {
            sequences: SequenceSource::CombinedSorted,
            graph: GraphSource::Empty,
            resets_first: false,
            settle_seconds: 0,
            saves_graph: algorithm == Algorithm::POASTA,
        },
    }
}

/// The plan of the job that runs `algorithm` as `kind`.
pub fn plan(algorithm: Algorithm, kind: BenchmarkType) -> (plan: WorkerPlan)
    ensures
        plan == plan_of(algorithm, kind),
{
    match kind {
        BenchmarkType::SingleSequence => {
            let (graph, resets_first, settle_seconds) = match algorithm {
                Algorithm::POASTA => (GraphSource::MsaFile, false, 0u64),
                Algorithm::SPOA => (GraphSource::GraphSequences, true, 1u64),
                Algorithm::abPOA => (GraphSource::MsaFile, true, 1u64),
            };
            WorkerPlan {
                sequences: SequenceSource::AlignSet,
                graph,
                resets_first,
                settle_seconds,
                saves_graph: false,
            }
        },
        BenchmarkType::FullMSA => WorkerPlan {
            sequences: SequenceSource::CombinedSorted,
            graph: GraphSource::Empty,
            resets_first: false,
            settle_seconds: 0,
            saves_graph: match algorithm {
                Algorithm::POASTA => true,
                _ => false,
            },
        },
    }
}

/// One step of a worker's run.
#[derive(Debug, Clone, Copy, PartialEq, Eq, Structural)]
pub enum Step {
    /// Make the graph to which the sequences are aligned.
    PrepareGraph(GraphSource),
    /// Wait for so many seconds.
    Settle(u64),
    /// Reset the high-water mark of memory.
    ResetMemory,
    /// Read the peak resident memory, the baseline of all measurements that follow.
    ReadBaseline,
    /// Align the sequence of this number, measure it, and write the result.
    AlignItem(usize),
    /// Align all sequences in one measurement and write the result.
    AlignAll,
    /// Write the graph to the output directory.
    SaveGraph,
    /// Write the message that the worker is done and that this core is free.
    Finish(Option<usize>),
}

/// The steps that align `count` sequences one by one, in their order.
pub open spec fn item_steps(count: nat) -> Seq<Step> {
    Seq::new(count, |i: int| Step::AlignItem(i as usize))
}

/// The run of a worker whose job has `items` sequences: what it does, in
/// order, if nothing fails. A step that fails ends the run then and there.
pub open spec fn script_of(
    algorithm: Algorithm,
    kind: BenchmarkType,
    items: usize,
    core: Option<usize>,
) -> Seq<Step> {
    let plan = plan_of(algorithm, kind);
    match kind {
        BenchmarkType::SingleSequence => seq![Step::PrepareGraph(plan.graph)] + (if plan.settle_seconds
            > 0 {
            seq![Step::Settle(plan.settle_seconds)]
        } else {
            Seq::empty()
        }) + (if plan.resets_first {
            seq![Step::ResetMemory]
        } else {
            Seq::empty()
        }) + seq![Step::ReadBaseline] + item_steps(items as nat) + seq![Step::Finish(core)],
        BenchmarkType::FullMSA => seq![Step::ReadBaseline, Step::AlignAll] + (if plan.saves_graph {
            seq![Step::SaveGraph]
        } else {
            Seq::empty()
        }) + seq![Step::Finish(core)],
    }
}

/// A worker says that it is done exactly once, as the last thing it does,
/// and before that aligns each sequence of a single-sequence job once, in
/// order, or all sequences of a whole-set job at once.
pub proof fn law_script_ends_with_finish(
    algorithm: Algorithm,
    kind: BenchmarkType,
    items: usize,
    core: Option<usize>,
)
    ensures
        ({
            let script = script_of(algorithm, kind, items, core);
            &&& script.len() >= 3
            &&& script.last() == Step::Finish(core)
            &&& forall|i: int| 0 <= i < script.len() - 1 ==> !(#[trigger] script[i] is Finish)
            &&& kind == BenchmarkType::SingleSequence ==> {
                let first = script.len() - items - 1;
                &&& first >= 2
                &&& script.subrange(first, first + items) == item_steps(items as nat)
                &&& forall|i: int|
                    0 <= i < first ==> !(#[trigger] script[i] is AlignItem) && !(script[i]
                        is AlignAll)
            }
            &&& kind == BenchmarkType::FullMSA ==> script[1] == Step::AlignAll && forall|i: int|
                0 <= i < script.len() ==> !(#[trigger] script[i] is AlignItem)
        }),
{
    let script = script_of(algorithm, kind, items, core);
    if kind == BenchmarkType::SingleSequence {
        let first = script.len() - items - 1;
        assert(script.subrange(first, first + items) =~= item_steps(items as nat));
    }
}

impl WorkerArgs {
    /// The steps of the worker's run, for a job that has `items` sequences.
    pub fn script(&self, items: usize) -> (steps: Vec<Step>)
        ensures
            steps@ == script_of(self@.algorithm, self@.benchmark_type, items, self@.core_id),
    {
        let plan = plan(self.algorithm, self.benchmark_type);
        let mut steps: Vec<Step> = Vec::new();
        match self.benchmark_type {
            BenchmarkType::SingleSequence => {
                steps.push(Step::PrepareGraph(plan.graph));
                if plan.settle_seconds > 0 {
                    steps.push(Step::Settle(plan.settle_seconds));
                }
                if plan.resets_first {
                    steps.push(Step::ResetMemory);
                }
                steps.push(Step::ReadBaseline);
                let ghost head = steps@;
                let mut i: usize = 0;
                while i < items
                    invariant
                        i <= items,
                        steps@ == head + item_steps(i as nat),
                    decreases items - i,
                {
                    steps.push(Step::AlignItem(i));
                    assert(item_steps((i + 1) as nat) =~= item_steps(i as nat).push(
                        Step::AlignItem(i),
                    ));
                    i += 1;
                }
                steps.push(Step::Finish(self.core_id));
            },
            BenchmarkType::FullMSA => {
                steps.push(Step::ReadBaseline);
                steps.push(Step::AlignAll);
                if plan.saves_graph {
                    steps.push(Step::SaveGraph);
                }
                steps.push(Step::Finish(self.core_id));
            },
        }
        assert(steps@ =~= script_of(
            self@.algorithm,
            self@.benchmark_type,
            items,
            self@.core_id,
        ));
        steps
    }
}

/// What an alignment is charged for: a mismatch, opening a gap, and each
/// position of a gap. A match costs nothing.
#[derive(Debug, Clone, Copy, PartialEq, Eq, Structural)]
pub struct CostModel {
    pub mismatch: u8,
    pub gap_open: u8,
    pub gap_extend: u8,
}

/// The costs with which every tool is run, so that their results compare.
pub fn benchmark_costs() -> (costs: CostModel)
    ensures
        costs == (CostModel { mismatch: 4, gap_open: 6, gap_extend: 2 }),
{
    CostModel { mismatch: 4, gap_open: 6, gap_extend: 2 }
}

/// The scores that make SPOA charge `costs`: zero for a match, the negative
/// of the cost for a mismatch and for each further position of a gap, and
/// for the first position of a gap the negative of opening and extending
/// together. Nothing where a score does not fit SPOA's eight bits.
pub fn spoa_scores(costs: CostModel) -> (scores: Option<(i8, i8, i8, i8)>)
    ensures
        match scores {
            Some((matched, mismatch, gap_open, gap_extend)) => {
                &&& matched == 0
                &&& mismatch == -(costs.mismatch as int)
                &&& gap_open == -(costs.gap_open + costs.gap_extend)
                &&& gap_extend == -(costs.gap_extend as int)
            },
            None => costs.mismatch > 128 || costs.gap_open + costs.gap_extend > 128,
        },
{
    let first: u16 = costs.gap_open as u16 + costs.gap_extend as u16;
    if costs.mismatch > 128 || first > 128 {
        return None;
    }
    let mismatch: i16 = -(costs.mismatch as i16);
    let gap_open: i16 = -(first as i16);
    let gap_extend: i16 = -(costs.gap_extend as i16);
    Some((0, mismatch as i8, gap_open as i8, gap_extend as i8))
}

/// The penalties that make abPOA charge `costs`: a score of zero for a
/// match, then the costs as they are.
pub fn abpoa_penalties(costs: CostModel) -> (penalties: (i32, i32, i32, i32))
    ensures
        penalties == (0i32, costs.mismatch as i32, costs.gap_open as i32, costs.gap_extend as i32),
{
    (0, costs.mismatch as i32, costs.gap_open as i32, costs.gap_extend as i32)
}

/// The cost of an alignment whose score is `score`: a tool that scores a
/// match with zero and everything else below zero reports a cost as its
/// negative.
pub open spec fn cost_of(score: i32) -> Option<usize> {
    if score <= 0 {
        Some((-score) as usize)
    } else {
        None
    }
}

/// The cost that stands for `score`; nothing for a score above zero, which
/// is no cost.
pub fn cost_from_score(score: i32) -> (cost: Option<usize>)
    ensures
        cost == cost_of(score),
        cost matches Some(c) ==> c == -score,
{
    if score <= 0 {
        let wide: i64 = -(score as i64);
        Some(wide as usize)
    } else {
        None
    }
}

/// The number of cells of the three matrices that SPOA fills to align a
/// sequence of `length` letters to a graph of `nodes` nodes.
pub open spec fn spoa_cells(length: usize, nodes: usize) -> int {
    (length + 1) * (nodes + 1) * 3
}

/// The number of cells SPOA visits, where it fits the machine's word.
pub fn spoa_visited(length: usize, nodes: usize) -> (cells: Option<usize>)
    ensures
        match cells {
            Some(n) => n == spoa_cells(length, nodes),
            None => spoa_cells(length, nodes) > usize::MAX,
        },
{
    let rows = match length.checked_add(1) {
        Some(rows) => rows,
        None => {
            assert(spoa_cells(length, nodes) > usize::MAX) by (nonlinear_arith)
                requires
                    length + 1 > usize::MAX,
                    nodes >= 0,
            ;
            return None;
        },
    };
    let columns = match nodes.checked_add(1) {
        Some(columns) => columns,
        None => {
            assert(spoa_cells(length, nodes) > usize::MAX) by (nonlinear_arith)
                requires
                    nodes + 1 > usize::MAX,
                    length >= 0,
            ;
            return None;
        },
    };
    let plane = match rows.checked_mul(columns) {
        Some(plane) => plane,
        None => {
            assert(spoa_cells(length, nodes) > usize::MAX) by (nonlinear_arith)
                requires
                    (length + 1) * (nodes + 1) > usize::MAX,
            ;
            return None;
        },
    };
    plane.checked_mul(3)
}

/// The number of nodes of an abPOA graph without its two end markers.
pub fn abpoa_inner_nodes(total: usize) -> (inner: Option<usize>)
    ensures
        match inner {
            Some(n) => n + 2 == total,
            None => total < 2,
        },
{
    total.checked_sub(2)
}

/// The message for one alignment by POASTA, which reports its cost and the
/// number of states it visited itself; the edges of its graph are not
/// counted.
pub fn poasta_result(
    dataset: &str,
    score: usize,
    nodes: usize,
    name: String,
    length: usize,
    visited: usize,
    measured: Measured,
) -> (message: JobResult)
    ensures
        message@ == JobResultView::SingleSeqMeasurement(
            Algorithm::POASTA,
            dataset@,
            score,
            nodes,
            0,
            name@,
            length,
            visited,
            measured,
        ),
{
    JobResult::SingleSeqMeasurement(
        Algorithm::POASTA,
        dataset.to_owned(),
        score,
        nodes,
        0,
        name,
        length,
        visited,
        measured,
    )
}

/// The message for one alignment by SPOA, from the score it reports and the
/// size of its graph. Nothing where the score is above zero or the number
/// of visited cells does not fit the machine's word.
pub fn spoa_result(
    dataset: &str,
    score: i32,
    nodes: usize,
    edges: usize,
    name: String,
    length: usize,
    measured: Measured,
) -> (message: Option<JobResult>)
    ensures
        match message {
            Some(m) => score <= 0 && spoa_cells(length, nodes) <= usize::MAX && m@
                == JobResultView::SingleSeqMeasurement(
                Algorithm::SPOA,
                dataset@,
                (-score) as usize,
                nodes,
                edges,
                name@,
                length,
                spoa_cells(length, nodes) as usize,
                measured,
            ),
            None => score > 0 || spoa_cells(length, nodes) > usize::MAX,
        },
{
    match (cost_from_score(score), spoa_visited(length, nodes)) {
        (Some(cost), Some(visited)) => Some(
            JobResult::SingleSeqMeasurement(
                Algorithm::SPOA,
                dataset.to_owned(),
                cost,
                nodes,
                edges,
                name,
                length,
                visited,
                measured,
            ),
        ),
        _ => None,
    }
}

/// The message for one alignment by abPOA, from the score it reports and
/// the number of nodes of its graph, end markers included; neither edges
/// nor visited states are counted. Nothing where the score is above zero or
/// the graph lacks its end markers.
pub fn abpoa_result(
    dataset: &str,
    score: i32,
    total_nodes: usize,
    name: String,
    length: usize,
    measured: Measured,
) -> (message: Option<JobResult>)
    ensures
        match message {
            Some(m) => score <= 0 && total_nodes >= 2 && m@
                == JobResultView::SingleSeqMeasurement(
                Algorithm::abPOA,
                dataset@,
                (-score) as usize,
                (total_nodes - 2) as usize,
                0,
                name@,
                length,
                0,
                measured,
            ),
            None => score > 0 || total_nodes < 2,
        },
{
    match (cost_from_score(score), abpoa_inner_nodes(total_nodes)) {
        (Some(cost), Some(nodes)) => Some(
            JobResult::SingleSeqMeasurement(
                Algorithm::abPOA,
                dataset.to_owned(),
                cost,
                nodes,
                0,
                name,
                length,
                0,
                measured,
            ),
        ),
        _ => None,
    }
}

/// The exit status of a worker: zero if and only if it has sent the
/// message that it is done.
pub fn exit_status(sent_finished: bool) -> (status: u8)
    ensures
        (status == 0) == sent_finished,
        status <= 1,
{
    if sent_finished {
        0
    } else {
        1
    }
}

} // verus!
