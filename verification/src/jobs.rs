//! Jobs and their results: which aligner runs which kind of benchmark on
//! which data set, the list of jobs of a run, and what a worker reports back.
use vstd::prelude::*;
use crate::bench::Measured;
use crate::dataset::{dataset_views, Dataset, DatasetView};
use crate::text::{is_prefix, same_text, starts_with};

verus! {

/// An alignment tool.
#[allow(non_camel_case_types)]
#[derive(Copy, Clone, Debug, PartialEq, Eq, Structural)]
pub enum Algorithm {
    POASTA,
    SPOA,
    abPOA,
}

impl Algorithm {
    /// The name of the tool on the command line and on the wire.
    pub open spec fn name(self) -> Seq<char> {
        match self {
            Algorithm::POASTA => "poasta"@,
            Algorithm::SPOA => "spoa"@,
            Algorithm::abPOA => "abpoa"@,
        }
    }

    pub fn to_str(&self) -> (name: &'static str)
        ensures
            name@ == self.name(),
    {
        match self {
            Algorithm::POASTA => "poasta",
            Algorithm::SPOA => "spoa",
            Algorithm::abPOA => "abpoa",
        }
    }

    /// The tool that goes by `name`, if there is one.
    pub fn from_name(name: &str) -> (found: Option<Algorithm>)
        ensures
            match found {
                Some(algorithm) => algorithm.name() == name@,
                None => forall|algorithm: Algorithm| algorithm.name() != name@,
            },
    {
        if same_text(name, "poasta") {
            Some(Algorithm::POASTA)
        } else if same_text(name, "spoa") {
            Some(Algorithm::SPOA)
        } else if same_text(name, "abpoa") {
            Some(Algorithm::abPOA)
        } else {
            None
        }
    }
}

/// No two tools share a name, so that a name read back is the tool it was written for.
pub proof fn law_algorithm_names_differ(a: Algorithm, b: Algorithm)
    requires
        a.name() == b.name(),
    ensures
        a == b,
{
    reveal_strlit("poasta");
    reveal_strlit("spoa");
    reveal_strlit("abpoa");
    assert("poasta"@.len() == 6 && "spoa"@.len() == 4 && "abpoa"@.len() == 5);
}

/// Every tool, in the order in which a run goes through them.
pub fn all_algorithms() -> (all: Vec<Algorithm>)
    ensures
        all@ == seq![Algorithm::POASTA, Algorithm::SPOA, Algorithm::abPOA],
{
    vec![Algorithm::POASTA, Algorithm::SPOA, Algorithm::abPOA]
}

/// Whether a job aligns one sequence at a time to a graph built beforehand,
/// or builds the alignment of a whole set.
#[derive(Copy, Clone, Debug, PartialEq, Eq, Structural)]
pub enum BenchmarkType {
    SingleSequence,
    FullMSA,
}

impl BenchmarkType {
    /// The name of the kind on the command line.
    pub open spec fn name(self) -> Seq<char> {
        match self {
            BenchmarkType::SingleSequence => "single-sequence"@,
            BenchmarkType::FullMSA => "full-msa"@,
        }
    }

    pub fn to_str(&self) -> (name: &'static str)
        ensures
            name@ == self.name(),
    {
        match self {
            BenchmarkType::SingleSequence => "single-sequence",
            BenchmarkType::FullMSA => "full-msa",
        }
    }

    /// The kind that goes by `name`, if there is one.
    pub fn from_name(name: &str) -> (found: Option<BenchmarkType>)
        ensures
            match found {
                Some(kind) => kind.name() == name@,
                None => forall|kind: BenchmarkType| kind.name() != name@,
            },
    {
        if same_text(name, "single-sequence") {
            Some(BenchmarkType::SingleSequence)
        } else if same_text(name, "full-msa") {
            Some(BenchmarkType::FullMSA)
        } else {
            None
        }
    }
}

/// The two kinds have different names, so that a name read back is the kind it was written for.
pub proof fn law_benchmark_names_differ(a: BenchmarkType, b: BenchmarkType)
    requires
        a.name() == b.name(),
    ensures
        a == b,
{
    reveal_strlit("single-sequence");
    reveal_strlit("full-msa");
    assert("single-sequence"@.len() == 15 && "full-msa"@.len() == 8);
}

/// Both kinds of benchmark, in the order in which a run goes through them.
pub fn all_benchmark_types() -> (all: Vec<BenchmarkType>)
    ensures
        all@ == seq![BenchmarkType::SingleSequence, BenchmarkType::FullMSA],
{
    vec![BenchmarkType::SingleSequence, BenchmarkType::FullMSA]
}

/// One unit of benchmarking work.
#[derive(Debug, Clone, PartialEq, Eq)]
pub struct Job {
    pub algorithm: Algorithm,
    pub dataset: String,
    pub benchmark_type: BenchmarkType,
}

/// A job as mathematical values.
pub struct JobView {
    pub algorithm: Algorithm,
    pub dataset: Seq<char>,
    pub benchmark_type: BenchmarkType,
}

impl View for Job {
    type V = JobView;

    open spec fn view(&self) -> JobView {
        JobView {
            algorithm: self.algorithm,
            dataset: self.dataset@,
            benchmark_type: self.benchmark_type,
        }
    }
}

/// The views of a sequence of jobs.
pub open spec fn job_views(jobs: Seq<Job>) -> Seq<JobView> {
    Seq::new(jobs.len(), |i: int| jobs[i]@)
}

/// What a worker reports to the orchestrator, one message per line.
#[derive(Debug, Clone, PartialEq, Eq)]
pub enum JobResult {
    /// One sequence was aligned to the graph: the tool, the data set, the
    /// score, the number of nodes and of edges of the graph, the name and the
    /// length of the sequence, the number of visited states, and the
    /// measurement.
    SingleSeqMeasurement(Algorithm, String, usize, usize, usize, String, usize, usize, Measured),
    /// The alignment of a whole set was built: the tool, the data set and the
    /// measurement.
    FullMSAMeasurement(Algorithm, String, Measured),
    /// The worker is done; holds the core it was pinned to, which is free now.
    Finished(Option<usize>),
    /// The worker did not end as it should.
    Error,
}

/// A result as mathematical values.
pub enum JobResultView {
    SingleSeqMeasurement(
        Algorithm,
        Seq<char>,
        usize,
        usize,
        usize,
        Seq<char>,
        usize,
        usize,
        Measured,
    ),
    FullMSAMeasurement(Algorithm, Seq<char>, Measured),
    Finished(Option<usize>),
    Error,
}

impl View for JobResult {
    type V = JobResultView;

    open spec fn view(&self) -> JobResultView {
        match self {
            JobResult::SingleSeqMeasurement(
                algorithm,
                dataset,
                score,
                nodes,
                edges,
                name,
                length,
                visited,
                measured,
            ) => JobResultView::SingleSeqMeasurement(
                *algorithm,
                dataset@,
                *score,
                *nodes,
                *edges,
                name@,
                *length,
                *visited,
                *measured,
            ),
            JobResult::FullMSAMeasurement(algorithm, dataset, measured) => {
                JobResultView::FullMSAMeasurement(*algorithm, dataset@, *measured)
            },
            JobResult::Finished(core) => JobResultView::Finished(*core),
            JobResult::Error => JobResultView::Error,
        }
    }
}

impl JobResult {
    /// Whether the message ends a worker's part in the run.
    pub fn is_terminal(&self) -> (yes: bool)
        ensures
            yes == (self@ is Finished || self@ is Error),
    {
        match self {
            JobResult::Finished(_) => true,
            JobResult::Error => true,
            _ => false,
        }
    }
}

/// The prefix of the names of generated data sets, of which no whole-set
/// alignment is built.
pub open spec fn synthetic_prefix() -> Seq<char> {
    "synthetic/"@
}

/// Whether a kind of benchmark is run on a data set: a whole-set alignment
/// on every data set that is not a generated one, single alignments where
/// there are sequences to build the graph from.
pub open spec fn applicable(kind: BenchmarkType, dataset: DatasetView) -> bool {
    match kind {
        BenchmarkType::FullMSA => !is_prefix(synthetic_prefix(), dataset.name),
        BenchmarkType::SingleSequence => dataset.graph_file is Some,
    }
}

/// The jobs of one tool and one kind: one for each data set on which the
/// kind is run, in the order of the data sets.
pub open spec fn jobs_of_kind(
    algorithm: Algorithm,
    kind: BenchmarkType,
    datasets: Seq<DatasetView>,
) -> Seq<JobView>
    decreases datasets.len(),
{
    if datasets.len() == 0 {
        Seq::empty()
    } else {
        let before = jobs_of_kind(algorithm, kind, datasets.drop_last());
        if applicable(kind, datasets.last()) {
            before.push(
                JobView { algorithm, dataset: datasets.last().name, benchmark_type: kind },
            )
        } else {
            before
        }
    }
}

/// The jobs of one tool: those of each kind, in the order of the kinds.
pub open spec fn jobs_of_algorithm(
    algorithm: Algorithm,
    kinds: Seq<BenchmarkType>,
    datasets: Seq<DatasetView>,
) -> Seq<JobView>
    decreases kinds.len(),
{
    if kinds.len() == 0 {
        Seq::empty()
    } else {
        jobs_of_algorithm(algorithm, kinds.drop_last(), datasets) + jobs_of_kind(
            algorithm,
            kinds.last(),
            datasets,
        )
    }
}

/// The job list of a run: the jobs of each tool, in the order of the tools.
pub open spec fn job_list(
    algorithms: Seq<Algorithm>,
    kinds: Seq<BenchmarkType>,
    datasets: Seq<DatasetView>,
) -> Seq<JobView>
    decreases algorithms.len(),
{
    if algorithms.len() == 0 {
        Seq::empty()
    } else {
        job_list(algorithms.drop_last(), kinds, datasets) + jobs_of_algorithm(
            algorithms.last(),
            kinds,
            datasets,
        )
    }
}

/// Whether `kind` is run on `dataset`.
pub fn is_applicable(kind: BenchmarkType, dataset: &Dataset) -> (yes: bool)
    ensures
        yes == applicable(kind, dataset@),
{
    match kind {
        BenchmarkType::FullMSA => !starts_with(dataset.name(), "synthetic/"),
        BenchmarkType::SingleSequence => dataset.has_graph_set(),
    }
}

/// The tools of a run: those asked for, or all of them where none was asked for.
pub fn selected_algorithms(requested: Vec<Algorithm>) -> (chosen: Vec<Algorithm>)
    ensures
        chosen@ == if requested@.len() > 0 {
            requested@
        } else {
            seq![Algorithm::POASTA, Algorithm::SPOA, Algorithm::abPOA]
        },
{
    if requested.len() > 0 {
        requested
    } else {
        all_algorithms()
    }
}

/// The kinds of a run: those asked for, or both where none was asked for.
pub fn selected_benchmarks(requested: Vec<BenchmarkType>) -> (chosen: Vec<BenchmarkType>)
    ensures
        chosen@ == if requested@.len() > 0 {
            requested@
        } else {
            seq![BenchmarkType::SingleSequence, BenchmarkType::FullMSA]
        },
{
    if requested.len() > 0 {
        requested
    } else {
        all_benchmark_types()
    }
}

/// Builds the job list of a run: tool by tool, within a tool kind by kind,
/// within a kind data set by data set, leaving out the data sets on which the
/// kind is not run.
pub fn build_jobs(
    algorithms: &Vec<Algorithm>,
    kinds: &Vec<BenchmarkType>,
    datasets: &Vec<Dataset>,
) -> (jobs: Vec<Job>)
    ensures
        job_views(jobs@) == job_list(algorithms@, kinds@, dataset_views(datasets@)),
{
    let ghost sets = dataset_views(datasets@);
    let mut jobs: Vec<Job> = Vec::new();
    let mut a: usize = 0;
    assert(algorithms@.take(0) == Seq::<Algorithm>::empty());
    while a < algorithms.len()
        invariant
            a <= algorithms.len(),
            sets == dataset_views(datasets@),
            job_views(jobs@) == job_list(algorithms@.take(a as int), kinds@, sets),
        decreases algorithms.len() - a,
    {
        let algorithm = algorithms[a];
        let ghost done = job_views(jobs@);
        let mut k: usize = 0;
        assert(kinds@.take(0) == Seq::<BenchmarkType>::empty());
        assert(done + Seq::<JobView>::empty() == done);
        while k < kinds.len()
            invariant
                k <= kinds.len(),
                sets == dataset_views(datasets@),
                job_views(jobs@) == done + jobs_of_algorithm(algorithm, kinds@.take(k as int), sets),
            decreases kinds.len() - k,
        {
            let kind = kinds[k];
            let ghost before = job_views(jobs@);
            let mut d: usize = 0;
            assert(sets.take(0) == Seq::<DatasetView>::empty());
            assert(before + Seq::<JobView>::empty() == before);
            while d < datasets.len()
                invariant
                    d <= datasets.len(),
                    sets == dataset_views(datasets@),
                    job_views(jobs@) == before + jobs_of_kind(algorithm, kind, sets.take(d as int)),
                decreases datasets.len() - d,
            {
                let ghost sofar = job_views(jobs@);
                let ghost part = jobs_of_kind(algorithm, kind, sets.take(d as int));
                proof {
                    assert(sets.take(d + 1).drop_last() == sets.take(d as int));
                    assert(sets.take(d + 1).last() == datasets@[d as int]@);
                }
                if is_applicable(kind, &datasets[d]) {
                    let name = datasets[d].name().to_owned();
                    let job = Job { algorithm, dataset: name, benchmark_type: kind };
                    jobs.push(job);
                    proof {
                        assert(job_views(jobs@) == sofar.push(job@));
                        assert((before + part).push(job@) == before + part.push(job@));
                    }
                }
                d += 1;
            }
            proof {
                assert(sets.take(datasets.len() as int) == sets);
                assert(kinds@.take(k + 1).drop_last() == kinds@.take(k as int));
                assert(kinds@.take(k + 1).last() == kind);
                let earlier = jobs_of_algorithm(algorithm, kinds@.take(k as int), sets);
                let these = jobs_of_kind(algorithm, kind, sets);
                assert((done + earlier) + these == done + (earlier + these));
            }
            k += 1;
        }
        proof {
            assert(kinds@.take(kinds.len() as int) == kinds@);
            assert(algorithms@.take(a + 1).drop_last() == algorithms@.take(a as int));
            assert(algorithms@.take(a + 1).last() == algorithm);
        }
        a += 1;
    }
    assert(algorithms@.take(algorithms.len() as int) == algorithms@);
    jobs
}

} // verus!
