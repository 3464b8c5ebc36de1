//! The scheduler: which cores run workers, which job runs on which core, and
//! what happens to the queue when a worker reports that it is done or fails.
//!
//! The scheduler decides and records; it starts no process. Whoever drives
//! it starts a worker for each `Dispatch` it hands out and tells it of each
//! terminal message that arrives.
use vstd::prelude::*;
use crate::jobs::{job_views, Job, JobView};

verus! {

/// The cores of a run: one for the orchestrator, the others for workers.
#[derive(Debug, Clone, PartialEq, Eq)]
pub struct CorePlan {
    /// The core reserved for the orchestrator; no worker ever runs on it.
    pub orchestrator: usize,
    /// The pool of cores for workers.
    pub workers: Vec<usize>,
}

/// The number of cores a run uses when `parallel` are asked for: at least
/// two, so that one is left for a worker.
pub open spec fn cores_wanted(parallel: usize) -> int {
    if parallel > 2 {
        parallel as int
    } else {
        2
    }
}

/// The cores handed to workers: of the first `cores_wanted(parallel)` cores
/// that are available, all but the first.
pub open spec fn worker_share(available: Seq<usize>, parallel: usize) -> Seq<usize> {
    if cores_wanted(parallel) < available.len() {
        available.subrange(1, cores_wanted(parallel))
    } else {
        available.subrange(1, available.len() as int)
    }
}

/// `plan` is how `available` is split for a run that asks for `parallel`
/// cores: the first core is the orchestrator's, the share that follows it
/// is the pool.
pub open spec fn splits(plan: CorePlan, available: Seq<usize>, parallel: usize) -> bool {
    &&& available.len() >= 2
    &&& plan.orchestrator == available[0]
    &&& plan.workers@ == worker_share(available, parallel)
}

/// The orchestrator's core is never handed to a worker: where the
/// operating system names each core once, the first of them is none of the
/// pool.
pub proof fn law_orchestrator_core_is_reserved(available: Seq<usize>, parallel: usize)
    requires
        available.len() >= 2,
        available.no_duplicates(),
    ensures
        !worker_share(available, parallel).contains(available[0]),
        worker_share(available, parallel).no_duplicates(),
        1 <= worker_share(available, parallel).len() < cores_wanted(parallel),
{
    let pool = worker_share(available, parallel);
    assert forall|i: int| 0 <= i < pool.len() implies pool[i] != available[0] by {
        assert(pool[i] == available[i + 1]);
    }
    assert forall|i: int, j: int| 0 <= i < pool.len() && 0 <= j < pool.len() && i != j implies pool[i]
        != pool[j] by {
        assert(pool[i] == available[i + 1]);
        assert(pool[j] == available[j + 1]);
    }
}

/// Splits the available cores between the orchestrator and the workers.
///
/// The first available core is the orchestrator's, the following ones, up to
/// `parallel` cores in all and at least one, are the pool. `None` when fewer
/// than two cores are available, so that no worker could have one.
pub fn plan_cores(available: &Vec<usize>, parallel: usize) -> (plan: Option<CorePlan>)
    ensures
        match plan {
            Some(p) => {
                &&& available.len() >= 2
                &&& p.orchestrator == available@[0]
                &&& p.workers@ == worker_share(available@, parallel)
                &&& p.workers.len() >= 1
                &&& splits(p, available@, parallel)
            },
            None => available.len() < 2,
        },
{
    if available.len() < 2 {
        return None;
    }
    let wanted: usize = if parallel > 2 {
        parallel
    } else {
        2
    };
    let taken: usize = if wanted < available.len() {
        wanted
    } else {
        available.len()
    };
    let mut workers: Vec<usize> = Vec::new();
    let mut i: usize = 1;
    while i < taken
        invariant
            1 <= i <= taken <= available.len(),
            workers@ == available@.subrange(1, i as int),
        decreases taken - i,
    {
        workers.push(available[i]);
        assert(available@.subrange(1, i + 1) == available@.subrange(1, i as int).push(
            available@[i as int],
        ));
        i += 1;
    }
    Some(CorePlan { orchestrator: available[0], workers })
}

/// `core_affinity::get_core_ids`: the logical cores the current thread may
/// run on, or nothing where the operating system does not tell. Which cores
/// come back depends on the machine; on every platform the crate goes
/// through the cores in rising order and names each at most once, and that
/// no core comes back twice is all that is claimed.
#[verifier::external_body]
fn available_cores() -> (cores: Option<Vec<usize>>)
    ensures
        cores matches Some(ids) ==> ids@.no_duplicates(),
{
    match core_affinity::get_core_ids() {
        Some(ids) => Some(ids.into_iter().map(|core| core.id).collect()),
        None => None,
    }
}

/// Asks the operating system for the cores of this machine and splits them
/// as `plan_cores` does: the first core it names is reserved for the
/// orchestrator and is none of the pool, the cores that follow, up to
/// `parallel` in all and at least one, are the pool, each of them once.
/// `None` when the operating system does not tell or names fewer than two
/// cores.
pub fn detect_cores(parallel: usize) -> (plan: Option<CorePlan>)
    ensures
        plan matches Some(p) ==> {
            &&& exists|available: Seq<usize>|
                available.no_duplicates() && #[trigger] splits(p, available, parallel)
            &&& !p.workers@.contains(p.orchestrator)
            &&& p.workers@.no_duplicates()
            &&& 1 <= p.workers.len() < cores_wanted(parallel)
        },
{
    match available_cores() {
        Some(available) => {
            let plan = plan_cores(&available, parallel);
            proof {
                if let Some(p) = &plan {
                    law_orchestrator_core_is_reserved(available@, parallel);
                    assert(splits(*p, available@, parallel));
                }
            }
            plan
        },
        None => None,
    }
}

/// The order to start a worker: job number `job` of the job list, pinned to `core`.
#[derive(Debug, Clone, Copy, PartialEq, Eq, Structural)]
pub struct Dispatch {
    pub core: usize,
    pub job: usize,
}

/// How many entries of `running` hold a job.
pub open spec fn busy_count(running: Seq<Option<usize>>) -> nat
    decreases running.len(),
{
    if running.len() == 0 {
        0
    } else {
        busy_count(running.drop_last()) + if running.last() is Some {
            1nat
        } else {
            0nat
        }
    }
}

/// The first position from `from` on at which `core` stands and is busy;
/// the length of the pool where there is none.
pub open spec fn busy_slot(
    cores: Seq<usize>,
    running: Seq<Option<usize>>,
    core: usize,
    from: int,
) -> int
    decreases cores.len() - from,
{
    if from >= cores.len() {
        cores.len() as int
    } else if cores[from] == core && running[from] is Some {
        from
    } else {
        busy_slot(cores, running, core, from + 1)
    }
}

/// The state of a run as mathematical values.
pub struct SchedulerView {
    /// The job list, in the order in which jobs are started.
    pub jobs: Seq<JobView>,
    /// The pool of worker cores.
    pub cores: Seq<usize>,
    /// For each core of the pool, the number of the job that runs on it.
    pub running: Seq<Option<usize>>,
    /// The number of jobs started so far: job `next` is the head of the queue.
    pub next: nat,
    /// The number of workers that have reported that they are done.
    pub finished: nat,
    /// Whether a worker has failed, after which no job is started.
    pub halted: bool,
}

impl SchedulerView {
    /// The state before any job has been started.
    pub open spec fn fresh(jobs: Seq<JobView>, cores: Seq<usize>) -> SchedulerView {
        SchedulerView {
            jobs,
            cores,
            running: Seq::new(cores.len(), |i: int| None),
            next: 0,
            finished: 0,
            halted: false,
        }
    }

    /// What always holds of a scheduler: every started job runs on one core
    /// or is done, and each core runs a job that has been started.
    pub open spec fn wf(self) -> bool {
        &&& self.running.len() == self.cores.len()
        &&& self.next <= self.jobs.len()
        &&& busy_count(self.running) + self.finished == self.next
        &&& forall|i: int|
            0 <= i < self.running.len() ==> (#[trigger] self.running[i] matches Some(j) ==> j
                < self.next)
    }

    /// The number of jobs that wait to be started.
    pub open spec fn pending(self) -> nat {
        (self.jobs.len() - self.next) as nat
    }

    /// The number of jobs that run.
    pub open spec fn active(self) -> nat {
        busy_count(self.running)
    }

    /// The run is over: no job waits and none runs.
    pub open spec fn done(self) -> bool {
        self.next == self.jobs.len() && self.active() == 0
    }

    /// No core idles while a job waits.
    pub open spec fn saturated(self) -> bool {
        self.next < self.jobs.len() ==> forall|i: int|
            0 <= i < self.running.len() ==> (#[trigger] self.running[i]) is Some
    }

    /// The state after the first `upto` cores of the pool have been offered
    /// a job: each free one among them takes the head of the queue, while
    /// there is one.
    pub open spec fn filled(self, upto: nat) -> SchedulerView
        decreases upto,
    {
        if upto == 0 {
            self
        } else {
            let before = self.filled((upto - 1) as nat);
            let slot = upto - 1;
            if !before.halted && before.running[slot] is None && before.next < before.jobs.len() {
                SchedulerView {
                    running: before.running.update(slot, Some(before.next as usize)),
                    next: before.next + 1,
                    ..before
                }
            } else {
                before
            }
        }
    }

    /// The orders handed out while the first `upto` cores are offered a job.
    pub open spec fn wave(self, upto: nat) -> Seq<Dispatch>
        decreases upto,
    {
        if upto == 0 {
            Seq::empty()
        } else {
            let before = self.filled((upto - 1) as nat);
            let slot = upto - 1;
            if !before.halted && before.running[slot] is None && before.next < before.jobs.len() {
                self.wave((upto - 1) as nat).push(
                    Dispatch { core: before.cores[slot], job: before.next as usize },
                )
            } else {
                self.wave((upto - 1) as nat)
            }
        }
    }

    /// The position of the worker whose message says that `core` is free
    /// again: the first busy position of that core.
    pub open spec fn reporting_slot(self, core: Option<usize>) -> Option<int> {
        match core {
            Some(c) => {
                let slot = busy_slot(self.cores, self.running, c, 0);
                if slot < self.cores.len() {
                    Some(slot)
                } else {
                    None
                }
            },
            None => None,
        }
    }

    /// The order handed out when a worker reports that it is done on `core`:
    /// the head of the queue goes to that core, unless the queue is empty,
    /// the run has been halted, or no worker runs on `core`.
    pub open spec fn reply(self, core: Option<usize>) -> Option<Dispatch> {
        match self.reporting_slot(core) {
            Some(slot) => if !self.halted && self.next < self.jobs.len() {
                Some(Dispatch { core: self.cores[slot], job: self.next as usize })
            } else {
                None
            },
            None => None,
        }
    }

    /// The state after a worker has reported that it is done on `core`.
    pub open spec fn finish(self, core: Option<usize>) -> SchedulerView {
        match self.reporting_slot(core) {
            Some(slot) => if !self.halted && self.next < self.jobs.len() {
                SchedulerView {
                    running: self.running.update(slot, Some(self.next as usize)),
                    next: self.next + 1,
                    finished: self.finished + 1,
                    ..self
                }
            } else {
                SchedulerView {
                    running: self.running.update(slot, None),
                    finished: self.finished + 1,
                    ..self
                }
            },
            None => self,
        }
    }

    /// The state after a worker has failed: what runs goes on, nothing more
    /// is started.
    pub open spec fn halt(self) -> SchedulerView {
        SchedulerView { halted: true, ..self }
    }
}

/// Changing one entry changes the number of busy entries by what that entry
/// gains or loses.
pub proof fn lemma_busy_update(running: Seq<Option<usize>>, slot: int, value: Option<usize>)
    requires
        0 <= slot < running.len(),
    ensures
        busy_count(running.update(slot, value)) + (if running[slot] is Some {
            1nat
        } else {
            0nat
        }) == busy_count(running) + (if value is Some {
            1nat
        } else {
            0nat
        }),
    decreases running.len(),
{
    let changed = running.update(slot, value);
    if slot == running.len() - 1 {
        assert(changed.drop_last() == running.drop_last());
    } else {
        assert(changed.drop_last() == running.drop_last().update(slot, value));
        lemma_busy_update(running.drop_last(), slot, value);
    }
}

/// Where every entry is busy the count is the length; where the count is
/// above zero some entry is busy.
pub proof fn lemma_busy_bounds(running: Seq<Option<usize>>)
    ensures
        busy_count(running) <= running.len(),
        (forall|i: int| 0 <= i < running.len() ==> (#[trigger] running[i]) is Some)
            ==> busy_count(running) == running.len(),
        (forall|i: int| 0 <= i < running.len() ==> (#[trigger] running[i]) is None)
            ==> busy_count(running) == 0,
        busy_count(running) > 0 ==> exists|i: int|
            0 <= i < running.len() && (#[trigger] running[i]) is Some,
    decreases running.len(),
{
    if running.len() > 0 {
        let front = running.drop_last();
        lemma_busy_bounds(front);
        assert forall|i: int| 0 <= i < front.len() implies front[i] == running[i] by {}
        if busy_count(running) > 0 {
            if running.last() is Some {
                assert(running[running.len() - 1] is Some);
            } else {
                let i = choose|i: int| 0 <= i < front.len() && (#[trigger] front[i]) is Some;
                assert(running[i] is Some);
            }
        }
        if forall|i: int| 0 <= i < running.len() ==> (#[trigger] running[i]) is Some {
            assert forall|i: int| 0 <= i < front.len() implies (#[trigger] front[i]) is Some by {
                assert(running[i] is Some);
            }
            assert(running[running.len() - 1] is Some);
        }
        if forall|i: int| 0 <= i < running.len() ==> (#[trigger] running[i]) is None {
            assert forall|i: int| 0 <= i < front.len() implies (#[trigger] front[i]) is None by {
                assert(running[i] is None);
            }
            assert(running[running.len() - 1] is None);
        }
    }
}

/// The smaller of two numbers.
pub open spec fn least(a: int, b: int) -> int {
    if a <= b {
        a
    } else {
        b
    }
}

/// Offering a job to further cores of a fresh pool: each core takes the job
/// of its own position until the jobs run out.
pub proof fn lemma_fresh_filled(jobs: Seq<JobView>, cores: Seq<usize>, upto: nat)
    requires
        upto <= cores.len(),
        jobs.len() <= usize::MAX,
    ensures
        ({
            let start = SchedulerView::fresh(jobs, cores);
            let now = start.filled(upto);
            let started = least(upto as int, jobs.len() as int);
            &&& now.jobs == jobs
            &&& now.cores == cores
            &&& now.finished == 0
            &&& !now.halted
            &&& now.next == started
            &&& now.running.len() == cores.len()
            &&& forall|i: int|
                0 <= i < cores.len() ==> #[trigger] now.running[i] == if i < started {
                    Some(i as usize)
                } else {
                    None::<usize>
                }
            &&& start.wave(upto).len() == started
            &&& forall|i: int|
                0 <= i < started ==> #[trigger] start.wave(upto)[i] == (Dispatch {
                    core: cores[i],
                    job: i as usize,
                })
            &&& busy_count(now.running.subrange(0, upto as int)) == started
            &&& busy_count(now.running) == started
        }),
    decreases upto,
{
    let start = SchedulerView::fresh(jobs, cores);
    let now = start.filled(upto);
    if upto == 0 {
        lemma_busy_bounds(now.running);
        assert(now.running.subrange(0, 0) == Seq::<Option<usize>>::empty());
    } else {
        lemma_fresh_filled(jobs, cores, (upto - 1) as nat);
        let before = start.filled((upto - 1) as nat);
        let slot = upto - 1;
        assert(before.running[slot] is None);
        let front = now.running.subrange(0, upto as int);
        assert(front.drop_last() == before.running.subrange(0, slot));
        assert(front.last() == now.running[slot]);
        lemma_busy_update(before.running, slot, now.running[slot]);
        if !(before.next < jobs.len()) {
            assert(now == before);
        }
    }
}

impl SchedulerView {
    /// The state after the workers named in `cores` have reported, one after
    /// the other, that they are done.
    pub open spec fn after(self, cores: Seq<usize>) -> SchedulerView
        decreases cores.len(),
    {
        if cores.len() == 0 {
            self
        } else {
            self.after(cores.drop_last()).finish(Some(cores.last()))
        }
    }

    /// Each report in `cores` comes from a core on which a worker runs at
    /// that moment.
    pub open spec fn answered(self, cores: Seq<usize>) -> bool
        decreases cores.len(),
    {
        cores.len() > 0 ==> {
            &&& self.answered(cores.drop_last())
            &&& self.after(cores.drop_last()).reporting_slot(Some(cores.last())) is Some
        }
    }
}

/// One report from a busy core, absent failures: one more worker is done,
/// the head of the queue is started if there is one, and no core idles
/// while a job waits.
pub proof fn lemma_finish_step(s: SchedulerView, core: usize)
    requires
        s.wf(),
        s.saturated(),
        !s.halted,
        s.jobs.len() <= usize::MAX,
        s.reporting_slot(Some(core)) is Some,
    ensures
        s.finish(Some(core)).wf(),
        s.finish(Some(core)).saturated(),
        !s.finish(Some(core)).halted,
        s.finish(Some(core)).jobs == s.jobs,
        s.finish(Some(core)).cores == s.cores,
        s.finish(Some(core)).finished == s.finished + 1,
        s.finish(Some(core)).next == least(s.next as int + 1, s.jobs.len() as int),
{
    let slot = s.reporting_slot(Some(core))->0;
    lemma_busy_slot(s.cores, s.running, core, 0);
    let now = s.finish(Some(core));
    lemma_busy_update(s.running, slot, now.running[slot]);
    if s.next < s.jobs.len() {
        assert forall|i: int| 0 <= i < now.running.len() implies (#[trigger] now.running[i])
            is Some by {
            assert(s.running[i] is Some);
        }
    }
    assert forall|i: int| 0 <= i < now.running.len() implies (#[trigger] now.running[i] matches Some(
        j,
    ) ==> j < now.next) by {
        if i != slot {
            assert(s.running[i] == now.running[i]);
        }
    }
}

/// Where `busy_slot` finds a position, that position holds `core` and is
/// busy, and no earlier one from `from` on does.
pub proof fn lemma_busy_slot(
    cores: Seq<usize>,
    running: Seq<Option<usize>>,
    core: usize,
    from: int,
)
    requires
        0 <= from <= cores.len(),
        running.len() == cores.len(),
    ensures
        from <= busy_slot(cores, running, core, from) <= cores.len(),
        busy_slot(cores, running, core, from) < cores.len() ==> {
            &&& cores[busy_slot(cores, running, core, from)] == core
            &&& running[busy_slot(cores, running, core, from)] is Some
        },
        forall|i: int|
            from <= i < busy_slot(cores, running, core, from) ==> !(cores[i] == core
                && #[trigger] running[i] is Some),
    decreases cores.len() - from,
{
    if from < cores.len() && !(cores[from] == core && running[from] is Some) {
        lemma_busy_slot(cores, running, core, from + 1);
    }
}

/// A run without failures. With `n` jobs in the queue and a pool of `k >= 1`
/// cores, the first wave starts the first `min(k, n)` jobs, one per core.
/// After that, however the reports of finished workers come in, the run is
/// over exactly when `n` of them have been observed: it never stops earlier,
/// since until then some worker runs, and no more than `n` can come. The
/// queue is handed out in its order and is empty from the moment on at which
/// `n - min(k, n)` reports have come.
pub proof fn law_every_job_finishes(jobs: Seq<JobView>, cores: Seq<usize>, reports: Seq<usize>)
    requires
        cores.len() >= 1,
        jobs.len() <= usize::MAX,
        SchedulerView::fresh(jobs, cores).filled(cores.len()).answered(reports),
    ensures
        ({
            let start = SchedulerView::fresh(jobs, cores);
            let first = least(cores.len() as int, jobs.len() as int);
            let end = start.filled(cores.len()).after(reports);
            &&& start.wave(cores.len()).len() == first
            &&& reports.len() <= jobs.len()
            &&& end.wf()
            &&& end.saturated()
            &&& !end.halted
            &&& end.jobs == jobs
            &&& end.cores == cores
            &&& end.finished == reports.len()
            &&& end.next == least(first + reports.len(), jobs.len() as int)
            &&& end.pending() == jobs.len() - end.next
            &&& end.active() == end.next - reports.len()
            &&& (end.done() <==> reports.len() == jobs.len())
            &&& (reports.len() < jobs.len() ==> end.active() > 0)
        }),
    decreases reports.len(),
{
    let start = SchedulerView::fresh(jobs, cores);
    let begun = start.filled(cores.len());
    let first = least(cores.len() as int, jobs.len() as int);
    lemma_fresh_filled(jobs, cores, cores.len());
    if reports.len() == 0 {
        assert(begun.wf());
        assert(begun.saturated()) by {
            if begun.next < jobs.len() {
                assert forall|i: int| 0 <= i < begun.running.len() implies (
                #[trigger] begun.running[i]) is Some by {}
            }
        }
    } else {
        let earlier = reports.drop_last();
        law_every_job_finishes(jobs, cores, earlier);
        let before = begun.after(earlier);
        lemma_finish_step(before, reports.last());
        lemma_busy_slot(before.cores, before.running, reports.last(), 0);
        lemma_busy_bounds(before.running);
        assert(before.active() > 0) by {
            let slot = before.reporting_slot(Some(reports.last()))->0;
            assert(before.running[slot] is Some);
            if busy_count(before.running) == 0 {
                lemma_busy_none(before.running, slot);
            }
        }
    }
}

/// Where no entry is counted as busy, no entry is busy.
pub proof fn lemma_busy_none(running: Seq<Option<usize>>, slot: int)
    requires
        0 <= slot < running.len(),
        busy_count(running) == 0,
    ensures
        running[slot] is None,
    decreases running.len(),
{
    if slot < running.len() - 1 {
        lemma_busy_none(running.drop_last(), slot);
    }
}

/// The queue never grows: whatever is reported, no more jobs wait afterwards
/// than before, so that once the queue is empty it stays empty.
pub proof fn law_queue_only_shrinks(s: SchedulerView, core: Option<usize>, upto: nat)
    requires
        s.wf(),
    ensures
        s.finish(core).pending() <= s.pending(),
        s.halt().pending() == s.pending(),
        s.filled(upto).pending() <= s.pending(),
        s.filled(upto).next <= s.jobs.len(),
        s.filled(upto).jobs == s.jobs,
    decreases upto,
{
    if upto > 0 {
        law_queue_only_shrinks(s, core, (upto - 1) as nat);
    }
}

/// After a failure nothing more is started: neither a report nor a new
/// offer to the cores hands out an order.
pub proof fn law_halt_stops_dispatch(s: SchedulerView, core: Option<usize>, upto: nat)
    requires
        s.halted,
    ensures
        s.reply(core) is None,
        s.finish(core).halted,
        s.finish(core).next == s.next,
        s.filled(upto) == s,
        s.wave(upto).len() == 0,
    decreases upto,
{
    if upto > 0 {
        law_halt_stops_dispatch(s, core, (upto - 1) as nat);
    }
}

/// What runs where, and how far the queue has been handed out.
struct Progress {
    running: Vec<Option<usize>>,
    next: usize,
    finished: usize,
}

/// The scheduler of one run: the job list, the pool of cores, and what runs where.
pub struct Scheduler {
    jobs: Vec<Job>,
    cores: Vec<usize>,
    progress: Progress,
    halted: bool,
}

impl View for Scheduler {
    type V = SchedulerView;

    closed spec fn view(&self) -> SchedulerView {
        SchedulerView {
            jobs: job_views(self.jobs@),
            cores: self.cores@,
            running: self.progress.running@,
            next: self.progress.next as nat,
            finished: self.progress.finished as nat,
            halted: self.halted,
        }
    }
}

/// A copy of `running` in which position `slot` holds `value`.
fn with_slot(running: &Vec<Option<usize>>, slot: usize, value: Option<usize>) -> (changed: Vec<
    Option<usize>,
>)
    requires
        slot < running.len(),
    ensures
        changed@ == running@.update(slot as int, value),
{
    let mut changed: Vec<Option<usize>> = Vec::new();
    let mut i: usize = 0;
    while i < running.len()
        invariant
            i <= running.len(),
            slot < running.len(),
            changed.len() == i,
            forall|j: int|
                0 <= j < i ==> #[trigger] changed@[j] == running@.update(slot as int, value)[j],
        decreases running.len() - i,
    {
        if i == slot {
            changed.push(value);
        } else {
            changed.push(running[i]);
        }
        i += 1;
    }
    assert(changed@ =~= running@.update(slot as int, value));
    changed
}

impl Scheduler {
    /// What holds of every scheduler at all times.
    #[verifier::type_invariant]
    pub(crate) closed spec fn inv(self) -> bool {
        self@.wf()
    }

    /// What holds of every scheduler is that its state is well formed.
    pub(crate) proof fn lemma_inv(self)
        requires
            self.inv(),
        ensures
            self@.wf(),
    {
    }

    /// A scheduler that has started nothing yet.
    pub fn new(jobs: Vec<Job>, cores: Vec<usize>) -> (scheduler: Scheduler)
        ensures
            scheduler@ == SchedulerView::fresh(job_views(jobs@), cores@),
            scheduler@.wf(),
    {
        let mut running: Vec<Option<usize>> = Vec::new();
        let mut i: usize = 0;
        while i < cores.len()
            invariant
                i <= cores.len(),
                running.len() == i,
                forall|j: int| 0 <= j < i ==> (#[trigger] running@[j]) is None,
            decreases cores.len() - i,
        {
            running.push(None);
            i += 1;
        }
        proof {
            lemma_busy_bounds(running@);
            assert(running@ =~= Seq::new(cores@.len(), |i: int| None::<usize>));
        }
        Scheduler {
            jobs,
            cores,
            progress: Progress { running, next: 0, finished: 0 },
            halted: false,
        }
    }

    /// The job list.
    pub fn jobs(&self) -> (jobs: &Vec<Job>)
        ensures
            job_views(jobs@) == self@.jobs,
    {
        &self.jobs
    }

    /// The job that `order` starts; nothing where the order names no job of the list.
    pub fn job(&self, order: &Dispatch) -> (job: Option<&Job>)
        ensures
            match job {
                Some(j) => order.job < self@.jobs.len() && j@ == self@.jobs[order.job as int],
                None => order.job >= self@.jobs.len(),
            },
    {
        if order.job < self.jobs.len() {
            Some(&self.jobs[order.job])
        } else {
            None
        }
    }

    /// The number of jobs that wait to be started.
    pub fn pending(&self) -> (count: usize)
        ensures
            count == self@.pending(),
            self@.wf(),
    {
        proof {
            use_type_invariant(self);
        }
        self.jobs.len() - self.progress.next
    }

    /// The number of jobs that run.
    pub fn active(&self) -> (count: usize)
        ensures
            count == self@.active(),
            self@.wf(),
    {
        proof {
            use_type_invariant(self);
        }
        self.progress.next - self.progress.finished
    }

    /// The number of workers that have reported that they are done.
    pub fn finished(&self) -> (count: usize)
        ensures
            count == self@.finished,
    {
        self.progress.finished
    }

    /// Whether a worker has failed.
    pub fn is_halted(&self) -> (yes: bool)
        ensures
            yes == self@.halted,
    {
        self.halted
    }

    /// Whether a job may still be started: one waits and no worker has failed.
    pub fn may_start_more(&self) -> (yes: bool)
        ensures
            yes == (!self@.halted && self@.pending() > 0),
            self@.wf(),
    {
        proof {
            use_type_invariant(self);
        }
        !self.halted && self.progress.next < self.jobs.len()
    }

    /// Whether the run is over: no job waits and none runs.
    pub fn is_done(&self) -> (yes: bool)
        ensures
            yes == self@.done(),
            self@.wf(),
    {
        proof {
            use_type_invariant(self);
        }
        self.progress.next == self.jobs.len() && self.progress.finished == self.progress.next
    }

    /// Offers the head of the queue to each free core, in the order of the
    /// pool, and returns the orders to carry out. On a fresh scheduler this
    /// is the first wave: one job per core, as far as the jobs go.
    pub fn start(&mut self) -> (wave: Vec<Dispatch>)
        ensures
            final(self)@ == old(self)@.filled(old(self)@.cores.len()),
            wave@ == old(self)@.wave(old(self)@.cores.len()),
            old(self)@.wf(),
            final(self)@.wf(),
    {
        proof {
            use_type_invariant(&*self);
        }
        let ghost start = self@;
        let mut wave: Vec<Dispatch> = Vec::new();
        let mut running: Vec<Option<usize>> = Vec::new();
        let mut next: usize = self.progress.next;
        let mut slot: usize = 0;
        while slot < self.cores.len()
            invariant
                slot <= self.cores.len(),
                self@ == start,
                start.wf(),
                running.len() == slot,
                start.filled(slot as nat).wf(),
                start.filled(slot as nat).next == next,
                start.filled(slot as nat).finished == start.finished,
                start.filled(slot as nat).halted == start.halted,
                start.filled(slot as nat).jobs == start.jobs,
                start.filled(slot as nat).cores == start.cores,
                forall|i: int|
                    0 <= i < slot ==> #[trigger] running@[i] == start.filled(slot as nat).running[i],
                forall|i: int|
                    slot <= i < start.running.len() ==> #[trigger] start.filled(
                        slot as nat,
                    ).running[i] == start.running[i],
                wave@ == start.wave(slot as nat),
            decreases self.cores.len() - slot,
        {
            let ghost before = start.filled(slot as nat);
            if !self.halted && self.progress.running[slot].is_none() && next < self.jobs.len() {
                proof {
                    lemma_busy_update(before.running, slot as int, Some(next));
                    let after = start.filled((slot + 1) as nat);
                    assert forall|i: int| 0 <= i < after.running.len() implies (
                    #[trigger] after.running[i] matches Some(j) ==> j < after.next) by {
                        if i != slot {
                            assert(after.running[i] == before.running[i]);
                        }
                    }
                }
                running.push(Some(next));
                wave.push(Dispatch { core: self.cores[slot], job: next });
                next = next + 1;
            } else {
                running.push(self.progress.running[slot]);
            }
            slot += 1;
        }
        proof {
            assert(running@ =~= start.filled(start.cores.len()).running);
        }
        self.progress = Progress { running, next, finished: self.progress.finished };
        wave
    }

    /// Takes note that the worker on `core` has reported that it is done:
    /// the core is free again, and the head of the queue, if there is one
    /// and the run has not been halted, is started on it. A report that
    /// names no core, or a core on which nothing runs, changes nothing.
    pub fn on_finished(&mut self, core: Option<usize>) -> (order: Option<Dispatch>)
        ensures
            final(self)@ == old(self)@.finish(core),
            order == old(self)@.reply(core),
            old(self)@.wf(),
            final(self)@.wf(),
    {
        proof {
            use_type_invariant(&*self);
        }
        let c = match core {
            Some(c) => c,
            None => {
                return None;
            },
        };
        let mut slot: usize = 0;
        while slot < self.cores.len() && !(self.cores[slot] == c
            && self.progress.running[slot].is_some())
            invariant
                slot <= self.cores.len(),
                self.progress.running.len() == self.cores.len(),
                busy_slot(self.cores@, self.progress.running@, c, 0) == busy_slot(
                    self.cores@,
                    self.progress.running@,
                    c,
                    slot as int,
                ),
            decreases self.cores.len() - slot,
        {
            slot += 1;
        }
        if slot >= self.cores.len() {
            return None;
        }
        let ghost before = self@;
        assert(before.reporting_slot(core) == Some(slot as int));
        proof {
            if busy_count(before.running) == 0 {
                lemma_busy_none(before.running, slot as int);
            }
        }
        let next = self.progress.next;
        let finished = self.progress.finished + 1;
        if !self.halted && next < self.jobs.len() {
            let running = with_slot(&self.progress.running, slot, Some(next));
            proof {
                lemma_busy_update(before.running, slot as int, Some(next));
                assert forall|i: int| 0 <= i < running@.len() implies (
                #[trigger] running@[i] matches Some(j) ==> j < next + 1) by {
                    if i != slot {
                        assert(running@[i] == before.running[i]);
                    }
                }
            }
            self.progress = Progress { running, next: next + 1, finished };
            Some(Dispatch { core: c, job: next })
        } else {
            let running = with_slot(&self.progress.running, slot, None);
            proof {
                lemma_busy_update(before.running, slot as int, None);
                assert forall|i: int| 0 <= i < running@.len() implies (
                #[trigger] running@[i] matches Some(j) ==> j < next) by {
                    if i != slot {
                        assert(running@[i] == before.running[i]);
                    }
                }
            }
            self.progress = Progress { running, next, finished };
            None
        }
    }

    /// Takes note that a worker has failed: from now on nothing is started.
    /// The workers that run are left to run.
    pub fn on_error(&mut self)
        ensures
            final(self)@ == old(self)@.halt(),
            final(self)@.wf(),
    {
        proof {
            use_type_invariant(&*self);
        }
        self.halted = true;
    }
}

} // verus!
