//! The collector: what the orchestrator does with each message that arrives
//! from a worker.
use vstd::prelude::*;
use crate::errors::POABenchError;
use crate::jobs::{JobResult, JobResultView};
use crate::scheduler::{Dispatch, Scheduler};
use crate::tables::{cell_texts, row, row_of};

verus! {

/// What is to be done on a message.
#[derive(Debug, Clone, PartialEq, Eq)]
pub enum Action {
    /// Add this row to the table of single alignments.
    WriteSingle(Vec<String>),
    /// Add this row to the table of whole-set alignments.
    WriteFullMsa(Vec<String>),
    /// Flush both tables, then carry out the order, if there is one.
    Flush(Option<Dispatch>),
    /// End the run with this error once the workers that run have ended;
    /// start nothing more.
    Fail(POABenchError),
}

/// Takes one message from the stream of all workers and says what is to be
/// done. A measurement becomes a row of its table and leaves the scheduler
/// alone. A worker that is done has both tables flushed and frees its core
/// for the head of the queue. A failed worker halts the scheduler and ends
/// the run with `WorkerError`.
pub fn collect(scheduler: &mut Scheduler, message: &JobResult) -> (action: Action)
    ensures
        old(scheduler)@.wf(),
        final(scheduler)@.wf(),
        match message@ {
            JobResultView::SingleSeqMeasurement(..) => {
                &&& action matches Action::WriteSingle(cells)
                &&& cell_texts(cells@) == row(message@)
                &&& final(scheduler)@ == old(scheduler)@
            },
            JobResultView::FullMSAMeasurement(..) => {
                &&& action matches Action::WriteFullMsa(cells)
                &&& cell_texts(cells@) == row(message@)
                &&& final(scheduler)@ == old(scheduler)@
            },
            JobResultView::Finished(core) => {
                &&& action == Action::Flush(old(scheduler)@.reply(core))
                &&& final(scheduler)@ == old(scheduler)@.finish(core)
            },
            JobResultView::Error => {
                &&& action == Action::Fail(POABenchError::WorkerError)
                &&& final(scheduler)@ == old(scheduler)@.halt()
            },
        },
{
    proof {
        use_type_invariant(&*scheduler);
        scheduler.lemma_inv();
    }
    match message {
        JobResult::SingleSeqMeasurement(..) => Action::WriteSingle(row_of(message)),
        JobResult::FullMSAMeasurement(..) => Action::WriteFullMsa(row_of(message)),
        JobResult::Finished(core) => Action::Flush(scheduler.on_finished(*core)),
        JobResult::Error => {
            scheduler.on_error();
            Action::Fail(POABenchError::WorkerError)
        },
    }
}

} // verus!
