//! What can go wrong in a benchmark run.
use vstd::prelude::*;
use crate::text::push_text;

verus! {

/// A failure of the orchestrator or of a worker. A variant that stands for a
/// failure of the file system, of a channel or of a parser holds that
/// failure's own description.
#[derive(Debug, Clone, PartialEq, Eq)]
pub enum POABenchError {
    /// Reading or writing a file or a pipe failed.
    IOError(String),
    /// A result could not be handed to the collector.
    SendError(String),
    /// Bytes that should have been UTF-8 text were not.
    Utf8Error(String),
    /// The graph of a data set could not be built; holds what the tool reported.
    BuildGraphError(String),
    /// The combined and sorted sequence file could not be made; holds what the tool reported.
    SortFastaError(String),
    /// The POASTA aligner failed.
    PoastaError(String),
    /// A job result could not be written or read as structured text.
    JSONError(String),
    /// The configuration of a data set could not be read.
    ParseConfigError(String),
    /// A worker process ended without reporting that it had finished.
    WorkerError,
    /// The platform cannot reset the high-water mark of resident memory.
    MemoryResetError,
    /// A row could not be written to a result table.
    TSVError(String),
}

/// The fixed beginning of an error's description, before what the failure
/// itself reported.
pub open spec fn headline(error: POABenchError) -> Seq<char> {
    match error {
        POABenchError::BuildGraphError(_) => "Could not build graph for data set! Stderr: "@,
        POABenchError::SortFastaError(_) => "Could not create sorted and combined FASTA! Stderr: "@,
        POABenchError::JSONError(_) => "Could not parse job result: "@,
        POABenchError::ParseConfigError(_) => "Could not parse dataset config: "@,
        POABenchError::WorkerError => "A worker process did not exit properly!"@,
        POABenchError::MemoryResetError =>
            "Platform does not support resetting max_rss, memory usage measurements will be incorrect!"@,
        POABenchError::TSVError(_) => "Could not write results to TSV! "@,
        _ => Seq::empty(),
    }
}

/// What the failure itself reported; empty where the error holds nothing.
pub open spec fn detail(error: POABenchError) -> Seq<char> {
    match error {
        POABenchError::IOError(s) => s@,
        POABenchError::SendError(s) => s@,
        POABenchError::Utf8Error(s) => s@,
        POABenchError::BuildGraphError(s) => s@,
        POABenchError::SortFastaError(s) => s@,
        POABenchError::PoastaError(s) => s@,
        POABenchError::JSONError(s) => s@,
        POABenchError::ParseConfigError(s) => s@,
        POABenchError::TSVError(s) => s@,
        _ => Seq::empty(),
    }
}

impl POABenchError {
    /// The description shown to the user: the headline, then the detail.
    pub fn message(&self) -> (text: String)
        ensures
            text@ == headline(*self) + detail(*self),
    {
        let mut text = String::new();
        let ghost empty = Seq::<char>::empty();
        assert(empty + empty == empty);
        match self {
            POABenchError::IOError(s) => {
                push_text(&mut text, s.as_str());
            },
            POABenchError::SendError(s) => {
                push_text(&mut text, s.as_str());
            },
            POABenchError::Utf8Error(s) => {
                push_text(&mut text, s.as_str());
            },
            POABenchError::BuildGraphError(s) => {
                push_text(&mut text, "Could not build graph for data set! Stderr: ");
                push_text(&mut text, s.as_str());
            },
            POABenchError::SortFastaError(s) => {
                push_text(&mut text, "Could not create sorted and combined FASTA! Stderr: ");
                push_text(&mut text, s.as_str());
            },
            POABenchError::PoastaError(s) => {
                push_text(&mut text, s.as_str());
            },
            POABenchError::JSONError(s) => {
                push_text(&mut text, "Could not parse job result: ");
                push_text(&mut text, s.as_str());
            },
            POABenchError::ParseConfigError(s) => {
                push_text(&mut text, "Could not parse dataset config: ");
                push_text(&mut text, s.as_str());
            },
            POABenchError::WorkerError => {
                push_text(&mut text, "A worker process did not exit properly!");
            },
            POABenchError::MemoryResetError => {
                push_text(
                    &mut text,
                    "Platform does not support resetting max_rss, memory usage measurements will be incorrect!",
                );
            },
            POABenchError::TSVError(s) => {
                push_text(&mut text, "Could not write results to TSV! ");
                push_text(&mut text, s.as_str());
            },
        }
        assert(text@ =~= headline(*self) + detail(*self));
        text
    }

    /// Whether the error stands for a failure reported by something
    /// underneath: the file system, a channel, a decoder or an aligner.
    pub fn has_source(&self) -> (yes: bool)
        ensures
            yes == !(*self is BuildGraphError || *self is SortFastaError || *self is WorkerError
                || *self is MemoryResetError),
    {
        match self {
            POABenchError::BuildGraphError(_) => false,
            POABenchError::SortFastaError(_) => false,
            POABenchError::WorkerError => false,
            POABenchError::MemoryResetError => false,
            _ => true,
        }
    }
}

} // verus!
