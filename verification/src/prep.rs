//! What has to be prepared for a data set before the run: whether its graph
//! and its combined and sorted sequence file are up to date, and how to make
//! them where they are not.
use vstd::prelude::*;

verus! {

/// What to do about the graph of a data set.
#[derive(Debug, Clone, Copy, PartialEq, Eq, Structural)]
pub enum GraphStep {
    /// The data set has no sequences for a graph.
    Skip,
    /// The graph file is no older than the sequences it was built from.
    UpToDate,
    /// Build the graph.
    Build,
}

/// What to do about the graph of a data set, from the times at which the
/// graph sequences and the graph file were last changed; a file that does
/// not exist has no such time.
pub fn graph_step(sequences_changed: Option<u128>, graph_changed: Option<u128>) -> (step: GraphStep)
    ensures
        step == match sequences_changed {
            None => GraphStep::Skip,
            Some(s) => match graph_changed {
                Some(g) => if s <= g {
                    GraphStep::UpToDate
                } else {
                    GraphStep::Build
                },
                None => GraphStep::Build,
            },
        },
{
    match sequences_changed {
        None => GraphStep::Skip,
        Some(s) => match graph_changed {
            Some(g) => if s <= g {
                GraphStep::UpToDate
            } else {
                GraphStep::Build
            },
            None => GraphStep::Build,
        },
    }
}

/// How the combined and sorted sequence file of a data set is made.
#[derive(Debug, Clone, Copy, PartialEq, Eq, Structural)]
pub enum SortStep {
    /// The file is no older than the files it is made from.
    UpToDate,
    /// Sort the sequences by genetic distance, then compress the outcome.
    Sort,
    /// The sequences are sorted already: put the graph sequences and the
    /// sequences to align behind one another.
    Concatenate,
    /// The sequences are sorted already and there are none for a graph:
    /// link to the sequences to align.
    Link,
}

/// Whether the combined file, last changed at `output_changed`, is up to
/// date: neither the graph sequences, where there are any, nor the
/// sequences to align have changed since.
pub open spec fn sorted_is_fresh(
    output_changed: Option<u128>,
    graph_changed: Option<u128>,
    align_changed: u128,
) -> bool {
    match output_changed {
        Some(o) => (graph_changed matches Some(g) ==> g <= o) && align_changed <= o,
        None => false,
    }
}

/// How the combined and sorted sequence file is made, from the times at
/// which the files were last changed, whether the data set is marked as
/// sorted, and whether it has sequences for a graph.
pub fn sort_step(
    output_changed: Option<u128>,
    graph_changed: Option<u128>,
    align_changed: u128,
    is_sorted: Option<bool>,
) -> (step: SortStep)
    ensures
        step == if sorted_is_fresh(output_changed, graph_changed, align_changed) {
            SortStep::UpToDate
        } else if is_sorted != Some(true) {
            SortStep::Sort
        } else if graph_changed is Some {
            SortStep::Concatenate
        } else {
            SortStep::Link
        },
{
    let fresh = match output_changed {
        Some(o) => {
            let graph_fresh = match graph_changed {
                Some(g) => g <= o,
                None => true,
            };
            graph_fresh && align_changed <= o
        },
        None => false,
    };
    let sorted = match is_sorted {
        Some(yes) => yes,
        None => false,
    };
    if fresh {
        SortStep::UpToDate
    } else if !sorted {
        SortStep::Sort
    } else if graph_changed.is_some() {
        SortStep::Concatenate
    } else {
        SortStep::Link
    }
}

/// Whether the outcome of a step still has to be compressed.
pub fn needs_gzip(step: SortStep) -> (yes: bool)
    ensures
        yes == (step == SortStep::Sort),
{
    match step {
        SortStep::Sort => true,
        _ => false,
    }
}

} // verus!
