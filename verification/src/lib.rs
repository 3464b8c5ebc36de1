//! The orchestration core of a benchmark harness for partial-order sequence
//! aligners: the job list of a run, the scheduler that hands jobs to
//! worker processes pinned to cores, the line protocol between a worker and
//! the orchestrator, the record of one measurement, and the rows of the
//! result tables.
//!
//! The library decides and computes; it starts no process and touches no
//! file. Its functions are verified against the contracts they carry.
pub mod bench;
pub mod collector;
pub mod dataset;
pub mod errors;
pub mod jobs;
pub mod prep;
pub mod protocol;
pub mod reader;
pub mod scheduler;
pub mod tables;
pub mod text;
pub mod wire;
pub mod worker;
