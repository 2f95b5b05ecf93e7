//! Records shared by the experiment drivers: the shape of a sweep, the
//! outcome of one run, and the container that accumulates sparse-array
//! runs.  Timing, random data and file output stay outside the library;
//! durations are carried here as plain nanosecond counts.

use vstd::prelude::*;

verus! {

use crate::cli::{SparseArrayCommands, SparseQueryMode};

/// The shape of a sweep: how many queries per run and which sizes to visit.
#[derive(Debug, Clone)]
pub struct ExperimentParams {
    pub query_size: u64,
    pub min_size: u64,
    pub max_size: u64,
    pub step_size: usize,
}

impl ExperimentParams {
    /// Bundle the four sweep parameters.
    pub fn new(query_size: u64, min_size: u64, max_size: u64, step_size: usize) -> (r:
        ExperimentParams)
        ensures
            r.query_size == query_size,
            r.min_size == min_size,
            r.max_size == max_size,
            r.step_size == step_size,
    {
        ExperimentParams { query_size, min_size, max_size, step_size }
    }
}

/// The outcome of one experiment run: the index overhead observed, the
/// swept parameter, and the build and query times in nanoseconds.
#[derive(Debug, Clone)]
pub struct ExperimentRun<P> {
    pub overhead: u64,
    pub parameter: P,
    pub setup_duration: u64,
    pub query_duration: u64,
}

/// Accumulates the runs of a sparse-array experiment alongside the
/// subcommand that drives it.
#[derive(Debug, Clone)]
pub struct ExperimentContainer {
    pub runs: Vec<ExperimentRun<u64>>,
    pub command: SparseArrayCommands,
}

impl ExperimentContainer {
    /// An empty container for the given subcommand.
    pub fn new(command: SparseArrayCommands) -> (r: ExperimentContainer)
        ensures
            r.command == command,
            r.runs@.len() == 0,
    {
        ExperimentContainer { runs: Vec::new(), command }
    }

    /// The query mode the subcommand asks for.
    pub fn get_query_mode(&self) -> (r: &SparseQueryMode)
        ensures
            *r == (match self.command {
                SparseArrayCommands::Sparsity(v) => v.query_mode,
                SparseArrayCommands::Length(v) => v.query_mode,
            }),
    {
        match &self.command {
            SparseArrayCommands::Sparsity(values) => &values.query_mode,
            SparseArrayCommands::Length(values) => &values.query_mode,
        }
    }

    /// The number of queries per run the subcommand asks for.
    pub fn get_query_size(&self) -> (r: u64)
        ensures
            r == (match self.command {
                SparseArrayCommands::Sparsity(v) => v.query_size,
                SparseArrayCommands::Length(v) => v.query_size,
            }),
    {
        match &self.command {
            SparseArrayCommands::Sparsity(values) => values.query_size,
            SparseArrayCommands::Length(values) => values.query_size,
        }
    }

    /// The output path the subcommand names.
    pub fn get_outfile(&self) -> (r: &String)
        ensures
            *r == (match self.command {
                SparseArrayCommands::Sparsity(v) => v.outfile,
                SparseArrayCommands::Length(v) => v.outfile,
            }),
    {
        match &self.command {
            SparseArrayCommands::Sparsity(values) => &values.outfile,
            SparseArrayCommands::Length(values) => &values.outfile,
        }
    }
}

} // verus!
