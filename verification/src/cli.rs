//! Plain data for the experiment harnesses' command lines: which query to
//! exercise, which block-size policy to build with, and the sweep shapes.
//! Argument parsing itself happens outside the library; these records carry
//! the parsed choices.

use vstd::prelude::*;

verus! {

/// Which rank-support query an experiment exercises.
#[derive(Clone, Debug, PartialEq, Eq, Structural)]
pub enum QueryMode {
    Rank,
    Select,
}

/// Block-size policy for building a rank index.
#[derive(Clone, Debug, PartialEq, Eq, Structural)]
pub enum BlockSize {
    Dynamic,
    Fixed,
}

/// Sweep parameters for the rank half of a rank/select experiment.
#[derive(Debug, Clone)]
pub struct RankArgs {
    pub min_size: u64,
    pub max_size: u64,
    pub step_size: usize,
    pub query_size: u64,
    pub block_size: BlockSize,
}

/// Sweep parameters for the select half of a rank/select experiment.
#[derive(Debug, Clone)]
pub struct SelectArgs {
    pub min_size: u64,
    pub max_size: u64,
    pub step_size: usize,
    pub query_size: u64,
    pub block_size: BlockSize,
}

/// The two rank/select experiment subcommands.
#[derive(Debug, Clone)]
pub enum RankSelectCommands {
    Rank(RankArgs),
    Select(SelectArgs),
}

/// A rank/select experiment invocation: a subcommand and an output path.
#[derive(Debug, Clone)]
pub struct RankSelectArgs {
    pub command: RankSelectCommands,
    pub outfile: String,
}

/// Which sparse-array query an experiment exercises.
#[derive(Clone, Debug, PartialEq, Eq, Structural)]
pub enum SparseQueryMode {
    NumElemAt,
    GetAtIndex,
    GetIndexOf,
}

/// Sweep parameters for a rank-support experiment.
#[derive(Debug, Clone)]
pub struct RankSupportArgs {
    pub query_mode: QueryMode,
    pub outfile: String,
    pub min_size: u64,
    pub max_size: u64,
    pub step_size: usize,
    pub query_size: u64,
}

/// Sweep over sparsity at a fixed logical length.
#[derive(Debug, Clone)]
pub struct VarySparsityArgs {
    pub query_mode: SparseQueryMode,
    pub outfile: String,
    pub length: u64,
    pub min_sparsity: u8,
    pub max_sparsity: u8,
    pub step_size: usize,
    pub query_size: u64,
}

/// Sweep over logical length at a fixed sparsity.
#[derive(Debug, Clone)]
pub struct VaryLengthArgs {
    pub query_mode: SparseQueryMode,
    pub outfile: String,
    pub sparsity: u8,
    pub min_length: u64,
    pub max_length: u64,
    pub step_size: usize,
    pub query_size: u64,
}

/// The two sparse-array experiment subcommands.
#[derive(Debug, Clone)]
pub enum SparseArrayCommands {
    Sparsity(VarySparsityArgs),
    Length(VaryLengthArgs),
}

/// A sparse-array experiment invocation: a subcommand and an output path.
#[derive(Debug, Clone)]
pub struct SparseArrayArgs {
    pub command: SparseArrayCommands,
    pub outfile: String,
}

} // verus!
