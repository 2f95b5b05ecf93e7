//! Parameter records for the rank and select experiment drivers: sweep
//! bounds, query volume, and the output path.  The command-line front end
//! lives outside the library and hands these in as plain values.

use vstd::prelude::*;

verus! {

/// Sweep parameters for a rank experiment run.
#[derive(Debug, Clone)]
pub struct RankArguments {
    pub min_value: u64,
    pub max_value: u64,
    pub step_size: u64,
    pub query_size: u64,
    pub outfile: String,
}

/// Sweep parameters for a select experiment run.
#[derive(Debug, Clone)]
pub struct SelectArguments {
    pub min_value: u64,
    pub max_value: u64,
    pub step_size: u64,
    pub query_size: u64,
    pub outfile: String,
}

} // verus!
