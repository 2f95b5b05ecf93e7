//! Succinct rank/select structures over an immutable bit sequence, and a
//! sparse array built on top of them.
//!
//! A [`bits::BitStore`] packs a bit sequence into 64-bit words.  A
//! [`rank_support::RankSupport`] adds two levels of cumulative popcount
//! tables so that `rank1` is answered by two table reads and one short
//! popcount; a [`select_support::SelectSupport`] answers `select1` by binary
//! search over `rank1`.  A [`sparse_array::SparseArray`] stores only the
//! values present at marked positions of a dense logical array and answers
//! positional queries through the rank/select pair.

pub mod args;
pub mod binary_search;
pub mod bits;
pub mod cli;
pub mod experiment;
pub mod math;
pub mod packed;
pub mod rank_support;
pub mod select_support;
pub mod serial;
pub mod sparse_array;
