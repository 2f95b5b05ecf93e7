use core::cmp::Ordering;
use sparse_array::binary_search::{bisect_left, bisect_right};
use sparse_array::cli::{SparseArrayCommands, SparseQueryMode, VaryLengthArgs, VarySparsityArgs};
use sparse_array::experiment::{ExperimentContainer, ExperimentParams};
use sparse_array::math::{ceil_div, div_with_remainder, log2_ceil, popcount};

#[test]
fn test_log2_ceil() {
    assert_eq!(log2_ceil(0), 0);
    assert_eq!(log2_ceil(1), 0);
    assert_eq!(log2_ceil(2), 1);
    assert_eq!(log2_ceil(3), 2);
    assert_eq!(log2_ceil(4), 2);
    assert_eq!(log2_ceil(5), 3);
    assert_eq!(log2_ceil(1024), 10);
    assert_eq!(log2_ceil(1025), 11);
    assert_eq!(log2_ceil(u64::MAX), 64);
}

#[test]
fn test_ceil_div() {
    assert_eq!(ceil_div(0, 5), 0);
    assert_eq!(ceil_div(1, 5), 1);
    assert_eq!(ceil_div(5, 5), 1);
    assert_eq!(ceil_div(6, 5), 2);
    assert_eq!(ceil_div(u64::MAX, 1), u64::MAX);
}

#[test]
fn test_div_with_remainder() {
    assert_eq!(div_with_remainder(17, 5), (3, 2));
    assert_eq!(div_with_remainder(0, 3), (0, 0));
    assert_eq!(div_with_remainder(9, 3), (3, 0));
}

#[test]
fn test_popcount() {
    assert_eq!(popcount(0), 0);
    assert_eq!(popcount(1), 1);
    assert_eq!(popcount(0b1011), 3);
    assert_eq!(popcount(u64::MAX), 64);
}

#[test]
fn test_bisect_left_and_right() {
    let probe = |target: u64| move |x: u64| x.cmp(&target);
    // values 0..10 against target 5: lower bound 5, upper bound 6
    assert_eq!(bisect_left(0, 10, probe(5)), 5);
    assert_eq!(bisect_right(0, 10, probe(5)), 6);
    // target past the range
    assert_eq!(bisect_left(0, 10, probe(100)), 10);
    assert_eq!(bisect_right(0, 10, probe(100)), 10);
    // target before the range
    assert_eq!(bisect_left(3, 10, probe(0)), 3);
    // a plateau: f(x) compares x/3 against 2, so 6,7,8 are all Equal
    let plateau = |x: u64| (x / 3).cmp(&2);
    assert_eq!(bisect_left(0, 12, plateau), 6);
    assert_eq!(bisect_right(0, 12, plateau), 9);
    // empty range
    assert_eq!(bisect_left(4, 4, |x: u64| x.cmp(&1)), 4);
}

#[test]
fn test_experiment_params_new() {
    let p = ExperimentParams::new(100, 1000, 100000, 1000);
    assert_eq!(p.query_size, 100);
    assert_eq!(p.min_size, 1000);
    assert_eq!(p.max_size, 100000);
    assert_eq!(p.step_size, 1000);
}

#[test]
fn test_experiment_container_getters() {
    let sparsity = VarySparsityArgs {
        query_mode: SparseQueryMode::GetAtIndex,
        outfile: String::from("sparsity.json"),
        length: 100000,
        min_sparsity: 0,
        max_sparsity: 5,
        step_size: 30,
        query_size: 5,
    };
    let container = ExperimentContainer::new(SparseArrayCommands::Sparsity(sparsity));
    assert_eq!(container.runs.len(), 0);
    assert_eq!(*container.get_query_mode(), SparseQueryMode::GetAtIndex);
    assert_eq!(container.get_query_size(), 5);
    assert_eq!(container.get_outfile(), "sparsity.json");

    let length = VaryLengthArgs {
        query_mode: SparseQueryMode::GetIndexOf,
        outfile: String::from("length.json"),
        sparsity: 15,
        min_length: 1000,
        max_length: 100000,
        step_size: 1000,
        query_size: 100,
    };
    let container = ExperimentContainer::new(SparseArrayCommands::Length(length));
    assert_eq!(*container.get_query_mode(), SparseQueryMode::GetIndexOf);
    assert_eq!(container.get_query_size(), 100);
    assert_eq!(container.get_outfile(), "length.json");
}
