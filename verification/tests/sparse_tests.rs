use rand::{distributions::Uniform, prelude::Distribution, rngs::StdRng, SeedableRng};
use sparse_array::sparse_array::SparseArray;

#[test]
fn test_save_load() {
    let sa = SparseArray::<u32>::from_dense_vec(vec![None, Some(1), None, Some(2), Some(3)]);
    assert_eq!(*sa.get_at_index(1).unwrap(), 1);
    assert_eq!(sa.get_index_of(1).unwrap(), 1);
    assert_eq!(sa.num_elem_at(1), 1);
    let bytes = sa.to_bytes();
    let loaded: SparseArray<u32> = SparseArray::from_bytes(&bytes).unwrap();
    assert_eq!(*loaded.get_at_index(1).unwrap(), 1);
    assert_eq!(loaded.get_index_of(1).unwrap(), 1);
    assert_eq!(loaded.num_elem_at(1), 1);
}

#[test]
fn test_from_dense_vec() {
    let distribution = Uniform::new_inclusive(0, 100_u8);
    let mut rng = StdRng::seed_from_u64(42);
    let dense: Vec<Option<u32>> = distribution
        .sample_iter(&mut rng)
        .take(10000)
        .enumerate()
        .map(
            |(index, roll)| {
                if roll < 15 {
                    Some(index as u32)
                } else {
                    None
                }
            },
        )
        .collect();
    let sparse = SparseArray::<u32>::from_dense_vec(dense.clone());
    dense
        .into_iter()
        .enumerate()
        .for_each(|(index, value)| match value {
            None => assert_eq!(None, sparse.get_at_index(index as u64)),
            Some(inner) => {
                assert_eq!(inner, sparse.get_at_index(index as u64).unwrap().to_owned())
            }
        })
}

#[test]
fn test_get_index_of() {
    let length = 10000_u64;
    for sparsity in (0..=100_u8).step_by(5) {
        let mut rng = StdRng::seed_from_u64(42);
        let distibution = Uniform::new_inclusive(0, 100_u8);
        let mut sparse = SparseArray::<u64>::create(length);
        let mut expected_positions = Vec::<u64>::new();
        distibution
            .sample_iter(&mut rng)
            .take(length as usize)
            .enumerate()
            .filter_map(|pair| {
                if pair.1 < sparsity {
                    Some(pair.0 as u64)
                } else {
                    None
                }
            })
            .for_each(|pos| {
                sparse.append(pos, pos);
                expected_positions.push(pos);
            });
        let sparse = sparse.finalize();
        assert_eq!(
            None,
            sparse.get_index_of(expected_positions.len() as u64 + 1)
        );
        expected_positions.into_iter().enumerate().for_each(
            |(rank_minus_1, expected_position)| {
                assert_eq!(
                    expected_position,
                    sparse.get_index_of(rank_minus_1 as u64 + 1).unwrap()
                );
            },
        );
    }
}

#[test]
fn test_sparse_get() {
    // Dense [None, Some(1), None, Some(2), Some(3)].
    let sa = SparseArray::<u32>::from_dense_vec(vec![None, Some(1), None, Some(2), Some(3)]);
    assert_eq!(sa.size(), 5);
    assert_eq!(sa.num_elem(), 3);
    assert_eq!(sa.get_at_index(0), None);
    assert_eq!(*sa.get_at_index(1).unwrap(), 1);
    assert_eq!(*sa.get_at_index(3).unwrap(), 2);
    assert_eq!(sa.num_elem_at(1), 1);
    assert_eq!(sa.get_index_of(1), Some(1));
    assert_eq!(sa.get_index_of(2), Some(3));
    assert_eq!(sa.get_index_of(3), Some(4));
    assert_eq!(sa.get_index_of(4), None);
    assert_eq!(sa.get_index_of(0), None);
}

#[test]
fn test_sparse_round_trip_full() {
    // Save, reload, and re-check every earlier assertion on the reloaded
    // instance.
    let sa = SparseArray::<u32>::from_dense_vec(vec![None, Some(1), None, Some(2), Some(3)]);
    let bytes = sa.to_bytes();
    let sa: SparseArray<u32> = SparseArray::from_bytes(&bytes).unwrap();
    assert_eq!(sa.size(), 5);
    assert_eq!(sa.num_elem(), 3);
    assert_eq!(sa.get_at_index(0), None);
    assert_eq!(*sa.get_at_index(1).unwrap(), 1);
    assert_eq!(*sa.get_at_index(3).unwrap(), 2);
    assert_eq!(sa.num_elem_at(1), 1);
    assert_eq!(sa.get_index_of(1), Some(1));
    assert_eq!(sa.get_index_of(2), Some(3));
    assert_eq!(sa.get_index_of(3), Some(4));
    assert_eq!(sa.get_index_of(4), None);
}

#[test]
fn test_builder_and_get_at_rank() {
    let mut builder = SparseArray::<u64>::create(10);
    builder.append(100, 2);
    builder.append(200, 5);
    builder.append(300, 9);
    let sa = builder.finalize();
    assert_eq!(sa.size(), 10);
    assert_eq!(sa.num_elem(), 3);
    assert_eq!(*sa.get_at_rank(0).unwrap(), 100);
    assert_eq!(*sa.get_at_rank(1).unwrap(), 200);
    assert_eq!(*sa.get_at_rank(2).unwrap(), 300);
    assert_eq!(sa.get_at_rank(3), None);
    assert_eq!(sa.get_at_index(5), Some(&200));
    assert_eq!(sa.get_at_index(6), None);
    assert_eq!(sa.get_at_index(10), None);
    assert!(sa.overhead() > 0);
}

#[test]
fn test_get_index_of_positions() {
    let sparse = SparseArray::<u32>::from_dense_vec(vec![
        None,
        Some(0),
        Some(1),
        None,
        None,
        Some(2),
    ]);
    assert_eq!(None, sparse.get_index_of(0));
    assert_eq!(1, sparse.get_index_of(1).unwrap());
    assert_eq!(2, sparse.get_index_of(2).unwrap());
    assert_eq!(5, sparse.get_index_of(3).unwrap());
}
