use rand::{distributions::Bernoulli, prelude::Distribution, rngs::StdRng, SeedableRng};
use sparse_array::bits::BitStore;
use sparse_array::rank_support::RankSupport;

#[test]
fn test_small_bitvectors() {
    for i in 0..2_u64 {
        let bv = BitStore::from_bits(vec![true; i as usize]);
        let rs = RankSupport::new_from_owned(bv);
        assert_eq!(i, rs.rank1(i));
        assert_eq!(0, rs.rank0(i));
    }
}

#[test]
fn test_rank1() {
    let bv = BitStore::from_bits(vec![false, true, true, true, false]);
    let rs = RankSupport::new_from_owned(bv);
    assert_eq!(0, rs.rank1(0));
    assert_eq!(0, rs.rank1(1));
    assert_eq!(1, rs.rank1(2));
    assert_eq!(2, rs.rank1(3));
    assert_eq!(3, rs.rank1(4));
}

#[test]
fn test_rank0() {
    let bv = BitStore::from_bits(vec![false, true, true, true, false]);
    let rs = RankSupport::new_from_owned(bv);
    assert_eq!(0, rs.rank0(0));
    assert_eq!(1, rs.rank0(1));
    assert_eq!(1, rs.rank0(2));
    assert_eq!(1, rs.rank0(3));
    assert_eq!(1, rs.rank0(4));
    assert_eq!(2, rs.rank0(5));
}

#[test]
fn test_off_by_one() {
    let bv = BitStore::from_bits(vec![true, false, false, true]);
    let rs = RankSupport::new_from_owned(bv);
    assert_eq!(1, rs.rank1(3));
    assert_eq!(2, rs.rank1(4));
}

#[test]
fn test_various_sizes() {
    let mut rng = StdRng::from_entropy();
    let distribution = Bernoulli::new(0.5).unwrap();
    (10_000..10_128_u64).for_each(|size| {
        let bits = distribution
            .sample_iter(&mut rng)
            .take(size as usize)
            .collect::<Vec<bool>>();
        let mut expected_ranks = Vec::<u64>::with_capacity(size as usize);
        let mut counter = 0_u64;
        bits.iter().for_each(|&value| {
            expected_ranks.push(*&counter);
            if value {
                counter += 1
            }
        });
        expected_ranks.push(counter);
        let rs = RankSupport::new_from_owned(BitStore::from_bits(bits));
        expected_ranks
            .into_iter()
            .enumerate()
            .for_each(|(pos, rank)| {
                let result = rs.rank1(pos as u64);
                assert_eq!(result, rank);
            })
    })
}

#[test]
fn test_rank_zero_one_sum() {
    let bv = BitStore::from_bits(vec![true, false, true, true, false, false, true]);
    let rs = RankSupport::new_from_owned(bv);
    for i in 0..=7_u64 {
        assert_eq!(rs.rank0(i) + rs.rank1(i), i);
    }
}

#[test]
fn test_boundary_lengths_default_blocks() {
    // n in {0, 1, 63, 64, 65, b, s, s + 1} for the default block size; an
    // alternating pattern so ranks are easy to predict.
    for n in [0_u64, 1, 63, 64, 65, 3, 36, 37] {
        let bits: Vec<bool> = (0..n).map(|i| i % 2 == 0).collect();
        let rs = RankSupport::new_from_owned(BitStore::from_bits(bits.clone()));
        let mut expected = 0_u64;
        for i in 0..=n {
            assert_eq!(rs.rank1(i), expected, "n={n} i={i}");
            if i < n && bits[i as usize] {
                expected += 1;
            }
        }
    }
}

#[test]
fn test_boundary_lengths_fixed_blocks() {
    // The same boundary lengths with the fixed 64-bit block size.
    for n in [0_u64, 1, 63, 64, 65, 192, 193] {
        let bits: Vec<bool> = (0..n).map(|i| i % 3 == 0).collect();
        let rs = RankSupport::with_block_size(64, BitStore::from_bits(bits.clone()));
        let mut expected = 0_u64;
        for i in 0..=n {
            assert_eq!(rs.rank1(i), expected, "n={n} i={i}");
            if i < n && bits[i as usize] {
                expected += 1;
            }
        }
    }
}

#[test]
fn test_all_zeros_and_all_ones() {
    let n = 130_u64;
    let zeros = RankSupport::new_from_owned(BitStore::from_bits(vec![false; n as usize]));
    let ones = RankSupport::new_from_owned(BitStore::from_bits(vec![true; n as usize]));
    for i in 0..=n {
        assert_eq!(zeros.rank1(i), 0);
        assert_eq!(zeros.rank0(i), i);
        assert_eq!(ones.rank1(i), i);
        assert_eq!(ones.rank0(i), 0);
    }
}

#[test]
fn test_overhead_ratio_shrinks() {
    // The auxiliary tables are o(n) bits: the overhead ratio falls as n
    // grows.
    let mut last_ratio = f64::INFINITY;
    for n in [1_000_u64, 10_000, 100_000, 1_000_000] {
        let rs = RankSupport::new_from_owned(BitStore::from_bits(vec![true; n as usize]));
        let ratio = rs.overhead() as f64 / n as f64;
        assert!(ratio < last_ratio, "overhead ratio did not shrink at n={n}");
        last_ratio = ratio;
    }
}

#[test]
fn test_derived_parameters() {
    // n = 1024: L = 10, default b = 5, s = 5 * ceil(100/5) = 100.
    let rs = RankSupport::new_from_owned(BitStore::from_bits(vec![true; 1024]));
    assert_eq!(rs.b, 5);
    assert_eq!(rs.s, 100);
    // Fixed 64-bit blocks on the same length: s = 64 * ceil(100/64) = 128.
    let rs = RankSupport::with_block_size(64, BitStore::from_bits(vec![true; 1024]));
    assert_eq!(rs.b, 64);
    assert_eq!(rs.s, 128);
}
