use sparse_array::bits::BitStore;
use sparse_array::rank_support::RankSupport;
use sparse_array::select_support::SelectSupport;

#[test]
fn test_select1_round_trip() {
    // bits = [0,1,1,0,1,0]: select1(1) = 2, select1(2) = 3, select1(3) = 5,
    // and the bit just before each answer is set.
    let bv = BitStore::from_bits(vec![false, true, true, false, true, false]);
    let rs = RankSupport::new_from_owned(bv);
    let ss = SelectSupport::new(&rs);
    assert_eq!(2, ss.select1(1));
    assert_eq!(3, ss.select1(2));
    assert_eq!(5, ss.select1(3));
    for k in 1..=3_u64 {
        let j = ss.select1(k) - 1;
        assert!(rs.store.get_bit(j));
        assert_eq!(rs.rank1(j), k - 1);
        assert_eq!(rs.rank1(j + 1), k);
    }
}

#[test]
fn test_select1_boundaries() {
    // select1(0) = 0 and select1(total_ones + 1) = n.
    let bv = BitStore::from_bits(vec![false, true, true, false, true, false]);
    let rs = RankSupport::new_from_owned(bv);
    let ss = SelectSupport::new(&rs);
    assert_eq!(0, ss.select1(0));
    assert_eq!(6, ss.select1(4));
}

#[test]
fn test_select0() {
    let bv = BitStore::from_bits(vec![false, true, true, false, true, false]);
    let rs = RankSupport::new_from_owned(bv);
    let ss = SelectSupport::new(&rs);
    assert_eq!(0, ss.select0(0));
    assert_eq!(1, ss.select0(1));
    assert_eq!(4, ss.select0(2));
    assert_eq!(6, ss.select0(3));
}
