use sparse_array::bits::BitStore;
use sparse_array::packed::PackedIntVector;
use sparse_array::rank_support::RankSupport;
use sparse_array::serial::{DecodeError, SaveableRankSupport};

#[test]
fn test_rank_bytes_round_trip() {
    // from_bytes(to_bytes(R)).rank1(i) == R.rank1(i) for every prefix.
    let bits: Vec<bool> = (0..300_u64).map(|i| i % 5 == 0 || i % 3 == 0).collect();
    let rs = RankSupport::new_from_owned(BitStore::from_bits(bits));
    let bytes = rs.to_bytes();
    let loaded = RankSupport::from_bytes(&bytes).unwrap();
    for i in 0..=300_u64 {
        assert_eq!(loaded.rank1(i), rs.rank1(i));
        assert_eq!(loaded.rank0(i), rs.rank0(i));
    }
    // A second serialisation is byte-identical.
    assert_eq!(loaded.to_bytes(), bytes);
}

#[test]
fn test_rank_bytes_layout() {
    // A two-bit store [1, 0]: length 2, one word holding 0b01, then the two
    // tables, then s and b.  For n = 2 the derivation gives b = 1, s = 1.
    let rs = RankSupport::new_from_owned(BitStore::from_bits(vec![true, false]));
    let bytes = rs.to_bytes();
    // store: u64 bit length 2, then one word 0x01
    assert_eq!(&bytes[0..8], &[2, 0, 0, 0, 0, 0, 0, 0]);
    assert_eq!(&bytes[8..16], &[1, 0, 0, 0, 0, 0, 0, 0]);
    // superblocks: count 3, width 2, values 0,1,1 packed LSB-first: 0b010100
    assert_eq!(&bytes[16..24], &[3, 0, 0, 0, 0, 0, 0, 0]);
    assert_eq!(&bytes[24..32], &[2, 0, 0, 0, 0, 0, 0, 0]);
    assert_eq!(&bytes[32..40], &[0b010100, 0, 0, 0, 0, 0, 0, 0]);
    // blocks: count 3, width 1, relative counts all 0
    assert_eq!(&bytes[40..48], &[3, 0, 0, 0, 0, 0, 0, 0]);
    assert_eq!(&bytes[48..56], &[1, 0, 0, 0, 0, 0, 0, 0]);
    assert_eq!(&bytes[56..64], &[0, 0, 0, 0, 0, 0, 0, 0]);
    // s as little-endian u16, then b as u8
    assert_eq!(&bytes[64..66], &[1, 0]);
    assert_eq!(bytes[66], 1);
    assert_eq!(bytes.len(), 67);
}

#[test]
fn test_from_bytes_rejects_corrupt() {
    let rs = RankSupport::new_from_owned(BitStore::from_bits(vec![true, false, true]));
    let bytes = rs.to_bytes();
    // truncated
    assert_eq!(
        RankSupport::from_bytes(&bytes[..bytes.len() - 1]).err(),
        Some(DecodeError)
    );
    // empty
    assert_eq!(RankSupport::from_bytes(&[]).err(), Some(DecodeError));
    // trailing garbage
    let mut longer = bytes.clone();
    longer.push(0);
    assert_eq!(RankSupport::from_bytes(&longer).err(), Some(DecodeError));
    // an inconsistent block size field
    let mut wrong = bytes.clone();
    let last = wrong.len() - 1;
    wrong[last] = 0;
    assert_eq!(RankSupport::from_bytes(&wrong).err(), Some(DecodeError));
    // the good bytes still parse
    assert!(RankSupport::from_bytes(&bytes).is_ok());
}

#[test]
fn test_saveable_concat_matches_to_bytes() {
    let rs = RankSupport::new_from_owned(BitStore::from_bits(vec![true; 70]));
    let expected = rs.to_bytes();
    let saveable = SaveableRankSupport::from_rank(&rs);
    assert_eq!(saveable.s, rs.s);
    assert_eq!(saveable.b, rs.b);
    assert_eq!(saveable.into_bytes(), expected);
}

#[test]
fn test_packed_push_get() {
    // push(x1..xm) then get(i) == xi, across widths and word boundaries.
    for width in [1_u64, 3, 7, 13, 31, 33, 63, 64] {
        let mut pv = PackedIntVector::with_capacity(0, width);
        let mask: u64 = if width == 64 { u64::MAX } else { (1 << width) - 1 };
        let values: Vec<u64> = (0..100_u64)
            .map(|i| (i.wrapping_mul(0x9e3779b97f4a7c15)) & mask)
            .collect();
        for &v in &values {
            pv.push(v);
        }
        assert_eq!(pv.len(), 100);
        for (i, &v) in values.iter().enumerate() {
            assert_eq!(pv.get(i as u64), v, "width={width} i={i}");
        }
    }
}

#[test]
fn test_bitstore_get_bits() {
    let bits: Vec<bool> = (0..130_u64).map(|i| i % 7 < 3).collect();
    let st = BitStore::from_bits(bits.clone());
    assert_eq!(st.len(), 130);
    // windows of every width up to 64, including across word boundaries
    for start in [0_u64, 1, 60, 63, 64, 65, 100] {
        for k in [0_u64, 1, 7, 30, 64] {
            if start + k <= 130 {
                let mut expected = 0_u64;
                for j in (0..k).rev() {
                    expected = expected << 1
                        | if bits[(start + j) as usize] { 1 } else { 0 };
                }
                assert_eq!(st.get_bits(start, k), expected, "start={start} k={k}");
            }
        }
    }
}
