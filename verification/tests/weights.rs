use mneueventlib::filters::Weights;

/// Test that creating an array creates an array of the expected length.
/// This test is for arrays that are an exact number of blocks.
#[test]
fn test_create_array_full_blocks() {
    let ones = Weights::ones(64 * 3);
    let zeros = Weights::zeros(64 * 2);

    assert_eq!(ones.raw_weights().to_vec(), vec![u64::MAX, u64::MAX, u64::MAX]);
    assert_eq!(zeros.raw_weights().to_vec(), vec![0, 0]);
}

/// Test that creating an array creates an array of the expected length.
/// This test is for arrays that are not an exact number of blocks.
#[test]
fn test_create_array_partial_blocks() {
    let ones = Weights::ones(200);
    let zeros = Weights::zeros(70);

    assert_eq!(
        ones.raw_weights().to_vec(),
        vec![u64::MAX, u64::MAX, u64::MAX, u64::MAX]
    );
    assert_eq!(zeros.raw_weights().to_vec(), vec![0, 0]);
}

/// Test set_weight sets the expected weights.
#[test]
fn test_set_weight() {
    let mut weights = Weights::zeros(128);
    weights.set_weight(15, true);
    weights.set_weight(100, true);
    weights.set_weight(120, true);

    assert_eq!(
        weights.raw_weights().to_vec(),
        vec![(1 << 15), (1 << 36) | (1 << 56)]
    );
}

/// Test set_weight works when setting a weight to zero.
#[test]
fn test_set_weight_unset() {
    let mut weights = Weights::ones(64);
    weights.set_weight(32, false);
    assert_eq!(weights.raw_weights()[0], !(1 << 32));
}

/// Test set_range works within one block.
#[test]
fn test_set_range_one_block() {
    let mut weights = Weights::zeros(128);
    weights.set_range(30, 50, true);

    // should be values 30 to 50 in block one, then none of block two
    assert_eq!(weights.raw_weights().to_vec(), vec![1125898833100800, 0]);
}

/// Test set_range works across blocks.
#[test]
fn test_set_range_across_blocks() {
    let mut weights = Weights::zeros(192);
    weights.set_range(30, 150, true);

    // should be values 30 to 64 in block one, all of block two, then 0 to 22 in block three
    assert_eq!(
        weights.raw_weights().to_vec(),
        vec![18446744072635809792, u64::MAX, 4194303]
    );
}

/// Test indexing gives the expected bools.
#[test]
fn test_indexing() {
    let weights = Weights::from_raw(vec![(1 << 10) | (1 << 32)]);

    (0..64).for_each(|i| match i {
        i if (i == 10) | (i == 32) => assert!(weights.get(i)),
        _ => assert!(!weights.get(i)),
    })
}

/// Test indexing correctly gets the expected block.
#[test]
fn test_indexing_across_blocks() {
    let weights = Weights::from_raw(vec![(1 << 12) | (1 << 20), (1 << 6)]);

    (0..128).for_each(|i| match i {
        i if (i == 12) | (i == 20) | (i == 70) => assert!(weights.get(i)),
        _ => assert!(!weights.get(i)),
    })
}

/// Test that bitand works for one block.
#[test]
fn test_bitand_simple() {
    let weights1 = Weights::from_raw(vec![0b1110]);
    let weights2 = Weights::from_raw(vec![0b1011]);

    let result = weights1 & weights2;
    assert_eq!(result.raw_weights().to_vec(), vec![0b1010]);
}

/// Test that bitand works for multiple blocks.
#[test]
fn test_bitand_multiple_blocks() {
    let weights1 = Weights::from_raw(vec![0b1110, 0b1001]);
    let weights2 = Weights::from_raw(vec![0b0111, 0b1100]);

    let result = weights1 & weights2;
    assert_eq!(result.raw_weights().to_vec(), vec![0b0110, 0b1000]);
}

/// Test the not operator
#[test]
fn test_not() {
    let weights = Weights::from_raw(vec![0b1111_0000, 0b1010]);
    let result = !weights;

    assert_eq!(result.raw_weights().to_vec(), vec![!0b1111_0000, !0b1010]);
}

/// Test that `count` returns the correct count for one block.
#[test]
fn test_count_one_block() {
    let weights = Weights::from_raw(vec![0b01011010001]);
    let count = weights.count();

    assert_eq!(count, 5)
}

/// Test that `count` returns the correct count for multiple blocks.
#[test]
fn test_count_multiple_blocks() {
    let weights = Weights::from_raw(vec![0b01011010001, 0b111, 0, 0b1]);
    let count = weights.count();

    assert_eq!(count, 9)
}

/// Test that `count` returns the correct count when there is an overhang.
#[test]
fn test_count_overhang() {
    let weights = Weights::ones(70);
    let count = weights.count();

    assert_eq!(count, 70)
}

/// Test that `get_first_one` returns the first 1 value.
#[test]
fn test_get_first_one() {
    // remember u64 is litte-endian, so the blocks go right-to-left
    let weights = Weights::from_raw(vec![0, 0b01000100, 0b111000]);

    assert_eq!(weights.get_first_one(), Some(64 + 2))
}

/// Test that `get_last_one` returns the last 1 value.
#[test]
fn test_get_last_one() {
    // remember u64 is litte-endian, so the blocks go right-to-left
    let weights = Weights::from_raw(vec![0, 0b01000100, 0b111000]);

    assert_eq!(weights.get_last_one(), Some(128 + 5))
}

/// An all-one array counts as many ones as its length, in whole and partial
/// blocks alike, and an empty one counts none.
#[test]
fn ones_count_their_length() {
    for len in [0usize, 1, 63, 64, 65, 128, 200] {
        assert_eq!(Weights::ones(len).count() as usize, len);
    }
}

/// An all-zero array counts no ones.
#[test]
fn zeros_count_nothing() {
    for len in [0usize, 1, 64, 70] {
        assert_eq!(Weights::zeros(len).count(), 0);
    }
}

/// The ones of an array and of its negation add up to the counted positions.
#[test]
fn count_of_array_and_negation() {
    let mut weights = Weights::zeros(70);
    weights.set_range(3, 66, true);
    let kept = weights.clone().count();
    let dropped = (!weights).count();
    assert_eq!(kept, 63);
    assert_eq!(kept + dropped, 70);
}

/// Negating twice gives back the array.
#[test]
fn not_not_gives_back_the_array() {
    let weights = Weights::from_raw(vec![0b1011, u64::MAX, 0]);
    assert_eq!(!!weights.clone(), weights);
}

/// An empty range sets nothing, and a range ending on a block boundary sets
/// the whole block before it.
#[test]
fn set_range_edges() {
    let mut weights = Weights::zeros(128);
    weights.set_range(10, 10, true);
    assert_eq!(weights.count(), 0);
    weights.set_range(0, 64, true);
    assert_eq!(weights.raw_weights().to_vec(), vec![u64::MAX, 0]);
    weights.set_range(60, 70, false);
    assert!(!weights.get(60) && !weights.get(63) && weights.get(59));
}

/// No ones means no first or last one.
#[test]
fn first_and_last_of_zeros() {
    let weights = Weights::zeros(100);
    assert_eq!(weights.get_first_one(), None);
    assert_eq!(weights.get_last_one(), None);
}

/// The length of an array made from raw blocks is every bit of them.
#[test]
fn from_raw_length() {
    let weights = Weights::from_raw(vec![0, 0, 0]);
    assert_eq!(weights.len(), 192);
    assert_eq!(Weights::ones(70).len(), 70);
}

/// Ones at or past the nominal length are no weights: they are not counted,
/// and are neither the first nor the last one.
#[test]
fn bits_past_the_length_are_ignored() {
    let mut weights = Weights::ones(5);
    weights.set_range(0, 5, false);
    assert_eq!(weights.count(), 0);
    assert_eq!(weights.get_first_one(), None);
    assert_eq!(weights.get_last_one(), None);

    let mut weights = Weights::zeros(70);
    weights.set_weight(3, true);
    weights.set_weight(69, true);
    assert_eq!(weights.get_first_one(), Some(3));
    assert_eq!(weights.get_last_one(), Some(69));
    weights.set_range(70, 128, true);
    assert_eq!(weights.count(), 2);
    assert_eq!(weights.get_last_one(), Some(69));
}

/// The last one of a single block is its highest set bit.
#[test]
fn last_one_of_one_block() {
    let weights = Weights::from_raw(vec![0b1010]);
    assert_eq!(weights.get_last_one(), Some(3));
    assert_eq!(weights.get_first_one(), Some(1));
}

/// `&` gives the same blocks either way round, and all-one weights of the
/// same length leave an array as it was.
#[test]
fn and_commutes_and_ones_are_identity() {
    let a = Weights::from_raw(vec![0b1100, 0b1010]);
    let b = Weights::from_raw(vec![0b0110, 0b0011]);
    assert_eq!(a.clone() & b.clone(), b.clone() & a.clone());
    let mut w = Weights::zeros(70);
    w.set_range(3, 68, true);
    assert_eq!(w.clone() & Weights::ones(70), w);
}
