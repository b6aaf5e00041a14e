use hamming::bits::{
    break_n_bits, break_one_bit, break_two_bits, flip_bit, holds_position, nth_free_position,
    BitVector,
};

fn convert_ascii(value: char) -> Result<BitVector<8>, ()> {
    if !value.is_ascii() {
        return Err(());
    }

    let byte = value as u8;

    Ok(BitVector::from(byte))
}

fn differing_positions(before: &[bool], after: &[bool]) -> Vec<usize> {
    assert_eq!(before.len(), after.len());
    (0..before.len()).filter(|&i| before[i] != after[i]).collect()
}

fn sorted(mut positions: Vec<usize>) -> Vec<usize> {
    positions.sort();
    positions
}

#[test]
fn convert_w() {
    let result = convert_ascii('w').unwrap();
    assert_eq!(
        result.as_ref(),
        &vec![false, true, true, true, false, true, true, true]
    )
}

#[test]
fn byte_to_bits_is_most_significant_first() {
    let high = BitVector::<8>::from(0b1000_0000u8);
    assert_eq!(
        &high[..],
        &[true, false, false, false, false, false, false, false]
    );
    let low = BitVector::<8>::from(0b0000_0001u8);
    assert_eq!(
        &low[..],
        &[false, false, false, false, false, false, false, true]
    );
    let mixed = BitVector::<8>::from(0b1010_0110u8);
    assert_eq!(
        &mixed[..],
        &[true, false, true, false, false, true, true, false]
    );
}

#[test]
fn bits_to_byte_weighs_index_zero_highest() {
    let bits: BitVector<8> = vec![true, false, false, false, false, false, true, true]
        .try_into()
        .unwrap();
    assert_eq!(u8::from(&bits), 0b1000_0011);
    let none: BitVector<8> = vec![false; 8].try_into().unwrap();
    assert_eq!(u8::from(&none), 0);
    let all: BitVector<8> = vec![true; 8].try_into().unwrap();
    assert_eq!(u8::from(&all), 255);
}

#[test]
fn byte_round_trip_for_every_byte() {
    for byte in 0u8..=255u8 {
        let bits = BitVector::<8>::from(byte);
        assert_eq!(bits.len(), 8);
        assert_eq!(u8::from(&bits), byte);
    }
}

#[test]
fn bits_round_trip_for_every_vector() {
    for pattern in 0u16..256 {
        let bools: Vec<bool> = (0..8).map(|i| pattern & (1 << i) != 0).collect();
        let bits: BitVector<8> = bools.clone().try_into().unwrap();
        let back = BitVector::<8>::from(u8::from(&bits));
        assert_eq!(back, bits);
        assert_eq!(&back[..], &bools[..]);
    }
}

#[test]
fn try_from_bools_accepts_the_exact_length() {
    let bits: Result<BitVector<3>, ()> = vec![true, false, true].try_into();
    let bits = bits.unwrap();
    assert_eq!(&bits[..], &[true, false, true]);
}

#[test]
fn try_from_bools_refuses_other_lengths() {
    let short: Result<BitVector<3>, ()> = vec![true, false].try_into();
    assert_eq!(short, Err(()));
    let long: Result<BitVector<3>, ()> = vec![true, false, true, true].try_into();
    assert_eq!(long, Err(()));
    let empty: Result<BitVector<3>, ()> = Vec::<bool>::new().try_into();
    assert_eq!(empty, Err(()));
}

#[test]
fn try_from_bytes_reads_nonzero_as_set() {
    let bits: BitVector<4> = vec![0u8, 1, 7, 0].try_into().unwrap();
    assert_eq!(&bits[..], &[false, true, true, false]);
    let high: BitVector<2> = vec![255u8, 0].try_into().unwrap();
    assert_eq!(&high[..], &[true, false]);
}

#[test]
fn try_from_bytes_refuses_other_lengths() {
    let short: Result<BitVector<4>, ()> = vec![0u8, 1, 1].try_into();
    assert_eq!(short, Err(()));
    let long: Result<BitVector<4>, ()> = vec![0u8, 1, 1, 0, 1].try_into();
    assert_eq!(long, Err(()));
}

#[test]
fn empty_vector_is_a_vector_of_size_zero() {
    let bits: BitVector<0> = Vec::<bool>::new().try_into().unwrap();
    assert_eq!(bits.len(), 0);
    assert_eq!(bits.to_string(), "");
}

#[test]
fn to_string_renders_bits_in_index_order() {
    let bits: BitVector<5> = vec![1u8, 0, 0, 1, 1].try_into().unwrap();
    assert_eq!(bits.to_string(), "10011");
    let byte = BitVector::<8>::from(0b0111_0111u8);
    assert_eq!(byte.to_string(), "01110111");
}

#[test]
fn set_overwrites_one_bit() {
    let mut bits: BitVector<4> = vec![0u8, 0, 0, 0].try_into().unwrap();
    bits.set(2, true);
    assert_eq!(&bits[..], &[false, false, true, false]);
    bits.set(2, true);
    assert_eq!(&bits[..], &[false, false, true, false]);
    bits.set(2, false);
    bits.set(0, true);
    assert_eq!(&bits[..], &[true, false, false, false]);
}

#[test]
fn equality_compares_bit_by_bit() {
    let left: BitVector<3> = vec![1u8, 0, 1].try_into().unwrap();
    let same: BitVector<3> = vec![true, false, true].try_into().unwrap();
    let other: BitVector<3> = vec![1u8, 1, 1].try_into().unwrap();
    assert!(left == same);
    assert!(left != other);
}

#[test]
fn clone_is_equal_and_independent() {
    let source: BitVector<3> = vec![1u8, 0, 1].try_into().unwrap();
    let mut copy = source.clone();
    assert_eq!(copy, source);
    copy.set(1, true);
    assert_ne!(copy, source);
    assert_eq!(&source[..], &[true, false, true]);
}

#[test]
fn flip_bit_inverts_only_that_bit() {
    let mut bits = vec![false, true, false];
    flip_bit(&mut bits, 1);
    assert_eq!(bits, vec![false, false, false]);
    flip_bit(&mut bits, 2);
    assert_eq!(bits, vec![false, false, true]);
    flip_bit(&mut bits, 2);
    assert_eq!(bits, vec![false, false, false]);
}

#[test]
fn holds_position_finds_what_is_there() {
    assert!(holds_position(&[4, 1, 9], 4));
    assert!(holds_position(&[4, 1, 9], 9));
    assert!(!holds_position(&[4, 1, 9], 0));
    assert!(!holds_position(&[], 0));
}

#[test]
fn nth_free_position_skips_taken_positions() {
    let none: Vec<usize> = vec![];
    assert_eq!(nth_free_position(&none, 5, 0), 0);
    assert_eq!(nth_free_position(&none, 5, 4), 4);

    let taken = vec![0, 2, 3];
    assert_eq!(nth_free_position(&taken, 6, 0), 1);
    assert_eq!(nth_free_position(&taken, 6, 1), 4);
    assert_eq!(nth_free_position(&taken, 6, 2), 5);

    let unordered = vec![12, 0, 5];
    assert_eq!(nth_free_position(&unordered, 13, 0), 1);
    assert_eq!(nth_free_position(&unordered, 13, 4), 6);
    assert_eq!(nth_free_position(&unordered, 13, 9), 11);
}

#[test]
fn nth_free_position_reaches_every_free_position_once() {
    let taken = vec![7, 1, 10];
    let picked: Vec<usize> = (0..10).map(|rank| nth_free_position(&taken, 13, rank)).collect();
    assert_eq!(picked, vec![0, 2, 3, 4, 5, 6, 8, 9, 11, 12]);
}

#[test]
fn break_one_bit_flips_exactly_the_returned_position() {
    for _ in 0..500 {
        let before = vec![true, false, true, true, false, false, true];
        let mut after = before.clone();
        let position = break_one_bit(&mut after);
        assert!(position < before.len());
        assert_eq!(differing_positions(&before, &after), vec![position]);
    }
}

#[test]
fn break_one_bit_on_a_single_bit() {
    let mut bits = vec![false];
    assert_eq!(break_one_bit(&mut bits), 0);
    assert_eq!(bits, vec![true]);
}

#[test]
fn break_one_bit_reaches_every_position() {
    let mut seen = [false; 4];
    for _ in 0..2000 {
        let mut bits = vec![false; 4];
        seen[break_one_bit(&mut bits)] = true;
    }
    assert_eq!(seen, [true; 4]);
}

#[test]
fn break_two_bits_flips_two_distinct_positions() {
    for _ in 0..500 {
        let before = vec![false; 13];
        let mut after = before.clone();
        let positions = break_two_bits(&mut after);
        assert!(positions[0] < 13);
        assert!(positions[1] < 13);
        assert_ne!(positions[0], positions[1]);
        assert_eq!(
            differing_positions(&before, &after),
            sorted(positions.to_vec())
        );
    }
}

#[test]
fn break_two_bits_on_two_bits_flips_both() {
    for _ in 0..50 {
        let mut bits = vec![true, false];
        let positions = break_two_bits(&mut bits);
        assert_eq!(sorted(positions.to_vec()), vec![0, 1]);
        assert_eq!(bits, vec![false, true]);
    }
}

#[test]
fn break_two_bits_reaches_every_ordered_pair() {
    let mut seen = [[false; 3]; 3];
    for _ in 0..3000 {
        let mut bits = vec![false; 3];
        let positions = break_two_bits(&mut bits);
        seen[positions[0]][positions[1]] = true;
    }
    for first in 0..3 {
        for second in 0..3 {
            assert_eq!(seen[first][second], first != second);
        }
    }
}

#[test]
fn break_n_bits_flips_n_distinct_positions() {
    for n in 0..=13usize {
        for _ in 0..100 {
            let before = vec![true; 13];
            let mut after = before.clone();
            let positions = break_n_bits(&mut after, n);
            assert_eq!(positions.len(), n);
            assert!(positions.iter().all(|&p| p < 13));
            let distinct = sorted(positions.clone());
            assert!(distinct.windows(2).all(|pair| pair[0] != pair[1]));
            assert_eq!(differing_positions(&before, &after), distinct);
        }
    }
}

#[test]
fn break_n_bits_with_zero_leaves_the_bits() {
    let mut bits = vec![true, false, true];
    assert_eq!(break_n_bits(&mut bits, 0), Vec::<usize>::new());
    assert_eq!(bits, vec![true, false, true]);
    let mut empty: Vec<bool> = vec![];
    assert_eq!(break_n_bits(&mut empty, 0), Vec::<usize>::new());
}

#[test]
fn break_n_bits_with_every_bit_inverts_all() {
    let mut bits = vec![true, false, true, true];
    let positions = break_n_bits(&mut bits, 4);
    assert_eq!(sorted(positions), vec![0, 1, 2, 3]);
    assert_eq!(bits, vec![false, true, false, false]);
}

#[test]
fn break_n_bits_reaches_every_order() {
    let mut seen = std::collections::HashSet::new();
    for _ in 0..2000 {
        let mut bits = vec![false; 3];
        seen.insert(break_n_bits(&mut bits, 3));
    }
    assert_eq!(seen.len(), 6);
}
