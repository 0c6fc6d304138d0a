use plonky2_prover::checks::checked_power_of_two;
use plonky2_prover::util::{ceil_div_usize, log2_ceil, power_of_two, reverse_bits, transpose};

#[test]
fn logarithms_round_up() {
    let logs: Vec<usize> = [0, 1, 2, 3, 4, 5, 8, 9].iter().map(|n| log2_ceil(*n)).collect();
    assert_eq!(logs, vec![0, 0, 1, 2, 2, 3, 3, 4]);
    assert_eq!(log2_ceil(usize::MAX), usize::BITS as usize);
}

#[test]
fn powers_of_two() {
    assert_eq!(power_of_two(0), 1);
    assert_eq!(power_of_two(10), 1024);
    assert_eq!(checked_power_of_two(10), Some(1024));
    let top = usize::BITS as usize - 1;
    assert_eq!(checked_power_of_two(top), Some(1 << top));
    assert_eq!(checked_power_of_two(top + 1), None);
    assert_eq!(checked_power_of_two(usize::MAX), None);
}

#[test]
fn divisions_round_up() {
    assert_eq!(ceil_div_usize(0, 3), 0);
    assert_eq!(ceil_div_usize(6, 3), 2);
    assert_eq!(ceil_div_usize(7, 3), 3);
    assert_eq!(ceil_div_usize(usize::MAX, usize::MAX), 1);
    assert_eq!(ceil_div_usize(usize::MAX, 1), usize::MAX);
}

#[test]
fn bits_are_reversed() {
    let reversed: Vec<usize> = (0..8).map(|i| reverse_bits(i, 3)).collect();
    assert_eq!(reversed, vec![0, 4, 2, 6, 1, 5, 3, 7]);
    assert_eq!(reverse_bits(0, 0), 0);
    for i in 0..16 {
        assert_eq!(reverse_bits(reverse_bits(i, 4), 4), i);
    }
}

#[test]
fn rows_and_columns_are_exchanged() {
    let table = vec![vec![1, 2, 3], vec![4, 5, 6]];
    assert_eq!(transpose(&table), vec![vec![1, 4], vec![2, 5], vec![3, 6]]);
}
