use hll::registers::{count_zeros, merge_registers, raise, sum_inverses, within};

#[test]
fn raise_keeps_the_larger_rank() {
    let mut regs = vec![0u8, 3, 7];
    raise(&mut regs, 0, 1);
    assert_eq!(regs, vec![1, 3, 7]);
    raise(&mut regs, 1, 3);
    assert_eq!(regs, vec![1, 3, 7]);
    raise(&mut regs, 2, 6);
    assert_eq!(regs, vec![1, 3, 7]);
    raise(&mut regs, 2, 8);
    assert_eq!(regs, vec![1, 3, 8]);
    raise(&mut regs, 1, 0);
    assert_eq!(regs, vec![1, 3, 8]);
}

#[test]
fn count_zeros_counts_the_zero_registers() {
    assert_eq!(count_zeros(&[]), 0);
    assert_eq!(count_zeros(&[0]), 1);
    assert_eq!(count_zeros(&[5]), 0);
    assert_eq!(count_zeros(&[0, 1, 0, 2, 0, 0, 61]), 4);
    assert_eq!(count_zeros(&[0u8; 1024]), 1024);
}

#[test]
fn sum_inverses_adds_the_scaled_powers() {
    assert_eq!(sum_inverses(&[]), 0);
    assert_eq!(sum_inverses(&[0]), 1u128 << 64);
    assert_eq!(sum_inverses(&[1]), 1u128 << 63);
    assert_eq!(sum_inverses(&[64]), 1);
    assert_eq!(sum_inverses(&[65]), 0);
    assert_eq!(sum_inverses(&[255]), 0);
    assert_eq!(sum_inverses(&[0, 1, 2, 3]), (1u128 << 64) + (1u128 << 63) + (1u128 << 62) + (1u128 << 61));
    assert_eq!(sum_inverses(&vec![0u8; 262144]), 262144u128 << 64);
    assert_eq!(sum_inverses(&vec![61u8; 16]), 16 * 8);
}

#[test]
fn merge_registers_takes_the_maximum() {
    assert_eq!(merge_registers(&[], &[]), Vec::<u8>::new());
    assert_eq!(merge_registers(&[1, 5, 0, 9], &[2, 4, 0, 9]), vec![2, 5, 0, 9]);
    assert_eq!(merge_registers(&[0, 0, 0], &[7, 0, 1]), vec![7, 0, 1]);
    assert_eq!(merge_registers(&[7, 0, 1], &[0, 0, 0]), vec![7, 0, 1]);
}

#[test]
fn within_tests_every_register() {
    assert!(within(&[], 0));
    assert!(within(&[0, 0], 0));
    assert!(!within(&[0, 1], 0));
    assert!(within(&[61, 3, 0], 61));
    assert!(!within(&[3, 0, 62], 61));
    assert!(!within(&[62, 0, 3], 61));
    assert!(within(&[255], 255));
}
