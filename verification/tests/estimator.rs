use hll::hll::PENDING_LIMIT;
use hll::{hash64, register_index, register_rank, Hll, HllError};

fn alpha(m: f64) -> f64 {
    if m == 16.0 {
        0.673
    } else if m == 32.0 {
        0.697
    } else if m == 64.0 {
        0.709
    } else {
        0.7213 / (1.0 + 1.079 / m)
    }
}

fn estimate_of(hll: &mut Hll) -> (f64, bool) {
    let m = hll.register_count() as f64;
    let zeros = hll.count_zeros();
    let z = hll.sum_inverses() as f64 / 18446744073709551616.0;
    let raw = alpha(m) * m * m / z;
    if raw <= 2.5 * m && zeros > 0 {
        (m * (m / zeros as f64).ln(), true)
    } else if raw > 4294967296.0 / 30.0 {
        (-4294967296.0 * (1.0 - raw / 4294967296.0).ln(), false)
    } else {
        (raw, false)
    }
}

fn pending_of(hll: &Hll) -> usize {
    match hll {
        Hll::Sparse { set, .. } => set.len(),
        Hll::Dense { .. } => 0,
    }
}

#[test]
fn new_accepts_every_precision_from_4_to_18() {
    for p in 4u8..=18 {
        let mut hll = Hll::new(p).unwrap();
        assert_eq!(hll.precision(), p);
        assert_eq!(hll.register_count(), 1u32 << p);
        assert!(!hll.is_dense());
        assert_eq!(hll.registers(), vec![0u8; 1usize << p]);
        assert_eq!(hll.count_zeros(), 1u32 << p);
        assert_eq!(hll.sum_inverses(), (1u128 << p) << 64);
        let (estimate, linear) = estimate_of(&mut hll);
        assert!(linear);
        assert_eq!(estimate, 0.0);
    }
}

#[test]
fn new_rejects_a_precision_out_of_range() {
    for p in (0u8..4).chain(19u8..=255) {
        assert_eq!(Hll::new(p).unwrap_err(), HllError::InvalidPrecision);
    }
}

#[test]
fn add_rank_raises_one_register() {
    let mut hll = Hll::new(4).unwrap();
    hll.add_rank(3, 5);
    let mut expected = vec![0u8; 16];
    expected[3] = 5;
    assert_eq!(hll.registers(), expected);
    hll.add_rank(3, 2);
    assert_eq!(hll.registers(), expected);
    hll.add_rank(3, 9);
    expected[3] = 9;
    assert_eq!(hll.registers(), expected);
    hll.add_rank(15, 61);
    expected[15] = 61;
    assert_eq!(hll.registers(), expected);
    hll.flush();
    assert_eq!(hll.registers(), expected);
    hll.add_rank(3, 4);
    assert_eq!(hll.registers(), expected);
    hll.add_rank(0, 1);
    expected[0] = 1;
    assert_eq!(hll.registers(), expected);
}

#[test]
fn add_hash_uses_index_and_rank() {
    let mut hll = Hll::new(4).unwrap();
    hll.add_hash(0x123456789abcdef0);
    let mut expected = vec![0u8; 16];
    expected[1] = 3;
    assert_eq!(hll.registers(), expected);
    hll.add_hash(0xf000000000000000);
    expected[15] = 61;
    assert_eq!(hll.registers(), expected);
    hll.add_hash(0x1fffffffffffffff);
    assert_eq!(hll.registers(), expected);
    hll.add_hash(0x1000000000000000);
    expected[1] = 61;
    assert_eq!(hll.registers(), expected);
}

#[test]
fn add_never_lowers_a_register_or_raises_a_statistic() {
    for start_dense in [false, true] {
        let mut hll = Hll::new(6).unwrap();
        if start_dense {
            hll = Hll::decode(&{
                let mut bytes = vec![6u8, 0];
                bytes.extend_from_slice(&[0u8; 64]);
                bytes
            })
            .unwrap();
            assert!(hll.is_dense());
        }
        let mut before = hll.registers();
        let mut zeros = hll.count_zeros();
        let mut sum = hll.sum_inverses();
        let mut estimate = estimate_of(&mut hll).0;
        for value in 0u64..400 {
            hll.add(&value);
            let after = hll.registers();
            assert_eq!(after.len(), before.len());
            for i in 0..after.len() {
                assert!(after[i] >= before[i]);
            }
            let hash = hash64(&value);
            let idx = register_index(hash, 6) as usize;
            let mut expected = before.clone();
            expected[idx] = expected[idx].max(register_rank(hash, 6));
            assert_eq!(after, expected);
            let zeros_after = hll.count_zeros();
            let sum_after = hll.sum_inverses();
            assert!(zeros_after <= zeros);
            assert!(sum_after <= sum);
            let estimate_after = estimate_of(&mut hll).0;
            if after == before {
                assert_eq!(estimate_after, estimate);
            }
            before = after;
            zeros = zeros_after;
            sum = sum_after;
            estimate = estimate_after;
        }
    }
}

#[test]
fn adding_a_value_twice_is_adding_it_once() {
    for p in [4u8, 9, 14] {
        let mut once = Hll::new(p).unwrap();
        let mut twice = Hll::new(p).unwrap();
        for value in 0u64..300 {
            once.add(&value);
            twice.add(&value);
            twice.add(&value);
            assert_eq!(once.registers(), twice.registers());
            assert_eq!(once.is_dense(), twice.is_dense());
        }
        assert_eq!(once.encode(), twice.encode());
    }
}

#[test]
fn pending_observations_are_flushed_past_the_limit() {
    assert_eq!(PENDING_LIMIT, 64);
    let mut hll = Hll::new(8).unwrap();
    for idx in 0u32..64 {
        hll.add_rank(idx * 2, 1 + (idx % 7) as u8);
        assert_eq!(pending_of(&hll), idx as usize + 1);
    }
    hll.add_rank(0, 9);
    assert_eq!(pending_of(&hll), 64);
    hll.add_rank(2, 1);
    assert_eq!(pending_of(&hll), 64);
    let before = hll.registers();
    hll.add_rank(201, 3);
    assert_eq!(pending_of(&hll), 0);
    assert!(!hll.is_dense());
    let mut expected = before;
    expected[201] = 3;
    assert_eq!(hll.registers(), expected);
    match &hll {
        Hll::Sparse { list, .. } => assert_eq!(list.to_registers(), expected),
        Hll::Dense { .. } => panic!("the estimator turned dense"),
    }
}

#[test]
fn flush_keeps_the_registers_and_empties_the_pending_set() {
    let mut hll = Hll::new(5).unwrap();
    hll.add_rank(7, 2);
    hll.add_rank(8, 2);
    hll.add_rank(31, 60);
    let before = hll.registers();
    assert_eq!(pending_of(&hll), 3);
    hll.flush();
    assert_eq!(pending_of(&hll), 0);
    assert!(!hll.is_dense());
    assert_eq!(hll.registers(), before);
    match &hll {
        Hll::Sparse { list, .. } => {
            assert_eq!(list.as_bytes(), &[6u8, 133, 21, 128 + 120][..]);
        }
        Hll::Dense { .. } => panic!("the estimator turned dense"),
    }
}

#[test]
fn flush_promotes_when_the_list_is_as_long_as_the_array() {
    let mut hll = Hll::new(4).unwrap();
    for idx in 0u32..14 {
        hll.add_rank(idx, 1 + (idx % 2) as u8);
    }
    hll.flush();
    assert!(!hll.is_dense());
    hll.add_rank(14, 1);
    hll.add_rank(15, 2);
    assert!(!hll.is_dense());
    let before = hll.registers();
    hll.flush();
    assert!(hll.is_dense());
    assert_eq!(hll.registers(), before);
    match &hll {
        Hll::Dense { m, p, registers } => {
            assert_eq!(*m, 16);
            assert_eq!(*p, 4);
            assert_eq!(*registers, before);
        }
        Hll::Sparse { .. } => panic!("the estimator stayed sparse"),
    }
}

#[test]
fn a_dense_estimator_never_turns_sparse() {
    let mut hll = Hll::new(4).unwrap();
    for idx in 0u32..16 {
        hll.add_rank(idx, 1 + (idx % 2) as u8);
    }
    hll.flush();
    assert!(hll.is_dense());
    for value in 0u64..500 {
        hll.add(&value);
        assert!(hll.is_dense());
    }
    for idx in 0u32..16 {
        hll.add_rank(idx, 61);
        assert!(hll.is_dense());
    }
    assert_eq!(hll.registers(), vec![61u8; 16]);
    hll.flush();
    assert!(hll.is_dense());
    hll.count_zeros();
    hll.sum_inverses();
    hll.encode();
    assert!(hll.is_dense());
    let merged = Hll::merge(&hll, &Hll::new(4).unwrap()).unwrap();
    assert!(merged.is_dense());
    let merged = Hll::merge(&Hll::new(4).unwrap(), &hll).unwrap();
    assert!(merged.is_dense());
}

#[test]
fn statistics_of_a_known_array() {
    let mut hll = Hll::new(4).unwrap();
    hll.add_rank(0, 1);
    hll.add_rank(1, 2);
    hll.add_rank(2, 61);
    assert_eq!(hll.count_zeros(), 13);
    assert_eq!(
        hll.sum_inverses(),
        13 * (1u128 << 64) + (1u128 << 63) + (1u128 << 62) + (1u128 << 3)
    );
    let mut dense = Hll::decode(&{
        let mut bytes = vec![4u8, 0];
        bytes.extend_from_slice(&[1, 2, 61, 0, 0, 0, 0, 0, 0, 0, 0, 0, 0, 0, 0, 0]);
        bytes
    })
    .unwrap();
    assert!(dense.is_dense());
    assert_eq!(dense.count_zeros(), 13);
    assert_eq!(
        dense.sum_inverses(),
        13 * (1u128 << 64) + (1u128 << 63) + (1u128 << 62) + (1u128 << 3)
    );
}

#[test]
fn sixteen_values_at_precision_four() {
    let mut hll = Hll::new(4).unwrap();
    for value in 1u64..=16 {
        hll.add(&value);
    }
    assert_eq!(
        hll.registers(),
        vec![4u8, 0, 3, 0, 2, 0, 0, 1, 10, 0, 0, 2, 2, 0, 0, 0]
    );
    assert_eq!(hll.count_zeros(), 9);
    assert_eq!(hll.sum_inverses(), 192555905667852926976);
    let (estimate, linear) = estimate_of(&mut hll);
    assert!(linear);
    assert!((estimate - 16.0 * (16.0f64 / 9.0).ln()).abs() < 1e-9);
    assert!((estimate - 9.205826318456989).abs() < 1e-9);
    assert!(estimate > 16.0 * (1.0 - 3.0 * 1.04 / 4.0) && estimate < 16.0 * (1.0 + 3.0 * 1.04 / 4.0));
}

#[test]
fn estimate_is_within_the_error_bound() {
    let mut hll = Hll::new(14).unwrap();
    for value in 1u64..=50000 {
        hll.add(&value);
    }
    assert_eq!(hll.count_zeros(), 746);
    assert_eq!(hll.sum_inverses(), 70171627603317248491520);
    let (estimate, linear) = estimate_of(&mut hll);
    assert!(!linear);
    assert!((estimate - 50896.202885773506).abs() < 1e-3);
    let error = (estimate - 50000.0).abs() / 50000.0;
    assert!(error < 3.0 * 1.04 / 128.0);
}

#[test]
fn merge_takes_the_larger_register() {
    let mut a = Hll::new(4).unwrap();
    let mut b = Hll::new(4).unwrap();
    a.add_rank(0, 5);
    a.add_rank(1, 2);
    a.add_rank(9, 7);
    b.add_rank(0, 3);
    b.add_rank(1, 4);
    b.add_rank(12, 1);
    let merged = Hll::merge(&a, &b).unwrap();
    let mut expected = vec![0u8; 16];
    expected[0] = 5;
    expected[1] = 4;
    expected[9] = 7;
    expected[12] = 1;
    assert_eq!(merged.registers(), expected);
    assert_eq!(merged.precision(), 4);
    assert!(!merged.is_dense());
    assert_eq!(pending_of(&merged), 0);
    assert_eq!(pending_of(&a), 3);
    assert_eq!(pending_of(&b), 3);
}

#[test]
fn merge_rejects_different_precisions() {
    let a = Hll::new(4).unwrap();
    let b = Hll::new(5).unwrap();
    assert_eq!(Hll::merge(&a, &b).unwrap_err(), HllError::PrecisionMismatch);
    assert_eq!(Hll::merge(&b, &a).unwrap_err(), HllError::PrecisionMismatch);
    let mut c = Hll::new(7).unwrap();
    c.add_rank(100, 3);
    let before = c.registers();
    assert_eq!(c.merge_into(&a), Err(HllError::PrecisionMismatch));
    assert_eq!(c.registers(), before);
    assert_eq!(c.precision(), 7);
    assert_eq!(pending_of(&c), 1);
}

#[test]
fn merge_is_commutative_and_associative() {
    let mut a = Hll::new(10).unwrap();
    let mut b = Hll::new(10).unwrap();
    let mut c = Hll::new(10).unwrap();
    for value in 0u64..3000 {
        match value % 3 {
            0 => a.add(&value),
            1 => b.add(&value),
            _ => c.add(&value),
        }
        if value % 7 == 0 {
            b.add(&(value + 1));
        }
    }
    let ab = Hll::merge(&a, &b).unwrap();
    let ba = Hll::merge(&b, &a).unwrap();
    assert_eq!(ab.registers(), ba.registers());
    assert_eq!(ab.is_dense(), ba.is_dense());
    let bc = Hll::merge(&b, &c).unwrap();
    let left = Hll::merge(&ab, &c).unwrap();
    let right = Hll::merge(&a, &bc).unwrap();
    assert_eq!(left.registers(), right.registers());
    let mut all = Hll::new(10).unwrap();
    for value in 0u64..3001 {
        all.add(&value);
    }
    assert_eq!(left.registers(), all.registers());
}

#[test]
fn merge_with_an_empty_estimator_changes_nothing() {
    for p in [4u8, 11] {
        let mut a = Hll::new(p).unwrap();
        for value in 0u64..200 {
            a.add(&value);
        }
        let empty = Hll::new(p).unwrap();
        assert_eq!(Hll::merge(&a, &empty).unwrap().registers(), a.registers());
        assert_eq!(Hll::merge(&empty, &a).unwrap().registers(), a.registers());
        assert_eq!(Hll::merge(&a, &a).unwrap().registers(), a.registers());
        let before = a.registers();
        assert_eq!(a.merge_into(&empty), Ok(()));
        assert_eq!(a.registers(), before);
    }
}

#[test]
fn merge_into_is_merge() {
    let mut a = Hll::new(6).unwrap();
    let mut b = Hll::new(6).unwrap();
    for value in 0u64..50 {
        a.add(&value);
        b.add(&(value + 25));
    }
    let merged = Hll::merge(&a, &b).unwrap();
    assert_eq!(a.merge_into(&b), Ok(()));
    assert_eq!(a.registers(), merged.registers());
    assert_eq!(a.is_dense(), merged.is_dense());
    assert_eq!(pending_of(&a), 0);
}

#[test]
fn merge_promotes_when_the_result_does_not_compress() {
    let mut a = Hll::new(4).unwrap();
    let mut b = Hll::new(4).unwrap();
    for idx in 0u32..16 {
        if idx < 8 {
            a.add_rank(idx, 1 + (idx % 2) as u8);
        } else {
            b.add_rank(idx, 1 + (idx % 2) as u8);
        }
    }
    a.flush();
    b.flush();
    assert!(!a.is_dense());
    assert!(!b.is_dense());
    let merged = Hll::merge(&a, &b).unwrap();
    assert!(merged.is_dense());
    assert_eq!(
        merged.registers(),
        vec![1u8, 2, 1, 2, 1, 2, 1, 2, 1, 2, 1, 2, 1, 2, 1, 2]
    );
}
