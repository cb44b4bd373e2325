use karatsuba::{karatsuba, karatsuba_internal, number_to_vec, pad_to_length, vec_to_number};

fn digits_value(v: &[u32]) -> u128 {
    let mut total: u128 = 0;
    for &d in v {
        total = total * 10 + d as u128;
    }
    total
}

#[test]
fn multiply_by_zero_gives_zero() {
    assert_eq!(karatsuba(&vec![0], &vec![1, 2, 3, 4, 5]), vec![0]);
    assert_eq!(karatsuba(&vec![9, 8, 7], &vec![0]), vec![0]);
    assert_eq!(karatsuba(&vec![0], &vec![0]), vec![0]);
    assert_eq!(karatsuba(&vec![0, 0, 0], &vec![4, 2]), vec![0]);
}

#[test]
fn multiply_one_by_each_digit() {
    for n in 0..10u32 {
        assert_eq!(karatsuba(&vec![1], &vec![n]), vec![n]);
        assert_eq!(karatsuba(&vec![n], &vec![1]), vec![n]);
    }
}

#[test]
fn known_product_1234_by_5678() {
    let result = karatsuba(&vec![1, 2, 3, 4], &vec![5, 6, 7, 8]);
    assert_eq!(result, vec![7, 0, 0, 6, 6, 5, 2]);
    assert_eq!(vec_to_number(&result), "7006652");
}

#[test]
fn known_product_99_by_99() {
    let result = karatsuba(&vec![9, 9], &vec![9, 9]);
    assert_eq!(result, vec![9, 8, 0, 1]);
    assert_eq!(vec_to_number(&result), "9801");
}

#[test]
fn single_digit_products_carry() {
    assert_eq!(karatsuba(&vec![9], &vec![9]), vec![8, 1]);
    assert_eq!(karatsuba(&vec![5], &vec![2]), vec![1, 0]);
    assert_eq!(karatsuba(&vec![3], &vec![3]), vec![9]);
}

#[test]
fn multiplication_is_commutative() {
    let cases: Vec<(Vec<u32>, Vec<u32>)> = vec![
        (vec![1, 2, 3], vec![4, 5, 6, 7, 8]),
        (vec![9, 9, 9, 9, 9], vec![1]),
        (vec![0, 0, 7], vec![3, 0, 0, 0, 0, 0]),
        (vec![2, 7, 1, 8, 2, 8, 1, 8, 2], vec![3, 1, 4, 1, 5, 9]),
    ];
    for (a, b) in cases {
        assert_eq!(karatsuba(&a, &b), karatsuba(&b, &a));
    }
}

#[test]
fn matches_native_multiplication() {
    let mut seed: u64 = 0x2545_f491_4f6c_dd1d;
    for _ in 0..300 {
        seed = seed.wrapping_mul(6364136223846793005).wrapping_add(1442695040888963407);
        let u = (seed >> 32) as u64;
        seed = seed.wrapping_mul(6364136223846793005).wrapping_add(1442695040888963407);
        let v = (seed >> 40) as u64;
        let expected = number_to_vec(u * v);
        assert_eq!(karatsuba(&number_to_vec(u), &number_to_vec(v)), expected);
        assert_eq!(digits_value(&expected), (u as u128) * (v as u128));
    }
    for u in 0..40u64 {
        for v in 0..40u64 {
            assert_eq!(karatsuba(&number_to_vec(u), &number_to_vec(v)), number_to_vec(u * v));
        }
    }
}

#[test]
fn large_operands_match_wide_arithmetic() {
    let a: u128 = 18_446_744_073_709_551_615;
    let b: u128 = 98_765_432_109_876;
    let x = number_to_vec(a as u64);
    let y = number_to_vec(b as u64);
    assert_eq!(digits_value(&karatsuba(&x, &y)), a * b);
}

#[test]
fn long_operands_of_different_lengths() {
    let x: Vec<u32> = vec![9; 37];
    let y: Vec<u32> = vec![9; 5];
    let result = karatsuba(&x, &y);
    // (10^37 - 1)(10^5 - 1) = 99998, thirty-two nines, 00001
    let mut expected: Vec<u32> = vec![9, 9, 9, 9, 8];
    expected.extend(vec![9; 32]);
    expected.extend(vec![0, 0, 0, 0, 1]);
    assert_eq!(result, expected);
}

#[test]
fn leading_zero_padding_does_not_change_product() {
    let a = vec![4, 5, 6];
    let b = vec![7, 8];
    let plain = karatsuba(&a, &b);
    assert_eq!(plain, vec![3, 5, 5, 6, 8]);
    assert_eq!(karatsuba(&pad_to_length(&a, 9), &b), plain);
    assert_eq!(karatsuba(&a, &pad_to_length(&b, 6)), plain);
    assert_eq!(karatsuba(&pad_to_length(&a, 16), &pad_to_length(&b, 3)), plain);
}

#[test]
fn empty_operands_denote_zero() {
    assert_eq!(karatsuba(&vec![], &vec![]), vec![0]);
    assert_eq!(karatsuba(&vec![], &vec![1, 2]), vec![0]);
}

#[test]
fn internal_multiplies_equal_power_of_two_lengths() {
    assert_eq!(karatsuba_internal(&vec![9, 9], &vec![9, 9]), vec![9, 8, 0, 1]);
    assert_eq!(karatsuba_internal(&vec![0, 0, 1, 2], &vec![0, 0, 3, 4]), vec![4, 0, 8]);
    assert_eq!(karatsuba_internal(&vec![7], &vec![8]), vec![5, 6]);
}
