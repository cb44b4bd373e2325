use karatsuba::{
    add_numbers, is_smaller, multiply_by_power_of_10, next_power_of_2, number_to_vec,
    pad_to_length, remove_leading_zeros, subtract_numbers, vec_to_number,
};

#[test]
fn next_power_of_two_values() {
    assert_eq!(next_power_of_2(0), 1);
    assert_eq!(next_power_of_2(1), 1);
    assert_eq!(next_power_of_2(2), 2);
    assert_eq!(next_power_of_2(3), 4);
    assert_eq!(next_power_of_2(5), 8);
    assert_eq!(next_power_of_2(8), 8);
    assert_eq!(next_power_of_2(9), 16);
    assert_eq!(next_power_of_2(1000), 1024);
}

#[test]
fn pad_prepends_zeros_and_never_truncates() {
    assert_eq!(pad_to_length(&vec![1, 2], 5), vec![0, 0, 0, 1, 2]);
    assert_eq!(pad_to_length(&vec![1, 2, 3], 3), vec![1, 2, 3]);
    assert_eq!(pad_to_length(&vec![1, 2, 3], 1), vec![1, 2, 3]);
    assert_eq!(pad_to_length(&vec![], 2), vec![0, 0]);
}

#[test]
fn normalize_strips_leading_zeros() {
    assert_eq!(remove_leading_zeros(vec![0, 0, 1, 0]), vec![1, 0]);
    assert_eq!(remove_leading_zeros(vec![0, 0, 0]), vec![0]);
    assert_eq!(remove_leading_zeros(vec![]), vec![0]);
    assert_eq!(remove_leading_zeros(vec![7]), vec![7]);
    assert_eq!(remove_leading_zeros(vec![3, 0, 0]), vec![3, 0, 0]);
}

#[test]
fn normalize_is_idempotent() {
    let cases: Vec<Vec<u32>> = vec![vec![0, 0, 4, 2], vec![0], vec![], vec![0, 0], vec![5, 0, 1]];
    for v in cases {
        let once = remove_leading_zeros(v.clone());
        let twice = remove_leading_zeros(once.clone());
        assert_eq!(once, twice);
        assert!(once.len() >= 1);
        assert!(once[0] != 0 || once == vec![0]);
    }
}

#[test]
fn scale_appends_zeros() {
    assert_eq!(multiply_by_power_of_10(&vec![1, 2], 3), vec![1, 2, 0, 0, 0]);
    assert_eq!(multiply_by_power_of_10(&vec![4], 0), vec![4]);
    assert_eq!(multiply_by_power_of_10(&vec![0], 5), vec![0]);
    assert_eq!(multiply_by_power_of_10(&vec![0, 0], 2), vec![0]);
    assert_eq!(multiply_by_power_of_10(&vec![], 2), vec![0]);
}

#[test]
fn scale_law_on_text() {
    let v = vec![3, 0, 7];
    let scaled = multiply_by_power_of_10(&v, 4);
    let expected = format!("{}{}", vec_to_number(&remove_leading_zeros(v.clone())), "0000");
    assert_eq!(vec_to_number(&scaled), expected);
    assert_eq!(vec_to_number(&scaled), "3070000");
    assert_eq!(vec_to_number(&multiply_by_power_of_10(&vec![0], 6)), "0");
    assert_eq!(vec_to_number(&multiply_by_power_of_10(&vec![0, 0, 0], 2)), "0");
}

#[test]
fn compare_by_magnitude() {
    assert!(is_smaller(&vec![9], &vec![1, 0]));
    assert!(!is_smaller(&vec![1, 0], &vec![9]));
    assert!(is_smaller(&vec![1, 2, 3], &vec![1, 2, 4]));
    assert!(!is_smaller(&vec![1, 2, 4], &vec![1, 2, 3]));
    assert!(!is_smaller(&vec![5, 5], &vec![5, 5]));
    assert!(!is_smaller(&vec![0, 0, 5], &vec![5]));
    assert!(is_smaller(&vec![0, 0, 4], &vec![5]));
    assert!(is_smaller(&vec![0], &vec![0, 0, 1]));
    assert!(!is_smaller(&vec![], &vec![0]));
}

#[test]
fn add_with_carries() {
    assert_eq!(add_numbers(&vec![9, 9, 9], &vec![1]), vec![1, 0, 0, 0]);
    assert_eq!(add_numbers(&vec![1, 2, 3], &vec![4, 5, 6]), vec![5, 7, 9]);
    assert_eq!(add_numbers(&vec![0, 0], &vec![0]), vec![0]);
    assert_eq!(add_numbers(&vec![0, 0, 5], &vec![5]), vec![1, 0]);
    assert_eq!(add_numbers(&vec![], &vec![]), vec![0]);
}

#[test]
fn subtract_with_borrows() {
    assert_eq!(subtract_numbers(&vec![1, 0, 0, 0], &vec![1]), vec![9, 9, 9]);
    assert_eq!(subtract_numbers(&vec![5, 7, 9], &vec![4, 5, 6]), vec![1, 2, 3]);
    assert_eq!(subtract_numbers(&vec![4, 2], &vec![4, 2]), vec![0]);
    assert_eq!(subtract_numbers(&vec![1, 0], &vec![0, 0, 9]), vec![1]);
}

#[test]
fn subtract_saturates_at_zero() {
    assert_eq!(subtract_numbers(&vec![1, 2], &vec![5, 0, 0]), vec![0]);
    assert_eq!(subtract_numbers(&vec![0], &vec![1]), vec![0]);
}

#[test]
fn subtract_then_add_round_trip() {
    let cases: Vec<(Vec<u32>, Vec<u32>)> = vec![
        (vec![1, 0, 0, 0], vec![1]),
        (vec![0, 0, 7, 3], vec![7, 3]),
        (vec![9, 8, 7, 6, 5], vec![1, 2, 3, 4]),
        (vec![5], vec![0]),
    ];
    for (a, b) in cases {
        let back = add_numbers(&subtract_numbers(&a, &b), &b);
        assert_eq!(back, remove_leading_zeros(a.clone()));
    }
}

#[test]
fn native_to_digits() {
    assert_eq!(number_to_vec(0), vec![0]);
    assert_eq!(number_to_vec(7), vec![7]);
    assert_eq!(number_to_vec(10), vec![1, 0]);
    assert_eq!(number_to_vec(7006652), vec![7, 0, 0, 6, 6, 5, 2]);
    assert_eq!(
        number_to_vec(u64::MAX),
        vec![1, 8, 4, 4, 6, 7, 4, 4, 0, 7, 3, 7, 0, 9, 5, 5, 1, 6, 1, 5]
    );
}

#[test]
fn digits_to_text() {
    assert_eq!(vec_to_number(&vec![1, 2, 3, 4, 5, 6, 7, 8, 9, 0]), "1234567890");
    assert_eq!(vec_to_number(&vec![0]), "0");
    assert_eq!(vec_to_number(&vec![0, 0, 1]), "001");
    assert_eq!(vec_to_number(&vec![]), "");
}
