use stats_utils::{abs_diff, make_random_vec, n50, n90, sum_of, sum_of_squares};

#[test]
fn n50_and_n90_of_empty_are_zero() {
    assert_eq!(n50(&[]), 0);
    assert_eq!(n90(&[]), 0);
}

#[test]
fn single_length_is_its_own_n50_and_n90() {
    assert_eq!(n50(&[5]), 5);
    assert_eq!(n90(&[5]), 5);
}

#[test]
fn n50_equal_lengths_tie_average() {
    assert_eq!(n50(&[2, 2, 2, 2]), 2);
}

#[test]
fn n50_tie_averages_neighbours() {
    // sum 6, half reached exactly after 1 + 2, next length is 3
    assert_eq!(n50(&[3, 1, 2]), 2);
}

#[test]
fn n50_and_n90_of_one_to_ten() {
    let v: Vec<i32> = (1..=10).rev().collect();
    assert_eq!(n50(&v), 7);
    assert_eq!(n90(&v), 10);
}

#[test]
fn n90_tie_averages_neighbours() {
    let mut v = vec![2; 18];
    v.push(4);
    assert_eq!(n90(&v), 3);
}

#[test]
fn n50_does_not_change_input() {
    let v = vec![9, 3, 7, 1];
    assert_eq!(n50(&v), 7);
    assert_eq!(v, vec![9, 3, 7, 1]);
}

#[test]
fn n50_of_large_lengths_does_not_overflow() {
    let v = vec![i32::MAX, i32::MAX];
    assert_eq!(n50(&v), i32::MAX);
    assert_eq!(n90(&v), i32::MAX);
}

#[test]
fn n90_crossing_not_before_n50_on_samples() {
    let samples: Vec<Vec<i32>> = vec![
        vec![1, 1, 1, 100],
        vec![5, 4, 3, 2, 1],
        vec![7],
        vec![10, 10, 1, 1, 1, 1],
    ];
    for v in samples {
        assert!(n90(&v) >= n50(&v));
    }
}

#[test]
fn abs_diff_both_orders() {
    assert_eq!(abs_diff(3, 7), 4);
    assert_eq!(abs_diff(7, 3), 4);
    assert_eq!(abs_diff(0, usize::MAX), usize::MAX);
    assert_eq!(abs_diff(5, 5), 0);
}

#[test]
fn sums_of_values_and_squares() {
    assert_eq!(sum_of(&[1, 2, 3, 4]), 10);
    assert_eq!(sum_of(&[]), 0);
    assert_eq!(sum_of(&[-5, 2]), -3);
    assert_eq!(sum_of_squares(&[2, 2]), 8);
    assert_eq!(sum_of_squares(&[-3, 4]), 25);
    assert_eq!(sum_of(&[i32::MAX, i32::MAX]), 2 * i32::MAX as i128);
    assert_eq!(sum_of_squares(&[i32::MIN]), (i32::MIN as i128) * (i32::MIN as i128));
}

#[test]
fn random_vec_first_values() {
    let mut x = Vec::new();
    make_random_vec(&mut x, 4);
    assert_eq!(
        x,
        vec![0, 1442695040888963407, 1876011003808476466, -7280499659394350823]
    );
}

#[test]
fn random_vec_regenerates_over_old_contents() {
    let mut x = vec![42, 42, 42, 42, 42, 42];
    make_random_vec(&mut x, 3);
    assert_eq!(x, vec![0, 1442695040888963407, 1876011003808476466]);
    make_random_vec(&mut x, 0);
    assert!(x.is_empty());
}

#[test]
fn random_vec_follows_recurrence() {
    let mut x = Vec::new();
    make_random_vec(&mut x, 50);
    assert_eq!(x.len(), 50);
    assert_eq!(x[0], 0);
    for i in 1..50 {
        let next = 6_364_136_223_846_793_005i64
            .wrapping_mul(x[i - 1])
            .wrapping_add(1_442_695_040_888_963_407);
        assert_eq!(x[i], next);
    }
}
