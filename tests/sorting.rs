use prog_basics::qsort;

fn is_non_decreasing(v: &[i32]) -> bool {
    v.windows(2).all(|w| w[0] <= w[1])
}

#[test]
fn sorts_seven_values() {
    let mut nums = [3, 2, 4, 1, 6, 5, 9];
    qsort(&mut nums);
    assert_eq!(nums, [1, 2, 3, 4, 5, 6, 9]);
}

#[test]
fn sorts_two_values() {
    let mut nums = [2, 1];
    qsort(&mut nums);
    assert_eq!(nums, [1, 2]);
}

#[test]
fn sorts_six_values() {
    let mut nums = [2, 4, 6, 3, 1, 5];
    qsort(&mut nums);
    assert_eq!(nums, [1, 2, 3, 4, 5, 6]);
}

#[test]
fn keeps_duplicates() {
    let mut nums = [5, 3, 5, 1];
    qsort(&mut nums);
    assert_eq!(nums, [1, 3, 5, 5]);
}

#[test]
fn empty_is_unchanged() {
    let mut nums: [i32; 0] = [];
    qsort(&mut nums);
    assert_eq!(nums, []);
}

#[test]
fn single_is_unchanged() {
    let mut nums = [42];
    qsort(&mut nums);
    assert_eq!(nums, [42]);
}

#[test]
fn sorted_input_is_unchanged() {
    let mut nums = [-3, 0, 0, 7, 8, 100];
    qsort(&mut nums);
    assert_eq!(nums, [-3, 0, 0, 7, 8, 100]);
}

#[test]
fn sorting_twice_gives_the_same() {
    let mut nums = vec![9, -1, 4, 4, 0, 12, -7, 3];
    qsort(&mut nums);
    let once = nums.clone();
    qsort(&mut nums);
    assert_eq!(nums, once);
    assert_eq!(once, vec![-7, -1, 0, 3, 4, 4, 9, 12]);
}

#[test]
fn descending_input() {
    let mut nums: Vec<i32> = (0..50).rev().collect();
    qsort(&mut nums);
    let expected: Vec<i32> = (0..50).collect();
    assert_eq!(nums, expected);
}

#[test]
fn extreme_values() {
    let mut nums = [i32::MAX, 0, i32::MIN, -1, i32::MAX, i32::MIN];
    qsort(&mut nums);
    assert_eq!(nums, [i32::MIN, i32::MIN, -1, 0, i32::MAX, i32::MAX]);
}

#[test]
fn result_is_sorted_permutation() {
    let original = vec![17, 3, 3, -2, 40, 0, 17, 5, -9, 3];
    let mut nums = original.clone();
    qsort(&mut nums);
    assert!(is_non_decreasing(&nums));
    let mut a = original.clone();
    a.sort();
    let mut b = nums.clone();
    b.sort();
    assert_eq!(a, b);
}

#[test]
fn sorts_only_the_given_slice() {
    let mut nums = [9, 8, 3, 1, 2, 0];
    qsort(&mut nums[1..5]);
    assert_eq!(nums, [9, 1, 2, 3, 8, 0]);
}
