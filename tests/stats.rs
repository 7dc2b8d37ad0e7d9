use prog_basics::get_mean;

#[test]
fn mean_of_five() {
    assert_eq!(get_mean(&[10, 20, 30, 40, 50]), 30);
}

#[test]
fn mean_of_one() {
    assert_eq!(get_mean(&[-7]), -7);
}

#[test]
fn mean_rounds_toward_zero() {
    assert_eq!(get_mean(&[1, 2]), 1);
    assert_eq!(get_mean(&[-1, -2]), -1);
    assert_eq!(get_mean(&[-5, 0, 0]), -1);
}

#[test]
fn mean_does_not_overflow() {
    assert_eq!(get_mean(&[i32::MAX, i32::MAX, i32::MAX]), i32::MAX);
    assert_eq!(get_mean(&[i32::MIN, i32::MIN]), i32::MIN);
    assert_eq!(get_mean(&[i32::MIN, i32::MAX]), 0);
}
