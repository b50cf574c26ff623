use coderec::{calculate_mean, calculate_variance};

#[test]
fn mean_is_rounded_down() {
    assert_eq!(calculate_mean(&[1, 2, 4]), 2);
    assert_eq!(calculate_mean(&[-1, -2, -4]), -3);
    assert_eq!(calculate_mean(&[-3, 3]), 0);
    assert_eq!(calculate_mean(&[-1, 0]), -1);
    assert_eq!(calculate_mean(&[7]), 7);
    assert_eq!(calculate_mean(&[2_000_000, 4_000_000]), 3_000_000);
}

#[test]
fn mean_at_the_ends_of_the_type() {
    assert_eq!(calculate_mean(&[i32::MAX, i32::MAX, i32::MAX]), i32::MAX);
    assert_eq!(calculate_mean(&[i32::MIN, i32::MIN]), i32::MIN);
    assert_eq!(calculate_mean(&[i32::MIN, i32::MAX]), -1);
}

#[test]
fn variance_divides_by_the_length() {
    assert_eq!(calculate_variance(&[1, 2, 4], 2), 1);
    assert_eq!(calculate_variance(&[2_000_000, 4_000_000], 3_000_000), 1_000_000_000_000);
    assert_eq!(calculate_variance(&[5, 5, 5], 5), 0);
    assert_eq!(calculate_variance(&[5, 5, 5], 4), 1);
    assert_eq!(calculate_variance(&[0, 10], 5), 25);
    assert_eq!(calculate_variance(&[-10, 10], 0), 100);
}

#[test]
fn variance_at_the_ends_of_the_type() {
    assert_eq!(calculate_variance(&[i32::MIN, i32::MAX], -1), 4_611_686_016_279_904_256);
    assert_eq!(calculate_variance(&[i32::MIN], i32::MAX), 18_446_744_065_119_617_025);
}
