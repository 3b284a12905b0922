use backtesting::vector_utils::vec_add_scalar;
use backtesting::vector_utils::vec_cumsum;
use backtesting::vector_utils::vec_dates;
use backtesting::vector_utils::vec_diff;
use backtesting::vector_utils::vec_mean;
use backtesting::vector_utils::vec_sub_scalar;
use backtesting::vector_utils::vec_times;
use backtesting::vector_utils::vec_unique;
use backtesting::vector_utils::vec_variance;
use backtesting::vector_utils::vec_where_eq;
use backtesting::vector_utils::vec_where_gt;
use backtesting::vector_utils::vec_where_lt;
use backtesting::vector_utils::Frac;
use backtesting::vector_utils::Stamp;

#[test]
fn diff_of_three_elements() {
    let a: i64 = 7;
    let b: i64 = -3;
    let c: i64 = 12;
    let d = vec_diff(&vec![a, b, c], 1).unwrap();
    assert_eq!(d, vec![b - a, c - b]);
}

#[test]
fn diff_fails_when_lag_too_large() {
    assert!(vec_diff(&vec![1, 2, 3], 3).is_none());
    assert!(vec_diff(&vec![], 0).is_none());
    assert!(vec_diff(&vec![5], 1).is_none());
}

#[test]
fn diff_with_lag_two() {
    let d = vec_diff(&vec![10, 20, 35, 50], 2).unwrap();
    assert_eq!(d, vec![25, 30]);
}

#[test]
fn cumsum_of_one_two_three() {
    let c = vec_cumsum(&vec![1, 2, 3]).unwrap();
    assert_eq!(c, vec![1, 3, 6]);
}

#[test]
fn cumsum_is_total() {
    assert_eq!(vec_cumsum(&vec![]).unwrap(), Vec::<i64>::new());
    assert_eq!(vec_cumsum(&vec![5]).unwrap(), vec![5]);
    assert_eq!(vec_cumsum(&vec![-1, 1]).unwrap(), vec![-1, 0]);
}

#[test]
fn mean_of_empty_is_none() {
    assert!(vec_mean(&vec![]).is_none());
}

#[test]
fn mean_is_exact_rational() {
    let m = vec_mean(&vec![1, 2, 3]).unwrap();
    assert_eq!(m, Frac { num: 6, den: 3 });
    let m2 = vec_mean(&vec![1, 2]).unwrap();
    assert_eq!(m2, Frac { num: 3, den: 2 });
}

#[test]
fn variance_needs_two_samples() {
    assert!(vec_variance(&vec![]).is_none());
    assert!(vec_variance(&vec![42]).is_none());
}

#[test]
fn variance_of_one_two_three_is_one() {
    let v = vec_variance(&vec![1, 2, 3]).unwrap();
    // n * sum(v^2) - sum(v)^2 = 3 * 14 - 36 = 6 over n * (n - 1) = 6.
    assert_eq!(v, Frac { num: 6, den: 6 });
}

#[test]
fn variance_of_equal_values_is_zero() {
    let v = vec_variance(&vec![4, 4, 4]).unwrap();
    assert_eq!(v.num, 0);
}

#[test]
fn where_eq_finds_ascending_indices() {
    let v: Vec<i32> = vec![1, 0, 0, 1, -1, 1];
    assert_eq!(vec_where_eq(&v, &1), vec![0, 3, 5]);
    assert_eq!(vec_where_eq(&v, &-1), vec![4]);
    assert_eq!(vec_where_eq(&v, &7), Vec::<usize>::new());
}

#[test]
fn where_lt_and_gt() {
    let v: Vec<i32> = vec![3, -2, 5, 0];
    assert_eq!(vec_where_lt(&v, &1), vec![1, 3]);
    assert_eq!(vec_where_gt(&v, &1), vec![0, 2]);
}

#[test]
fn unique_keeps_first_occurrence_order() {
    let v: Vec<i32> = vec![3, 3, 5, 3, 1, 5];
    assert_eq!(vec_unique(&v), vec![3, 5, 1]);
    assert_eq!(vec_unique(&vec![]), Vec::<i32>::new());
}

#[test]
fn scalar_addition_and_subtraction() {
    assert_eq!(vec_add_scalar(&vec![1, 2, 3], 10), vec![11, 12, 13]);
    assert_eq!(vec_sub_scalar(&vec![1, 2, 3], 1), vec![0, 1, 2]);
}

#[test]
fn dates_and_times_project_stamps() {
    let v = vec![Stamp { day: 100, secs: 60 }, Stamp { day: 101, secs: 120 }];
    assert_eq!(vec_dates(&v), vec![100, 101]);
    assert_eq!(vec_times(&v), vec![60, 120]);
}

#[test]
fn mean_of_negative_values() {
    let m = vec_mean(&vec![-4, -2]).unwrap();
    assert_eq!(m, Frac { num: -6, den: 2 });
}
