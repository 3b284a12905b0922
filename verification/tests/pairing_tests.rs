use backtesting::utils::add_time;
use backtesting::utils::datestr_to_int;
use backtesting::utils::fill_ids;
use backtesting::utils::time_range;

#[test]
fn malformed_signal_yields_all_zeros() {
    // Fewer than three distinct values: no segments, whatever the counts.
    assert_eq!(fill_ids(&vec![0, 0, 0]), vec![0, 0, 0]);
    assert_eq!(fill_ids(&vec![1, -1]), vec![0, 0]);
    assert_eq!(fill_ids(&vec![1, 0, 0, 1]), vec![0, 0, 0, 0]);
    assert_eq!(fill_ids(&vec![-1, 0, -1]), vec![0, 0, 0]);
    assert_eq!(fill_ids(&Vec::new()), Vec::<usize>::new());
}

#[test]
fn stray_values_disable_pairing() {
    // Three distinct values that are not {-1, 0, 1}: the validity gate
    // refuses the signal outright.
    assert_eq!(fill_ids(&vec![5, 1, -1]), vec![0, 0, 0]);
    assert_eq!(fill_ids(&vec![1, 0, -1, 7]), vec![0, 0, 0, 0]);
}

#[test]
fn simple_pair_covers_closed_range() {
    assert_eq!(fill_ids(&vec![1, 0, 0, -1]), vec![2, 2, 2, 2]);
}

#[test]
fn nearest_exit_pairing_with_last_write_wins() {
    // Entries at 0, 4 and 11; exits at 5, 8 and 12. The entries at 0 and 4
    // compete for the exit at 5; the later entry wins. The exit at 8 keeps
    // nobody. The entry at 11 takes the exit at 12.
    let r: Vec<i32> = vec![1, 0, 0, 0, 1, -1, 0, 0, -1, 0, 0, 1, -1, 0, 0];
    let ids = fill_ids(&r);
    assert_eq!(ids, vec![0, 0, 0, 0, 2, 2, 0, 0, 0, 0, 0, 3, 3, 0, 0]);
}

#[test]
fn entry_without_later_exit_is_dropped() {
    assert_eq!(fill_ids(&vec![-1, 0, 1]), vec![0, 0, 0]);
    assert_eq!(fill_ids(&vec![0, -1, 1, 0, -1]), vec![0, 0, 2, 2, 2]);
}

#[test]
fn add_time_wraps_around_midnight() {
    assert_eq!(add_time(61200, 3600), 64800);
    assert_eq!(add_time(86000, 1000), 600);
    assert_eq!(add_time(0, 86400), 0);
}

#[test]
fn time_range_enumerates_each_start_once() {
    // From 06:00:00 to 06:05:00 by one minute: six strictly increasing
    // start times, none repeated.
    let v = time_range((6, 0, 0), (6, 5, 0), 1);
    assert_eq!(v, vec![21600, 21660, 21720, 21780, 21840, 21900]);
}

#[test]
fn datestr_to_int_parses_year_month() {
    assert_eq!(datestr_to_int("2021-05"), 202105);
    assert_eq!(datestr_to_int("2021-05-17"), 202105);
    assert_eq!(datestr_to_int("999-12"), 99912);
}

#[test]
fn adjacent_entry_exit_pairs_immediately() {
    assert_eq!(fill_ids(&vec![1, -1, 0]), vec![2, 2, 0]);
    assert_eq!(fill_ids(&vec![0, 1, -1]), vec![0, 2, 2]);
}

#[test]
fn time_range_with_equal_bounds() {
    let v = time_range((6, 0, 0), (6, 0, 0), 5);
    assert_eq!(v, vec![21600]);
}

#[test]
fn datestr_to_int_widest_fields() {
    assert_eq!(datestr_to_int("123456-1234"), 12346834);
    assert_eq!(datestr_to_int("1-1"), 101);
}
