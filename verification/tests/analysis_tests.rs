use backtesting::analysis::evaluate_combination;
use backtesting::analysis::merge_results;
use backtesting::analysis::partition_intervals;
use backtesting::analysis::run_analysis;
use backtesting::analysis::segment_stats;
use backtesting::analysis::ProgressSink;
use backtesting::analysis::SweepError;
use backtesting::strategy::StrategyResult;
use backtesting::vector_utils::Frac;
use backtesting::vector_utils::Stamp;

struct CountSink {
    n: u64,
}

impl ProgressSink for CountSink {
    fn bump(&mut self) {
        self.n += 1;
    }
}

/// Two qualifying segments entered at 1000 seconds and exited one minute
/// later, plus (optionally reusable) raw series pieces.
fn series_a() -> (Vec<u32>, Vec<i64>) {
    let times: Vec<u32> = vec![1000, 1010, 1030, 1060, 1000, 1010, 1030, 1060];
    let values: Vec<i64> = vec![10, 8, 12, 9, 20, 25, 15, 30];
    (times, values)
}

#[test]
fn excursions_match_hand_computed_values() {
    // diff = [-2, 4, -3], cumsum = [-2, 2, -1]: down -2, up 2, return -1.
    let (ret, down, up) = segment_stats(&vec![10, 8, 12, 9]);
    assert_eq!(ret, -1);
    assert_eq!(down, -2);
    assert_eq!(up, 2);
}

#[test]
fn evaluator_aggregates_two_segments() {
    let (times, values) = series_a();
    let ctx = vec![true; 8];
    let r = evaluate_combination(&times, &values, &ctx, 1, 1000).unwrap();
    assert_eq!(r.interval, 1);
    assert_eq!(r.start_time, 1000);
    assert_eq!(r.end_time, 1060);
    assert_eq!(r.n_obs, 2);
    // returns are [-1, 10]: sum 9 over 2; variance (2 * 101 - 81) / 2.
    assert_eq!(r.mean_return, Frac { num: 9, den: 2 });
    assert_eq!(r.var_return, Frac { num: 121, den: 2 });
    // segment excursions: [-2, 2] and [-5, 10].
    assert_eq!(r.max_drawup, -5);
    assert_eq!(r.max_drawdown, 10);
}

#[test]
fn two_sample_segments_contribute_nothing() {
    // A third entry/exit pair with only two samples must not change the
    // observation count or any statistic.
    let times: Vec<u32> = vec![1000, 1010, 1030, 1060, 1000, 1010, 1030, 1060, 1000, 1060];
    let values: Vec<i64> = vec![10, 8, 12, 9, 20, 25, 15, 30, 50, 60];
    let ctx = vec![true; 10];
    let r = evaluate_combination(&times, &values, &ctx, 1, 1000).unwrap();
    assert_eq!(r.n_obs, 2);
    assert_eq!(r.mean_return, Frac { num: 9, den: 2 });
    assert_eq!(r.max_drawup, -5);
    assert_eq!(r.max_drawdown, 10);
}

#[test]
fn context_mask_vetoes_entries() {
    let (times, values) = series_a();
    // Mask off the second segment's entry: only one observation remains,
    // so the combination is skipped.
    let mut ctx = vec![true; 8];
    ctx[4] = false;
    assert!(evaluate_combination(&times, &values, &ctx, 1, 1000).is_none());
}

#[test]
fn zero_mean_returns_are_discarded() {
    // Two segments whose returns cancel: mean zero, no record.
    let times: Vec<u32> = vec![1000, 1010, 1030, 1060, 1000, 1010, 1030, 1060];
    let values: Vec<i64> = vec![10, 8, 12, 15, 20, 25, 17, 15];
    let ctx = vec![true; 8];
    assert!(evaluate_combination(&times, &values, &ctx, 1, 1000).is_none());
}

#[test]
fn equal_returns_have_zero_variance_and_are_discarded() {
    let times: Vec<u32> = vec![1000, 1010, 1030, 1060, 1000, 1010, 1030, 1060];
    let values: Vec<i64> = vec![10, 8, 12, 15, 20, 25, 17, 25];
    let ctx = vec![true; 8];
    assert!(evaluate_combination(&times, &values, &ctx, 1, 1000).is_none());
}

#[test]
fn session_cutoff_is_hard() {
    // 16:55:00 plus ten minutes crosses 17:00:00: skipped however good the
    // data looks.
    let times: Vec<u32> = vec![60900, 60960, 61020, 61500, 60900, 60960, 61020, 61500];
    let values: Vec<i64> = vec![10, 8, 12, 9, 20, 25, 15, 30];
    let ctx = vec![true; 8];
    assert!(evaluate_combination(&times, &values, &ctx, 10, 60900).is_none());
    // An interval so long that the exit wraps past midnight is skipped too.
    assert!(evaluate_combination(&times, &values, &ctx, 1440, 60900).is_none());
}

fn series_two_rows() -> (Vec<Stamp>, Vec<i64>) {
    let mut times: Vec<u32> = vec![1000, 1010, 1030, 1060, 1000, 1010, 1030, 1060];
    times.extend(vec![2000, 2010, 2030, 2120, 2000, 2010, 2030, 2120]);
    let mut values: Vec<i64> = vec![10, 8, 12, 9, 20, 25, 15, 30];
    values.extend(vec![40, 44, 42, 46, 40, 30, 50, 45]);
    let stamps: Vec<Stamp> = times.iter().map(|&t| Stamp { day: 738000, secs: t }).collect();
    (stamps, values)
}

fn sort_records(mut v: Vec<StrategyResult>) -> Vec<StrategyResult> {
    v.sort_by_key(|r| (r.interval, r.start_time));
    v
}

#[test]
fn sweep_collects_each_viable_combination_once() {
    let (stamps, values) = series_two_rows();
    let intervals: Vec<u64> = vec![1, 2, 3];
    let starts: Vec<u32> = vec![1000, 2000, 3000];
    let mut sink = CountSink { n: 0 };
    let res = run_analysis(&stamps, &values, &intervals, &starts, &mut sink, &Vec::new()).unwrap();
    assert_eq!(sink.n, 9);
    assert_eq!(res.len(), 2);
    assert_eq!(res[0].interval, 1);
    assert_eq!(res[0].start_time, 1000);
    assert_eq!(res[1].interval, 2);
    assert_eq!(res[1].start_time, 2000);
    assert_eq!(res[1].n_obs, 2);
    assert_eq!(res[1].mean_return, Frac { num: 11, den: 2 });
    assert_eq!(res[1].var_return, Frac { num: 1, den: 2 });
    assert_eq!(res[1].max_drawup, -10);
    assert_eq!(res[1].max_drawdown, 10);
}

#[test]
fn empty_sweep_is_an_error() {
    let (stamps, values) = series_two_rows();
    let mut sink = CountSink { n: 0 };
    let res = run_analysis(&stamps, &values, &vec![7], &vec![1234], &mut sink, &Vec::new());
    assert_eq!(res.unwrap_err(), SweepError::EmptyResult);
}

#[test]
fn partition_keeps_every_interval_exactly_once() {
    let intervals: Vec<u64> = vec![2, 3, 4, 5, 6, 7, 8];
    let chunks = partition_intervals(&intervals, 3);
    assert_eq!(chunks.len(), 3);
    assert_eq!(chunks[0], vec![3, 6]);
    assert_eq!(chunks[1], vec![4, 7]);
    assert_eq!(chunks[2], vec![2, 5, 8]);
    let mut all: Vec<u64> = chunks.into_iter().flatten().collect();
    all.sort();
    assert_eq!(all, vec![2, 3, 4, 5, 6, 7, 8]);
}

#[test]
fn partitioned_sweep_matches_sequential_sweep() {
    let (stamps, values) = series_two_rows();
    let intervals: Vec<u64> = vec![1, 2, 3];
    let starts: Vec<u32> = vec![1000, 2000, 3000];

    let mut sink = CountSink { n: 0 };
    let single =
        run_analysis(&stamps, &values, &intervals, &starts, &mut sink, &Vec::new()).unwrap();

    for workers in 1..=4usize {
        let chunks = partition_intervals(&intervals, workers);
        let mut outputs: Vec<Vec<StrategyResult>> = Vec::new();
        for chunk in &chunks {
            let mut wsink = CountSink { n: 0 };
            let out = run_analysis(&stamps, &values, chunk, &starts, &mut wsink, &Vec::new())
                .unwrap_or_default();
            outputs.push(out);
        }
        let merged = merge_results(&outputs);
        assert_eq!(sort_records(merged), sort_records(single.clone()));
    }
}

#[test]
fn emitted_records_pass_the_quality_gate() {
    let (stamps, values) = series_two_rows();
    let intervals: Vec<u64> = vec![1, 2, 3];
    let starts: Vec<u32> = vec![1000, 2000, 3000];
    let mut sink = CountSink { n: 0 };
    let res = run_analysis(&stamps, &values, &intervals, &starts, &mut sink, &Vec::new()).unwrap();
    for r in &res {
        assert!(r.n_obs >= 2);
        assert!(r.mean_return.num != 0);
        assert!(r.var_return.num > 0);
        assert_eq!(r.mean_return.den as usize, r.n_obs);
        assert!((r.end_time as u64) < 61200);
        assert_eq!(r.end_time as u64, r.start_time as u64 + r.interval * 60);
    }
}

#[test]
fn all_false_context_yields_nothing() {
    let (times, values) = series_a();
    let ctx = vec![false; 8];
    assert!(evaluate_combination(&times, &values, &ctx, 1, 1000).is_none());
}

#[test]
fn merge_of_empty_outputs_is_empty() {
    assert_eq!(merge_results(&Vec::new()), Vec::<StrategyResult>::new());
    assert_eq!(merge_results(&vec![Vec::new(), Vec::new()]), Vec::<StrategyResult>::new());
}

#[test]
fn single_worker_partition_is_identity() {
    let intervals: Vec<u64> = vec![5, 9, 2];
    let chunks = partition_intervals(&intervals, 1);
    assert_eq!(chunks, vec![vec![5, 9, 2]]);
}
