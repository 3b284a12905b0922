use backtesting::events::filter_events_by_impact;
use backtesting::events::EventRow;
use backtesting::strategy::day_of_strat;
use backtesting::strategy::days_offset_strat;
use backtesting::strategy::DayOfCondition;
use backtesting::strategy::DayOffsetCondition;
use backtesting::strategy::StrategyResult;
use backtesting::utils::filter_timeseries_by_events;
use backtesting::vector_utils::Stamp;
use chrono::Datelike;

fn day_number(y: i32, m: u32, d: u32) -> i64 {
    chrono::NaiveDate::from_ymd_opt(y, m, d).unwrap().num_days_from_ce() as i64
}

fn row(start: &str, impact: &str) -> EventRow {
    EventRow {
        _id: String::from("1"),
        _start: String::from(start),
        name: String::from("CPI"),
        _impact: String::from(impact),
        currency: String::from("USD"),
    }
}

#[test]
fn impact_levels_decode_exactly() {
    assert_eq!(row("", "LOW").impact(), 1);
    assert_eq!(row("", "MED").impact(), 2);
    assert_eq!(row("", "HIGH").impact(), 3);
    assert_eq!(row("", "unscheduled").impact(), 0);
    assert_eq!(row("", "low").impact(), 0);
}

#[test]
fn event_datetime_parses_month_day_year() {
    let r = row("01/08/2021 13:30:00", "HIGH");
    let st = r.datetime().unwrap();
    assert_eq!(st.day, day_number(2021, 1, 8));
    assert_eq!(st.secs, 13 * 3600 + 30 * 60);
}

#[test]
fn event_datetime_rejects_malformed_text() {
    assert!(row("2021-01-08 13:30:00", "LOW").datetime().is_none());
    assert!(row("not a date", "LOW").datetime().is_none());
}

#[test]
fn impact_filter_keeps_matching_rows() {
    let rows = vec![row("", "LOW"), row("", "HIGH"), row("", "whatever"), row("", "MED")];
    assert_eq!(filter_events_by_impact(&rows, &vec![2, 3]), vec![1, 3]);
    assert_eq!(filter_events_by_impact(&rows, &vec![0]), vec![2]);
}

#[test]
fn day_of_mask_marks_event_days() {
    let fri = day_number(2021, 1, 8);
    let thu = day_number(2021, 1, 7);
    let samples = vec![
        Stamp { day: thu, secs: 0 },
        Stamp { day: fri, secs: 60 },
        Stamp { day: fri, secs: 120 },
    ];
    assert_eq!(day_of_strat(&samples, &vec![fri]), vec![false, true, true]);
    assert_eq!(DayOfCondition::run(&samples, &vec![fri]), vec![false, true, true]);
}

#[test]
fn business_day_offsets_skip_the_weekend() {
    // Walking one business day back from Friday lands on Thursday; the
    // weekend never appears.
    let wed = day_number(2021, 1, 6);
    let thu = day_number(2021, 1, 7);
    let fri = day_number(2021, 1, 8);
    let sat = day_number(2021, 1, 9);
    let samples = vec![
        Stamp { day: wed, secs: 0 },
        Stamp { day: thu, secs: 0 },
        Stamp { day: fri, secs: 0 },
        Stamp { day: sat, secs: 0 },
    ];
    let mask = days_offset_strat(&samples, &vec![fri], 1, 1, true);
    assert_eq!(mask, vec![false, true, true, false]);
    let mask2 = DayOffsetCondition::run(&samples, &vec![fri], 1, 1, true);
    assert_eq!(mask2, vec![false, true, true, false]);
}

#[test]
fn calendar_day_offsets_count_every_day() {
    let wed = day_number(2021, 1, 6);
    let thu = day_number(2021, 1, 7);
    let fri = day_number(2021, 1, 8);
    let sat = day_number(2021, 1, 9);
    let samples = vec![
        Stamp { day: wed, secs: 0 },
        Stamp { day: thu, secs: 0 },
        Stamp { day: fri, secs: 0 },
        Stamp { day: sat, secs: 0 },
    ];
    let mask = days_offset_strat(&samples, &vec![fri], 1, 2, false);
    assert_eq!(mask, vec![true, true, true, false]);
}

#[test]
fn timeseries_filter_spans_business_day_window() {
    // One business day either side of Friday 2021-01-08: Thursday the 7th
    // and Monday the 11th qualify, Wednesday the 6th does not.
    let wed = day_number(2021, 1, 6);
    let thu = day_number(2021, 1, 7);
    let fri = day_number(2021, 1, 8);
    let mon = day_number(2021, 1, 11);
    let samples = vec![
        Stamp { day: wed, secs: 0 },
        Stamp { day: thu, secs: 0 },
        Stamp { day: fri, secs: 0 },
        Stamp { day: mon, secs: 0 },
    ];
    let kept = filter_timeseries_by_events(&samples, &vec![fri], 1, 1);
    assert_eq!(kept, vec![1, 2, 3]);
}

#[test]
fn default_record_is_neutral() {
    let d = StrategyResult::default();
    assert_eq!(d.interval, 0);
    assert_eq!(d.start_time, 3600);
    assert_eq!(d.end_time, 3600);
    assert_eq!(d.mean_return.den, 0);
    assert_eq!(d.var_return.den, 0);
    assert_eq!(d.n_obs, 0);
}

#[test]
fn timeseries_filter_with_no_events_keeps_nothing() {
    let samples = vec![Stamp { day: day_number(2021, 1, 7), secs: 0 }];
    let kept = filter_timeseries_by_events(&samples, &Vec::new(), 1, 1);
    assert_eq!(kept, Vec::<usize>::new());
}
