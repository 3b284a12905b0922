//! Per-combination result records and context condition providers.
//!
//! A `StrategyResult` is the aggregate of one (interval, start time)
//! combination. Its risk ratio is kept as two exact rationals — the mean
//! segment return and the sample variance of segment returns — from which a
//! caller can form the annualized ratio `mean / sqrt(variance) * sqrt(252)`
//! in whatever inexact arithmetic it likes; the record itself stays exact.

use crate::utils::advance_bdays_spec;
use crate::utils::bday_advance;
use crate::vector_utils::contains_i64;
use crate::vector_utils::Frac;
use crate::vector_utils::Stamp;
use vstd::prelude::*;

verus! {

/// Aggregate of one evaluated (interval, start time) combination.
///
/// `mean_return` is `sum(returns) / n_obs`; `var_return` is the sample
/// variance of the returns, numerator `n * sum(r^2) - sum(r)^2` over
/// denominator `n * (n - 1)`. Emitted records always have `n_obs >= 2`, a
/// nonzero mean numerator and a positive variance numerator, so the derived
/// risk ratio is finite and nonzero.
#[derive(Clone, Copy, PartialEq, Eq, Structural, Debug)]
pub struct StrategyResult {
    pub interval: u64,
    pub start_time: u32,
    pub end_time: u32,
    pub mean_return: Frac,
    pub var_return: Frac,
    pub max_drawup: i64,
    pub max_drawdown: i64,
    pub n_obs: usize,
}

impl Default for StrategyResult {
    /// The neutral record: one o'clock bounds, zero-denominator rationals
    /// standing for "undefined", no observations.
    fn default() -> (d: StrategyResult)
        ensures
            d.interval == 0,
            d.start_time == 3600,
            d.end_time == 3600,
            d.mean_return == (Frac { num: 0, den: 0 }),
            d.var_return == (Frac { num: 0, den: 0 }),
            d.max_drawup == 0,
            d.max_drawdown == 0,
            d.n_obs == 0,
    {
        StrategyResult {
            interval: 0,
            start_time: 3600,
            end_time: 3600,
            mean_return: Frac { num: 0, den: 0 },
            var_return: Frac { num: 0, den: 0 },
            max_drawup: 0,
            max_drawdown: 0,
            n_obs: 0,
        }
    }
}

/// Marker for externally supplied boolean context masks.
pub trait ContextCondition {

}

/// Marks the samples that fall on one of the event days themselves.
pub fn day_of_strat(datetimes: &Vec<Stamp>, event_days: &Vec<i64>) -> (mask: Vec<bool>)
    ensures
        mask@.len() == datetimes@.len(),
        forall|i: int|
            0 <= i < datetimes@.len() ==> #[trigger] mask@[i] == event_days@.contains(
                datetimes@[i].day,
            ),
{
    let mut mask: Vec<bool> = Vec::new();
    let mut i: usize = 0;
    while i < datetimes.len()
        invariant
            i <= datetimes@.len(),
            mask@.len() == i,
            forall|j: int|
                0 <= j < i ==> #[trigger] mask@[j] == event_days@.contains(datetimes@[j].day),
        decreases datetimes@.len() - i,
    {
        mask.push(contains_i64(event_days, datetimes[i].day));
        i = i + 1;
    }
    mask
}

/// Whether `day` lies in the configured offset window of some event day:
/// on an event day itself, or — counting business days or calendar days
/// backwards by `o` for `o` between `early` and `late` — on a day from
/// which an event day is reachable.
pub open spec fn offset_mask_at(
    day: i64,
    event_days: Seq<i64>,
    early: int,
    late: int,
    is_bus_days: bool,
) -> bool {
    ||| event_days.contains(day)
    ||| (is_bus_days && exists|t: int, o2: int|
        0 <= t < event_days.len() && -late <= o2 <= -early && day as int
            == #[trigger] advance_bdays_spec(event_days[t] as int, o2))
    ||| (!is_bus_days && exists|t: int|
        0 <= t < event_days.len() && (#[trigger] event_days[t]) - late <= day as int
            <= event_days[t] - early)
}

/// Membership in the offset-day set while it is still being built: event
/// days themselves, the full windows of the first `t_done` event days, and
/// the window of event day `t_done` up to (excluding) offset `o_next`.
pub open spec fn offset_set_upto(
    x: i64,
    event_days: Seq<i64>,
    early: int,
    late: int,
    is_bus_days: bool,
    t_done: int,
    o_next: int,
) -> bool {
    ||| event_days.contains(x)
    ||| (is_bus_days && exists|u: int, o2: int|
        0 <= u < t_done && -late <= o2 <= -early && x as int == #[trigger] advance_bdays_spec(
            event_days[u] as int,
            o2,
        ))
    ||| (!is_bus_days && exists|u: int|
        0 <= u < t_done && (#[trigger] event_days[u]) - late <= x as int <= event_days[u] - early)
    ||| (0 <= t_done < event_days.len() && is_bus_days && exists|o2: int|
        -o_next < o2 <= -early && x as int == #[trigger] advance_bdays_spec(
            event_days[t_done] as int,
            o2,
        ))
    ||| (0 <= t_done < event_days.len() && !is_bus_days && (event_days[t_done] as int) - o_next
        < x as int <= (event_days[t_done] as int) - early)
}

proof fn lemma_offset_set_step(
    x: i64,
    eds: Seq<i64>,
    early: int,
    late: int,
    bus: bool,
    t: int,
    o: int,
    d: i64,
)
    requires
        0 <= t < eds.len(),
        early <= o <= late,
        bus ==> d as int == advance_bdays_spec(eds[t] as int, -o),
        !bus ==> d as int == eds[t] - o,
    ensures
        offset_set_upto(x, eds, early, late, bus, t, o + 1) <==> (offset_set_upto(
            x,
            eds,
            early,
            late,
            bus,
            t,
            o,
        ) || x == d),
{
    if bus {
        if x == d {
            assert(-(o + 1) < -o <= -early && x as int == advance_bdays_spec(eds[t] as int, -o));
            assert(offset_set_upto(x, eds, early, late, bus, t, o + 1));
        }
        if offset_set_upto(x, eds, early, late, bus, t, o) {
            if exists|o2: int|
                -o < o2 <= -early && x as int == #[trigger] advance_bdays_spec(
                    eds[t] as int,
                    o2,
                ) {
                let o2 = choose|o2: int|
                    -o < o2 <= -early && x as int == #[trigger] advance_bdays_spec(
                        eds[t] as int,
                        o2,
                    );
                assert(-(o + 1) < o2 <= -early);
            }
            assert(offset_set_upto(x, eds, early, late, bus, t, o + 1));
        }
        if offset_set_upto(x, eds, early, late, bus, t, o + 1) && x != d {
            if exists|o2: int|
                -(o + 1) < o2 <= -early && x as int == #[trigger] advance_bdays_spec(
                    eds[t] as int,
                    o2,
                ) {
                let o2 = choose|o2: int|
                    -(o + 1) < o2 <= -early && x as int == #[trigger] advance_bdays_spec(
                        eds[t] as int,
                        o2,
                    );
                if o2 == -o {
                    assert(x as int == d as int);
                    assert(false);
                } else {
                    assert(-o < o2 <= -early);
                }
            }
            assert(offset_set_upto(x, eds, early, late, bus, t, o));
        }
    } else {
        assert(eds[t] - (o + 1) < x as int <= eds[t] - early <==> (eds[t] - o < x as int <= eds[t]
            - early || x as int == eds[t] - o));
    }
}

proof fn lemma_offset_set_roll(x: i64, eds: Seq<i64>, early: int, late: int, bus: bool, t: int)
    requires
        0 <= t < eds.len(),
        early <= late,
    ensures
        offset_set_upto(x, eds, early, late, bus, t, late + 1) <==> offset_set_upto(
            x,
            eds,
            early,
            late,
            bus,
            t + 1,
            early,
        ),
{
    if bus {
        if offset_set_upto(x, eds, early, late, bus, t, late + 1) {
            if exists|u: int, o2: int|
                0 <= u < t && -late <= o2 <= -early && x as int == #[trigger] advance_bdays_spec(
                    eds[u] as int,
                    o2,
                ) {
                let (u, o2) = choose|u: int, o2: int|
                    0 <= u < t && -late <= o2 <= -early && x as int
                        == #[trigger] advance_bdays_spec(eds[u] as int, o2);
                assert(0 <= u < t + 1 && -late <= o2 <= -early && x as int == advance_bdays_spec(
                    eds[u] as int,
                    o2,
                ));
            } else if exists|o2: int|
                -(late + 1) < o2 <= -early && x as int == #[trigger] advance_bdays_spec(
                    eds[t] as int,
                    o2,
                ) {
                let o2 = choose|o2: int|
                    -(late + 1) < o2 <= -early && x as int == #[trigger] advance_bdays_spec(
                        eds[t] as int,
                        o2,
                    );
                assert(0 <= t < t + 1 && -late <= o2 <= -early && x as int == advance_bdays_spec(
                    eds[t] as int,
                    o2,
                ));
            }
            assert(offset_set_upto(x, eds, early, late, bus, t + 1, early));
        }
        if offset_set_upto(x, eds, early, late, bus, t + 1, early) {
            if exists|o2: int|
                -early < o2 <= -early && x as int == #[trigger] advance_bdays_spec(
                    eds[t + 1] as int,
                    o2,
                ) {
                let o2 = choose|o2: int|
                    -early < o2 <= -early && x as int == #[trigger] advance_bdays_spec(
                        eds[t + 1] as int,
                        o2,
                    );
                assert(false);
            }
            if exists|u: int, o2: int|
                0 <= u < t + 1 && -late <= o2 <= -early && x as int
                    == #[trigger] advance_bdays_spec(eds[u] as int, o2) {
                let (u, o2) = choose|u: int, o2: int|
                    0 <= u < t + 1 && -late <= o2 <= -early && x as int
                        == #[trigger] advance_bdays_spec(eds[u] as int, o2);
                if u < t {
                    assert(offset_set_upto(x, eds, early, late, bus, t, late + 1));
                } else {
                    assert(-(late + 1) < o2 <= -early && x as int == advance_bdays_spec(
                        eds[t] as int,
                        o2,
                    ));
                    assert(offset_set_upto(x, eds, early, late, bus, t, late + 1));
                }
            }
        }
    } else {
        if offset_set_upto(x, eds, early, late, bus, t, late + 1) {
            if exists|u: int|
                0 <= u < t && (#[trigger] eds[u]) - late <= x as int <= eds[u] - early {
                let u = choose|u: int|
                    0 <= u < t && (#[trigger] eds[u]) - late <= x as int <= eds[u] - early;
                assert(0 <= u < t + 1 && eds[u] - late <= x as int <= eds[u] - early);
            } else if eds[t] - (late + 1) < x as int <= eds[t] - early {
                assert(0 <= t < t + 1 && (eds[t]) - late <= x as int <= eds[t] - early);
            }
            assert(offset_set_upto(x, eds, early, late, bus, t + 1, early));
        }
        if offset_set_upto(x, eds, early, late, bus, t + 1, early) {
            if exists|u: int|
                0 <= u < t + 1 && (#[trigger] eds[u]) - late <= x as int <= eds[u] - early {
                let u = choose|u: int|
                    0 <= u < t + 1 && (#[trigger] eds[u]) - late <= x as int <= eds[u] - early;
                if u < t {
                    assert(offset_set_upto(x, eds, early, late, bus, t, late + 1));
                } else {
                    assert(eds[t] - (late + 1) < x as int <= eds[t] - early);
                }
            }
            assert(offset_set_upto(x, eds, early, late, bus, t, late + 1));
        }
    }
}

proof fn lemma_offset_set_done(x: i64, eds: Seq<i64>, early: int, late: int, bus: bool)
    ensures
        offset_set_upto(x, eds, early, late, bus, eds.len() as int, early) <==> offset_mask_at(
            x,
            eds,
            early,
            late,
            bus,
        ),
{
}

/// Marks the samples whose day lies within an offset window of some event
/// day, walking business days or calendar days.
pub fn days_offset_strat(
    datetimes: &Vec<Stamp>,
    event_days: &Vec<i64>,
    early_offset_days: i64,
    late_offset_days: i64,
    is_bus_days: bool,
) -> (mask: Vec<bool>)
    requires
        early_offset_days <= late_offset_days,
        -10000 <= early_offset_days,
        late_offset_days <= 10000,
        forall|t: int| 0 <= t < event_days@.len() ==> 0 < #[trigger] event_days@[t] <= 3000000,
    ensures
        mask@.len() == datetimes@.len(),
        forall|i: int|
            0 <= i < datetimes@.len() ==> #[trigger] mask@[i] == offset_mask_at(
                datetimes@[i].day,
                event_days@,
                early_offset_days as int,
                late_offset_days as int,
                is_bus_days,
            ),
{
    let ghost early = early_offset_days as int;
    let ghost late = late_offset_days as int;
    let ghost eds = event_days@;
    let mut ranges: Vec<i64> = Vec::new();
    let mut t: usize = 0;
    // Seed with the event days themselves.
    while t < event_days.len()
        invariant
            t <= event_days@.len(),
            ranges@ == event_days@.take(t as int),
        decreases event_days@.len() - t,
    {
        ranges.push(event_days[t]);
        proof {
            assert(ranges@ =~= event_days@.take(t + 1));
        }
        t = t + 1;
    }
    proof {
        assert(ranges@ =~= event_days@);
        assert forall|x: i64| #[trigger] ranges@.contains(x) <==> offset_set_upto(
            x,
            eds,
            early,
            late,
            is_bus_days,
            0,
            early,
        ) by {
            if offset_set_upto(x, eds, early, late, is_bus_days, 0, early) && !eds.contains(x) {
                if is_bus_days {
                    let o2 = choose|o2: int|
                        -early < o2 <= -early && x as int == #[trigger] advance_bdays_spec(
                            eds[0] as int,
                            o2,
                        );
                    assert(false);
                }
            }
        }
    }
    // Add the offset days, one event day at a time.
    let mut t2: usize = 0;
    while t2 < event_days.len()
        invariant
            t2 <= event_days@.len(),
            eds == event_days@,
            early == early_offset_days as int,
            late == late_offset_days as int,
            early <= late,
            -10000 <= early,
            late <= 10000,
            forall|u: int| 0 <= u < eds.len() ==> 0 < #[trigger] eds[u] <= 3000000,
            forall|x: i64| #[trigger]
                ranges@.contains(x) <==> offset_set_upto(
                    x,
                    eds,
                    early,
                    late,
                    is_bus_days,
                    t2 as int,
                    early,
                ),
        decreases event_days@.len() - t2,
    {
        let dt = event_days[t2];
        let mut o: i64 = early_offset_days;
        while o <= late_offset_days
            invariant
                eds == event_days@,
                early == early_offset_days as int,
                late == late_offset_days as int,
                early <= o <= late + 1,
                -10000 <= early,
                late <= 10000,
                t2 < eds.len(),
                dt == eds[t2 as int],
                forall|u: int| 0 <= u < eds.len() ==> 0 < #[trigger] eds[u] <= 3000000,
                forall|x: i64| #[trigger]
                    ranges@.contains(x) <==> offset_set_upto(
                        x,
                        eds,
                        early,
                        late,
                        is_bus_days,
                        t2 as int,
                        o as int,
                    ),
            decreases late + 1 - o,
        {
            let d: i64 = if is_bus_days {
                bday_advance(dt, (0 - o) as i32)
            } else {
                dt - o
            };
            let ghost old_ranges = ranges@;
            ranges.push(d);
            proof {
                assert forall|x: i64| #[trigger] ranges@.contains(x) <==> (old_ranges.contains(x)
                    || x == d) by {
                    if old_ranges.contains(x) {
                        let i = choose|i: int| 0 <= i < old_ranges.len() && old_ranges[i] == x;
                        assert(ranges@[i] == x);
                    }
                    if x == d {
                        assert(ranges@[ranges@.len() - 1] == x);
                    }
                    if ranges@.contains(x) {
                        let i = choose|i: int| 0 <= i < ranges@.len() && ranges@[i] == x;
                        if i < old_ranges.len() {
                            assert(old_ranges[i] == x);
                        }
                    }
                }
                assert forall|x: i64| #[trigger] ranges@.contains(x) <==> offset_set_upto(
                    x,
                    eds,
                    early,
                    late,
                    is_bus_days,
                    t2 as int,
                    o + 1,
                ) by {
                    lemma_offset_set_step(x, eds, early, late, is_bus_days, t2 as int, o as int, d);
                }
            }
            o = o + 1;
        }
        proof {
            assert forall|x: i64| #[trigger] ranges@.contains(x) <==> offset_set_upto(
                x,
                eds,
                early,
                late,
                is_bus_days,
                t2 + 1,
                early,
            ) by {
                lemma_offset_set_roll(x, eds, early, late, is_bus_days, t2 as int);
            }
        }
        t2 = t2 + 1;
    }
    // Build the mask.
    let mut mask: Vec<bool> = Vec::new();
    let mut i: usize = 0;
    while i < datetimes.len()
        invariant
            i <= datetimes@.len(),
            eds == event_days@,
            early == early_offset_days as int,
            late == late_offset_days as int,
            mask@.len() == i,
            forall|x: i64| #[trigger]
                ranges@.contains(x) <==> offset_set_upto(
                    x,
                    eds,
                    early,
                    late,
                    is_bus_days,
                    eds.len() as int,
                    early,
                ),
            forall|j: int|
                0 <= j < i ==> #[trigger] mask@[j] == offset_mask_at(
                    datetimes@[j].day,
                    eds,
                    early,
                    late,
                    is_bus_days,
                ),
        decreases datetimes@.len() - i,
    {
        let hit = contains_i64(&ranges, datetimes[i].day);
        proof {
            lemma_offset_set_done(datetimes@[i as int].day, eds, early, late, is_bus_days);
        }
        mask.push(hit);
        i = i + 1;
    }
    mask
}

/// Day-of-event context mask provider.
pub struct DayOfCondition;

impl DayOfCondition {
    /// Marks the samples that fall on one of the event days.
    pub fn run(datetimes: &Vec<Stamp>, event_days: &Vec<i64>) -> (mask: Vec<bool>)
        ensures
            mask@.len() == datetimes@.len(),
            forall|i: int|
                0 <= i < datetimes@.len() ==> #[trigger] mask@[i] == event_days@.contains(
                    datetimes@[i].day,
                ),
    {
        day_of_strat(datetimes, event_days)
    }
}

impl ContextCondition for DayOfCondition {

}

/// Offset-window context mask provider.
pub struct DayOffsetCondition;

impl DayOffsetCondition {
    /// Marks the samples whose day lies within the offset window of some
    /// event day.
    pub fn run(
        datetimes: &Vec<Stamp>,
        event_days: &Vec<i64>,
        early_offset_days: i64,
        late_offset_days: i64,
        is_bus_days: bool,
    ) -> (mask: Vec<bool>)
        requires
            early_offset_days <= late_offset_days,
            -10000 <= early_offset_days,
            late_offset_days <= 10000,
            forall|t: int| 0 <= t < event_days@.len() ==> 0 < #[trigger] event_days@[t] <= 3000000,
        ensures
            mask@.len() == datetimes@.len(),
            forall|i: int|
                0 <= i < datetimes@.len() ==> #[trigger] mask@[i] == offset_mask_at(
                    datetimes@[i].day,
                    event_days@,
                    early_offset_days as int,
                    late_offset_days as int,
                    is_bus_days,
                ),
    {
        days_offset_strat(datetimes, event_days, early_offset_days, late_offset_days, is_bus_days)
    }
}

impl ContextCondition for DayOffsetCondition {

}

} // verus!
