//! Single-combination evaluation and the sweep over the parameter space.
//!
//! For one (interval, start time) combination the evaluator derives entry
//! and exit conditions, pairs them into segments, extracts per-segment
//! statistics and aggregates them into one `StrategyResult`, applying the
//! session cutoff and the data-quality gate. The sweep enumerates the whole
//! parameter space deterministically, partitions it across workers by
//! interval value, and merges per-worker outputs.

use crate::strategy::StrategyResult;
use crate::vector_utils::vec_times;
use crate::vector_utils::Stamp;
use crate::utils::is_pair;
use crate::utils::lemma_pairs_from_props;
use crate::utils::retained_pairs;
use crate::utils::retained_pairs_spec;
use crate::utils::signal_is_valid;
use crate::utils::valid_signal;
use crate::vector_utils::lemma_sum_take_succ;
use crate::vector_utils::max_of;
use crate::vector_utils::min_of;
use crate::vector_utils::seq_max_i64;
use crate::vector_utils::seq_min_i64;
use crate::vector_utils::sum_i64;
use crate::vector_utils::sum_sq_i64;
use crate::vector_utils::vec_cumsum;
use crate::vector_utils::vec_diff;
use crate::vector_utils::vec_mean;
use crate::vector_utils::vec_variance;
use crate::vector_utils::Frac;
use vstd::prelude::*;

verus! {

/// The end-of-session boundary (seconds past midnight): a combination whose
/// exit time reaches it is skipped outright.
pub const SESSION_CUTOFF_SECS: u64 = 61200;

/// The signed condition value of sample `i`: entry flag minus exit flag,
/// each of them the time match ANDed with the combined context mask.
pub open spec fn signal_at(times: Seq<u32>, ctx: Seq<bool>, start: u32, endt: int, i: int) -> i32 {
    let en = times[i] == start && ctx[i];
    let ex = times[i] as int == endt && ctx[i];
    if en && !ex {
        1i32
    } else if ex && !en {
        -1i32
    } else {
        0i32
    }
}

/// The whole signed condition vector of one combination.
pub open spec fn signal_of(times: Seq<u32>, ctx: Seq<bool>, start: u32, endt: int) -> Seq<i32> {
    Seq::new(times.len(), |i: int| signal_at(times, ctx, start, endt, i))
}

/// The running excursions of the segment `[st, e]` of `values`: element `t`
/// is the cumulative change from the segment start after `t + 1` steps.
pub open spec fn exc_seq(values: Seq<i64>, st: int, e: int) -> Seq<i64> {
    Seq::new((e - st) as nat, |t: int| (values[st + 1 + t] - values[st]) as i64)
}

/// Whether a retained pair is long enough to count as an observation:
/// more than two samples.
pub open spec fn qualifying(p: (int, int)) -> bool {
    p.1 - p.0 > 1
}

/// The qualifying segments of one combination's signal.
pub open spec fn quals_of(sig: Seq<i32>) -> Seq<(int, int)> {
    if valid_signal(sig) {
        retained_pairs_spec(sig).filter(|p: (int, int)| qualifying(p))
    } else {
        Seq::empty()
    }
}

/// Per-segment returns of the qualifying segments.
pub open spec fn rets_of(values: Seq<i64>, quals: Seq<(int, int)>) -> Seq<i64> {
    quals.map_values(|p: (int, int)| (values[p.1] - values[p.0]) as i64)
}

/// Per-segment maximal down excursions.
pub open spec fn downs_of(values: Seq<i64>, quals: Seq<(int, int)>) -> Seq<i64> {
    quals.map_values(|p: (int, int)| seq_min_i64(exc_seq(values, p.0, p.1)))
}

/// Per-segment maximal up excursions.
pub open spec fn ups_of(values: Seq<i64>, quals: Seq<(int, int)>) -> Seq<i64> {
    quals.map_values(|p: (int, int)| seq_max_i64(exc_seq(values, p.0, p.1)))
}

/// What one (interval, start time) combination evaluates to: `None` when the
/// exit time reaches the session cutoff, when fewer than two qualifying
/// segments exist, or when the returns have zero mean or zero variance —
/// exactly the inputs on which the derived risk ratio would be undefined,
/// infinite or zero. Otherwise the aggregated record.
pub open spec fn eval_combination_spec(
    times: Seq<u32>,
    values: Seq<i64>,
    ctx: Seq<bool>,
    interval: u64,
    start: u32,
) -> Option<StrategyResult> {
    let endt = start + interval * 60;
    if endt >= SESSION_CUTOFF_SECS {
        None
    } else {
        let sig = signal_of(times, ctx, start, endt);
        let quals = quals_of(sig);
        let n = quals.len() as int;
        let rets = rets_of(values, quals);
        let s = sum_i64(rets);
        let sq = sum_sq_i64(rets);
        if n >= 2 && s != 0 && n * sq - s * s > 0 {
            Some(
                StrategyResult {
                    interval,
                    start_time: start,
                    end_time: endt as u32,
                    mean_return: Frac { num: s as i128, den: n as u64 },
                    var_return: Frac { num: (n * sq - s * s) as i128, den: (n * (n - 1)) as u64 },
                    max_drawup: seq_min_i64(downs_of(values, quals)),
                    max_drawdown: seq_max_i64(ups_of(values, quals)),
                    n_obs: n as usize,
                },
            )
        } else {
            None
        }
    }
}

proof fn lemma_diff_prefix_telescope(v: Seq<i64>, d: Seq<i64>, k: int)
    requires
        d.len() == v.len() - 1,
        forall|i: int| 0 <= i < d.len() ==> #[trigger] d[i] == v[i + 1] - v[i],
        0 <= k <= d.len(),
    ensures
        sum_i64(d.take(k)) == v[k] - v[0],
    decreases k,
{
    if k == 0 {
        assert(d.take(0) =~= Seq::<i64>::empty());
    } else {
        lemma_diff_prefix_telescope(v, d, k - 1);
        lemma_sum_take_succ(d, k - 1);
    }
}

/// Copies `values[st ..= e]` into a fresh vector.
fn copy_range(values: &Vec<i64>, st: usize, e: usize) -> (seg: Vec<i64>)
    requires
        st <= e < values@.len(),
    ensures
        seg@ == values@.subrange(st as int, e + 1),
{
    let nv = values.len();
    let mut seg: Vec<i64> = Vec::new();
    let mut j: usize = st;
    proof {
        assert(nv == values@.len());
    }
    while j <= e
        invariant
            st <= j <= e + 1,
            e < values@.len(),
            values@.len() <= usize::MAX,
            seg@ =~= values@.subrange(st as int, j as int),
        decreases e + 1 - j,
    {
        seg.push(values[j]);
        proof {
            assert(seg@ =~= values@.subrange(st as int, j + 1));
        }
        j = j + 1;
    }
    seg
}

/// Statistics of one qualifying segment: the net return (last value minus
/// first), the most negative running excursion and the most positive one.
pub fn segment_stats(v: &Vec<i64>) -> (r: (i64, i64, i64))
    requires
        v@.len() > 2,
        forall|i: int| 0 <= i < v@.len() ==> -0x40000000 <= #[trigger] v@[i] <= 0x40000000,
    ensures
        r.0 == v@[v@.len() - 1] - v@[0],
        r.1 == seq_min_i64(exc_seq(v@, 0, v@.len() - 1)),
        r.2 == seq_max_i64(exc_seq(v@, 0, v@.len() - 1)),
{
    let ret = v[v.len() - 1] - v[0];
    let dop = vec_diff(v, 1);
    let d = dop.unwrap();
    proof {
        assert forall|k: int| 0 < k <= d@.len() implies i64::MIN <= sum_i64(#[trigger] d@.take(k))
            <= i64::MAX by {
            lemma_diff_prefix_telescope(v@, d@, k);
        }
    }
    let cop = vec_cumsum(&d);
    let c = cop.unwrap();
    proof {
        assert forall|t: int| 0 <= t < c@.len() implies #[trigger] c@[t] == (v@[t + 1] - v@[0]) as i64 by {
            lemma_diff_prefix_telescope(v@, d@, t + 1);
        }
        assert(c@ =~= exc_seq(v@, 0, v@.len() - 1));
    }
    let down = min_of(&c);
    let up = max_of(&c);
    (ret, down, up)
}

/// Evaluates one (interval, start time) combination over the sample series
/// and the combined context mask. Returns exactly what the evaluation model
/// prescribes: `None` on the session cutoff, on fewer than two qualifying
/// segments, and on degenerate statistics; the aggregated record otherwise.
pub fn evaluate_combination(
    times: &Vec<u32>,
    values: &Vec<i64>,
    context: &Vec<bool>,
    interval: u64,
    start_time: u32,
) -> (res: Option<StrategyResult>)
    requires
        times@.len() == values@.len(),
        context@.len() == values@.len(),
        values@.len() <= 0x100000,
        forall|i: int| 0 <= i < values@.len() ==> -0x20000000 <= #[trigger] values@[i] <= 0x20000000,
    ensures
        res == eval_combination_spec(times@, values@, context@, interval, start_time),
{
    if interval >= 1020 {
        return None;
    }
    let endt: u64 = start_time as u64 + interval * 60;
    if endt >= SESSION_CUTOFF_SECS {
        return None;
    }
    let ghost gendt = start_time + interval * 60;
    // Build the signed condition vector.
    let mut sig: Vec<i32> = Vec::new();
    let mut i: usize = 0;
    while i < times.len()
        invariant
            i <= times@.len(),
            endt == start_time + interval * 60,
            gendt == endt as int,
            times@.len() == context@.len(),
            sig@.len() == i,
            forall|j: int|
                0 <= j < i ==> #[trigger] sig@[j] == signal_at(
                    times@,
                    context@,
                    start_time,
                    gendt,
                    j,
                ),
        decreases times@.len() - i,
    {
        let en = times[i] == start_time && context[i];
        let ex = (times[i] as u64) == endt && context[i];
        let x: i32 = if en && !ex {
            1
        } else if ex && !en {
            -1
        } else {
            0
        };
        sig.push(x);
        i = i + 1;
    }
    proof {
        assert(sig@ =~= signal_of(times@, context@, start_time, gendt));
    }
    let ghost quals = quals_of(sig@);
    let ghost qpred = |p: (int, int)| qualifying(p);
    let mut rets_v: Vec<i64> = Vec::new();
    let mut drawups: Vec<i64> = Vec::new();
    let mut drawdowns: Vec<i64> = Vec::new();
    let valid = signal_is_valid(&sig);
    if valid {
        let pairs = retained_pairs(&sig);
        let ghost ps = retained_pairs_spec(sig@);
        proof {
            lemma_pairs_from_props(sig@, 0);
            assert(crate::utils::pairs_view(pairs@.take(0)) =~= Seq::<(int, int)>::empty());
            assert(Seq::<(int, int)>::empty().filter(qpred) =~= Seq::<(int, int)>::empty()) by {
                Seq::<(int, int)>::empty().filter_lemma(qpred);
            }
            assert(rets_of(values@, Seq::<(int, int)>::empty()) =~= Seq::<i64>::empty());
            assert(downs_of(values@, Seq::<(int, int)>::empty()) =~= Seq::<i64>::empty());
            assert(ups_of(values@, Seq::<(int, int)>::empty()) =~= Seq::<i64>::empty());
        }
        let mut k: usize = 0;
        while k < pairs.len()
            invariant
                k <= pairs@.len(),
                valid_signal(sig@),
                ps == retained_pairs_spec(sig@),
                crate::utils::pairs_view(pairs@) == ps,
                qpred == (|p: (int, int)| qualifying(p)),
                sig@.len() == values@.len(),
                values@.len() <= 0x100000,
                forall|i2: int|
                    0 <= i2 < values@.len() ==> -0x20000000 <= #[trigger] values@[i2]
                        <= 0x20000000,
                forall|k2: int|
                    0 <= k2 < ps.len() ==> is_pair(sig@, (#[trigger] ps[k2]).0, ps[k2].1),
                rets_v@ == rets_of(
                    values@,
                    crate::utils::pairs_view(pairs@.take(k as int)).filter(qpred),
                ),
                drawups@ == downs_of(
                    values@,
                    crate::utils::pairs_view(pairs@.take(k as int)).filter(qpred),
                ),
                drawdowns@ == ups_of(
                    values@,
                    crate::utils::pairs_view(pairs@.take(k as int)).filter(qpred),
                ),
            decreases pairs@.len() - k,
        {
            let (st, e) = pairs[k];
            let ghost gq = crate::utils::pairs_view(pairs@.take(k as int)).filter(qpred);
            let ghost p = (st as int, e as int);
            proof {
                assert(crate::utils::pairs_view(pairs@)[k as int] == p);
                assert(ps[k as int] == p);
                assert(is_pair(sig@, p.0, p.1));
                assert(crate::utils::pairs_view(pairs@.take(k + 1)) =~= crate::utils::pairs_view(
                    pairs@.take(k as int),
                ).push(p));
                crate::utils::pairs_view(pairs@.take(k as int)).lemma_filter_push(p, qpred);
            }
            if e - st > 1 {
                let seg = copy_range(values, st, e);
                let (ret, dn, up) = segment_stats(&seg);
                proof {
                    assert(seg@.len() == e - st + 1);
                    assert(exc_seq(seg@, 0, seg@.len() - 1) =~= exc_seq(values@, st as int, e as int));
                    assert(ret == values@[e as int] - values@[st as int]);
                    assert(rets_of(values@, gq.push(p)) =~= rets_of(values@, gq).push(
                        (values@[p.1] - values@[p.0]) as i64,
                    ));
                    assert(downs_of(values@, gq.push(p)) =~= downs_of(values@, gq).push(
                        seq_min_i64(exc_seq(values@, p.0, p.1)),
                    ));
                    assert(ups_of(values@, gq.push(p)) =~= ups_of(values@, gq).push(
                        seq_max_i64(exc_seq(values@, p.0, p.1)),
                    ));
                }
                rets_v.push(ret);
                drawups.push(dn);
                drawdowns.push(up);
            }
            k = k + 1;
        }
        proof {
            assert(pairs@.take(pairs@.len() as int) =~= pairs@);
        }
    } else {
        proof {
            assert(quals =~= Seq::<(int, int)>::empty());
            assert(rets_v@ =~= rets_of(values@, quals));
            assert(drawups@ =~= downs_of(values@, quals));
            assert(drawdowns@ =~= ups_of(values@, quals));
        }
    }
    proof {
        assert(rets_v@ == rets_of(values@, quals));
        assert(drawups@ == downs_of(values@, quals));
        assert(drawdowns@ == ups_of(values@, quals));
        assert(rets_v@.len() == quals.len());
        assert forall|t: int| 0 <= t < rets_v@.len() implies -0x40000000
            <= #[trigger] rets_v@[t] <= 0x40000000 by {
            if valid_signal(sig@) {
                let ps = retained_pairs_spec(sig@);
                lemma_pairs_from_props(sig@, 0);
                let p = quals[t];
                assert(quals.contains(p));
                ps.lemma_filter_contains_rev(qpred, p);
                let w = choose|w: int| 0 <= w < ps.len() && #[trigger] ps[w] == p;
                assert(is_pair(sig@, p.0, p.1));
            }
        }
        assert(quals.len() <= values@.len()) by {
            if valid_signal(sig@) {
                let ps = retained_pairs_spec(sig@);
                lemma_pairs_from_props(sig@, 0);
                ps.filter_lemma(qpred);
                if ps.len() > 0 {
                    assert(2 * (ps.len() - 1) <= ps[ps.len() - 1].0);
                    assert(is_pair(sig@, ps[ps.len() - 1].0, ps[ps.len() - 1].1));
                }
            }
        }
    }
    let n = rets_v.len();
    if n < 2 {
        return None;
    }
    let mop = vec_mean(&rets_v);
    let mean = mop.unwrap();
    let vop = vec_variance(&rets_v);
    let var = vop.unwrap();
    if mean.num == 0 {
        return None;
    }
    if var.num <= 0 {
        return None;
    }
    Some(
        StrategyResult {
            interval,
            start_time,
            end_time: endt as u32,
            mean_return: mean,
            var_return: var,
            max_drawup: min_of(&drawups),
            max_drawdown: max_of(&drawdowns),
            n_obs: n,
        },
    )
}

/// A sweep that found no viable parameterization at all.
#[derive(Clone, Copy, PartialEq, Eq, Structural, Debug)]
pub enum SweepError {
    EmptyResult,
}

/// A shared progress counter, injected into each worker. The sweep bumps it
/// once per combination; what a sink does with the count (locking, logging,
/// estimating time) is its own business and plays no part in the results.
pub trait ProgressSink {
    fn bump(&mut self);
}

/// The time of day of every timestamp.
pub open spec fn times_of(datetimes: Seq<Stamp>) -> Seq<u32> {
    datetimes.map_values(|s: Stamp| s.secs)
}

/// Whether every context mask is set at sample `i`.
pub open spec fn combined_ctx_at(conds: Seq<Vec<bool>>, i: int) -> bool {
    forall|k: int| 0 <= k < conds.len() ==> (#[trigger] conds[k])@[i]
}

/// Whether every mask among the first `upto` is set at sample `i`.
pub open spec fn combined_ctx_upto(conds: Seq<Vec<bool>>, upto: int, i: int) -> bool {
    forall|k: int| 0 <= k < upto ==> (#[trigger] conds[k])@[i]
}

/// The AND of all context masks, elementwise.
pub open spec fn combined_ctx(conds: Seq<Vec<bool>>, n: nat) -> Seq<bool> {
    Seq::new(n, |i: int| combined_ctx_at(conds, i))
}

/// ANDs the context condition masks into one mask of length `n`. With no
/// masks at all the result is all true.
pub fn combine_contexts(conds: &Vec<Vec<bool>>, n: usize) -> (c: Vec<bool>)
    requires
        forall|k: int| 0 <= k < conds@.len() ==> (#[trigger] conds@[k])@.len() == n,
    ensures
        c@ == combined_ctx(conds@, n as nat),
{
    let mut c: Vec<bool> = Vec::new();
    let mut i: usize = 0;
    while i < n
        invariant
            i <= n,
            c@.len() == i,
            forall|j: int| 0 <= j < i ==> #[trigger] c@[j],
        decreases n - i,
    {
        c.push(true);
        i = i + 1;
    }
    let mut k: usize = 0;
    while k < conds.len()
        invariant
            k <= conds@.len(),
            forall|k2: int| 0 <= k2 < conds@.len() ==> (#[trigger] conds@[k2])@.len() == n,
            c@.len() == n,
            forall|j: int| 0 <= j < n ==> #[trigger] c@[j] == combined_ctx_upto(conds@, k as int, j),
        decreases conds@.len() - k,
    {
        let mut next: Vec<bool> = Vec::new();
        let mut i2: usize = 0;
        while i2 < n
            invariant
                i2 <= n,
                k < conds@.len(),
                forall|k2: int| 0 <= k2 < conds@.len() ==> (#[trigger] conds@[k2])@.len() == n,
                c@.len() == n,
                forall|j: int|
                    0 <= j < n ==> #[trigger] c@[j] == combined_ctx_upto(conds@, k as int, j),
                next@.len() == i2,
                forall|j: int|
                    0 <= j < i2 ==> #[trigger] next@[j] == (c@[j] && conds@[k as int]@[j]),
            decreases n - i2,
        {
            let w = conds[k][i2];
            next.push(c[i2] && w);
            i2 = i2 + 1;
        }
        c = next;
        proof {
            assert forall|j: int| 0 <= j < n implies #[trigger] c@[j] == combined_ctx_upto(
                conds@,
                k + 1,
                j,
            ) by {
                if c@[j] {
                    assert forall|k2: int| 0 <= k2 < k + 1 implies (#[trigger] conds@[k2])@[j] by {
                        if k2 < k {
                            assert(combined_ctx_upto(conds@, k as int, j));
                        }
                    }
                } else {
                    if combined_ctx_upto(conds@, k + 1, j) {
                        assert(combined_ctx_upto(conds@, k as int, j)) by {
                            assert forall|k2: int| 0 <= k2 < k implies (
                            #[trigger] conds@[k2])@[j] by {
                                assert(combined_ctx_upto(conds@, k + 1, j));
                            }
                        }
                        assert(false);
                    }
                }
            }
        }
        k = k + 1;
    }
    proof {
        assert(c@ =~= combined_ctx(conds@, n as nat));
    }
    c
}

/// A single evaluation's contribution to the result list.
pub open spec fn opt_seq(o: Option<StrategyResult>) -> Seq<StrategyResult> {
    match o {
        Some(r) => seq![r],
        None => Seq::empty(),
    }
}

/// The records of one interval, over the start times in order.
pub open spec fn row_spec(
    times: Seq<u32>,
    values: Seq<i64>,
    ctx: Seq<bool>,
    interval: u64,
    starts: Seq<u32>,
) -> Seq<StrategyResult>
    decreases starts.len(),
{
    if starts.len() == 0 {
        Seq::empty()
    } else {
        row_spec(times, values, ctx, interval, starts.drop_last()) + opt_seq(
            eval_combination_spec(times, values, ctx, interval, starts.last()),
        )
    }
}

/// The records of a whole sweep: intervals in order, start times within
/// each interval in order, skipped combinations contributing nothing.
pub open spec fn sweep_spec(
    times: Seq<u32>,
    values: Seq<i64>,
    ctx: Seq<bool>,
    intervals: Seq<u64>,
    starts: Seq<u32>,
) -> Seq<StrategyResult>
    decreases intervals.len(),
{
    if intervals.len() == 0 {
        Seq::empty()
    } else {
        sweep_spec(times, values, ctx, intervals.drop_last(), starts) + row_spec(
            times,
            values,
            ctx,
            intervals.last(),
            starts,
        )
    }
}

proof fn lemma_row_take_succ(
    times: Seq<u32>,
    values: Seq<i64>,
    ctx: Seq<bool>,
    interval: u64,
    starts: Seq<u32>,
    j: int,
)
    requires
        0 <= j < starts.len(),
    ensures
        row_spec(times, values, ctx, interval, starts.take(j + 1)) == row_spec(
            times,
            values,
            ctx,
            interval,
            starts.take(j),
        ) + opt_seq(eval_combination_spec(times, values, ctx, interval, starts[j])),
{
    assert(starts.take(j + 1).drop_last() =~= starts.take(j));
    assert(starts.take(j + 1).last() == starts[j]);
}

proof fn lemma_sweep_take_succ(
    times: Seq<u32>,
    values: Seq<i64>,
    ctx: Seq<bool>,
    intervals: Seq<u64>,
    starts: Seq<u32>,
    k: int,
)
    requires
        0 <= k < intervals.len(),
    ensures
        sweep_spec(times, values, ctx, intervals.take(k + 1), starts) == sweep_spec(
            times,
            values,
            ctx,
            intervals.take(k),
            starts,
        ) + row_spec(times, values, ctx, intervals[k], starts),
{
    assert(intervals.take(k + 1).drop_last() =~= intervals.take(k));
    assert(intervals.take(k + 1).last() == intervals[k]);
}

/// Runs the single-combination evaluator over every (interval, start time)
/// pair of one worker's chunk, in deterministic order: intervals outermost,
/// start times innermost. Bumps the progress sink once per combination. A
/// worker whose whole chunk produced nothing reports the empty sweep as an
/// error.
pub fn run_analysis<P: ProgressSink>(
    datetimes: &Vec<Stamp>,
    values: &Vec<i64>,
    interval_rng: &Vec<u64>,
    start_time_rng: &Vec<u32>,
    progress: &mut P,
    context_conditions: &Vec<Vec<bool>>,
) -> (res: Result<Vec<StrategyResult>, SweepError>)
    requires
        datetimes@.len() == values@.len(),
        values@.len() <= 0x100000,
        forall|i: int| 0 <= i < values@.len() ==> -0x20000000 <= #[trigger] values@[i] <= 0x20000000,
        forall|k: int|
            0 <= k < context_conditions@.len() ==> (#[trigger] context_conditions@[k])@.len()
                == values@.len(),
    ensures
        ({
            let full = sweep_spec(
                times_of(datetimes@),
                values@,
                combined_ctx(context_conditions@, values@.len()),
                interval_rng@,
                start_time_rng@,
            );
            match res {
                Ok(v) => v@ == full && full.len() > 0,
                Err(e) => full.len() == 0 && e == SweepError::EmptyResult,
            }
        }),
{
    let times = vec_times(datetimes);
    proof {
        assert(times@ =~= times_of(datetimes@));
    }
    let n = values.len();
    let ctx = combine_contexts(context_conditions, n);
    let ghost gctx = combined_ctx(context_conditions@, values@.len());
    let ghost gtimes = times_of(datetimes@);
    let mut ret: Vec<StrategyResult> = Vec::new();
    let mut k: usize = 0;
    proof {
        assert(interval_rng@.take(0) =~= Seq::<u64>::empty());
    }
    while k < interval_rng.len()
        invariant
            k <= interval_rng@.len(),
            times@ == gtimes,
            ctx@ == gctx,
            datetimes@.len() == values@.len(),
            values@.len() <= 0x100000,
            forall|i: int|
                0 <= i < values@.len() ==> -0x20000000 <= #[trigger] values@[i] <= 0x20000000,
            times@.len() == values@.len(),
            ctx@.len() == values@.len(),
            ret@ == sweep_spec(gtimes, values@, gctx, interval_rng@.take(k as int), start_time_rng@),
        decreases interval_rng@.len() - k,
    {
        let interval = interval_rng[k];
        let mut j: usize = 0;
        proof {
            assert(start_time_rng@.take(0) =~= Seq::<u32>::empty());
        }
        while j < start_time_rng.len()
            invariant
                j <= start_time_rng@.len(),
                k < interval_rng@.len(),
                interval == interval_rng@[k as int],
                times@ == gtimes,
                ctx@ == gctx,
                datetimes@.len() == values@.len(),
                values@.len() <= 0x100000,
                forall|i: int|
                    0 <= i < values@.len() ==> -0x20000000 <= #[trigger] values@[i] <= 0x20000000,
                times@.len() == values@.len(),
                ctx@.len() == values@.len(),
                ret@ == sweep_spec(
                    gtimes,
                    values@,
                    gctx,
                    interval_rng@.take(k as int),
                    start_time_rng@,
                ) + row_spec(gtimes, values@, gctx, interval, start_time_rng@.take(j as int)),
            decreases start_time_rng@.len() - j,
        {
            progress.bump();
            let start_time = start_time_rng[j];
            proof {
                lemma_row_take_succ(
                    gtimes,
                    values@,
                    gctx,
                    interval,
                    start_time_rng@,
                    j as int,
                );
            }
            match evaluate_combination(&times, values, &ctx, interval, start_time) {
                Some(r) => {
                    ret.push(r);
                },
                None => {
                },
            }
            j = j + 1;
        }
        proof {
            assert(start_time_rng@.take(start_time_rng@.len() as int) =~= start_time_rng@);
            lemma_sweep_take_succ(
                gtimes,
                values@,
                gctx,
                interval_rng@,
                start_time_rng@,
                k as int,
            );
        }
        k = k + 1;
    }
    proof {
        assert(interval_rng@.take(interval_rng@.len() as int) =~= interval_rng@);
    }
    if ret.len() == 0 {
        Err(SweepError::EmptyResult)
    } else {
        Ok(ret)
    }
}

/// The intervals assigned to worker `c` out of `n`: those whose value is
/// congruent to `c` modulo `n`, in their original order.
pub open spec fn chunk_of(intervals: Seq<u64>, n: int, c: int) -> Seq<u64> {
    intervals.filter(|x: u64| (x as int) % n == c)
}

/// Splits the interval list across `n_threads` workers by interval value
/// modulo the worker count: deterministic, no interval dropped or
/// duplicated.
pub fn partition_intervals(intervals: &Vec<u64>, n_threads: usize) -> (chunks: Vec<Vec<u64>>)
    requires
        1 <= n_threads,
    ensures
        chunks@.len() == n_threads,
        forall|c: int|
            0 <= c < n_threads ==> (#[trigger] chunks@[c])@ == chunk_of(
                intervals@,
                n_threads as int,
                c,
            ),
{
    let mut chunks: Vec<Vec<u64>> = Vec::new();
    let mut c: usize = 0;
    while c < n_threads
        invariant
            c <= n_threads,
            chunks@.len() == c,
            forall|c2: int|
                0 <= c2 < c ==> (#[trigger] chunks@[c2])@ == chunk_of(
                    intervals@,
                    n_threads as int,
                    c2,
                ),
        decreases n_threads - c,
    {
        let ghost pred = |x: u64| (x as int) % (n_threads as int) == c as int;
        let mut chunk: Vec<u64> = Vec::new();
        let mut k: usize = 0;
        proof {
            assert(intervals@.take(0) =~= Seq::<u64>::empty());
            assert(Seq::<u64>::empty().filter(pred) =~= Seq::<u64>::empty()) by {
                Seq::<u64>::empty().filter_lemma(pred);
            }
        }
        while k < intervals.len()
            invariant
                k <= intervals@.len(),
                c < n_threads,
                pred == (|x: u64| (x as int) % (n_threads as int) == c as int),
                chunk@ == intervals@.take(k as int).filter(pred),
            decreases intervals@.len() - k,
        {
            let x = intervals[k];
            proof {
                assert(intervals@.take(k + 1) =~= intervals@.take(k as int).push(x));
                intervals@.take(k as int).lemma_filter_push(x, pred);
            }
            if x % (n_threads as u64) == (c as u64) {
                chunk.push(x);
            }
            k = k + 1;
        }
        proof {
            assert(intervals@.take(intervals@.len() as int) =~= intervals@);
        }
        chunks.push(chunk);
        c = c + 1;
    }
    chunks
}

/// The concatenation of the workers' result lists, in worker-index order.
pub open spec fn concat_results(chunks: Seq<Vec<StrategyResult>>) -> Seq<StrategyResult>
    decreases chunks.len(),
{
    if chunks.len() == 0 {
        Seq::empty()
    } else {
        concat_results(chunks.drop_last()) + chunks.last()@
    }
}

/// Merges the per-worker result lists in worker-index order.
pub fn merge_results(worker_outputs: &Vec<Vec<StrategyResult>>) -> (merged: Vec<StrategyResult>)
    ensures
        merged@ == concat_results(worker_outputs@),
{
    let mut merged: Vec<StrategyResult> = Vec::new();
    let mut c: usize = 0;
    proof {
        assert(worker_outputs@.take(0) =~= Seq::<Vec<StrategyResult>>::empty());
    }
    while c < worker_outputs.len()
        invariant
            c <= worker_outputs@.len(),
            merged@ == concat_results(worker_outputs@.take(c as int)),
        decreases worker_outputs@.len() - c,
    {
        let mut k: usize = 0;
        let ghost base = merged@;
        while k < worker_outputs[c].len()
            invariant
                c < worker_outputs@.len(),
                k <= worker_outputs@[c as int]@.len(),
                merged@ == base + worker_outputs@[c as int]@.take(k as int),
            decreases worker_outputs@[c as int]@.len() - k,
        {
            let r = worker_outputs[c][k];
            merged.push(r);
            proof {
                assert(base + worker_outputs@[c as int]@.take(k + 1) =~= (base
                    + worker_outputs@[c as int]@.take(k as int)).push(
                    worker_outputs@[c as int]@[k as int],
                ));
            }
            k = k + 1;
        }
        proof {
            assert(worker_outputs@[c as int]@.take(worker_outputs@[c as int]@.len() as int)
                =~= worker_outputs@[c as int]@);
            assert(worker_outputs@.take(c + 1).drop_last() =~= worker_outputs@.take(c as int));
            assert(worker_outputs@.take(c + 1).last() == worker_outputs@[c as int]);
        }
        c = c + 1;
    }
    proof {
        assert(worker_outputs@.take(worker_outputs@.len() as int) =~= worker_outputs@);
    }
    merged
}

/// What the workers of a partitioned sweep produce in total, in worker-index
/// order: worker `c` evaluates exactly its chunk of intervals.
pub open spec fn chunked_sweep(
    times: Seq<u32>,
    values: Seq<i64>,
    ctx: Seq<bool>,
    intervals: Seq<u64>,
    starts: Seq<u32>,
    n: int,
    c: int,
) -> Seq<StrategyResult>
    decreases n - c,
    when 0 <= c
{
    if c >= n {
        Seq::empty()
    } else {
        sweep_spec(times, values, ctx, chunk_of(intervals, n, c), starts) + chunked_sweep(
            times,
            values,
            ctx,
            intervals,
            starts,
            n,
            c + 1,
        )
    }
}

proof fn lemma_concat_contains(a: Seq<StrategyResult>, b: Seq<StrategyResult>, rec: StrategyResult)
    ensures
        (a + b).contains(rec) <==> (a.contains(rec) || b.contains(rec)),
{
    if a.contains(rec) {
        let i = choose|i: int| 0 <= i < a.len() && a[i] == rec;
        assert((a + b)[i] == rec);
    }
    if b.contains(rec) {
        let i = choose|i: int| 0 <= i < b.len() && b[i] == rec;
        assert((a + b)[a.len() + i] == rec);
    }
    if (a + b).contains(rec) {
        let i = choose|i: int| 0 <= i < (a + b).len() && (a + b)[i] == rec;
        if i < a.len() {
            assert(a[i] == rec);
        } else {
            assert(b[i - a.len()] == rec);
        }
    }
}

proof fn lemma_sweep_membership(
    times: Seq<u32>,
    values: Seq<i64>,
    ctx: Seq<bool>,
    intervals: Seq<u64>,
    starts: Seq<u32>,
    rec: StrategyResult,
)
    ensures
        sweep_spec(times, values, ctx, intervals, starts).contains(rec) <==> exists|k: int|
            0 <= k < intervals.len() && row_spec(
                times,
                values,
                ctx,
                #[trigger] intervals[k],
                starts,
            ).contains(rec),
    decreases intervals.len(),
{
    if intervals.len() == 0 {
    } else {
        let pre = intervals.drop_last();
        lemma_sweep_membership(times, values, ctx, pre, starts, rec);
        lemma_concat_contains(
            sweep_spec(times, values, ctx, pre, starts),
            row_spec(times, values, ctx, intervals.last(), starts),
            rec,
        );
        if sweep_spec(times, values, ctx, intervals, starts).contains(rec) {
            if sweep_spec(times, values, ctx, pre, starts).contains(rec) {
                let k = choose|k: int|
                    0 <= k < pre.len() && row_spec(
                        times,
                        values,
                        ctx,
                        #[trigger] pre[k],
                        starts,
                    ).contains(rec);
                assert(intervals[k] == pre[k]);
            } else {
                assert(intervals[intervals.len() - 1] == intervals.last());
            }
        }
        if exists|k: int|
            0 <= k < intervals.len() && row_spec(
                times,
                values,
                ctx,
                #[trigger] intervals[k],
                starts,
            ).contains(rec) {
            let k = choose|k: int|
                0 <= k < intervals.len() && row_spec(
                    times,
                    values,
                    ctx,
                    #[trigger] intervals[k],
                    starts,
                ).contains(rec);
            if k < intervals.len() - 1 {
                assert(pre[k] == intervals[k]);
                assert(sweep_spec(times, values, ctx, pre, starts).contains(rec));
            }
        }
    }
}

proof fn lemma_row_membership(
    times: Seq<u32>,
    values: Seq<i64>,
    ctx: Seq<bool>,
    interval: u64,
    starts: Seq<u32>,
    rec: StrategyResult,
)
    ensures
        row_spec(times, values, ctx, interval, starts).contains(rec) <==> exists|j: int|
            0 <= j < starts.len() && eval_combination_spec(
                times,
                values,
                ctx,
                interval,
                #[trigger] starts[j],
            ) == Some(rec),
    decreases starts.len(),
{
    if starts.len() == 0 {
    } else {
        let pre = starts.drop_last();
        lemma_row_membership(times, values, ctx, interval, pre, rec);
        lemma_concat_contains(
            row_spec(times, values, ctx, interval, pre),
            opt_seq(eval_combination_spec(times, values, ctx, interval, starts.last())),
            rec,
        );
        if row_spec(times, values, ctx, interval, starts).contains(rec) {
            if row_spec(times, values, ctx, interval, pre).contains(rec) {
                let j = choose|j: int|
                    0 <= j < pre.len() && eval_combination_spec(
                        times,
                        values,
                        ctx,
                        interval,
                        #[trigger] pre[j],
                    ) == Some(rec);
                assert(starts[j] == pre[j]);
            } else {
                assert(starts[starts.len() - 1] == starts.last());
            }
        }
        if exists|j: int|
            0 <= j < starts.len() && eval_combination_spec(
                times,
                values,
                ctx,
                interval,
                #[trigger] starts[j],
            ) == Some(rec) {
            let j = choose|j: int|
                0 <= j < starts.len() && eval_combination_spec(
                    times,
                    values,
                    ctx,
                    interval,
                    #[trigger] starts[j],
                ) == Some(rec);
            if j < starts.len() - 1 {
                assert(pre[j] == starts[j]);
            } else {
                let tailseq = opt_seq(
                    eval_combination_spec(times, values, ctx, interval, starts.last()),
                );
                assert(tailseq[0] == rec);
                assert(tailseq.contains(rec));
            }
        }
        if row_spec(times, values, ctx, interval, starts).contains(rec) && !row_spec(
            times,
            values,
            ctx,
            interval,
            pre,
        ).contains(rec) {
            let o = eval_combination_spec(times, values, ctx, interval, starts.last());
            assert(opt_seq(o).contains(rec));
            match o {
                Some(r) => {
                    let i = choose|i: int| 0 <= i < opt_seq(o).len() && opt_seq(o)[i] == rec;
                    assert(r == rec);
                },
                None => {
                    assert(false);
                },
            }
        }
    }
}

proof fn lemma_chunked_membership(
    times: Seq<u32>,
    values: Seq<i64>,
    ctx: Seq<bool>,
    intervals: Seq<u64>,
    starts: Seq<u32>,
    n: int,
    c: int,
    rec: StrategyResult,
)
    requires
        0 <= c,
    ensures
        chunked_sweep(times, values, ctx, intervals, starts, n, c).contains(rec) <==> exists|
            c2: int,
        |
            c <= c2 < n && sweep_spec(
                times,
                values,
                ctx,
                #[trigger] chunk_of(intervals, n, c2),
                starts,
            ).contains(rec),
    decreases n - c,
{
    if c >= n {
    } else {
        lemma_chunked_membership(times, values, ctx, intervals, starts, n, c + 1, rec);
        lemma_concat_contains(
            sweep_spec(times, values, ctx, chunk_of(intervals, n, c), starts),
            chunked_sweep(times, values, ctx, intervals, starts, n, c + 1),
            rec,
        );
    }
}

/// A sweep partitioned across any worker count yields exactly the records
/// of the sequential sweep: a record appears in the concatenation of the
/// workers' outputs if and only if it appears in the single-threaded sweep
/// over the same configuration.
pub proof fn theorem_partitioned_sweep_equals_sequential(
    times: Seq<u32>,
    values: Seq<i64>,
    ctx: Seq<bool>,
    intervals: Seq<u64>,
    starts: Seq<u32>,
    n: int,
    rec: StrategyResult,
)
    requires
        1 <= n,
    ensures
        chunked_sweep(times, values, ctx, intervals, starts, n, 0).contains(rec)
            <==> sweep_spec(times, values, ctx, intervals, starts).contains(rec),
{
    lemma_chunked_membership(times, values, ctx, intervals, starts, n, 0, rec);
    lemma_sweep_membership(times, values, ctx, intervals, starts, rec);
    if chunked_sweep(times, values, ctx, intervals, starts, n, 0).contains(rec) {
        let c2 = choose|c2: int|
            0 <= c2 < n && sweep_spec(
                times,
                values,
                ctx,
                #[trigger] chunk_of(intervals, n, c2),
                starts,
            ).contains(rec);
        let ch = chunk_of(intervals, n, c2);
        lemma_sweep_membership(times, values, ctx, ch, starts, rec);
        let k = choose|k: int|
            0 <= k < ch.len() && row_spec(times, values, ctx, #[trigger] ch[k], starts).contains(
                rec,
            );
        intervals.lemma_filter_contains_rev(|x: u64| (x as int) % n == c2, ch[k]);
        let k0 = choose|k0: int| 0 <= k0 < intervals.len() && intervals[k0] == ch[k];
        assert(row_spec(times, values, ctx, intervals[k0], starts).contains(rec));
    }
    if sweep_spec(times, values, ctx, intervals, starts).contains(rec) {
        let k = choose|k: int|
            0 <= k < intervals.len() && row_spec(
                times,
                values,
                ctx,
                #[trigger] intervals[k],
                starts,
            ).contains(rec);
        let x = intervals[k];
        let c2 = (x as int) % n;
        vstd::arithmetic::div_mod::lemma_mod_bound(x as int, n);
        let pred = |x2: u64| (x2 as int) % n == c2;
        intervals.filter_lemma(pred);
        assert(chunk_of(intervals, n, c2).contains(x));
        let ch = chunk_of(intervals, n, c2);
        let k2 = choose|k2: int| 0 <= k2 < ch.len() && #[trigger] ch[k2] == x;
        lemma_sweep_membership(times, values, ctx, ch, starts, rec);
        assert(row_spec(times, values, ctx, ch[k2], starts).contains(rec));
    }
}

/// Facts about the qualifying segments of any signal: each is a retained
/// pair with more than two samples, and there are at most as many as there
/// are samples.
pub proof fn lemma_quals_facts(sig: Seq<i32>)
    ensures
        forall|t: int|
            0 <= t < quals_of(sig).len() ==> is_pair(
                sig,
                (#[trigger] quals_of(sig)[t]).0,
                quals_of(sig)[t].1,
            ) && qualifying(quals_of(sig)[t]),
        quals_of(sig).len() <= sig.len(),
{
    let qpred = |p: (int, int)| qualifying(p);
    if valid_signal(sig) {
        let ps = retained_pairs_spec(sig);
        lemma_pairs_from_props(sig, 0);
        ps.filter_lemma(qpred);
        let quals = quals_of(sig);
        assert forall|t: int| 0 <= t < quals.len() implies is_pair(
            sig,
            (#[trigger] quals[t]).0,
            quals[t].1,
        ) && qualifying(quals[t]) by {
            let p = quals[t];
            assert(quals.contains(p));
            ps.lemma_filter_contains_rev(qpred, p);
            let w = choose|w: int| 0 <= w < ps.len() && #[trigger] ps[w] == p;
            assert(is_pair(sig, p.0, p.1));
        }
        if ps.len() > 0 {
            assert(2 * (ps.len() - 1) <= ps[ps.len() - 1].0);
            assert(is_pair(sig, ps[ps.len() - 1].0, ps[ps.len() - 1].1));
        }
    }
}

/// A segment of two samples or fewer never counts as an observation: every
/// qualifying segment of any signal spans more than two samples, so only
/// those feed the observation count, the returns and the excursion lists.
pub proof fn theorem_short_segments_never_counted(sig: Seq<i32>, t: int)
    requires
        0 <= t < quals_of(sig).len(),
    ensures
        quals_of(sig)[t].1 - quals_of(sig)[t].0 + 1 > 2,
{
    lemma_quals_facts(sig);
    assert(qualifying(quals_of(sig)[t]));
}

/// A combination whose exit time reaches the session cutoff never evaluates
/// to a record, whatever the data.
pub proof fn theorem_session_cutoff(
    times: Seq<u32>,
    values: Seq<i64>,
    ctx: Seq<bool>,
    interval: u64,
    start: u32,
)
    ensures
        start + interval * 60 >= SESSION_CUTOFF_SECS ==> eval_combination_spec(
            times,
            values,
            ctx,
            interval,
            start,
        ) is None,
{
}

/// Every record a sweep emits lies strictly inside the session: its exit
/// time is its start time plus the interval, below the cutoff.
pub proof fn theorem_emitted_before_cutoff(
    times: Seq<u32>,
    values: Seq<i64>,
    ctx: Seq<bool>,
    intervals: Seq<u64>,
    starts: Seq<u32>,
    rec: StrategyResult,
)
    requires
        sweep_spec(times, values, ctx, intervals, starts).contains(rec),
    ensures
        rec.end_time as int == rec.start_time + rec.interval * 60,
        (rec.end_time as u64) < SESSION_CUTOFF_SECS,
{
    lemma_sweep_membership(times, values, ctx, intervals, starts, rec);
    let k = choose|k: int|
        0 <= k < intervals.len() && row_spec(
            times,
            values,
            ctx,
            #[trigger] intervals[k],
            starts,
        ).contains(rec);
    lemma_row_membership(times, values, ctx, intervals[k], starts, rec);
    let j = choose|j: int|
        0 <= j < starts.len() && eval_combination_spec(
            times,
            values,
            ctx,
            intervals[k],
            #[trigger] starts[j],
        ) == Some(rec);
}

/// Every record a sweep emits passes the data-quality gate: at least two
/// observations, a nonzero mean-return numerator and a positive variance
/// numerator — over the real numbers its risk ratio is finite and nonzero —
/// with the exact denominators of the sample statistics.
pub proof fn theorem_emitted_ratio_defined(
    times: Seq<u32>,
    values: Seq<i64>,
    ctx: Seq<bool>,
    intervals: Seq<u64>,
    starts: Seq<u32>,
    rec: StrategyResult,
)
    requires
        sweep_spec(times, values, ctx, intervals, starts).contains(rec),
        times.len() == values.len(),
        values.len() <= 0x100000,
        forall|i: int| 0 <= i < values.len() ==> -0x20000000 <= #[trigger] values[i] <= 0x20000000,
    ensures
        rec.n_obs >= 2,
        rec.mean_return.num != 0,
        rec.mean_return.den == rec.n_obs,
        rec.var_return.num > 0,
        rec.var_return.den == rec.n_obs * (rec.n_obs - 1),
{
    lemma_sweep_membership(times, values, ctx, intervals, starts, rec);
    let k = choose|k: int|
        0 <= k < intervals.len() && row_spec(
            times,
            values,
            ctx,
            #[trigger] intervals[k],
            starts,
        ).contains(rec);
    lemma_row_membership(times, values, ctx, intervals[k], starts, rec);
    let j = choose|j: int|
        0 <= j < starts.len() && eval_combination_spec(
            times,
            values,
            ctx,
            intervals[k],
            #[trigger] starts[j],
        ) == Some(rec);
    let interval = intervals[k];
    let start = starts[j];
    let endt = start + interval * 60;
    let sig = signal_of(times, ctx, start, endt);
    let quals = quals_of(sig);
    let n = quals.len() as int;
    let rets = rets_of(values, quals);
    let s = sum_i64(rets);
    let sq = sum_sq_i64(rets);
    lemma_quals_facts(sig);
    assert forall|t: int| 0 <= t < rets.len() implies -0x40000000 <= #[trigger] rets[t]
        <= 0x40000000 by {
        let p = quals[t];
        assert(is_pair(sig, p.0, p.1));
    }
    crate::vector_utils::lemma_sum_abs_bound(rets, 0x40000000);
    assert(n <= 0x100000);
    assert(-(0x100000 * 0x40000000) <= s <= 0x100000 * 0x40000000) by (nonlinear_arith)
        requires
            -(rets.len() * 0x40000000) <= s <= rets.len() * 0x40000000,
            rets.len() <= 0x100000,
    ;
    assert(0 <= sq <= 0x100000 * (0x40000000 * 0x40000000)) by (nonlinear_arith)
        requires
            0 <= sq <= rets.len() * (0x40000000 * 0x40000000),
            rets.len() <= 0x100000,
    ;
    assert(n * sq <= 0x100000 * (0x100000 * (0x40000000 * 0x40000000)) && 0 <= n * sq)
        by (nonlinear_arith)
        requires
            0 <= sq <= 0x100000 * (0x40000000 * 0x40000000),
            0 <= n <= 0x100000,
    ;
    assert(s * s <= (0x100000 * 0x40000000) * (0x100000 * 0x40000000) && 0 <= s * s)
        by (nonlinear_arith)
        requires
            -(0x100000 * 0x40000000) <= s <= 0x100000 * 0x40000000,
    ;
    assert(n * (n - 1) <= 0x100000 * 0x100000) by (nonlinear_arith)
        requires
            2 <= n <= 0x100000,
    ;
}

} // verus!
