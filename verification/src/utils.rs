//! Segment pairing and small calendar/time helpers.
//!
//! The heart of this module is `fill_ids`: it turns a signed condition
//! vector (entries `+1`, exits `-1`, everything else `0`) into a vector of
//! segment ids, pairing each entry with the nearest later exit. A retained
//! pair is exactly an entry followed by its nearest exit with no other
//! trigger in between; retained pairs are mutually disjoint.

use crate::vector_utils::contains_i64;
use crate::vector_utils::Stamp;
use vstd::arithmetic::div_mod::lemma_add_mod_noop;
use vstd::prelude::*;
use vstd::string::StrSliceExecFns;

verus! {

/// A well-formed signal holds only `-1`, `0`, `1` and holds each of them at
/// least once. Pairing is attempted only on well-formed signals.
pub open spec fn valid_signal(r: Seq<i32>) -> bool {
    &&& forall|j: int| 0 <= j < r.len() ==> (r[j] == -1 || r[j] == 0 || #[trigger] r[j] == 1)
    &&& r.contains(1i32)
    &&& r.contains(-1i32)
    &&& r.contains(0i32)
}

/// `(st, e)` is a retained pair: an entry at `st`, an exit at `e`, and no
/// trigger of either kind strictly between them. This makes `e` the nearest
/// later exit of `st` and `st` the last entry competing for `e`, which is
/// the last-write-wins resolution of colliding nearest-exit matches.
pub open spec fn is_pair(r: Seq<i32>, st: int, e: int) -> bool {
    &&& 0 <= st < e < r.len()
    &&& r[st] == 1
    &&& r[e] == -1
    &&& forall|j: int| st < j < e ==> #[trigger] r[j] != 1 && r[j] != -1
}

/// Whether the entry at `st` retains some exit.
pub open spec fn has_pair_at(r: Seq<i32>, st: int) -> bool {
    exists|e: int| is_pair(r, st, e)
}

/// The exit retained by the entry at `st` (unique when it exists).
pub open spec fn pair_end(r: Seq<i32>, st: int) -> int {
    choose|e: int| is_pair(r, st, e)
}

pub proof fn lemma_pair_end_unique(r: Seq<i32>, st: int, e: int)
    requires
        is_pair(r, st, e),
    ensures
        pair_end(r, st) == e,
        has_pair_at(r, st),
{
    let e2 = pair_end(r, st);
    assert(is_pair(r, st, e2));
    if e2 < e {
        assert(r[e2] == -1);
    } else if e < e2 {
        assert(r[e] == -1);
    }
}

/// All retained pairs at or after position `i`, in ascending entry order.
pub open spec fn pairs_from(r: Seq<i32>, i: int) -> Seq<(int, int)>
    decreases r.len() - i,
    when 0 <= i
{
    if i >= r.len() {
        Seq::empty()
    } else if r[i] == 1 && has_pair_at(r, i) {
        seq![(i, pair_end(r, i))] + pairs_from(r, pair_end(r, i) + 1)
    } else {
        pairs_from(r, i + 1)
    }
}

/// The retained pairs of the whole signal.
pub open spec fn retained_pairs_spec(r: Seq<i32>) -> Seq<(int, int)> {
    pairs_from(r, 0)
}

/// Every pair listed by `pairs_from` is a retained pair, entries come in
/// strictly increasing disjoint order, and position `2 * k` is a lower bound
/// on the `k`-th entry, so there are never more than `len / 2 + 1` pairs.
pub proof fn lemma_pairs_from_props(r: Seq<i32>, i: int)
    requires
        0 <= i,
    ensures
        forall|k: int|
            0 <= k < pairs_from(r, i).len() ==> is_pair(
                r,
                (#[trigger] pairs_from(r, i)[k]).0,
                pairs_from(r, i)[k].1,
            ),
        forall|k: int| 0 <= k < pairs_from(r, i).len() ==> i <= (#[trigger] pairs_from(r, i)[k]).0,
        forall|k1: int, k2: int|
            0 <= k1 < k2 < pairs_from(r, i).len() ==> (#[trigger] pairs_from(r, i)[k1]).1 < (
            #[trigger] pairs_from(r, i)[k2]).0,
        forall|k: int|
            0 <= k < pairs_from(r, i).len() ==> i + 2 * k <= (#[trigger] pairs_from(r, i)[k]).0,
    decreases r.len() - i,
{
    if i >= r.len() {
    } else if r[i] == 1 && has_pair_at(r, i) {
        let e = pair_end(r, i);
        assert(is_pair(r, i, e));
        lemma_pairs_from_props(r, e + 1);
        let tail = pairs_from(r, e + 1);
        let ps = pairs_from(r, i);
        assert(ps == seq![(i, e)] + tail);
        assert(ps[0] == (i, e));
        assert(forall|k: int| 0 <= k < tail.len() ==> ps[k + 1] == #[trigger] tail[k]);
        assert forall|k: int| 0 <= k < ps.len() implies is_pair(
            r,
            (#[trigger] ps[k]).0,
            ps[k].1,
        ) && i <= ps[k].0 && i + 2 * k <= ps[k].0 by {
            if k > 0 {
                assert(tail[k - 1] == ps[k]);
                assert(is_pair(r, tail[k - 1].0, tail[k - 1].1));
                assert((e + 1) + 2 * (k - 1) <= tail[k - 1].0);
                assert(e >= i + 1);
            }
        }
        assert forall|k1: int, k2: int| 0 <= k1 < k2 < ps.len() implies (#[trigger] ps[k1]).1 < (
        #[trigger] ps[k2]).0 by {
            assert(ps[k2] == tail[k2 - 1]);
            if k1 > 0 {
                assert(ps[k1] == tail[k1 - 1]);
            } else {
                assert(ps[k1].1 == e);
                assert(e + 1 <= tail[k2 - 1].0);
            }
        }
    } else {
        lemma_pairs_from_props(r, i + 1);
        let tail = pairs_from(r, i + 1);
        let ps = pairs_from(r, i);
        assert(ps == tail);
        assert forall|k: int| 0 <= k < ps.len() implies is_pair(
            r,
            (#[trigger] ps[k]).0,
            ps[k].1,
        ) && i <= ps[k].0 && i + 2 * k <= ps[k].0 by {
            assert(ps[k] == tail[k]);
            assert(is_pair(r, tail[k].0, tail[k].1));
            assert((i + 1) + 2 * k <= tail[k].0);
        }
        assert forall|k1: int, k2: int| 0 <= k1 < k2 < ps.len() implies (#[trigger] ps[k1]).1 < (
        #[trigger] ps[k2]).0 by {
            assert(ps[k1] == tail[k1] && ps[k2] == tail[k2]);
        }
    }
}

/// Every retained pair matches an entry to its nearest later exit: no exit
/// lies strictly between the two. No entry lies between them either, which
/// is the last-write-wins resolution when several entries compete for the
/// same nearest exit — the latest of them keeps it.
pub proof fn theorem_pair_matches_nearest_exit(r: Seq<i32>, k: int)
    requires
        0 <= k < retained_pairs_spec(r).len(),
    ensures
        ({
            let p = retained_pairs_spec(r)[k];
            &&& 0 <= p.0 < p.1 < r.len()
            &&& r[p.0] == 1
            &&& r[p.1] == -1
            &&& forall|j: int| p.0 < j < p.1 ==> #[trigger] r[j] != -1
            &&& forall|j: int| p.0 < j < p.1 ==> #[trigger] r[j] != 1
        }),
{
    lemma_pairs_from_props(r, 0);
    assert(is_pair(r, retained_pairs_spec(r)[k].0, retained_pairs_spec(r)[k].1));
}

/// Retained pairs never overlap: the id ranges that `fill_ids` paints are
/// mutually exclusive.
pub proof fn theorem_pairs_disjoint(r: Seq<i32>, k1: int, k2: int)
    requires
        0 <= k1 < k2 < retained_pairs_spec(r).len(),
    ensures
        retained_pairs_spec(r)[k1].1 < retained_pairs_spec(r)[k2].0,
{
    lemma_pairs_from_props(r, 0);
}

/// A signal holding fewer than three distinct values never yields a
/// segment: wherever all entries are covered by just two values, the
/// whole id vector is zero.
pub proof fn theorem_few_values_all_zero(r: Seq<i32>, a: i32, b: i32, j: int)
    requires
        forall|i: int| 0 <= i < r.len() ==> (#[trigger] r[i] == a || r[i] == b),
        0 <= j < r.len(),
    ensures
        fill_ids_at(r, j) == 0,
{
    if valid_signal(r) {
        let i1 = choose|i: int| 0 <= i < r.len() && r[i] == 1i32;
        let i2 = choose|i: int| 0 <= i < r.len() && r[i] == -1i32;
        let i3 = choose|i: int| 0 <= i < r.len() && r[i] == 0i32;
        assert(r[i1] == a || r[i1] == b);
        assert(r[i2] == a || r[i2] == b);
        assert(r[i3] == a || r[i3] == b);
        assert(false);
    }
}

/// The segment id of position `j`: `k + 2` when the `k`-th retained pair
/// covers `j`, `0` otherwise (ids `0` and `1` are reserved for "no segment").
pub open spec fn id_at(ps: Seq<(int, int)>, j: int) -> int {
    if exists|k: int| 0 <= k < ps.len() && (#[trigger] ps[k]).0 <= j <= ps[k].1 {
        (choose|k: int| 0 <= k < ps.len() && (#[trigger] ps[k]).0 <= j <= ps[k].1) + 2
    } else {
        0
    }
}

/// The segment id vector of a signal: all zeros unless the signal is
/// well-formed, otherwise ids `2, 3, ...` over the retained pairs in
/// ascending entry order.
pub open spec fn fill_ids_at(r: Seq<i32>, j: int) -> int {
    if valid_signal(r) {
        id_at(retained_pairs_spec(r), j)
    } else {
        0
    }
}

/// Whether the signal passes the pairing validity gate.
pub(crate) fn signal_is_valid(r: &Vec<i32>) -> (b: bool)
    ensures
        b == valid_signal(r@),
{
    let mut has_one = false;
    let mut has_neg = false;
    let mut has_zero = false;
    let mut all_in = true;
    let mut k: usize = 0;
    while k < r.len()
        invariant
            k <= r@.len(),
            has_one == r@.take(k as int).contains(1i32),
            has_neg == r@.take(k as int).contains(-1i32),
            has_zero == r@.take(k as int).contains(0i32),
            all_in == (forall|j: int|
                0 <= j < k ==> (r@[j] == -1 || r@[j] == 0 || #[trigger] r@[j] == 1)),
        decreases r@.len() - k,
    {
        let x = r[k];
        proof {
            assert(r@.take(k + 1).drop_last() =~= r@.take(k as int));
            assert(r@.take(k + 1).last() == r@[k as int]);
            assert forall|y: i32| #[trigger] r@.take(k + 1).contains(y) <==> (r@.take(
                k as int,
            ).contains(y) || y == r@[k as int]) by {
                if r@.take(k as int).contains(y) {
                    let m = choose|m: int| 0 <= m < k && #[trigger] r@.take(k as int)[m] == y;
                    assert(r@.take(k + 1)[m] == y);
                }
                if y == r@[k as int] {
                    assert(r@.take(k + 1)[k as int] == y);
                }
                if r@.take(k + 1).contains(y) {
                    let m = choose|m: int| 0 <= m < k + 1 && #[trigger] r@.take(k + 1)[m] == y;
                    if m < k {
                        assert(r@.take(k as int)[m] == y);
                    }
                }
            }
        }
        if x == 1 {
            has_one = true;
        }
        if x == -1 {
            has_neg = true;
        }
        if x == 0 {
            has_zero = true;
        }
        if x != 1 && x != -1 && x != 0 {
            all_in = false;
        }
        k = k + 1;
    }
    proof {
        assert(r@.take(r@.len() as int) =~= r@);
    }
    has_one && has_neg && has_zero && all_in
}

/// View of an executable pair list as its mathematical counterpart.
pub open spec fn pairs_view(p: Seq<(usize, usize)>) -> Seq<(int, int)> {
    p.map_values(|q: (usize, usize)| (q.0 as int, q.1 as int))
}

/// Scans the signal left to right and returns the retained pairs in
/// ascending entry order.
pub(crate) fn retained_pairs(r: &Vec<i32>) -> (p: Vec<(usize, usize)>)
    ensures
        pairs_view(p@) == retained_pairs_spec(r@),
{
    let n = r.len();
    let mut p: Vec<(usize, usize)> = Vec::new();
    let mut i: usize = 0;
    while i < n
        invariant
            i <= n,
            n == r@.len(),
            pairs_view(p@) + pairs_from(r@, i as int) == retained_pairs_spec(r@),
        decreases n - i,
    {
        if r[i] == 1 {
            // Find the next trigger after `i`, if any.
            let mut j: usize = i + 1;
            while j < n && r[j] != 1 && r[j] != -1
                invariant
                    i < j <= n,
                    n == r@.len(),
                    forall|m: int| i < m < j ==> #[trigger] r@[m] != 1 && r@[m] != -1,
                decreases n - j,
            {
                j = j + 1;
            }
            if j < n && r[j] == -1 {
                proof {
                    assert(is_pair(r@, i as int, j as int));
                    lemma_pair_end_unique(r@, i as int, j as int);
                    let ghost old_p = p@;
                    assert(pairs_view(old_p.push((i, j))) =~= pairs_view(old_p) + seq![
                        (i as int, j as int),
                    ]);
                    assert(pairs_from(r@, i as int) == seq![(i as int, j as int)] + pairs_from(
                        r@,
                        j + 1,
                    ));
                    assert((pairs_view(old_p) + seq![(i as int, j as int)]) + pairs_from(r@, j + 1)
                        =~= pairs_view(old_p) + (seq![(i as int, j as int)] + pairs_from(
                        r@,
                        j + 1,
                    )));
                }
                p.push((i, j));
                i = j + 1;
            } else {
                proof {
                    assert(!has_pair_at(r@, i as int)) by {
                        if has_pair_at(r@, i as int) {
                            let e = choose|e: int| is_pair(r@, i as int, e);
                            if j < n {
                                if e < j {
                                    assert(r@[e] == -1);
                                } else if e > j {
                                    assert(r@[j as int] != 1 && r@[j as int] != -1);
                                }
                            } else {
                                assert(r@[e] == -1);
                            }
                        }
                    }
                }
                i = i + 1;
            }
        } else {
            i = i + 1;
        }
    }
    p
}

/// Builds a vector of `n` zeros.
fn zeros(n: usize) -> (v: Vec<usize>)
    ensures
        v@.len() == n,
        forall|j: int| 0 <= j < n ==> #[trigger] v@[j] == 0,
{
    let mut v: Vec<usize> = Vec::new();
    let mut k: usize = 0;
    while k < n
        invariant
            k <= n,
            v@.len() == k,
            forall|j: int| 0 <= j < k ==> #[trigger] v@[j] == 0,
        decreases n - k,
    {
        v.push(0);
        k = k + 1;
    }
    v
}

/// Converts a signed condition vector into a segment id vector: `0` marks
/// "no segment", and each retained (entry, exit) pair gets a unique id
/// `2, 3, ...` over its whole closed index range. A signal that is not
/// well-formed (fewer than the three values `-1`, `0`, `1`, or any stray
/// value) yields all zeros.
pub fn fill_ids(r: &Vec<i32>) -> (v: Vec<usize>)
    ensures
        v@.len() == r@.len(),
        forall|j: int| 0 <= j < r@.len() ==> #[trigger] v@[j] as int == fill_ids_at(r@, j),
{
    if !signal_is_valid(r) {
        return zeros(r.len());
    }
    let pairs = retained_pairs(r);
    let ghost ps = retained_pairs_spec(r@);
    proof {
        lemma_pairs_from_props(r@, 0);
    }
    let mut v = zeros(r.len());
    let mut k: usize = 0;
    while k < pairs.len()
        invariant
            k <= pairs@.len(),
            pairs_view(pairs@) == ps,
            ps == retained_pairs_spec(r@),
            valid_signal(r@),
            v@.len() == r@.len(),
            r@.len() <= usize::MAX,
            forall|k2: int|
                0 <= k2 < ps.len() ==> is_pair(r@, (#[trigger] ps[k2]).0, ps[k2].1),
            forall|k1: int, k2: int|
                0 <= k1 < k2 < ps.len() ==> (#[trigger] ps[k1]).1 < (#[trigger] ps[k2]).0,
            forall|k2: int| 0 <= k2 < ps.len() ==> 2 * k2 <= (#[trigger] ps[k2]).0,
            forall|j: int|
                0 <= j < r@.len() ==> #[trigger] v@[j] as int == (if exists|k2: int|
                    0 <= k2 < k && (#[trigger] ps[k2]).0 <= j <= ps[k2].1 {
                    (choose|k2: int| 0 <= k2 < k && (#[trigger] ps[k2]).0 <= j <= ps[k2].1) + 2
                } else {
                    0
                }),
        decreases pairs@.len() - k,
    {
        let (st, e) = pairs[k];
        proof {
            assert(ps[k as int] == (st as int, e as int));
            assert(is_pair(r@, st as int, e as int));
        }
        let mut j: usize = st;
        while j <= e
            invariant
                st <= j <= e + 1,
                e < r@.len(),
                r@.len() <= usize::MAX,
                k < ps.len(),
                pairs_view(pairs@) == ps,
                ps[k as int] == (st as int, e as int),
                v@.len() == r@.len(),
                2 * k <= st,
                forall|k1: int, k2: int|
                    0 <= k1 < k2 < ps.len() ==> (#[trigger] ps[k1]).1 < (#[trigger] ps[k2]).0,
                forall|jj: int|
                    0 <= jj < r@.len() && !(st <= jj < j) ==> #[trigger] v@[jj] as int == (
                    if exists|k2: int| 0 <= k2 < k && (#[trigger] ps[k2]).0 <= jj <= ps[k2].1 {
                        (choose|k2: int|
                            0 <= k2 < k && (#[trigger] ps[k2]).0 <= jj <= ps[k2].1) + 2
                    } else {
                        0
                    }),
                forall|jj: int| st <= jj < j ==> #[trigger] v@[jj] == k + 2,
            decreases e + 1 - j,
        {
            v[j] = k + 2;
            j = j + 1;
        }
        proof {
            assert forall|jj: int| 0 <= jj < r@.len() implies #[trigger] v@[jj] as int == (
                if exists|k2: int| 0 <= k2 < k + 1 && (#[trigger] ps[k2]).0 <= jj <= ps[k2].1 {
                    (choose|k2: int| 0 <= k2 < k + 1 && (#[trigger] ps[k2]).0 <= jj <= ps[k2].1)
                        + 2
                } else {
                    0
                }) by {
                if st <= jj <= e {
                    assert(0 <= k < k + 1 && ps[k as int].0 <= jj <= ps[k as int].1);
                    let w = choose|k2: int|
                        0 <= k2 < k + 1 && (#[trigger] ps[k2]).0 <= jj <= ps[k2].1;
                    if w != k {
                        assert(ps[w].0 <= jj <= ps[w].1);
                        assert(ps[k as int].0 <= jj <= ps[k as int].1);
                        if w < k {
                            assert(ps[w].1 < ps[k as int].0);
                        } else {
                            assert(ps[k as int].1 < ps[w].0);
                        }
                    }
                } else {
                    if exists|k2: int| 0 <= k2 < k && (#[trigger] ps[k2]).0 <= jj <= ps[k2].1 {
                        let w = choose|k2: int|
                            0 <= k2 < k && (#[trigger] ps[k2]).0 <= jj <= ps[k2].1;
                        assert(0 <= w < k + 1 && ps[w].0 <= jj <= ps[w].1);
                        let w2 = choose|k2: int|
                            0 <= k2 < k + 1 && (#[trigger] ps[k2]).0 <= jj <= ps[k2].1;
                        if w2 == k {
                            assert(ps[k as int].0 <= jj <= ps[k as int].1);
                        } else {
                            if w != w2 {
                                if w < w2 {
                                    assert(ps[w].1 < ps[w2].0);
                                } else {
                                    assert(ps[w2].1 < ps[w].0);
                                }
                            }
                        }
                    } else {
                        if exists|k2: int|
                            0 <= k2 < k + 1 && (#[trigger] ps[k2]).0 <= jj <= ps[k2].1 {
                            let w2 = choose|k2: int|
                                0 <= k2 < k + 1 && (#[trigger] ps[k2]).0 <= jj <= ps[k2].1;
                            assert(w2 == k);
                        }
                    }
                }
            }
        }
        k = k + 1;
    }
    proof {
        assert forall|j: int| 0 <= j < r@.len() implies #[trigger] v@[j] as int == fill_ids_at(
            r@,
            j,
        ) by {
            assert(fill_ids_at(r@, j) == id_at(ps, j));
        }
    }
    v
}

/// A time of day expressed as seconds past midnight.
pub open spec fn hms_secs(h: u32, m: u32, s: u32) -> int {
    h * 3600 + m * 60 + s
}

/// Adds `secs` seconds to a time of day, wrapping around midnight the way
/// naive clock arithmetic does.
pub fn add_time(time: u32, secs: u64) -> (r: u32)
    requires
        time < 86400,
    ensures
        r as int == (time + secs) % 86400,
        r < 86400,
{
    let rem: u64 = secs % 86400;
    let total: u64 = time as u64 + rem;
    let res: u64 = total % 86400;
    proof {
        lemma_add_mod_noop(time as int, secs as int, 86400);
        assert(time as int % 86400 == time as int);
    }
    res as u32
}

/// Enumerates candidate start times: the strictly increasing walk
/// `start, start + step, start + 2 * step, ...` in minutes, of every value
/// not past `end_time`, each exactly once.
pub fn time_range(start_time: (u32, u32, u32), end_time: (u32, u32, u32), step_mins: u64) -> (v:
    Vec<u32>)
    requires
        start_time.0 < 24 && start_time.1 < 60 && start_time.2 < 60,
        end_time.0 < 24 && end_time.1 < 60 && end_time.2 < 60,
        1 <= step_mins <= 0x100000000,
        hms_secs(start_time.0, start_time.1, start_time.2) <= hms_secs(
            end_time.0,
            end_time.1,
            end_time.2,
        ),
    ensures
        v@.len() >= 1,
        forall|i: int|
            0 <= i < v@.len() ==> #[trigger] v@[i] as int == hms_secs(
                start_time.0,
                start_time.1,
                start_time.2,
            ) + i * (step_mins * 60),
        forall|i: int| 0 <= i < v@.len() ==> #[trigger] v@[i] as int <= hms_secs(
            end_time.0,
            end_time.1,
            end_time.2,
        ),
        hms_secs(start_time.0, start_time.1, start_time.2) + v@.len() * (step_mins * 60)
            > hms_secs(end_time.0, end_time.1, end_time.2),
{
    let s0: u32 = start_time.0 * 3600 + start_time.1 * 60 + start_time.2;
    let e0: u32 = end_time.0 * 3600 + end_time.1 * 60 + end_time.2;
    let step60: u64 = step_mins * 60;
    let mut v: Vec<u32> = Vec::new();
    let mut t: u64 = s0 as u64;
    proof {
        assert(v@.len() * step60 == 0) by (nonlinear_arith)
            requires
                v@.len() == 0,
        ;
        assert(step_mins * 60 <= 0x100000000 * 60) by (nonlinear_arith)
            requires
                step_mins <= 0x100000000,
        ;
    }
    while t <= e0 as u64
        invariant
            s0 as int == hms_secs(start_time.0, start_time.1, start_time.2),
            e0 as int == hms_secs(end_time.0, end_time.1, end_time.2),
            step60 == step_mins * 60,
            60 <= step60 <= 0x3c00000000,
            s0 <= e0 < 86400,
            t as int == s0 + v@.len() * step60,
            t <= e0 + step60,
            forall|i: int| 0 <= i < v@.len() ==> #[trigger] v@[i] as int == s0 + i * step60,
            forall|i: int| 0 <= i < v@.len() ==> #[trigger] v@[i] <= e0,
        decreases e0 + step60 - t,
    {
        v.push(t as u32);
        proof {
            let len = v@.len() as int;
            assert((len - 1) * step60 + step60 == len * step60) by (nonlinear_arith);
        }
        t = t + step60;
    }
    v
}

/// Value of a run of decimal digits, most significant first.
pub open spec fn digits_val(s: Seq<char>) -> int
    decreases s.len(),
{
    if s.len() == 0 {
        0
    } else {
        digits_val(s.drop_last()) * 10 + (s.last() as int - 48)
    }
}

/// Whether `c` is a decimal digit.
pub open spec fn is_digit_char(c: char) -> bool {
    48 <= c as int <= 57
}

/// Index of the first `'-'` at or after `i`, or the length when none exists.
pub open spec fn dash_from(s: Seq<char>, i: int) -> int
    decreases s.len() - i,
    when 0 <= i
{
    if i >= s.len() {
        s.len() as int
    } else if s[i] == '-' {
        i
    } else {
        dash_from(s, i + 1)
    }
}

/// A well-formed `year-month` string: one to six year digits, a dash, then
/// one to four month digits up to the next dash or the end.
pub open spec fn year_month_wf(s: Seq<char>) -> bool {
    let p = dash_from(s, 0);
    let q = dash_from(s, p + 1);
    &&& 1 <= p <= 6
    &&& p < s.len()
    &&& p + 1 < q <= p + 5
    &&& forall|j: int| 0 <= j < p ==> is_digit_char(#[trigger] s[j])
    &&& forall|j: int| p + 1 <= j < q ==> is_digit_char(#[trigger] s[j])
}

/// Powers of ten, for digit-count bounds.
pub open spec fn pow10(n: int) -> int
    decreases n,
    when n >= 0
{
    if n <= 0 {
        1
    } else {
        10 * pow10(n - 1)
    }
}

proof fn lemma_digits_val_bound(s: Seq<char>)
    requires
        forall|j: int| 0 <= j < s.len() ==> is_digit_char(#[trigger] s[j]),
    ensures
        0 <= digits_val(s) < pow10(s.len() as int),
    decreases s.len(),
{
    if s.len() == 0 {
    } else {
        lemma_digits_val_bound(s.drop_last());
    }
}

proof fn lemma_pow10_vals()
    ensures
        pow10(0) == 1,
        pow10(1) == 10,
        pow10(2) == 100,
        pow10(3) == 1000,
        pow10(4) == 10000,
        pow10(5) == 100000,
        pow10(6) == 1000000,
{
    assert(pow10(0) == 1);
    assert(pow10(1) == 10);
    assert(pow10(2) == 100);
    assert(pow10(3) == 1000);
    assert(pow10(4) == 10000);
    assert(pow10(5) == 100000);
    assert(pow10(6) == 1000000);
}

/// Parses the leading `year-month` of a date string into `year * 100 + month`.
pub fn datestr_to_int(year_month: &str) -> (r: i32)
    requires
        year_month_wf(year_month@),
    ensures
        ({
            let s = year_month@;
            let p = dash_from(s, 0);
            let q = dash_from(s, p + 1);
            r as int == digits_val(s.take(p)) * 100 + digits_val(s.subrange(p + 1, q))
        }),
{
    let ghost s = year_month@;
    let ghost gp = dash_from(s, 0);
    let ghost gq = dash_from(s, gp + 1);
    let n = year_month.unicode_len();
    // Locate the dash that separates year from month.
    let mut p: usize = 0;
    while p < n && year_month.get_char(p) != '-'
        invariant
            s == year_month@,
            n == s.len(),
            0 <= p <= n,
            dash_from(s, 0) == dash_from(s, p as int),
            year_month_wf(s),
        decreases n - p,
    {
        p = p + 1;
    }
    proof {
        assert(p < n);
        assert(gp == p as int);
    }
    // Parse the year digits.
    let mut y: i32 = 0;
    let mut j: usize = 0;
    while j < p
        invariant
            s == year_month@,
            n == s.len(),
            year_month_wf(s),
            gp == dash_from(s, 0),
            gq == dash_from(s, gp + 1),
            gp == p as int,
            p < n,
            0 <= j <= p,
            y as int == digits_val(s.take(j as int)),
            0 <= y as int && (y as int) < pow10(j as int),
        decreases p - j,
    {
        let c = year_month.get_char(j);
        proof {
            assert(is_digit_char(s[j as int]));
            assert(s.take(j + 1).drop_last() =~= s.take(j as int));
            assert(s.take(j + 1).last() == s[j as int]);
            lemma_digits_val_bound(s.take(j as int));
            lemma_pow10_vals();
        }
        y = y * 10 + ((c as u32) as i32 - 48);
        j = j + 1;
    }
    // Locate the end of the month digits.
    let mut q: usize = p + 1;
    while q < n && year_month.get_char(q) != '-'
        invariant
            s == year_month@,
            n == s.len(),
            year_month_wf(s),
            gp == dash_from(s, 0),
            gq == dash_from(s, gp + 1),
            gp == p as int,
            p + 1 <= q <= n,
            dash_from(s, p + 1) == dash_from(s, q as int),
        decreases n - q,
    {
        q = q + 1;
    }
    proof {
        assert(gq == q as int);
    }
    // Parse the month digits.
    let mut m: i32 = 0;
    let mut j2: usize = p + 1;
    while j2 < q
        invariant
            s == year_month@,
            n == s.len(),
            year_month_wf(s),
            gp == dash_from(s, 0),
            gq == dash_from(s, gp + 1),
            gp == p as int,
            gq == q as int,
            q <= n,
            p + 1 <= j2 <= q,
            m as int == digits_val(s.subrange(p + 1, j2 as int)),
            0 <= m as int && (m as int) < pow10(j2 - (p + 1)),
        decreases q - j2,
    {
        let c = year_month.get_char(j2);
        proof {
            assert(is_digit_char(s[j2 as int]));
            assert(s.subrange(p + 1, j2 + 1).drop_last() =~= s.subrange(p + 1, j2 as int));
            assert(s.subrange(p + 1, j2 + 1).last() == s[j2 as int]);
            lemma_digits_val_bound(s.subrange(p + 1, j2 as int));
            lemma_pow10_vals();
        }
        m = m * 10 + ((c as u32) as i32 - 48);
        j2 = j2 + 1;
    }
    proof {
        lemma_pow10_vals();
        assert(s.take(p as int) =~= s.take(gp));
        assert(s.subrange(p + 1, q as int) =~= s.subrange(gp + 1, gq));
    }
    y * 100 + m
}

/// What `advance_bdays` on the US settlement calendar computes: the date
/// reached from `day` after `n` business days. A pure function of its
/// arguments; its value is not restated here.
pub uninterp spec fn advance_bdays_spec(day: int, n: int) -> int;

/// Relies on `bdays::HolidayCalendar::advance_bdays` over the fixed US
/// settlement calendar, with dates carried as proleptic Gregorian day
/// numbers; the bounds keep both the date conversion and the walk inside
/// chrono's representable range.
#[verifier::external_body]
pub(crate) fn bday_advance(day: i64, n: i32) -> (r: i64)
    requires
        0 < day <= 3000000,
        -10000 <= n <= 10000,
    ensures
        r as int == advance_bdays_spec(day as int, n as int),
{
    let cal = bdays::calendars::us::USSettlement;
    let date = chrono::NaiveDate::from_num_days_from_ce_opt(day as i32).unwrap();
    let adv = bdays::HolidayCalendar::advance_bdays(&cal, date, n);
    chrono::Datelike::num_days_from_ce(&adv) as i64
}

/// Whether `day` lies on a business-day offset between `-back` and `fwd`
/// of some event day.
pub open spec fn in_event_window(day: int, event_days: Seq<i64>, back: int, fwd: int) -> bool {
    exists|t: int, off: int|
        0 <= t < event_days.len() && -back <= off <= fwd && day == #[trigger] advance_bdays_spec(
            event_days[t] as int,
            off,
        )
}

/// Keeps exactly the samples whose day falls within a business-day window
/// around some event day, and returns their indices in ascending order.
pub fn filter_timeseries_by_events(
    samples: &Vec<Stamp>,
    event_days: &Vec<i64>,
    back_threshold_bdays: u32,
    fwd_threshold_bdays: u32,
) -> (kept: Vec<usize>)
    requires
        forall|t: int| 0 <= t < event_days@.len() ==> 0 < #[trigger] event_days@[t] <= 3000000,
        back_threshold_bdays <= 10000,
        fwd_threshold_bdays <= 10000,
    ensures
        forall|k: int|
            0 <= k < kept@.len() ==> kept@[k] < samples@.len() && in_event_window(
                samples@[#[trigger] kept@[k] as int].day as int,
                event_days@,
                back_threshold_bdays as int,
                fwd_threshold_bdays as int,
            ),
        forall|i: int, j: int| 0 <= i < j < kept@.len() ==> kept@[i] < kept@[j],
        forall|i: int|
            0 <= i < samples@.len() && in_event_window(
                samples@[i].day as int,
                event_days@,
                back_threshold_bdays as int,
                fwd_threshold_bdays as int,
            ) ==> exists|k: int| 0 <= k < kept@.len() && #[trigger] kept@[k] as int == i,
{
    let ghost back = back_threshold_bdays as int;
    let ghost fwd = fwd_threshold_bdays as int;
    let mut filter_days: Vec<i64> = Vec::new();
    let mut off: i32 = 0 - (back_threshold_bdays as i32);
    while off <= fwd_threshold_bdays as i32
        invariant
            forall|t: int| 0 <= t < event_days@.len() ==> 0 < #[trigger] event_days@[t] <= 3000000,
            back_threshold_bdays <= 10000,
            fwd_threshold_bdays <= 10000,
            -back <= off <= fwd + 1,
            back == back_threshold_bdays as int,
            fwd == fwd_threshold_bdays as int,
            forall|x: i64| #[trigger]
                filter_days@.contains(x) <==> exists|t: int, o: int|
                    0 <= t < event_days@.len() && -back <= o < off && x as int
                        == #[trigger] advance_bdays_spec(event_days@[t] as int, o),
        decreases fwd + 1 - off,
    {
        let mut t: usize = 0;
        while t < event_days.len()
            invariant
                forall|t2: int|
                    0 <= t2 < event_days@.len() ==> 0 < #[trigger] event_days@[t2] <= 3000000,
                -back <= off <= fwd,
                back == back_threshold_bdays as int,
                fwd == fwd_threshold_bdays as int,
                back <= 10000,
                fwd <= 10000,
                t <= event_days@.len(),
                forall|x: i64| #[trigger]
                    filter_days@.contains(x) <==> (exists|t2: int, o: int|
                        0 <= t2 < event_days@.len() && -back <= o < off && x as int
                            == #[trigger] advance_bdays_spec(event_days@[t2] as int, o)) || (
                    exists|t2: int|
                        0 <= t2 < t && x as int == #[trigger] advance_bdays_spec(
                            event_days@[t2] as int,
                            off as int,
                        )),
            decreases event_days@.len() - t,
    {
            let d = bday_advance(event_days[t], off);
            let ghost old_fd = filter_days@;
            filter_days.push(d);
            proof {
                assert forall|x: i64| #[trigger] filter_days@.contains(x) <==> (old_fd.contains(x)
                    || x == d) by {
                    if old_fd.contains(x) {
                        let i = choose|i: int| 0 <= i < old_fd.len() && old_fd[i] == x;
                        assert(filter_days@[i] == x);
                    }
                    if x == d {
                        assert(filter_days@[filter_days@.len() - 1] == x);
                    }
                    if filter_days@.contains(x) {
                        let i = choose|i: int|
                            0 <= i < filter_days@.len() && filter_days@[i] == x;
                        if i < old_fd.len() {
                            assert(old_fd[i] == x);
                        }
                    }
                }
            }
            t = t + 1;
        }
        off = off + 1;
    }
    let mut kept: Vec<usize> = Vec::new();
    let mut i: usize = 0;
    while i < samples.len()
        invariant
            i <= samples@.len(),
            back == back_threshold_bdays as int,
            fwd == fwd_threshold_bdays as int,
            forall|x: i64| #[trigger]
                filter_days@.contains(x) <==> exists|t: int, o: int|
                    0 <= t < event_days@.len() && -back <= o <= fwd && x as int
                        == #[trigger] advance_bdays_spec(event_days@[t] as int, o),
            forall|k: int|
                0 <= k < kept@.len() ==> kept@[k] < i && in_event_window(
                    samples@[#[trigger] kept@[k] as int].day as int,
                    event_days@,
                    back,
                    fwd,
                ),
            forall|i2: int, j2: int| 0 <= i2 < j2 < kept@.len() ==> kept@[i2] < kept@[j2],
            forall|i2: int|
                0 <= i2 < i && in_event_window(samples@[i2].day as int, event_days@, back, fwd)
                    ==> exists|k: int| 0 <= k < kept@.len() && #[trigger] kept@[k] as int == i2,
        decreases samples@.len() - i,
    {
        if contains_i64(&filter_days, samples[i].day) {
            let ghost old_kept = kept@;
            kept.push(i);
            proof {
                assert forall|i2: int|
                    0 <= i2 < i + 1 && in_event_window(
                        samples@[i2].day as int,
                        event_days@,
                        back,
                        fwd,
                    ) implies exists|k: int|
                    0 <= k < kept@.len() && #[trigger] kept@[k] as int == i2 by {
                    if i2 < i {
                        let k = choose|k: int|
                            0 <= k < old_kept.len() && #[trigger] old_kept[k] as int == i2;
                        assert(kept@[k] as int == i2);
                    } else {
                        assert(kept@[kept@.len() - 1] as int == i2);
                    }
                }
            }
        } else {
            proof {
                if in_event_window(samples@[i as int].day as int, event_days@, back, fwd) {
                    assert(filter_days@.contains(samples@[i as int].day));
                }
            }
        }
        i = i + 1;
    }
    kept
}

} // verus!
