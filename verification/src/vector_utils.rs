//! Elementwise vector utilities over integer samples.
//!
//! Prices are fixed-point ticks (`i64`), timestamps are a day number plus
//! seconds past midnight. Statistics that are exact over the integers
//! (sums, differences, running totals, extrema, rational mean and variance)
//! are computed here with exact contracts.

use vstd::prelude::*;

verus! {

/// A sample timestamp: calendar day (as a day number) and seconds past
/// midnight.
#[derive(Clone, Copy, PartialEq, Eq, Structural, Debug)]
pub struct Stamp {
    pub day: i64,
    pub secs: u32,
}

impl Stamp {
    /// Seconds past midnight always stay below one day.
    pub open spec fn wf(self) -> bool {
        self.secs < 86400
    }
}

/// An exact rational number `num / den`.
#[derive(Clone, Copy, PartialEq, Eq, Structural, Debug)]
pub struct Frac {
    pub num: i128,
    pub den: u64,
}

/// Sum of a sequence of ticks, as a mathematical integer.
pub open spec fn sum_i64(s: Seq<i64>) -> int
    decreases s.len(),
{
    if s.len() == 0 {
        0
    } else {
        sum_i64(s.drop_last()) + s.last()
    }
}

/// Sum of squares of a sequence of ticks.
pub open spec fn sum_sq_i64(s: Seq<i64>) -> int
    decreases s.len(),
{
    if s.len() == 0 {
        0
    } else {
        sum_sq_i64(s.drop_last()) + s.last() * s.last()
    }
}

proof fn lemma_push_contains(s: Seq<i32>, x: i32, y: i32)
    ensures
        s.push(x).contains(y) <==> (s.contains(y) || y == x),
{
    if s.contains(y) {
        let i = choose|i: int| 0 <= i < s.len() && s[i] == y;
        assert(s.push(x)[i] == y);
    }
    if y == x {
        assert(s.push(x)[s.len() as int] == y);
    }
    if s.push(x).contains(y) {
        let i = choose|i: int| 0 <= i < s.push(x).len() && s.push(x)[i] == y;
        if i < s.len() {
            assert(s[i] == y);
        }
    }
}

pub proof fn lemma_sum_take_succ(s: Seq<i64>, j: int)
    requires
        0 <= j < s.len(),
    ensures
        sum_i64(s.take(j + 1)) == sum_i64(s.take(j)) + s[j],
        sum_sq_i64(s.take(j + 1)) == sum_sq_i64(s.take(j)) + s[j] * s[j],
{
    assert(s.take(j + 1).drop_last() =~= s.take(j));
    assert(s.take(j + 1).last() == s[j]);
}

pub proof fn lemma_sum_full(s: Seq<i64>)
    ensures
        sum_i64(s.take(s.len() as int)) == sum_i64(s),
        sum_sq_i64(s.take(s.len() as int)) == sum_sq_i64(s),
{
    assert(s.take(s.len() as int) =~= s);
}

/// The sum of `n` ticks each bounded by `b` in magnitude is bounded by `n * b`.
pub proof fn lemma_sum_abs_bound(s: Seq<i64>, b: int)
    requires
        forall|i: int| 0 <= i < s.len() ==> -b <= #[trigger] s[i] <= b,
    ensures
        -(s.len() * b) <= sum_i64(s) <= s.len() * b,
        0 <= sum_sq_i64(s) <= s.len() * (b * b),
    decreases s.len(),
{
    if s.len() == 0 {
    } else {
        let t = s.drop_last();
        assert(forall|i: int| 0 <= i < t.len() ==> -b <= #[trigger] t[i] <= b);
        lemma_sum_abs_bound(t, b);
        assert(-b <= s.last() <= b);
        assert(s.last() * s.last() <= b * b && 0 <= s.last() * s.last()) by (nonlinear_arith)
            requires
                -b <= s.last() <= b,
        ;
        assert(t.len() * b + b == s.len() * b) by (nonlinear_arith)
            requires
                t.len() + 1 == s.len(),
        ;
        assert(t.len() * (b * b) + b * b == s.len() * (b * b)) by (nonlinear_arith)
            requires
                t.len() + 1 == s.len(),
        ;
    }
}

/// Sum of squared deviations, cleared of denominators: each sample `x`
/// contributes `(n * x - total)^2`.
pub open spec fn sum_sq_dev(s: Seq<i64>, n: int, total: int) -> int
    decreases s.len(),
{
    if s.len() == 0 {
        0
    } else {
        sum_sq_dev(s.drop_last(), n, total) + (n * s.last() - total) * (n * s.last() - total)
    }
}

proof fn lemma_sum_sq_dev_expand(s: Seq<i64>, n: int, total: int)
    ensures
        sum_sq_dev(s, n, total) == n * n * sum_sq_i64(s) - 2 * n * total * sum_i64(s) + s.len() * (
        total * total),
    decreases s.len(),
{
    if s.len() == 0 {
    } else {
        let pre = s.drop_last();
        let x = s.last() as int;
        lemma_sum_sq_dev_expand(pre, n, total);
        assert((n * x - total) * (n * x - total) == n * n * (x * x) - 2 * n * total * x + total
            * total) by (nonlinear_arith);
        assert(n * n * sum_sq_i64(pre) + n * n * (x * x) == n * n * (sum_sq_i64(pre) + x * x))
            by (nonlinear_arith);
        assert(2 * n * total * sum_i64(pre) + 2 * n * total * x == 2 * n * total * (sum_i64(pre)
            + x)) by (nonlinear_arith);
        assert(pre.len() * (total * total) + total * total == s.len() * (total * total))
            by (nonlinear_arith)
            requires
                pre.len() + 1 == s.len(),
        ;
    }
}

proof fn lemma_sum_sq_dev_nonneg(s: Seq<i64>, n: int, total: int)
    ensures
        sum_sq_dev(s, n, total) >= 0,
    decreases s.len(),
{
    if s.len() == 0 {
    } else {
        lemma_sum_sq_dev_nonneg(s.drop_last(), n, total);
        let d = n * s.last() - total;
        assert(d * d >= 0) by (nonlinear_arith);
    }
}

proof fn lemma_sum_sq_dev_zero_terms(s: Seq<i64>, n: int, total: int)
    requires
        sum_sq_dev(s, n, total) == 0,
    ensures
        forall|i: int| 0 <= i < s.len() ==> n * #[trigger] s[i] == total,
    decreases s.len(),
{
    if s.len() == 0 {
    } else {
        let pre = s.drop_last();
        let d = n * s.last() - total;
        lemma_sum_sq_dev_nonneg(pre, n, total);
        assert(d * d >= 0) by (nonlinear_arith);
        assert(d * d == 0);
        assert(d == 0) by (nonlinear_arith)
            requires
                d * d == 0,
        ;
        lemma_sum_sq_dev_zero_terms(pre, n, total);
        assert forall|i: int| 0 <= i < s.len() implies n * #[trigger] s[i] == total by {
            if i < s.len() - 1 {
                assert(pre[i] == s[i]);
            }
        }
    }
}

proof fn lemma_sum_constant(s: Seq<i64>, c: i64)
    requires
        forall|i: int| 0 <= i < s.len() ==> #[trigger] s[i] == c,
    ensures
        sum_i64(s) == s.len() * c,
    decreases s.len(),
{
    if s.len() == 0 {
    } else {
        let pre = s.drop_last();
        assert(forall|i: int| 0 <= i < pre.len() ==> #[trigger] pre[i] == c);
        lemma_sum_constant(pre, c);
        assert(pre.len() * c + c == s.len() * c) by (nonlinear_arith)
            requires
                pre.len() + 1 == s.len(),
        ;
    }
}

proof fn lemma_sum_sq_dev_constant(s: Seq<i64>, n: int, c: i64)
    requires
        forall|i: int| 0 <= i < s.len() ==> #[trigger] s[i] == c,
    ensures
        sum_sq_dev(s, n, n * c) == 0,
    decreases s.len(),
{
    if s.len() == 0 {
    } else {
        let pre = s.drop_last();
        assert(forall|i: int| 0 <= i < pre.len() ==> #[trigger] pre[i] == c);
        lemma_sum_sq_dev_constant(pre, n, c);
        assert(n * s.last() - n * c == 0);
    }
}

/// What the sample-variance numerator `n * sum(v^2) - sum(v)^2` measures:
/// scaled by `n`, it is the sum of squared deviations of each sample from
/// the mean, cleared of denominators. It is never negative, and it is zero
/// exactly when every sample equals every other — so the variance reported
/// by `vec_variance` vanishes precisely on constant data.
pub proof fn lemma_variance_numerator_zero_iff_constant(s: Seq<i64>)
    requires
        s.len() >= 1,
    ensures
        s.len() * sum_sq_i64(s) - sum_i64(s) * sum_i64(s) >= 0,
        (s.len() * sum_sq_i64(s) - sum_i64(s) * sum_i64(s) == 0) <==> (forall|i: int, j: int|
            0 <= i < s.len() && 0 <= j < s.len() ==> s[i] == s[j]),
{
    let ln = s.len() as int;
    let total = sum_i64(s);
    let sq = sum_sq_i64(s);
    let num = ln * sq - total * total;
    lemma_sum_sq_dev_expand(s, ln, total);
    assert(ln * ln * sq - 2 * ln * total * total + ln * (total * total) == ln * num)
        by (nonlinear_arith)
        requires
            num == ln * sq - total * total,
    ;
    lemma_sum_sq_dev_nonneg(s, ln, total);
    assert(num >= 0) by (nonlinear_arith)
        requires
            ln >= 1,
            ln * num >= 0,
    ;
    if num == 0 {
        lemma_sum_sq_dev_zero_terms(s, ln, total);
        assert forall|i: int, j: int| 0 <= i < s.len() && 0 <= j < s.len() implies s[i] == s[j] by {
            assert(ln * s[i] == total && ln * s[j] == total);
            assert(s[i] == s[j]) by (nonlinear_arith)
                requires
                    ln >= 1,
                    ln * s[i] == ln * s[j],
            ;
        }
    }
    if forall|i: int, j: int| 0 <= i < s.len() && 0 <= j < s.len() ==> s[i] == s[j] {
        let c = s[0];
        assert(forall|i: int| 0 <= i < s.len() ==> #[trigger] s[i] == c);
        lemma_sum_constant(s, c);
        lemma_sum_sq_dev_constant(s, ln, c);
        assert(sum_sq_dev(s, ln, total) == 0);
        assert(num == 0) by (nonlinear_arith)
            requires
                ln >= 1,
                ln * num == 0,
        ;
    }
}

/// Whether `v` holds the value `x`.
pub(crate) fn contains_i64(v: &Vec<i64>, x: i64) -> (b: bool)
    ensures
        b == v@.contains(x),
{
    let mut k: usize = 0;
    while k < v.len()
        invariant
            k <= v@.len(),
            forall|i: int| 0 <= i < k ==> v@[i] != x,
        decreases v@.len() - k,
    {
        if v[k] == x {
            return true;
        }
        k = k + 1;
    }
    false
}

/// Smallest element of a nonempty sequence.
pub open spec fn seq_min_i64(s: Seq<i64>) -> i64
    decreases s.len(),
    when s.len() >= 1
{
    if s.len() == 1 {
        s[0]
    } else if s.last() < seq_min_i64(s.drop_last()) {
        s.last()
    } else {
        seq_min_i64(s.drop_last())
    }
}

/// Largest element of a nonempty sequence.
pub open spec fn seq_max_i64(s: Seq<i64>) -> i64
    decreases s.len(),
    when s.len() >= 1
{
    if s.len() == 1 {
        s[0]
    } else if s.last() > seq_max_i64(s.drop_last()) {
        s.last()
    } else {
        seq_max_i64(s.drop_last())
    }
}

/// Smallest element of a nonempty vector.
pub(crate) fn min_of(v: &Vec<i64>) -> (r: i64)
    requires
        v@.len() >= 1,
    ensures
        r == seq_min_i64(v@),
{
    let mut r: i64 = v[0];
    let mut k: usize = 1;
    proof {
        assert(v@.take(1).len() == 1 && v@.take(1)[0] == v@[0]);
    }
    while k < v.len()
        invariant
            1 <= k <= v@.len(),
            r == seq_min_i64(v@.take(k as int)),
        decreases v@.len() - k,
    {
        proof {
            assert(v@.take(k + 1).drop_last() =~= v@.take(k as int));
            assert(v@.take(k + 1).last() == v@[k as int]);
        }
        if v[k] < r {
            r = v[k];
        }
        k = k + 1;
    }
    proof {
        assert(v@.take(v@.len() as int) =~= v@);
    }
    r
}

/// Largest element of a nonempty vector.
pub(crate) fn max_of(v: &Vec<i64>) -> (r: i64)
    requires
        v@.len() >= 1,
    ensures
        r == seq_max_i64(v@),
{
    let mut r: i64 = v[0];
    let mut k: usize = 1;
    proof {
        assert(v@.take(1).len() == 1 && v@.take(1)[0] == v@[0]);
    }
    while k < v.len()
        invariant
            1 <= k <= v@.len(),
            r == seq_max_i64(v@.take(k as int)),
        decreases v@.len() - k,
    {
        proof {
            assert(v@.take(k + 1).drop_last() =~= v@.take(k as int));
            assert(v@.take(k + 1).last() == v@[k as int]);
        }
        if v[k] > r {
            r = v[k];
        }
        k = k + 1;
    }
    proof {
        assert(v@.take(v@.len() as int) =~= v@);
    }
    r
}

/// The distinct values of `r`, each at its first occurrence.
pub open spec fn dedup_spec(r: Seq<i32>) -> Seq<i32>
    decreases r.len(),
{
    if r.len() == 0 {
        Seq::empty()
    } else {
        let pre = dedup_spec(r.drop_last());
        if pre.contains(r.last()) {
            pre
        } else {
            pre.push(r.last())
        }
    }
}

/// Distinct values of `r`, in order of first occurrence.
pub fn vec_unique(r: &Vec<i32>) -> (u: Vec<i32>)
    ensures
        u@ == dedup_spec(r@),
        forall|x: i32| #[trigger] u@.contains(x) <==> r@.contains(x),
        forall|i: int, j: int| 0 <= i < j < u@.len() ==> u@[i] != u@[j],
{
    let mut u: Vec<i32> = Vec::new();
    let mut k: usize = 0;
    while k < r.len()
        invariant
            k <= r@.len(),
            u@ == dedup_spec(r@.take(k as int)),
            forall|x: i32| #[trigger] u@.contains(x) <==> r@.take(k as int).contains(x),
            forall|i: int, j: int| 0 <= i < j < u@.len() ==> u@[i] != u@[j],
        decreases r@.len() - k,
    {
        let x = r[k];
        let present = contains_val(&u, x);
        let ghost old_u = u@;
        if !present {
            u.push(x);
        }
        proof {
            assert(r@.take(k + 1) =~= r@.take(k as int).push(r@[k as int]));
            assert(r@.take(k + 1).drop_last() =~= r@.take(k as int));
            assert(r@.take(k + 1).last() == x);
            assert forall|y: i32| #[trigger] r@.take(k + 1).contains(y) <==> (r@.take(
                k as int,
            ).contains(y) || y == x) by {
                lemma_push_contains(r@.take(k as int), x, y);
            }
            if !present {
                assert forall|y: i32| #[trigger] u@.contains(y) <==> (old_u.contains(y) || y == x) by {
                    lemma_push_contains(old_u, x, y);
                }
            }
        }
        k = k + 1;
    }
    proof {
        assert(r@.take(r@.len() as int) =~= r@);
    }
    u
}

/// Whether `v` holds the value `x`.
pub(crate) fn contains_val(v: &Vec<i32>, x: i32) -> (b: bool)
    ensures
        b == v@.contains(x),
{
    let mut k: usize = 0;
    while k < v.len()
        invariant
            k <= v@.len(),
            forall|i: int| 0 <= i < k ==> v@[i] != x,
        decreases v@.len() - k,
    {
        if v[k] == x {
            return true;
        }
        k = k + 1;
    }
    false
}

/// Ascending indices at which `v` equals `val`.
pub fn vec_where_eq(v: &Vec<i32>, val: &i32) -> (r: Vec<usize>)
    ensures
        forall|k: int| 0 <= k < r@.len() ==> r@[k] < v@.len() && v@[r@[k] as int] == *val,
        forall|i: int, j: int| 0 <= i < j < r@.len() ==> r@[i] < r@[j],
        forall|i: int|
            0 <= i < v@.len() && v@[i] == *val ==> exists|k: int|
                0 <= k < r@.len() && #[trigger] r@[k] == i,
{
    let mut r: Vec<usize> = Vec::new();
    let mut n: usize = 0;
    while n < v.len()
        invariant
            n <= v@.len(),
            forall|k: int| 0 <= k < r@.len() ==> r@[k] < n && v@[r@[k] as int] == *val,
            forall|i: int, j: int| 0 <= i < j < r@.len() ==> r@[i] < r@[j],
            forall|i: int|
                0 <= i < n && v@[i] == *val ==> exists|k: int|
                    0 <= k < r@.len() && #[trigger] r@[k] == i,
        decreases v@.len() - n,
    {
        if v[n] == *val {
            let ghost old_r = r@;
            r.push(n);
            proof {
                assert forall|i: int| 0 <= i < n + 1 && v@[i] == *val implies exists|k: int|
                    0 <= k < r@.len() && #[trigger] r@[k] == i by {
                    if i < n {
                        let k = choose|k: int| 0 <= k < old_r.len() && #[trigger] old_r[k] == i;
                        assert(r@[k] == i);
                    } else {
                        assert(r@[r@.len() - 1] == i);
                    }
                }
            }
        }
        n = n + 1;
    }
    r
}

/// Ascending indices at which `v` is strictly below `val`.
pub fn vec_where_lt(v: &Vec<i32>, val: &i32) -> (r: Vec<usize>)
    ensures
        forall|k: int| 0 <= k < r@.len() ==> r@[k] < v@.len() && v@[r@[k] as int] < *val,
        forall|i: int, j: int| 0 <= i < j < r@.len() ==> r@[i] < r@[j],
        forall|i: int|
            0 <= i < v@.len() && v@[i] < *val ==> exists|k: int|
                0 <= k < r@.len() && #[trigger] r@[k] == i,
{
    let mut r: Vec<usize> = Vec::new();
    let mut n: usize = 0;
    while n < v.len()
        invariant
            n <= v@.len(),
            forall|k: int| 0 <= k < r@.len() ==> r@[k] < n && v@[r@[k] as int] < *val,
            forall|i: int, j: int| 0 <= i < j < r@.len() ==> r@[i] < r@[j],
            forall|i: int|
                0 <= i < n && v@[i] < *val ==> exists|k: int|
                    0 <= k < r@.len() && #[trigger] r@[k] == i,
        decreases v@.len() - n,
    {
        if v[n] < *val {
            let ghost old_r = r@;
            r.push(n);
            proof {
                assert forall|i: int| 0 <= i < n + 1 && v@[i] < *val implies exists|k: int|
                    0 <= k < r@.len() && #[trigger] r@[k] == i by {
                    if i < n {
                        let k = choose|k: int| 0 <= k < old_r.len() && #[trigger] old_r[k] == i;
                        assert(r@[k] == i);
                    } else {
                        assert(r@[r@.len() - 1] == i);
                    }
                }
            }
        }
        n = n + 1;
    }
    r
}

/// Ascending indices at which `v` is strictly above `val`.
pub fn vec_where_gt(v: &Vec<i32>, val: &i32) -> (r: Vec<usize>)
    ensures
        forall|k: int| 0 <= k < r@.len() ==> r@[k] < v@.len() && v@[r@[k] as int] > *val,
        forall|i: int, j: int| 0 <= i < j < r@.len() ==> r@[i] < r@[j],
        forall|i: int|
            0 <= i < v@.len() && v@[i] > *val ==> exists|k: int|
                0 <= k < r@.len() && #[trigger] r@[k] == i,
{
    let mut r: Vec<usize> = Vec::new();
    let mut n: usize = 0;
    while n < v.len()
        invariant
            n <= v@.len(),
            forall|k: int| 0 <= k < r@.len() ==> r@[k] < n && v@[r@[k] as int] > *val,
            forall|i: int, j: int| 0 <= i < j < r@.len() ==> r@[i] < r@[j],
            forall|i: int|
                0 <= i < n && v@[i] > *val ==> exists|k: int|
                    0 <= k < r@.len() && #[trigger] r@[k] == i,
        decreases v@.len() - n,
    {
        if v[n] > *val {
            let ghost old_r = r@;
            r.push(n);
            proof {
                assert forall|i: int| 0 <= i < n + 1 && v@[i] > *val implies exists|k: int|
                    0 <= k < r@.len() && #[trigger] r@[k] == i by {
                    if i < n {
                        let k = choose|k: int| 0 <= k < old_r.len() && #[trigger] old_r[k] == i;
                        assert(r@[k] == i);
                    } else {
                        assert(r@[r@.len() - 1] == i);
                    }
                }
            }
        }
        n = n + 1;
    }
    r
}

/// Exact arithmetic mean of `v` as a rational, `None` on an empty vector.
pub fn vec_mean(v: &Vec<i64>) -> (r: Option<Frac>)
    requires
        v@.len() <= 0x1000000000000,
    ensures
        (r is Some) <==> v@.len() > 0,
        v@.len() > 0 ==> {
            let f = r->Some_0;
            f.num == sum_i64(v@) && f.den == v@.len()
        },
{
    if v.len() == 0 {
        return None;
    }
    let mut acc: i128 = 0;
    let mut k: usize = 0;
    while k < v.len()
        invariant
            k <= v@.len(),
            v@.len() <= 0x1000000000000,
            acc == sum_i64(v@.take(k as int)),
            -(k as int) * 0x8000000000000000 <= acc <= (k as int) * 0x8000000000000000,
        decreases v@.len() - k,
    {
        proof {
            lemma_sum_take_succ(v@, k as int);
            assert((k as int) * 0x8000000000000000 + 0x8000000000000000 == (k + 1)
                * 0x8000000000000000) by (nonlinear_arith);
            assert((k + 1) * 0x8000000000000000 <= 0x1000000000000 * 0x8000000000000000) by (nonlinear_arith)
                requires
                    k + 1 <= 0x1000000000000,
            ;
        }
        acc = acc + (v[k] as i128);
        k = k + 1;
    }
    proof {
        lemma_sum_full(v@);
    }
    Some(Frac { num: acc, den: v.len() as u64 })
}

/// Exact sample variance of `v` as a rational with numerator
/// `n * sum(v^2) - sum(v)^2` and denominator `n * (n - 1)`; `None` when
/// fewer than two samples exist, so no division by zero can hide there.
pub fn vec_variance(v: &Vec<i64>) -> (r: Option<Frac>)
    requires
        v@.len() <= 0x100000,
        forall|i: int| 0 <= i < v@.len() ==> -0x40000000 <= #[trigger] v@[i] <= 0x40000000,
    ensures
        (r is Some) <==> v@.len() >= 2,
        v@.len() >= 2 ==> {
            let f = r->Some_0;
            &&& f.num == v@.len() * sum_sq_i64(v@) - sum_i64(v@) * sum_i64(v@)
            &&& f.den == v@.len() * (v@.len() - 1)
        },
{
    if v.len() < 2 {
        return None;
    }
    let n = v.len();
    let mut acc: i128 = 0;
    let mut accsq: i128 = 0;
    let mut k: usize = 0;
    while k < n
        invariant
            k <= v@.len(),
            n == v@.len(),
            v@.len() <= 0x100000,
            forall|i: int| 0 <= i < v@.len() ==> -0x40000000 <= #[trigger] v@[i] <= 0x40000000,
            acc == sum_i64(v@.take(k as int)),
            accsq == sum_sq_i64(v@.take(k as int)),
            -(k as int) * 0x40000000 <= acc <= (k as int) * 0x40000000,
            0 <= accsq <= (k as int) * 0x1000000000000000,
        decreases v@.len() - k,
    {
        proof {
            lemma_sum_take_succ(v@, k as int);
            assert(v@[k as int] * v@[k as int] <= 0x1000000000000000
                && 0 <= v@[k as int] * v@[k as int]) by (nonlinear_arith)
                requires
                    -0x40000000 <= v@[k as int] <= 0x40000000,
            ;
            assert((k as int) * 0x40000000 + 0x40000000 == (k + 1) * 0x40000000) by (nonlinear_arith);
            assert((k as int) * 0x1000000000000000 + 0x1000000000000000 == (k + 1)
                * 0x1000000000000000) by (nonlinear_arith);
            assert((k + 1) * 0x40000000 <= 0x100000 * 0x40000000) by (nonlinear_arith)
                requires
                    k + 1 <= 0x100000,
            ;
            assert((k + 1) * 0x1000000000000000 <= 0x100000 * 0x1000000000000000) by (nonlinear_arith)
                requires
                    k + 1 <= 0x100000,
            ;
        }
        acc = acc + (v[k] as i128);
        accsq = accsq + (v[k] as i128) * (v[k] as i128);
        k = k + 1;
    }
    proof {
        lemma_sum_full(v@);
        assert(-(0x100000 as int) * 0x40000000 <= acc <= 0x100000 * 0x40000000) by (nonlinear_arith)
            requires
                -(n as int) * 0x40000000 <= acc <= (n as int) * 0x40000000,
                n <= 0x100000,
        ;
        assert(accsq <= 0x100000 * 0x1000000000000000) by (nonlinear_arith)
            requires
                0 <= accsq <= (n as int) * 0x1000000000000000,
                n <= 0x100000,
        ;
        assert((n as i128) * accsq <= 0x100000 * (0x100000 * 0x1000000000000000)
            && 0 <= (n as i128) * accsq) by (nonlinear_arith)
            requires
                0 <= accsq <= 0x100000 * 0x1000000000000000,
                0 < n <= 0x100000,
        ;
        assert(acc * acc <= (0x100000 * 0x40000000) * (0x100000 * 0x40000000) && 0 <= acc * acc)
            by (nonlinear_arith)
            requires
                -(0x100000 as int) * 0x40000000 <= acc <= 0x100000 * 0x40000000,
        ;
        assert((n as int) * (n - 1) <= 0x100000 * 0x100000 && 0 <= (n as int) * (n - 1))
            by (nonlinear_arith)
            requires
                2 <= n <= 0x100000,
        ;
    }
    let num: i128 = (n as i128) * accsq - acc * acc;
    let den: u64 = (n as u64) * ((n - 1) as u64);
    Some(Frac { num, den })
}

/// Lagged differences: `r[i] == v[i + lag] - v[i]`; `None` when `v` is not
/// longer than `lag`.
pub fn vec_diff(v: &Vec<i64>, lag: usize) -> (r: Option<Vec<i64>>)
    requires
        forall|i: int|
            0 <= i < v@.len() - lag ==> i64::MIN <= #[trigger] v@[i + lag] - v@[i] <= i64::MAX,
    ensures
        (r is Some) <==> v@.len() > lag,
        v@.len() > lag ==> r is Some && {
            let d = r->Some_0;
            &&& d@.len() == v@.len() - lag
            &&& forall|i: int| 0 <= i < d@.len() ==> #[trigger] d@[i] == v@[i + lag] - v@[i]
        },
{
    if v.len() <= lag {
        return None;
    }
    let n = v.len() - lag;
    let mut d: Vec<i64> = Vec::new();
    let mut k: usize = 0;
    while k < n
        invariant
            k <= n,
            n == v@.len() - lag,
            lag < v@.len(),
            v@.len() <= usize::MAX,
            forall|i: int|
                0 <= i < v@.len() - lag ==> i64::MIN <= #[trigger] v@[i + lag] - v@[i] <= i64::MAX,
            d@.len() == k,
            forall|i: int| 0 <= i < k ==> #[trigger] d@[i] == v@[i + lag] - v@[i],
        decreases n - k,
    {
        d.push(v[k + lag] - v[k]);
        k = k + 1;
    }
    Some(d)
}

/// Running totals of `v`: `r[k] == v[0] + ... + v[k]`, the stable
/// left-to-right fold starting at zero, defined for every input; in
/// particular a singleton folds to itself.
pub fn vec_cumsum(v: &Vec<i64>) -> (r: Option<Vec<i64>>)
    requires
        forall|k: int| 0 < k <= v@.len() ==> i64::MIN <= sum_i64(#[trigger] v@.take(k)) <= i64::MAX,
    ensures
        r is Some,
        ({
            let u = r->Some_0;
            &&& u@.len() == v@.len()
            &&& forall|k: int| 0 <= k < u@.len() ==> #[trigger] u@[k] == sum_i64(v@.take(k + 1))
        }),
{
    let mut u: Vec<i64> = Vec::new();
    let mut acc: i64 = 0;
    let mut k: usize = 0;
    proof {
        assert(v@.take(0) =~= Seq::<i64>::empty());
    }
    while k < v.len()
        invariant
            k <= v@.len(),
            forall|j: int|
                0 < j <= v@.len() ==> i64::MIN <= sum_i64(#[trigger] v@.take(j)) <= i64::MAX,
            acc == sum_i64(v@.take(k as int)),
            u@.len() == k,
            forall|j: int| 0 <= j < k ==> #[trigger] u@[j] == sum_i64(v@.take(j + 1)),
        decreases v@.len() - k,
    {
        proof {
            lemma_sum_take_succ(v@, k as int);
        }
        acc = acc + v[k];
        u.push(acc);
        k = k + 1;
    }
    Some(u)
}

/// Adds `scalar` to every element.
pub fn vec_add_scalar(v: &Vec<i64>, scalar: i64) -> (r: Vec<i64>)
    requires
        forall|i: int| 0 <= i < v@.len() ==> i64::MIN <= #[trigger] v@[i] + scalar <= i64::MAX,
    ensures
        r@.len() == v@.len(),
        forall|i: int| 0 <= i < v@.len() ==> #[trigger] r@[i] == v@[i] + scalar,
{
    let mut r: Vec<i64> = Vec::new();
    let mut k: usize = 0;
    while k < v.len()
        invariant
            k <= v@.len(),
            forall|i: int| 0 <= i < v@.len() ==> i64::MIN <= #[trigger] v@[i] + scalar <= i64::MAX,
            r@.len() == k,
            forall|i: int| 0 <= i < k ==> #[trigger] r@[i] == v@[i] + scalar,
        decreases v@.len() - k,
    {
        r.push(v[k] + scalar);
        k = k + 1;
    }
    r
}

/// Subtracts `scalar` from every element.
pub fn vec_sub_scalar(v: &Vec<i64>, scalar: i64) -> (r: Vec<i64>)
    requires
        forall|i: int| 0 <= i < v@.len() ==> i64::MIN <= #[trigger] v@[i] - scalar <= i64::MAX,
    ensures
        r@.len() == v@.len(),
        forall|i: int| 0 <= i < v@.len() ==> #[trigger] r@[i] == v@[i] - scalar,
{
    let mut r: Vec<i64> = Vec::new();
    let mut k: usize = 0;
    while k < v.len()
        invariant
            k <= v@.len(),
            forall|i: int| 0 <= i < v@.len() ==> i64::MIN <= #[trigger] v@[i] - scalar <= i64::MAX,
            r@.len() == k,
            forall|i: int| 0 <= i < k ==> #[trigger] r@[i] == v@[i] - scalar,
        decreases v@.len() - k,
    {
        r.push(v[k] - scalar);
        k = k + 1;
    }
    r
}

/// The day number of every timestamp.
pub fn vec_dates(v: &Vec<Stamp>) -> (r: Vec<i64>)
    ensures
        r@.len() == v@.len(),
        forall|i: int| 0 <= i < v@.len() ==> #[trigger] r@[i] == v@[i].day,
{
    let mut r: Vec<i64> = Vec::new();
    let mut k: usize = 0;
    while k < v.len()
        invariant
            k <= v@.len(),
            r@.len() == k,
            forall|i: int| 0 <= i < k ==> #[trigger] r@[i] == v@[i].day,
        decreases v@.len() - k,
    {
        r.push(v[k].day);
        k = k + 1;
    }
    r
}

/// The time of day (seconds past midnight) of every timestamp.
pub fn vec_times(v: &Vec<Stamp>) -> (r: Vec<u32>)
    ensures
        r@.len() == v@.len(),
        forall|i: int| 0 <= i < v@.len() ==> #[trigger] r@[i] == v@[i].secs,
{
    let mut r: Vec<u32> = Vec::new();
    let mut k: usize = 0;
    while k < v.len()
        invariant
            k <= v@.len(),
            r@.len() == k,
            forall|i: int| 0 <= i < k ==> #[trigger] r@[i] == v@[i].secs,
        decreases v@.len() - k,
    {
        r.push(v[k].secs);
        k = k + 1;
    }
    r
}

} // verus!
