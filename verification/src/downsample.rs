use vstd::prelude::*;

verus! {

use crate::signal::{Signal, COORD_LIMIT, bounded_seq, copy_signal};
use vstd::arithmetic::div_mod::{
    lemma_div_is_ordered, lemma_div_multiples_vanish, lemma_div_nonincreasing,
    lemma_div_plus_one, lemma_div_pos_is_pos,
};
use vstd::arithmetic::mul::lemma_mul_inequality;

// ----------------------------------------------------------------------------
// The shape of the buckets.
//
// A signal of `n` points is reduced to `t` points by keeping the first and the
// last point and choosing one representative from each of `t - 2` buckets that
// partition the interior `[1, n - 2]`.  The bucket edges follow the real-valued
// width `(n - 2) / (t - 2)`: edge `i` sits at `floor(i * (n - 2) / (t - 2)) + 1`,
// computed exactly on integers so that the fractional drift accumulates across
// buckets instead of being rounded away per bucket.
// ----------------------------------------------------------------------------

/// Index of the left edge of bucket `i`; bucket `i` covers
/// `[bucket_edge(i), bucket_edge(i + 1))`.
pub open spec fn bucket_edge(n: int, t: int, i: int) -> int {
    i * (n - 2) / (t - 2) + 1
}

/// A bucket edge clamped to the length of the signal, used for the averaging
/// range of the look-ahead bucket, whose right edge may run past the end.
pub open spec fn edge_capped(n: int, t: int, i: int) -> int {
    if bucket_edge(n, t, i) < n {
        bucket_edge(n, t, i)
    } else {
        n
    }
}

// ----------------------------------------------------------------------------
// The centroid of the look-ahead bucket.
// ----------------------------------------------------------------------------

/// Sum of `s[lo..hi]`.
pub open spec fn sum_range(s: Seq<i64>, lo: int, hi: int) -> int
    decreases hi - lo,
{
    if hi <= lo {
        0
    } else {
        sum_range(s, lo, hi - 1) + s[hi - 1]
    }
}

/// Integer division rounding toward zero, the rounding of `i128` division.
pub open spec fn div_trunc(a: int, b: int) -> int {
    if a >= 0 {
        a / b
    } else {
        -((-a) / b)
    }
}

/// Fixed-point average of `s[lo..hi]`.
pub open spec fn avg_range(s: Seq<i64>, lo: int, hi: int) -> int {
    div_trunc(sum_range(s, lo, hi), hi - lo)
}

// ----------------------------------------------------------------------------
// Selecting the representative of a bucket.
// ----------------------------------------------------------------------------

/// Absolute value.
pub open spec fn abs_int(x: int) -> int {
    if x < 0 {
        -x
    } else {
        x
    }
}

/// Twice the area of the triangle spanned by the anchor `(a_ts, a_v)`, a
/// candidate `(p_ts, p_v)` and the look-ahead centroid `(c_ts, c_v)`, by the
/// shoelace formula.  Doubling every area leaves every comparison unchanged.
pub open spec fn tri_metric(a_ts: int, a_v: int, c_ts: int, c_v: int, p_ts: int, p_v: int) -> int {
    abs_int((a_ts - c_ts) * (p_v - a_v) - (a_ts - p_ts) * (c_v - a_v))
}

/// Index in `[lo, hi)` whose triangle against anchor `a` and the centroid is
/// largest; on ties the earliest such index wins.
pub open spec fn best_in_range(
    ts: Seq<i64>,
    vs: Seq<i64>,
    a: int,
    c_ts: int,
    c_v: int,
    lo: int,
    hi: int,
) -> int
    decreases hi - lo,
{
    if hi <= lo + 1 {
        lo
    } else {
        let prev: int = best_in_range(ts, vs, a, c_ts, c_v, lo, hi - 1);
        if tri_metric(
            ts[a] as int,
            vs[a] as int,
            c_ts,
            c_v,
            ts[hi - 1] as int,
            vs[hi - 1] as int,
        ) > tri_metric(
            ts[a] as int,
            vs[a] as int,
            c_ts,
            c_v,
            ts[prev] as int,
            vs[prev] as int,
        ) {
            hi - 1
        } else {
            prev
        }
    }
}

/// The representative of bucket `i`, given the anchor index `a`: the point of
/// the bucket with the largest triangle against the anchor and the centroid of
/// bucket `i + 1`.
pub open spec fn pick(ts: Seq<i64>, vs: Seq<i64>, t: int, a: int, i: int) -> int {
    let n: int = ts.len() as int;
    let c_ts: int = avg_range(ts, bucket_edge(n, t, i + 1), edge_capped(n, t, i + 2));
    let c_v: int = avg_range(vs, bucket_edge(n, t, i + 1), edge_capped(n, t, i + 2));
    best_in_range(ts, vs, a, c_ts, c_v, bucket_edge(n, t, i), bucket_edge(n, t, i + 1))
}

/// The anchor after `k` buckets have been processed: the first point before
/// any bucket, then the representative chosen in bucket `k - 1`.
pub open spec fn anchor(ts: Seq<i64>, vs: Seq<i64>, t: int, k: int) -> int
    decreases k,
{
    if k <= 0 {
        0
    } else {
        pick(ts, vs, t, anchor(ts, vs, t, k - 1), k - 1)
    }
}

/// Index of the input point that lands at output position `k`: the first
/// point, then one representative per bucket, then the last point.
pub open spec fn selected_index(ts: Seq<i64>, vs: Seq<i64>, t: int, k: int) -> int {
    if k <= 0 {
        0
    } else if k < t - 1 {
        anchor(ts, vs, t, k)
    } else {
        ts.len() - 1
    }
}

/// The timestamps that downsampling `sig` to `threshold` points keeps.  When
/// no downsampling happens the signal is kept whole.
pub open spec fn lttb_ts(sig: Signal, threshold: int) -> Seq<i64> {
    if threshold == 0 || threshold >= sig.ts@.len() {
        sig.ts@
    } else {
        Seq::new(
            threshold as nat,
            |k: int| sig.ts@[selected_index(sig.ts@, sig.values@, threshold, k)],
        )
    }
}

/// The values that downsampling `sig` to `threshold` points keeps.
pub open spec fn lttb_values(sig: Signal, threshold: int) -> Seq<i64> {
    if threshold == 0 || threshold >= sig.ts@.len() {
        sig.values@
    } else {
        Seq::new(
            threshold as nat,
            |k: int| sig.values@[selected_index(sig.ts@, sig.values@, threshold, k)],
        )
    }
}

// ----------------------------------------------------------------------------
// Geometry lemmas: the buckets are never empty and never leave the interior.
// ----------------------------------------------------------------------------

/// Bucket edges grow by at least one per bucket whenever there are more
/// interior points than buckets.
proof fn lemma_edge_step(n: int, t: int, i: int)
    requires
        3 <= t < n,
        0 <= i,
    ensures
        bucket_edge(n, t, i) + 1 <= bucket_edge(n, t, i + 1),
{
    let m: int = n - 2;
    let d: int = t - 2;
    assert((i + 1) * m == i * m + m) by (nonlinear_arith);
    assert(i * m + m >= i * m + d + 1);
    lemma_div_plus_one(i * m, d);
    lemma_div_is_ordered(d + i * m, (i + 1) * m, d);
}

/// Every edge up to the last bucket stays inside `[1, n - 1]`.
proof fn lemma_edge_bounds(n: int, t: int, i: int)
    requires
        3 <= t < n,
        0 <= i <= t - 2,
    ensures
        1 <= bucket_edge(n, t, i) <= n - 1,
{
    let m: int = n - 2;
    let d: int = t - 2;
    lemma_div_pos_is_pos(i * m, d);
    assert(i * m >= 0) by (nonlinear_arith)
        requires
            i >= 0,
            m >= 0,
    ;
    lemma_mul_inequality(i, d, m);
    lemma_div_is_ordered(i * m, d * m, d);
    lemma_div_multiples_vanish(m, d);
}

/// Everything the main loop needs about bucket `i`: its candidate range
/// `[lo, hi)` and the averaging range `[hi, ae)` of the look-ahead bucket are
/// non-empty and stay inside the signal.
proof fn lemma_bucket_shape(n: int, t: int, i: int)
    requires
        3 <= t < n,
        0 <= i <= t - 3,
    ensures
        1 <= bucket_edge(n, t, i),
        bucket_edge(n, t, i) < bucket_edge(n, t, i + 1),
        bucket_edge(n, t, i + 1) <= n - 1,
        bucket_edge(n, t, i + 1) < edge_capped(n, t, i + 2),
        edge_capped(n, t, i + 2) <= n,
{
    lemma_edge_bounds(n, t, i);
    lemma_edge_bounds(n, t, i + 1);
    lemma_edge_step(n, t, i);
    lemma_edge_step(n, t, i + 1);
}

// ----------------------------------------------------------------------------
// Arithmetic bounds.
// ----------------------------------------------------------------------------

/// Bound on a product from bounds on its factors.
pub proof fn lemma_mul_abs_bound(x: int, y: int, bx: int, by: int) by (nonlinear_arith)
    requires
        -bx <= x <= bx,
        -by <= y <= by,
        0 <= bx,
        0 <= by,
    ensures
        -(bx * by) <= x * y <= bx * by,
{
}

/// A sum of `hi - lo` bounded entries is bounded by `(hi - lo)` times the bound.
proof fn lemma_sum_range_bound(s: Seq<i64>, lo: int, hi: int, b: int)
    requires
        0 <= lo <= hi <= s.len(),
        0 <= b,
        forall|i: int| 0 <= i < s.len() ==> -b <= #[trigger] s[i] <= b,
    ensures
        -((hi - lo) * b) <= sum_range(s, lo, hi) <= (hi - lo) * b,
    decreases hi - lo,
{
    if hi <= lo {
        assert((hi - lo) * b == 0) by (nonlinear_arith)
            requires
                hi == lo,
        ;
    } else {
        lemma_sum_range_bound(s, lo, hi - 1, b);
        assert((hi - lo) * b == (hi - 1 - lo) * b + b) by (nonlinear_arith);
    }
}

/// Truncating division by a positive count keeps the average within the bound
/// on the entries.
proof fn lemma_avg_range_bound(s: Seq<i64>, lo: int, hi: int, b: int)
    requires
        0 <= lo < hi <= s.len(),
        0 <= b,
        forall|i: int| 0 <= i < s.len() ==> -b <= #[trigger] s[i] <= b,
    ensures
        -b <= avg_range(s, lo, hi) <= b,
{
    let sum: int = sum_range(s, lo, hi);
    let len: int = hi - lo;
    lemma_sum_range_bound(s, lo, hi, b);
    if sum >= 0 {
        lemma_div_pos_is_pos(sum, len);
        lemma_div_is_ordered(sum, len * b, len);
        assert(len * b == b * len) by (nonlinear_arith);
        lemma_div_multiples_vanish(b, len);
    } else {
        lemma_div_pos_is_pos(-sum, len);
        lemma_div_is_ordered(-sum, len * b, len);
        assert(len * b == b * len) by (nonlinear_arith);
        lemma_div_multiples_vanish(b, len);
    }
}

/// The chosen representative lies inside its bucket.
proof fn lemma_best_in_range(
    ts: Seq<i64>,
    vs: Seq<i64>,
    a: int,
    c_ts: int,
    c_v: int,
    lo: int,
    hi: int,
)
    requires
        lo < hi,
    ensures
        lo <= best_in_range(ts, vs, a, c_ts, c_v, lo, hi) < hi,
    decreases hi - lo,
{
    if hi > lo + 1 {
        lemma_best_in_range(ts, vs, a, c_ts, c_v, lo, hi - 1);
    }
}

/// Every anchor is a real index of the signal, and past the first bucket it
/// lies in the interior.
proof fn lemma_anchor_in_range(ts: Seq<i64>, vs: Seq<i64>, t: int, k: int)
    requires
        3 <= t < ts.len(),
        0 <= k <= t - 2,
    ensures
        0 <= anchor(ts, vs, t, k) < ts.len(),
    decreases k,
{
    let n: int = ts.len() as int;
    if k > 0 {
        lemma_anchor_in_range(ts, vs, t, k - 1);
        lemma_bucket_shape(n, t, k - 1);
        let c_ts: int = avg_range(ts, bucket_edge(n, t, k), edge_capped(n, t, k + 1));
        let c_v: int = avg_range(vs, bucket_edge(n, t, k), edge_capped(n, t, k + 1));
        lemma_best_in_range(
            ts,
            vs,
            anchor(ts, vs, t, k - 1),
            c_ts,
            c_v,
            bucket_edge(n, t, k - 1),
            bucket_edge(n, t, k),
        );
    }
}

// ----------------------------------------------------------------------------
// Executable helpers.
// ----------------------------------------------------------------------------

/// `floor(i * (n - 2) / (t - 2)) + 1`, clamped to `n`, computed in `u128` so
/// the product cannot overflow.
fn edge_capped_exec(n: usize, t: usize, i: usize) -> (e: usize)
    requires
        3 <= t < n,
    ensures
        e as int == edge_capped(n as int, t as int, i as int),
        e <= n,
{
    proof {
        assert((i as int) * ((n - 2) as int) <= 0xffff_ffff_ffff_ffff * 0xffff_ffff_ffff_ffff)
            by (nonlinear_arith)
            requires
                0 <= i <= 0xffff_ffff_ffff_ffff,
                0 <= n - 2 <= 0xffff_ffff_ffff_ffff,
        ;
    }
    let num: u128 = (i as u128) * ((n - 2) as u128);
    let q: u128 = num / ((t - 2) as u128);
    proof {
        lemma_div_nonincreasing(num as int, (t - 2) as int);
    }
    if q + 1 >= (n as u128) {
        n
    } else {
        (q as usize) + 1
    }
}

/// Fixed-point average of `v[lo..hi]`, the centroid coordinate of a bucket.
fn avg_exec(v: &Vec<i64>, lo: usize, hi: usize) -> (avg: i64)
    requires
        lo < hi <= v@.len(),
        bounded_seq(v@),
    ensures
        avg as int == avg_range(v@, lo as int, hi as int),
        -COORD_LIMIT <= avg <= COORD_LIMIT,
{
    let mut sum: i128 = 0;
    let mut j: usize = lo;
    while j < hi
        invariant
            lo <= j <= hi <= v@.len(),
            bounded_seq(v@),
            sum == sum_range(v@, lo as int, j as int),
            -((j - lo) * (COORD_LIMIT as int)) <= sum as int <= (j - lo) * (COORD_LIMIT as int),
        decreases hi - j,
    {
        proof {
            assert((j + 1 - lo) * (COORD_LIMIT as int) == (j - lo) * (COORD_LIMIT as int)
                + COORD_LIMIT as int) by (nonlinear_arith);
            lemma_mul_inequality(j + 1 - lo, 0x1_0000_0000_0000_0000, COORD_LIMIT as int);
        }
        sum = sum + (v[j] as i128);
        j = j + 1;
    }
    let len: i128 = (hi - lo) as i128;
    proof {
        lemma_sum_range_bound(v@, lo as int, hi as int, COORD_LIMIT as int);
        lemma_mul_inequality(hi - lo, 0x1_0000_0000_0000_0000, COORD_LIMIT as int);
        lemma_avg_range_bound(v@, lo as int, hi as int, COORD_LIMIT as int);
        if sum >= 0 {
            lemma_div_pos_is_pos(sum as int, len as int);
            lemma_div_nonincreasing(sum as int, len as int);
        } else {
            lemma_div_pos_is_pos(-(sum as int), len as int);
            lemma_div_nonincreasing(-(sum as int), len as int);
        }
    }
    let q: i128 = sum.checked_div(len).unwrap();
    q as i64
}

/// Twice the triangle area used to rank the candidates of a bucket, computed
/// exactly in `i128`; the coordinate bound keeps every product in range.
fn tri_metric_exec(a_ts: i64, a_v: i64, c_ts: i64, c_v: i64, p_ts: i64, p_v: i64) -> (m: i128)
    requires
        -COORD_LIMIT <= a_ts <= COORD_LIMIT,
        -COORD_LIMIT <= a_v <= COORD_LIMIT,
        -COORD_LIMIT <= c_ts <= COORD_LIMIT,
        -COORD_LIMIT <= c_v <= COORD_LIMIT,
        -COORD_LIMIT <= p_ts <= COORD_LIMIT,
        -COORD_LIMIT <= p_v <= COORD_LIMIT,
    ensures
        m as int == tri_metric(a_ts as int, a_v as int, c_ts as int, c_v as int, p_ts as int, p_v as int),
        m >= 0,
{
    let x1: i128 = a_ts as i128 - c_ts as i128;
    let y1: i128 = p_v as i128 - a_v as i128;
    let x2: i128 = a_ts as i128 - p_ts as i128;
    let y2: i128 = c_v as i128 - a_v as i128;
    proof {
        lemma_mul_abs_bound(x1 as int, y1 as int, 0x4000_0000_0000_0000, 0x4000_0000_0000_0000);
        lemma_mul_abs_bound(x2 as int, y2 as int, 0x4000_0000_0000_0000, 0x4000_0000_0000_0000);
    }
    let cross: i128 = x1 * y1 - x2 * y2;
    if cross < 0 {
        -cross
    } else {
        cross
    }
}

// ----------------------------------------------------------------------------
// The downsampler.
// ----------------------------------------------------------------------------

/// Largest-triangle-three-buckets downsampling.
///
/// A threshold of zero, or one at least as large as the signal, asks for no
/// reduction and returns the signal unchanged.  Otherwise the result has
/// exactly `threshold` points: the first input point, the last one, and one
/// representative per bucket, each chosen to span the largest triangle with
/// the previously chosen point and the centroid of the next bucket.  A budget
/// of one point is ruled out: it could not keep both endpoints.
pub fn lttb(signal: &Signal, threshold: usize) -> (out: Signal)
    requires
        signal.valid(),
        threshold == 0 || threshold >= signal.ts@.len() || threshold >= 2,
        2 <= threshold < signal.ts@.len() ==> signal.bounded(),
    ensures
        out.ts@ == lttb_ts(*signal, threshold as int),
        out.values@ == lttb_values(*signal, threshold as int),
        out.ts@.len() == out.values@.len(),
        out.ts@.len() > 0,
        threshold == 0 || threshold >= signal.ts@.len() ==> out.ts@ == signal.ts@
            && out.values@ == signal.values@,
        2 <= threshold < signal.ts@.len() ==> out.ts@.len() == threshold
            && out.ts@[0] == signal.ts@[0]
            && out.values@[0] == signal.values@[0]
            && out.ts@[threshold - 1] == signal.ts@[signal.ts@.len() - 1]
            && out.values@[threshold - 1] == signal.values@[signal.ts@.len() - 1],
{
    let n: usize = signal.ts.len();
    if threshold == 0 || threshold >= n {
        return copy_signal(signal);
    }
    let ghost gts: Seq<i64> = signal.ts@;
    let ghost gvs: Seq<i64> = signal.values@;
    let ghost t: int = threshold as int;
    let mut out_ts: Vec<i64> = Vec::new();
    let mut out_vs: Vec<i64> = Vec::new();
    out_ts.push(signal.ts[0]);
    out_vs.push(signal.values[0]);
    let mut a: usize = 0;
    let mut i: usize = 0;
    while i < threshold - 2
        invariant
            signal.valid(),
            signal.bounded(),
            gts == signal.ts@,
            gvs == signal.values@,
            t == threshold as int,
            2 <= threshold < n,
            n == signal.ts@.len(),
            i <= threshold - 2,
            a as int == anchor(gts, gvs, t, i as int),
            a < n,
            out_ts@.len() == i + 1,
            out_vs@.len() == i + 1,
            forall|k: int|
                0 <= k <= i ==> out_ts@[k] == gts[selected_index(gts, gvs, t, k)]
                    && out_vs@[k] == gvs[selected_index(gts, gvs, t, k)],
        decreases threshold - 2 - i,
    {
        proof {
            lemma_bucket_shape(n as int, t, i as int);
        }
        let lo: usize = edge_capped_exec(n, threshold, i);
        let hi: usize = edge_capped_exec(n, threshold, i + 1);
        let ae: usize = edge_capped_exec(n, threshold, i + 2);
        let c_ts: i64 = avg_exec(&signal.ts, hi, ae);
        let c_v: i64 = avg_exec(&signal.values, hi, ae);
        let a_ts: i64 = signal.ts[a];
        let a_v: i64 = signal.values[a];
        let mut best: usize = lo;
        let mut best_m: i128 = tri_metric_exec(
            a_ts,
            a_v,
            c_ts,
            c_v,
            signal.ts[lo],
            signal.values[lo],
        );
        let mut j: usize = lo + 1;
        while j < hi
            invariant
                signal.valid(),
                signal.bounded(),
                gts == signal.ts@,
                gvs == signal.values@,
                n == signal.ts@.len(),
                lo < j <= hi <= n - 1,
                a < n,
                a_ts == gts[a as int],
                a_v == gvs[a as int],
                -COORD_LIMIT <= c_ts <= COORD_LIMIT,
                -COORD_LIMIT <= c_v <= COORD_LIMIT,
                lo <= best < j,
                best as int == best_in_range(gts, gvs, a as int, c_ts as int, c_v as int, lo as int, j as int),
                best_m as int == tri_metric(
                    gts[a as int] as int,
                    gvs[a as int] as int,
                    c_ts as int,
                    c_v as int,
                    gts[best as int] as int,
                    gvs[best as int] as int,
                ),
            decreases hi - j,
        {
            let m: i128 = tri_metric_exec(a_ts, a_v, c_ts, c_v, signal.ts[j], signal.values[j]);
            if m > best_m {
                best = j;
                best_m = m;
            }
            j = j + 1;
        }
        proof {
            assert(best as int == pick(gts, gvs, t, a as int, i as int));
        }
        out_ts.push(signal.ts[best]);
        out_vs.push(signal.values[best]);
        a = best;
        i = i + 1;
        proof {
            assert(a as int == anchor(gts, gvs, t, i as int));
            assert(selected_index(gts, gvs, t, i as int) == a as int);
        }
    }
    out_ts.push(signal.ts[n - 1]);
    out_vs.push(signal.values[n - 1]);
    let out = Signal { ts: out_ts, values: out_vs };
    proof {
        assert(out.ts@ =~= lttb_ts(*signal, t));
        assert(out.values@ =~= lttb_values(*signal, t));
    }
    out
}

} // verus!
