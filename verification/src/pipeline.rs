use vstd::prelude::*;

verus! {

use crate::aggregate::{find_last_and_sum, sum_at};
use crate::axis::{axis_member, merge_axis, strictly_increasing};
use crate::downsample::{lttb, lttb_ts};
use crate::signal::Signal;

// ----------------------------------------------------------------------------
// The whole run: downsample each signal on its own shape, merge the chosen
// timestamps into one axis, then re-evaluate every original signal at each
// axis point and sum.  Signals with unpaired or empty data are skipped, and
// axis points whose sum leaves the value range are dropped, so no input can
// abort the batch.
// ----------------------------------------------------------------------------

/// The point budget actually used: anything below two is raised to two, the
/// smallest count that can keep both endpoints of a signal.
pub open spec fn norm_threshold(threshold: i32) -> int {
    if threshold < 2 {
        2
    } else {
        threshold as int
    }
}

/// A sum that can be represented as an `i64` value of the output signal.
pub open spec fn fits_value(v: int) -> bool {
    -0x8000_0000_0000_0000 <= v <= 0x7fff_ffff_ffff_ffff
}

/// `x` is a timestamp that downsampling one of the valid signals to `t`
/// points keeps.
pub open spec fn resampled_member(sigs: Seq<Signal>, t: int, x: i64) -> bool {
    exists|k: int|
        0 <= k < sigs.len() && (#[trigger] sigs[k]).valid() && lttb_ts(sigs[k], t).contains(x)
}

/// `row` is the downsampling of one of the valid signals to `t` points.
pub open spec fn row_of_some_valid(sigs: Seq<Signal>, t: int, row: Signal) -> bool {
    exists|k: int|
        0 <= k < sigs.len() && (#[trigger] sigs[k]).valid() && row.ts@ == lttb_ts(sigs[k], t)
}

/// Some row holds the downsampling of signal `k` to `t` points.
pub open spec fn has_row_for(sigs: Seq<Signal>, t: int, rowset: Seq<Signal>, k: int) -> bool {
    exists|r: int| 0 <= r < rowset.len() && (#[trigger] rowset[r]).ts@ == lttb_ts(sigs[k], t)
}

/// Downsample every valid signal to `t` points, keeping the invalid ones out.
#[verifier::rlimit(50)]
fn resample_all(signals: &Vec<Signal>, t: usize) -> (resampled: Vec<Signal>)
    requires
        2 <= t,
        forall|k: int|
            0 <= k < signals@.len() && (#[trigger] signals@[k]).valid() ==> signals@[k].ts_sorted()
                && signals@[k].bounded(),
    ensures
        forall|r: int|
            0 <= r < resampled@.len() ==> row_of_some_valid(
                signals@,
                t as int,
                #[trigger] resampled@[r],
            ),
        forall|k2: int|
            0 <= k2 < signals@.len() && (#[trigger] signals@[k2]).valid() ==> has_row_for(
                signals@,
                t as int,
                resampled@,
                k2,
            ),
{
    let ghost gs: Seq<Signal> = signals@;
    let mut resampled: Vec<Signal> = Vec::new();
    let ghost mut srcs: Seq<int> = Seq::empty();
    let ghost mut rows: Map<int, int> = Map::empty();
    let mut k: usize = 0;
    while k < signals.len()
        invariant
            gs == signals@,
            2 <= t,
            k <= gs.len(),
            forall|k2: int|
                0 <= k2 < gs.len() && (#[trigger] gs[k2]).valid() ==> gs[k2].ts_sorted()
                    && gs[k2].bounded(),
            srcs.len() == resampled@.len(),
            forall|r: int|
                0 <= r < resampled@.len() ==> 0 <= #[trigger] srcs[r] < k && gs[srcs[r]].valid()
                    && resampled@[r].ts@ == lttb_ts(gs[srcs[r]], t as int),
            forall|k2: int|
                0 <= k2 < k && (#[trigger] gs[k2]).valid() ==> rows.dom().contains(k2)
                    && 0 <= rows[k2] < resampled@.len() && resampled@[rows[k2]].ts@ == lttb_ts(
                    gs[k2],
                    t as int,
                ),
        decreases gs.len() - k,
    {
        let sig: &Signal = &signals[k];
        if sig.ts.len() > 0 && sig.ts.len() == sig.values.len() {
            let ghost prev: Seq<Signal> = resampled@;
            let small: Signal = lttb(sig, t);
            resampled.push(small);
            proof {
                srcs = srcs.push(k as int);
                rows = rows.insert(k as int, prev.len() as int);
                assert(resampled@[resampled@.len() - 1].ts@ == lttb_ts(gs[k as int], t as int));
            }
        }
        k = k + 1;
    }
    proof {
        assert forall|r: int| 0 <= r < resampled@.len() implies row_of_some_valid(
            gs,
            t as int,
            #[trigger] resampled@[r],
        ) by {
            assert(0 <= srcs[r] < gs.len() && gs[srcs[r]].valid() && resampled@[r].ts@ == lttb_ts(
                gs[srcs[r]],
                t as int,
            ));
        }
        assert forall|k2: int|
            0 <= k2 < gs.len() && (#[trigger] gs[k2]).valid() implies has_row_for(
            gs,
            t as int,
            resampled@,
            k2,
        ) by {
            assert(0 <= rows[k2] < resampled@.len() && resampled@[rows[k2]].ts@ == lttb_ts(
                gs[k2],
                t as int,
            ));
        }
    }
    resampled
}

/// Keep the axis points whose sums are representable, pairing each kept
/// timestamp with its sum; the rest are dropped from the output.
fn filter_representable(
    Ghost(gs): Ghost<Seq<Signal>>,
    axis: &Vec<i64>,
    sums: &Vec<i128>,
) -> (out: Signal)
    requires
        strictly_increasing(axis@),
        sums@.len() == axis@.len(),
        forall|q: int| 0 <= q < axis@.len() ==> (#[trigger] sums@[q]) as int == sum_at(gs, axis@[q]),
    ensures
        out.ts@.len() == out.values@.len(),
        strictly_increasing(out.ts@),
        forall|p: int|
            0 <= p < out.ts@.len() ==> (#[trigger] out.values@[p]) as int == sum_at(gs, out.ts@[p]),
        forall|x: i64|
            #[trigger] out.ts@.contains(x) <==> (axis@.contains(x) && fits_value(sum_at(gs, x))),
{
    let mut out_ts: Vec<i64> = Vec::new();
    let mut out_vs: Vec<i64> = Vec::new();
    let mut p: usize = 0;
    while p < axis.len()
        invariant
            p <= axis@.len(),
            sums@.len() == axis@.len(),
            strictly_increasing(axis@),
            forall|q: int|
                0 <= q < axis@.len() ==> (#[trigger] sums@[q]) as int == sum_at(gs, axis@[q]),
            out_ts@.len() == out_vs@.len(),
            strictly_increasing(out_ts@),
            forall|r: int|
                0 <= r < out_ts@.len() ==> axis@.take(p as int).contains(#[trigger] out_ts@[r]),
            forall|r: int|
                0 <= r < out_ts@.len() ==> (#[trigger] out_vs@[r]) as int == sum_at(
                    gs,
                    out_ts@[r],
                ),
            forall|x: i64|
                #[trigger] out_ts@.contains(x) <==> (axis@.take(p as int).contains(x)
                    && fits_value(sum_at(gs, x))),
        decreases axis@.len() - p,
    {
        let s: i128 = sums[p];
        let ghost prev_ts: Seq<i64> = out_ts@;
        let tp: i64 = axis[p];
        if s >= i64::MIN as i128 && s <= i64::MAX as i128 {
            proof {
                assert forall|r: int| 0 <= r < prev_ts.len() implies prev_ts[r] < tp by {
                    assert(axis@.take(p as int).contains(prev_ts[r]));
                    let q: int = choose|q: int|
                        0 <= q < p && #[trigger] axis@.take(p as int)[q] == prev_ts[r];
                    assert(axis@[q] == prev_ts[r]);
                }
            }
            out_ts.push(tp);
            out_vs.push(s as i64);
        }
        proof {
            assert forall|x: i64| #[trigger] out_ts@.contains(x) <==> (axis@.take(
                p + 1 as int,
            ).contains(x) && fits_value(sum_at(gs, x))) by {
                assert(axis@.take(p + 1 as int)[p as int] == tp);
                if out_ts@.contains(x) {
                    let r: int = choose|r: int| 0 <= r < out_ts@.len() && out_ts@[r] == x;
                    if r < prev_ts.len() {
                        assert(prev_ts.contains(x)) by {
                            assert(prev_ts[r] == x);
                        }
                        let q: int = choose|q: int|
                            0 <= q < p && #[trigger] axis@.take(p as int)[q] == x;
                        assert(axis@.take(p + 1 as int)[q] == x);
                    } else {
                        assert(x == tp);
                    }
                }
                if axis@.take(p + 1 as int).contains(x) && fits_value(sum_at(gs, x)) {
                    let q: int = choose|q: int|
                        0 <= q < p + 1 && #[trigger] axis@.take(p + 1 as int)[q] == x;
                    if q < p {
                        assert(axis@.take(p as int)[q] == x);
                        assert(prev_ts.contains(x));
                        let r: int = choose|r: int| 0 <= r < prev_ts.len() && prev_ts[r] == x;
                        assert(out_ts@[r] == x);
                    } else {
                        assert(x == tp);
                        assert(sum_at(gs, tp) == s as int);
                        assert(out_ts@[out_ts@.len() - 1] == x);
                    }
                }
            }
            assert forall|r: int| 0 <= r < out_ts@.len() implies axis@.take(p + 1 as int).contains(
                #[trigger] out_ts@[r],
            ) by {
                if r < prev_ts.len() {
                    assert(axis@.take(p as int).contains(prev_ts[r]));
                    let q: int = choose|q: int|
                        0 <= q < p && #[trigger] axis@.take(p as int)[q] == out_ts@[r];
                    assert(axis@.take(p + 1 as int)[q] == out_ts@[r]);
                } else {
                    assert(axis@.take(p + 1 as int)[p as int] == out_ts@[r]);
                }
            }
        }
        p = p + 1;
    }
    proof {
        assert(axis@.take(axis@.len() as int) =~= axis@);
    }
    Signal { ts: out_ts, values: out_vs }
}

/// Downsample every signal, merge the surviving timestamps into one axis,
/// and give back that axis with, at each of its points, the sum of the values
/// the original signals hold there.
///
/// The output is pinned down completely: its timestamps are strictly
/// increasing; a timestamp appears exactly when some valid signal's
/// downsampling keeps it and the sum there is representable; and each output
/// value is the forward-filled sum of the original signals at its timestamp.
/// When no signal is valid the result is empty.
#[verifier::rlimit(50)]
pub fn process_multiple_signals(signals: &Vec<Signal>, threshold: i32) -> (out: Signal)
    requires
        forall|k: int|
            0 <= k < signals@.len() && (#[trigger] signals@[k]).valid() ==> signals@[k].ts_sorted()
                && signals@[k].bounded(),
    ensures
        out.ts@.len() == out.values@.len(),
        strictly_increasing(out.ts@),
        forall|p: int|
            0 <= p < out.ts@.len() ==> (#[trigger] out.values@[p]) as int == sum_at(
                signals@,
                out.ts@[p],
            ),
        forall|x: i64|
            #[trigger] out.ts@.contains(x) <==> (resampled_member(
                signals@,
                norm_threshold(threshold),
                x,
            ) && fits_value(sum_at(signals@, x))),
        (forall|k: int| 0 <= k < signals@.len() ==> !(#[trigger] signals@[k]).valid())
            ==> out.ts@.len() == 0,
{
    let ghost gs: Seq<Signal> = signals@;
    let t: usize = if threshold < 2 {
        2
    } else {
        threshold as usize
    };
    let resampled: Vec<Signal> = resample_all(signals, t);
    let axis: Vec<i64> = merge_axis(&resampled);
    proof {
        assert forall|x: i64| #[trigger] axis@.contains(x) <==> resampled_member(
            gs,
            t as int,
            x,
        ) by {
            if axis@.contains(x) {
                let r: int = choose|r: int|
                    0 <= r < resampled@.len() && (#[trigger] resampled@[r].ts@).contains(x);
                assert(row_of_some_valid(gs, t as int, resampled@[r]));
                let k2: int = choose|k2: int|
                    0 <= k2 < gs.len() && (#[trigger] gs[k2]).valid() && resampled@[r].ts@
                        == lttb_ts(gs[k2], t as int);
                assert(lttb_ts(gs[k2], t as int).contains(x));
            }
            if resampled_member(gs, t as int, x) {
                let k2: int = choose|k2: int|
                    0 <= k2 < gs.len() && (#[trigger] gs[k2]).valid() && lttb_ts(
                        gs[k2],
                        t as int,
                    ).contains(x);
                assert(has_row_for(gs, t as int, resampled@, k2));
                let r: int = choose|r: int|
                    0 <= r < resampled@.len() && (#[trigger] resampled@[r]).ts@ == lttb_ts(
                        gs[k2],
                        t as int,
                    );
                assert(resampled@[r].ts@.contains(x));
                assert(axis_member(resampled@, x));
            }
        }
    }
    let sums: Vec<i128> = find_last_and_sum(signals, &axis);
    let out: Signal = filter_representable(Ghost(gs), &axis, &sums);
    proof {
        if (forall|k2: int| 0 <= k2 < gs.len() ==> !(#[trigger] gs[k2]).valid()) {
            if out.ts@.len() > 0 {
                assert(out.ts@.contains(out.ts@[0]));
            }
        }
    }
    out
}

} // verus!
