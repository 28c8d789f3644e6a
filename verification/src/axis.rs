use vstd::prelude::*;

verus! {

use crate::signal::Signal;

// ----------------------------------------------------------------------------
// The merged timestamp axis: the union of the timestamps of the resampled
// signals, sorted and with duplicates collapsed.  Timestamps already live on
// the microsecond grid, so two entries of a strictly increasing axis are never
// closer than one grid step: near-duplicates within the grid tolerance were
// collapsed when the timestamps were quantized.
// ----------------------------------------------------------------------------

/// Entries in strictly increasing order: a well-formed axis.
pub open spec fn strictly_increasing(s: Seq<i64>) -> bool {
    forall|i: int, j: int| 0 <= i < j < s.len() ==> s[i] < s[j]
}

/// `x` is a timestamp of one of the signals.
pub open spec fn axis_member(sigs: Seq<Signal>, x: i64) -> bool {
    exists|k: int| 0 <= k < sigs.len() && (#[trigger] sigs[k].ts@).contains(x)
}

/// `x` has been seen after scanning all of the first `k` signals and the
/// first `j` timestamps of signal `k`.
spec fn in_scan(sigs: Seq<Signal>, k: int, j: int, x: i64) -> bool {
    axis_member(sigs.take(k), x) || (exists|j2: int| 0 <= j2 < j && sigs[k].ts@[j2] == x)
}

/// Put `t` in its place on the axis unless it is already there.
#[verifier::rlimit(50)]
fn insert_axis(axis: &mut Vec<i64>, t: i64)
    requires
        strictly_increasing(old(axis)@),
    ensures
        strictly_increasing(final(axis)@),
        forall|x: i64| #[trigger] final(axis)@.contains(x) <==> (old(axis)@.contains(x) || x == t),
{
    let ghost before: Seq<i64> = axis@;
    let mut lo: usize = 0;
    let mut hi: usize = axis.len();
    while lo < hi
        invariant
            lo <= hi <= axis@.len(),
            axis@ == before,
            strictly_increasing(axis@),
            forall|i: int| 0 <= i < lo ==> axis@[i] < t,
            forall|i: int| hi <= i < axis@.len() ==> axis@[i] >= t,
        decreases hi - lo,
    {
        let mid: usize = lo + (hi - lo) / 2;
        if axis[mid] < t {
            lo = mid + 1;
        } else {
            hi = mid;
        }
    }
    if lo < axis.len() && axis[lo] == t {
        proof {
            assert(axis@.contains(t)) by {
                assert(axis@[lo as int] == t);
            }
        }
    } else {
        proof {
            before.insert_ensures(lo as int, t);
        }
        axis.insert(lo, t);
        proof {
            assert forall|i: int, j: int| 0 <= i < j < axis@.len() implies axis@[i] < axis@[j] by {
                if j < lo {
                    assert(axis@[i] == before[i] && axis@[j] == before[j]);
                } else if j == lo {
                    assert(axis@[i] == before[i] && before[i] < t);
                } else {
                    assert(axis@[j] == before[j - 1] && before[j - 1] >= t && before[j - 1] != t);
                    if i < lo {
                        assert(axis@[i] == before[i] && before[i] < t);
                    } else if i == lo {
                        assert(axis@[i] == t);
                    } else {
                        assert(axis@[i] == before[i - 1]);
                    }
                }
            }
            assert forall|x: i64| #[trigger] axis@.contains(x) <==> (before.contains(x) || x == t) by {
                if axis@.contains(x) {
                    let w: int = choose|w: int| 0 <= w < axis@.len() && axis@[w] == x;
                    if w < lo {
                        assert(before[w] == x);
                    } else if w == lo {
                        assert(x == t);
                    } else {
                        assert(before[w - 1] == x);
                    }
                }
                if before.contains(x) {
                    let w: int = choose|w: int| 0 <= w < before.len() && before[w] == x;
                    if w < lo {
                        assert(axis@[w] == x);
                    } else {
                        assert(axis@[w + 1] == x);
                    }
                }
                if x == t {
                    assert(axis@[lo as int] == x);
                }
            }
        }
    }
}

/// The merged evaluation axis: every timestamp of every given signal appears
/// exactly once, in strictly increasing order.
pub fn merge_axis(signals: &Vec<Signal>) -> (out: Vec<i64>)
    ensures
        strictly_increasing(out@),
        forall|p: int| 0 < p < out@.len() ==> out@[p - 1] + 1 <= #[trigger] out@[p],
        forall|x: i64| #[trigger] out@.contains(x) <==> axis_member(signals@, x),
{
    let ghost gs: Seq<Signal> = signals@;
    let mut axis: Vec<i64> = Vec::new();
    let mut k: usize = 0;
    while k < signals.len()
        invariant
            gs == signals@,
            k <= gs.len(),
            strictly_increasing(axis@),
            forall|x: i64| #[trigger] axis@.contains(x) <==> in_scan(gs, k as int, 0, x),
        decreases gs.len() - k,
    {
        let sig: &Signal = &signals[k];
        let mut j: usize = 0;
        while j < sig.ts.len()
            invariant
                gs == signals@,
                k < gs.len(),
                sig == &gs[k as int],
                j <= sig.ts@.len(),
                strictly_increasing(axis@),
                forall|x: i64| #[trigger] axis@.contains(x) <==> in_scan(gs, k as int, j as int, x),
            decreases sig.ts@.len() - j,
        {
            let t: i64 = sig.ts[j];
            let ghost prev: Seq<i64> = axis@;
            insert_axis(&mut axis, t);
            proof {
                assert forall|x: i64| #[trigger] axis@.contains(x) <==> in_scan(
                    gs,
                    k as int,
                    j + 1 as int,
                    x,
                ) by {
                    if axis@.contains(x) {
                        if prev.contains(x) {
                            if !axis_member(gs.take(k as int), x) {
                                let j2: int = choose|j2: int|
                                    0 <= j2 < j && gs[k as int].ts@[j2] == x;
                                assert(0 <= j2 < j + 1 && gs[k as int].ts@[j2] == x);
                            }
                        } else {
                            assert(x == t);
                            assert(gs[k as int].ts@[j as int] == x);
                        }
                    }
                    if in_scan(gs, k as int, j + 1 as int, x) {
                        if !axis_member(gs.take(k as int), x) {
                            let j2: int = choose|j2: int|
                                0 <= j2 < j + 1 && gs[k as int].ts@[j2] == x;
                            if j2 == j {
                                assert(x == t);
                            } else {
                                assert(0 <= j2 < j && gs[k as int].ts@[j2] == x);
                                assert(in_scan(gs, k as int, j as int, x));
                            }
                        }
                    }
                }
            }
            j = j + 1;
        }
        proof {
            assert forall|x: i64| #[trigger] axis@.contains(x) <==> in_scan(
                gs,
                k + 1 as int,
                0,
                x,
            ) by {
                if axis@.contains(x) {
                    if axis_member(gs.take(k as int), x) {
                        let k2: int = choose|k2: int|
                            0 <= k2 < k && (#[trigger] gs.take(k as int)[k2].ts@).contains(x);
                        assert(gs.take(k + 1 as int)[k2].ts@.contains(x));
                        assert(axis_member(gs.take(k + 1 as int), x));
                    } else {
                        let j2: int = choose|j2: int|
                            0 <= j2 < sig.ts@.len() && gs[k as int].ts@[j2] == x;
                        assert(gs[k as int].ts@.contains(x));
                        assert(gs.take(k + 1 as int)[k as int].ts@.contains(x));
                        assert(axis_member(gs.take(k + 1 as int), x));
                    }
                }
                if axis_member(gs.take(k + 1 as int), x) {
                    let k2: int = choose|k2: int|
                        0 <= k2 < k + 1 && (#[trigger] gs.take(k + 1 as int)[k2].ts@).contains(x);
                    if k2 < k {
                        assert(gs.take(k as int)[k2].ts@.contains(x));
                        assert(axis_member(gs.take(k as int), x));
                    } else {
                        let j2: int = choose|j2: int|
                            0 <= j2 < gs[k as int].ts@.len() && gs[k as int].ts@[j2] == x;
                        assert(in_scan(gs, k as int, j2 + 1, x));
                        assert(gs[k as int].ts@[j2] == x);
                    }
                }
            }
        }
        k = k + 1;
    }
    proof {
        assert(gs.take(gs.len() as int) =~= gs);
    }
    axis
}

} // verus!
