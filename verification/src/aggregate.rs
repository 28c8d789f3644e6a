use vstd::prelude::*;

verus! {

use crate::signal::{Signal, sorted_seq};
use vstd::arithmetic::mul::lemma_mul_inequality;

// ----------------------------------------------------------------------------
// Forward-fill: the value a signal holds at an arbitrary timestamp is its
// latest sample at or before that timestamp; before its first sample the
// signal is treated as absent and holds zero.  Values are held, never
// interpolated.
// ----------------------------------------------------------------------------

/// How many timestamps of `ts` are at or before `t`, assuming `ts` is sorted:
/// the insertion point past every sample that `t` has reached.
pub open spec fn rank(ts: Seq<i64>, t: i64) -> int
    decreases ts.len(),
{
    if ts.len() == 0 {
        0
    } else if ts[ts.len() - 1] <= t {
        ts.len() as int
    } else {
        rank(ts.drop_last(), t)
    }
}

/// The value `sig` holds at `t`: its latest sample at or before `t`, or zero
/// when `t` precedes every sample.
pub open spec fn held_at(sig: Signal, t: i64) -> int {
    let r: int = rank(sig.ts@, t);
    if r == 0 {
        0
    } else {
        sig.values@[r - 1] as int
    }
}

/// Sum, over a list of signals, of the value each holds at `t`.  A signal
/// whose shape is off — empty, or with unpaired timestamps and values — is
/// left out of the sum rather than poisoning it.
pub open spec fn sum_at(sigs: Seq<Signal>, t: i64) -> int
    decreases sigs.len(),
{
    if sigs.len() == 0 {
        0
    } else {
        sum_at(sigs.drop_last(), t) + (if sigs.last().valid() {
            held_at(sigs.last(), t)
        } else {
            0
        })
    }
}

/// On a sorted sequence, `rank` splits the indices: everything before it is
/// at or before `t`, everything from it on is after `t`.
pub proof fn lemma_rank_splits(ts: Seq<i64>, t: i64)
    requires
        sorted_seq(ts),
    ensures
        0 <= rank(ts, t) <= ts.len(),
        forall|i: int| 0 <= i < rank(ts, t) ==> ts[i] <= t,
        forall|i: int| rank(ts, t) <= i < ts.len() ==> !(ts[i] <= t),
    decreases ts.len(),
{
    if ts.len() > 0 && !(ts[ts.len() - 1] <= t) {
        assert(sorted_seq(ts.drop_last())) by {
            assert(forall|i: int, j: int|
                0 <= i <= j < ts.drop_last().len() ==> ts.drop_last()[i] == ts[i]
                    && ts.drop_last()[j] == ts[j]);
        }
        lemma_rank_splits(ts.drop_last(), t);
        assert forall|i: int| 0 <= i < rank(ts, t) implies ts[i] <= t by {
            assert(ts.drop_last()[i] <= t);
            assert(ts.drop_last()[i] == ts[i]);
        }
        assert forall|i: int| rank(ts, t) <= i < ts.len() implies !(ts[i] <= t) by {
            if i < ts.len() - 1 {
                assert(!(ts.drop_last()[i] <= t));
                assert(ts.drop_last()[i] == ts[i]);
            }
        }
    }
}

/// Latest sample of `signal` at or before `t`, found by binary search;
/// zero when `t` precedes the whole signal.
pub fn held_value(signal: &Signal, t: i64) -> (v: i64)
    requires
        signal.valid(),
        signal.ts_sorted(),
    ensures
        v as int == held_at(*signal, t),
{
    proof {
        lemma_rank_splits(signal.ts@, t);
    }
    let ghost r: int = rank(signal.ts@, t);
    let mut lo: usize = 0;
    let mut hi: usize = signal.ts.len();
    while lo < hi
        invariant
            signal.valid(),
            lo <= hi <= signal.ts@.len(),
            lo <= r <= hi,
            r == rank(signal.ts@, t),
            forall|i: int| 0 <= i < r ==> signal.ts@[i] <= t,
            forall|i: int| r <= i < signal.ts@.len() ==> !(signal.ts@[i] <= t),
        decreases hi - lo,
    {
        let mid: usize = lo + (hi - lo) / 2;
        if signal.ts[mid] <= t {
            lo = mid + 1;
        } else {
            hi = mid;
        }
    }
    if lo == 0 {
        0
    } else {
        signal.values[lo - 1]
    }
}

/// The sum a list of `k` signals holds anywhere fits in `k` steps of the
/// value range: the accumulator can never leave `i128`.
proof fn lemma_sum_at_bound(sigs: Seq<Signal>, t: i64)
    ensures
        -(sigs.len() * 0x8000_0000_0000_0000) <= sum_at(sigs, t)
            <= sigs.len() * 0x8000_0000_0000_0000,
    decreases sigs.len(),
{
    if sigs.len() > 0 {
        lemma_sum_at_bound(sigs.drop_last(), t);
        assert(sigs.len() * 0x8000_0000_0000_0000 == (sigs.len() - 1) * 0x8000_0000_0000_0000
            + 0x8000_0000_0000_0000) by (nonlinear_arith);
    }
}

/// Evaluating-and-summing is linear in the list of signals: the sum held by a
/// concatenation of two lists is the sum held by one plus the sum held by the
/// other, at every timestamp.
pub proof fn lemma_sum_at_linear(left: Seq<Signal>, right: Seq<Signal>, t: i64)
    ensures
        sum_at(left + right, t) == sum_at(left, t) + sum_at(right, t),
    decreases right.len(),
{
    if right.len() == 0 {
        assert(left + right =~= left);
    } else {
        lemma_sum_at_linear(left, right.drop_last(), t);
        assert((left + right).drop_last() =~= left + right.drop_last());
        assert((left + right).last() == right.last());
    }
}

/// For every timestamp of `axis`, the sum across `signals` of the value each
/// one holds there.  Signals with unpaired or empty data are skipped: they
/// contribute zero everywhere.  The sums are exact: they are accumulated in
/// `i128`, which a sum of `i64` values cannot overflow.
pub fn find_last_and_sum(signals: &Vec<Signal>, axis: &Vec<i64>) -> (sums: Vec<i128>)
    requires
        forall|k: int|
            0 <= k < signals@.len() && (#[trigger] signals@[k]).valid()
                ==> signals@[k].ts_sorted(),
    ensures
        sums@.len() == axis@.len(),
        forall|p: int| 0 <= p < axis@.len() ==> sums@[p] as int == sum_at(signals@, axis@[p]),
{
    let mut sums: Vec<i128> = Vec::new();
    let mut p: usize = 0;
    while p < axis.len()
        invariant
            p <= axis@.len(),
            sums@.len() == p,
            forall|q: int| 0 <= q < p ==> sums@[q] == 0,
        decreases axis@.len() - p,
    {
        sums.push(0);
        p = p + 1;
    }
    let mut k: usize = 0;
    while k < signals.len()
        invariant
            k <= signals@.len(),
            sums@.len() == axis@.len(),
            forall|k2: int|
                0 <= k2 < signals@.len() && (#[trigger] signals@[k2]).valid()
                    ==> signals@[k2].ts_sorted(),
            forall|q: int|
                0 <= q < axis@.len()
                    ==> sums@[q] as int == sum_at(signals@.take(k as int), axis@[q]),
        decreases signals@.len() - k,
    {
        let sig: &Signal = &signals[k];
        if sig.ts.len() > 0 && sig.ts.len() == sig.values.len() {
            let mut p: usize = 0;
            while p < axis.len()
                invariant
                    k < signals@.len(),
                    sig == &signals@[k as int],
                    sig.valid(),
                    sig.ts_sorted(),
                    p <= axis@.len(),
                    sums@.len() == axis@.len(),
                    forall|q: int|
                        0 <= q < p ==> sums@[q] as int == sum_at(
                            signals@.take(k + 1 as int),
                            axis@[q],
                        ),
                    forall|q: int|
                        p <= q < axis@.len() ==> sums@[q] as int == sum_at(
                            signals@.take(k as int),
                            axis@[q],
                        ),
                decreases axis@.len() - p,
            {
                let hv: i64 = held_value(sig, axis[p]);
                let cur: i128 = sums[p];
                proof {
                    lemma_sum_at_bound(signals@.take(k as int), axis@[p as int]);
                    lemma_mul_inequality(
                        k as int,
                        0xffff_ffff_ffff_ffff,
                        0x8000_0000_0000_0000,
                    );
                    assert(signals@.take(k + 1 as int).drop_last() =~= signals@.take(k as int));
                    assert(signals@.take(k + 1 as int).last() == signals@[k as int]);
                }
                sums.set(p, cur + (hv as i128));
                p = p + 1;
            }
        } else {
            proof {
                assert forall|q: int| 0 <= q < axis@.len() implies sums@[q] as int == sum_at(
                    signals@.take(k + 1 as int),
                    axis@[q],
                ) by {
                    assert(signals@.take(k + 1 as int).drop_last() =~= signals@.take(k as int));
                    assert(signals@.take(k + 1 as int).last() == signals@[k as int]);
                    assert(!signals@[k as int].valid());
                }
            }
        }
        k = k + 1;
    }
    proof {
        assert(signals@.take(signals@.len() as int) =~= signals@);
    }
    sums
}

} // verus!
