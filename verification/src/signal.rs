use vstd::prelude::*;

verus! {

/// Bound on every timestamp and value of a signal that is fed to the
/// downsampler.  Coordinates are kept within `2^61` so that the triangle-area
/// comparison, a difference of two products of coordinate differences, stays
/// inside `i128` (see `downsample`).
pub const COORD_LIMIT: i64 = 0x2000_0000_0000_0000;

/// One sampled series: a timestamp for each value, paired by index.
///
/// Timestamps live on an integer grid with one microsecond per step: two real
/// times closer than `1e-6` seconds land on the same grid point, which is how
/// near-duplicate timestamps are collapsed when axes are merged.  Values are
/// fixed-point integers in whatever scale the caller chooses; the library
/// never rescales them.
pub struct Signal {
    pub ts: Vec<i64>,
    pub values: Vec<i64>,
}

impl Signal {
    /// A signal that may take part in aggregation: as many timestamps as
    /// values, and at least one sample.  Anything else is skipped, never an
    /// error.
    pub open spec fn valid(self) -> bool {
        &&& self.ts@.len() == self.values@.len()
        &&& self.ts@.len() > 0
    }

    /// Timestamps in non-decreasing order.  Equal neighbours are allowed:
    /// they arise when two close timestamps collapse onto one grid point.
    pub open spec fn ts_sorted(self) -> bool {
        sorted_seq(self.ts@)
    }

    /// Every coordinate within the fixed-point range of the downsampler.
    pub open spec fn bounded(self) -> bool {
        bounded_seq(self.ts@) && bounded_seq(self.values@)
    }
}

/// Entries in non-decreasing order.
pub open spec fn sorted_seq(s: Seq<i64>) -> bool {
    forall|i: int, j: int| 0 <= i <= j < s.len() ==> s[i] <= s[j]
}

/// Every entry of `s` lies in `[-COORD_LIMIT, COORD_LIMIT]`.
pub open spec fn bounded_seq(s: Seq<i64>) -> bool {
    forall|i: int| 0 <= i < s.len() ==> -COORD_LIMIT <= #[trigger] s[i] <= COORD_LIMIT
}

/// Element-by-element copy of a vector of timestamps or values.
pub fn copy_points(v: &Vec<i64>) -> (out: Vec<i64>)
    ensures
        out@ == v@,
{
    let mut out: Vec<i64> = Vec::new();
    let mut i: usize = 0;
    while i < v.len()
        invariant
            i <= v.len(),
            out@ == v@.take(i as int),
        decreases v.len() - i,
    {
        out.push(v[i]);
        proof {
            assert(out@ =~= v@.take(i + 1 as int));
        }
        i = i + 1;
    }
    proof {
        assert(v@.take(v@.len() as int) =~= v@);
    }
    out
}

/// A fresh signal with the same timestamps and values as `sig`.
pub fn copy_signal(sig: &Signal) -> (out: Signal)
    ensures
        out.ts@ == sig.ts@,
        out.values@ == sig.values@,
{
    Signal { ts: copy_points(&sig.ts), values: copy_points(&sig.values) }
}

} // verus!
