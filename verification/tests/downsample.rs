use signal_resample::downsample::lttb;
use signal_resample::signal::Signal;

#[test]
fn downsample_identity_zero_threshold() {
    let sig = Signal {
        ts: vec![0, 1_000_000, 2_000_000, 3_000_000, 4_000_000],
        values: vec![0, 1_000_000, 0, -1_000_000, 0],
    };
    let out = lttb(&sig, 0);
    assert_eq!(out.ts, sig.ts);
    assert_eq!(out.values, sig.values);
}

#[test]
fn downsample_identity_large_threshold() {
    let sig = Signal {
        ts: vec![0, 1_000_000, 2_000_000, 3_000_000, 4_000_000],
        values: vec![0, 1_000_000, 0, -1_000_000, 0],
    };
    let out = lttb(&sig, 5);
    assert_eq!(out.ts, sig.ts);
    assert_eq!(out.values, sig.values);
    let out = lttb(&sig, 100);
    assert_eq!(out.ts, sig.ts);
    assert_eq!(out.values, sig.values);
}

#[test]
fn downsample_cardinality_and_endpoints() {
    let mut ts: Vec<i64> = Vec::new();
    let mut values: Vec<i64> = Vec::new();
    for i in 0..10i64 {
        ts.push(i * 1_000_000);
        values.push((i % 3) * 500_000);
    }
    let sig = Signal { ts, values };
    for threshold in 2..10usize {
        let out = lttb(&sig, threshold);
        assert_eq!(out.ts.len(), threshold);
        assert_eq!(out.values.len(), threshold);
        assert_eq!(out.ts[0], sig.ts[0]);
        assert_eq!(out.values[0], sig.values[0]);
        assert_eq!(out.ts[threshold - 1], sig.ts[9]);
        assert_eq!(out.values[threshold - 1], sig.values[9]);
    }
}

#[test]
fn downsample_keeps_the_peak() {
    // One bucket spans the three interior points; the peak at one second and
    // the dip at three seconds tie on triangle area, and the earlier wins.
    let sig = Signal {
        ts: vec![0, 1_000_000, 2_000_000, 3_000_000, 4_000_000],
        values: vec![0, 1_000_000, 0, -1_000_000, 0],
    };
    let out = lttb(&sig, 3);
    assert_eq!(out.ts, vec![0, 1_000_000, 4_000_000]);
    assert_eq!(out.values, vec![0, 1_000_000, 0]);
}

#[test]
fn downsample_two_point_budget() {
    let sig = Signal {
        ts: vec![0, 1_000_000, 2_000_000, 3_000_000, 4_000_000],
        values: vec![7, 8, 9, 10, 11],
    };
    let out = lttb(&sig, 2);
    assert_eq!(out.ts, vec![0, 4_000_000]);
    assert_eq!(out.values, vec![7, 11]);
}
