use signal_resample::pipeline::process_multiple_signals;
use signal_resample::signal::Signal;

fn signal_a() -> Signal {
    Signal {
        ts: vec![0, 1_000_000, 2_000_000, 3_000_000, 4_000_000],
        values: vec![0, 1_000_000, 0, -1_000_000, 0],
    }
}

fn signal_b() -> Signal {
    Signal {
        ts: vec![0, 1_500_000, 3_000_000, 4_500_000],
        values: vec![1_000_000, 500_000, -500_000, -1_000_000],
    }
}

#[test]
fn end_to_end_two_signals() {
    // Downsampling A to three points keeps 0, 1 and 4 seconds; B keeps
    // 0, 1.5 and 4.5 seconds.  The merged axis is the deduplicated union,
    // and each output value is the forward-filled sum of A and B there.
    let out = process_multiple_signals(&vec![signal_a(), signal_b()], 3);
    assert_eq!(out.ts, vec![0, 1_000_000, 1_500_000, 4_000_000, 4_500_000]);
    assert_eq!(
        out.values,
        vec![1_000_000, 2_000_000, 1_500_000, -500_000, -1_000_000]
    );
}

#[test]
fn invalid_signal_does_not_abort_the_batch() {
    let bad = Signal {
        ts: vec![0, 1_000_000, 2_000_000],
        values: vec![1, 2],
    };
    let out = process_multiple_signals(&vec![signal_a(), bad, signal_b()], 3);
    assert_eq!(out.ts, vec![0, 1_000_000, 1_500_000, 4_000_000, 4_500_000]);
    assert_eq!(
        out.values,
        vec![1_000_000, 2_000_000, 1_500_000, -500_000, -1_000_000]
    );
}

#[test]
fn all_invalid_yields_empty_result() {
    let empty = Signal { ts: vec![], values: vec![] };
    let bad = Signal { ts: vec![0], values: vec![] };
    let out = process_multiple_signals(&vec![empty, bad], 3);
    assert_eq!(out.ts.len(), 0);
    assert_eq!(out.values.len(), 0);
}

#[test]
fn low_thresholds_are_raised_to_two() {
    // A threshold at or below one cannot keep both endpoints, so it is
    // normalized to two: every signal reduces to its endpoints.
    let expected_ts: Vec<i64> = vec![0, 4_000_000, 4_500_000];
    let expected_values: Vec<i64> = vec![1_000_000, -500_000, -1_000_000];
    for threshold in [-5, 0, 1, 2] {
        let out = process_multiple_signals(&vec![signal_a(), signal_b()], threshold);
        assert_eq!(out.ts, expected_ts);
        assert_eq!(out.values, expected_values);
    }
}

#[test]
fn unrepresentable_sums_are_dropped() {
    // Four signals each holding the largest coordinate the downsampler
    // accepts: their sum leaves the value range, so the point is dropped.
    let mut signals: Vec<Signal> = Vec::new();
    for _ in 0..4 {
        signals.push(Signal {
            ts: vec![0],
            values: vec![0x2000_0000_0000_0000],
        });
    }
    let out = process_multiple_signals(&signals, 3);
    assert_eq!(out.ts.len(), 0);
    assert_eq!(out.values.len(), 0);
}

#[test]
fn single_signal_full_resolution() {
    // A threshold at least the length leaves the signal whole, and a batch
    // of one sums to the signal's own held values.
    let out = process_multiple_signals(&vec![signal_b()], 10);
    assert_eq!(out.ts, vec![0, 1_500_000, 3_000_000, 4_500_000]);
    assert_eq!(out.values, vec![1_000_000, 500_000, -500_000, -1_000_000]);
}
