use signal_resample::aggregate::{find_last_and_sum, held_value};
use signal_resample::axis::merge_axis;
use signal_resample::signal::Signal;

#[test]
fn forward_fill_between_samples() {
    // Timestamps zero to four seconds, values 0, 1, 0, -1, 0 in millionths:
    // at 1.5 seconds the last sample at or before is the one at 1 second.
    let sig = Signal {
        ts: vec![0, 1_000_000, 2_000_000, 3_000_000, 4_000_000],
        values: vec![0, 1_000_000, 0, -1_000_000, 0],
    };
    assert_eq!(held_value(&sig, 1_500_000), 1_000_000);
}

#[test]
fn forward_fill_before_first_sample() {
    let sig = Signal {
        ts: vec![0, 1_000_000, 2_000_000, 3_000_000, 4_000_000],
        values: vec![0, 1_000_000, 0, -1_000_000, 0],
    };
    assert_eq!(held_value(&sig, -1_000_000), 0);
}

#[test]
fn forward_fill_exact_match() {
    let sig = Signal {
        ts: vec![0, 1_000_000, 2_000_000, 3_000_000, 4_000_000],
        values: vec![0, 1_000_000, 0, -1_000_000, 0],
    };
    assert_eq!(held_value(&sig, 3_000_000), -1_000_000);
    assert_eq!(held_value(&sig, 0), 0);
    assert_eq!(held_value(&sig, 9_000_000), 0);
}

#[test]
fn sum_is_linear_in_the_signals() {
    let a = Signal {
        ts: vec![0, 1_000_000, 2_000_000, 3_000_000, 4_000_000],
        values: vec![0, 1_000_000, 0, -1_000_000, 0],
    };
    let b = Signal {
        ts: vec![0, 1_500_000, 3_000_000, 4_500_000],
        values: vec![1_000_000, 500_000, -500_000, -1_000_000],
    };
    let axis: Vec<i64> = vec![-500_000, 0, 1_250_000, 2_500_000, 4_500_000, 6_000_000];
    let both = find_last_and_sum(&vec![copy_of(&a), copy_of(&b)], &axis);
    let only_a = find_last_and_sum(&vec![copy_of(&a)], &axis);
    let only_b = find_last_and_sum(&vec![copy_of(&b)], &axis);
    for p in 0..axis.len() {
        assert_eq!(both[p], only_a[p] + only_b[p]);
    }
}

fn copy_of(sig: &Signal) -> Signal {
    Signal { ts: sig.ts.clone(), values: sig.values.clone() }
}

#[test]
fn invalid_signal_contributes_nothing() {
    let good = Signal {
        ts: vec![0, 2_000_000],
        values: vec![5, 7],
    };
    let bad = Signal {
        ts: vec![0, 1_000_000, 2_000_000],
        values: vec![1, 2],
    };
    let axis: Vec<i64> = vec![0, 1_000_000, 2_000_000];
    let sums = find_last_and_sum(&vec![bad, good], &axis);
    assert_eq!(sums, vec![5, 5, 7]);
}

#[test]
fn merged_axis_is_strictly_increasing() {
    let a = Signal {
        ts: vec![0, 1_000_000, 4_000_000],
        values: vec![0, 0, 0],
    };
    let b = Signal {
        ts: vec![0, 1_000_001, 4_000_000, 9_000_000],
        values: vec![0, 0, 0, 0],
    };
    let axis = merge_axis(&vec![a, b]);
    assert_eq!(axis, vec![0, 1_000_000, 1_000_001, 4_000_000, 9_000_000]);
    for p in 1..axis.len() {
        assert!(axis[p] - axis[p - 1] >= 1);
    }
}

#[test]
fn merged_axis_collapses_duplicates() {
    // Two real timestamps closer than the microsecond grid land on the same
    // grid point before they ever reach the library, so equal entries here
    // stand for timestamps within the collapse tolerance.
    let a = Signal {
        ts: vec![2_000_000, 2_000_000, 3_000_000],
        values: vec![1, 2, 3],
    };
    let b = Signal {
        ts: vec![3_000_000],
        values: vec![9],
    };
    let axis = merge_axis(&vec![a, b]);
    assert_eq!(axis, vec![2_000_000, 3_000_000]);
}
