use latency_ladder::pipeline::hist::LINEAR_LIMIT;
use latency_ladder::pipeline::Histogram;

fn quantile(h: &Histogram, q: f64) -> u64 {
    h.quantile((q * 10_000.0).round() as u64)
}

fn mean(h: &Histogram) -> f64 {
    if h.count() == 0 {
        0.0
    } else {
        h.sum() as f64 / h.count() as f64
    }
}

/// Exact quantile by sorting, to check the histogram against.
fn exact(values: &mut [u64], q: f64) -> u64 {
    values.sort_unstable();
    let rank = (q * values.len() as f64).ceil().max(1.0) as usize;
    values[rank - 1]
}

#[test]
fn small_values_are_exact() {
    let mut h = Histogram::new();
    for v in 0..LINEAR_LIMIT {
        h.record(v);
    }
    // Below the linear limit every value has its own counter, so quantiles
    // must be exact, not approximate.
    assert_eq!(quantile(&h, 0.0), 0);
    assert_eq!(quantile(&h, 0.5), LINEAR_LIMIT / 2 - 1);
    assert_eq!(quantile(&h, 1.0), LINEAR_LIMIT - 1);
    assert_eq!(h.count(), LINEAR_LIMIT);
}

#[test]
fn a_single_value_reports_itself_at_every_quantile() {
    for v in [1u64, 999, 4096, 100_000, 1_000_000_000] {
        let mut h = Histogram::new();
        h.record(v);
        for q in [0.0, 0.5, 0.99, 1.0] {
            let got = quantile(&h, q);
            let err = (v as f64 - got as f64).abs() / v as f64;
            assert!(err <= 0.001, "v={v} q={q} got={got} rel err {err}");
        }
    }
}

/// The property that matters: a reported quantile is within the histogram's
/// stated relative precision of the true one, across a wide dynamic range.
#[test]
fn quantiles_match_brute_force_within_precision() {
    let mut h = Histogram::new();
    let mut raw = Vec::new();
    // Deterministic spread over five orders of magnitude, so the check
    // exercises the linear region and many exponents.
    let mut state = 0x243F_6A88_85A3_08D3u64;
    for _ in 0..200_000 {
        state ^= state << 13;
        state ^= state >> 7;
        state ^= state << 17;
        let v = 20 + (state % 2_000_000);
        h.record(v);
        raw.push(v);
    }
    for q in [0.0, 0.01, 0.5, 0.9, 0.99, 0.999, 1.0] {
        let want = exact(&mut raw, q);
        let got = quantile(&h, q);
        let err = (want as f64 - got as f64).abs() / want as f64;
        assert!(
            err <= 0.001,
            "q={q}: exact {want}, histogram {got}, rel err {err}"
        );
    }
}

/// The bug this project already hit once: a saturating histogram reporting
/// its own bucket count as a fact about the world.
#[test]
fn out_of_range_values_overflow_rather_than_clamp() {
    let mut h = Histogram::new();
    h.record(1_000);
    h.record(u64::MAX);
    assert_eq!(h.overflows(), 1, "the huge value must be counted apart");
    assert_eq!(quantile(&h, 0.0), 1_000);
    assert_eq!(
        quantile(&h, 1.0),
        u64::MAX,
        "a quantile in the overflow bucket must refuse to invent a value"
    );
    assert_eq!(h.max(), u64::MAX, "max still tracks the real extreme");
}

#[test]
fn empty_histogram_reports_nothing_rather_than_panicking() {
    let h = Histogram::new();
    assert_eq!(h.count(), 0);
    assert_eq!(quantile(&h, 0.5), 0);
    assert_eq!(mean(&h), 0.0);
    assert_eq!(h.min(), 0);
}

#[test]
fn merge_is_equivalent_to_recording_into_one() {
    let mut a = Histogram::new();
    let mut b = Histogram::new();
    let mut both = Histogram::new();
    for v in 1..5_000u64 {
        if v % 2 == 0 {
            a.record(v);
        } else {
            b.record(v);
        }
        both.record(v);
    }
    a.merge(&b);
    assert_eq!(a.count(), both.count());
    for q in [0.5, 0.9, 0.99, 1.0] {
        assert_eq!(quantile(&a, q), quantile(&both, q), "q={q}");
    }
}

/// `bucket_low` must be the true inverse of `index`, or every reported
/// quantile is off by a bucket in a way no other test would notice.
#[test]
fn bucket_low_round_trips_through_index() {
    for v in [
        0u64,
        1,
        2047,
        2048,
        2049,
        4095,
        4096,
        10_000,
        1_000_000,
        1_000_000_000,
    ] {
        let i = Histogram::index(v).expect("in range");
        let low = Histogram::bucket_low(i);
        assert!(low <= v, "bucket low {low} must not exceed the value {v}");
        assert_eq!(
            Histogram::index(low),
            Some(i),
            "value {v} -> index {i} -> low {low} must map back to {i}"
        );
    }
}
