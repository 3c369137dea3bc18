use tak_bench::binary64::Binary64;
use tak_bench::duration::Duration;

fn samples() -> Vec<f64> {
    let mut values = vec![
        0.0,
        1.0,
        2.0,
        0.1,
        0.2,
        0.5,
        1.5,
        1000.0,
        1.0 / 3.0,
        10.0 / 3.0,
        f64::MIN_POSITIVE,
        f64::MIN_POSITIVE / 3.0,
        f64::from_bits(1),
        f64::from_bits(2),
        f64::MAX,
        f64::MAX / 3.0,
        1e300,
        1e-300,
        1e18,
        18_446_744_073_709_551_615.0,
    ];
    let mut state: u64 = 88_172_645_463_325_252;
    for _ in 0..200 {
        state ^= state << 13;
        state ^= state >> 7;
        state ^= state << 17;
        values.push(f64::from_bits(state % 0x7ff0_0000_0000_0000));
    }
    values
}

fn pattern(value: f64) -> Binary64 {
    Binary64 { bits: value.to_bits() }
}

#[test]
fn products_are_those_of_the_machine() {
    for a in samples() {
        for b in samples() {
            assert_eq!(pattern(a).times(&pattern(b)), pattern(a * b), "{a:e} * {b:e}");
        }
    }
}

#[test]
fn sums_are_those_of_the_machine() {
    for a in samples() {
        for b in samples() {
            assert_eq!(pattern(a).plus(&pattern(b)), pattern(a + b), "{a:e} + {b:e}");
        }
    }
}

#[test]
fn reciprocals_are_those_of_the_machine() {
    for a in samples() {
        if a > 0.0 {
            assert_eq!(pattern(a).reciprocal(), pattern(1.0 / a), "1 / {a:e}");
        }
    }
}

#[test]
fn quotients_and_integers_are_those_of_the_machine() {
    for num in [0_u32, 1, 2, 3, 10, 95, 99, 1_000_003, u32::MAX - 1, u32::MAX] {
        for den in [1_u32, 2, 3, 7, 100, 1000, 1_000_000_000, u32::MAX] {
            assert_eq!(
                Binary64::from_ratio(num, den),
                pattern(f64::from(num) / f64::from(den))
            );
        }
    }
    for value in [0_u64, 1, 3, (1 << 53) - 1, (1 << 53) + 1, (1 << 54) + 2, u64::MAX - 1, u64::MAX] {
        assert_eq!(Binary64::from_u64(value), pattern(value as f64));
    }
}

#[test]
fn comparisons_are_those_of_the_machine() {
    let mut values = samples();
    values.extend([-0.0, -1.0, -1e300, f64::INFINITY, f64::NEG_INFINITY, f64::NAN]);
    for a in &values {
        for b in &values {
            assert_eq!(pattern(*a).exceeds(&pattern(*b)), a > b);
        }
    }
}

#[test]
fn rounded_multiples_go_to_the_nearest_and_ties_to_even() {
    assert_eq!(pattern(0.125).times_rounded(100), 12);
    assert_eq!(pattern(0.375).times_rounded(100), 38);
    assert_eq!(pattern(0.126).times_rounded(100), 13);
    assert_eq!(pattern(1.5).times_rounded(1_000_000_000), 1_500_000_000);
    assert_eq!(pattern(f64::from_bits(1)).times_rounded(u32::MAX), 0);
}

#[test]
fn spans_scale_as_those_of_the_standard_library() {
    let spans = [
        std::time::Duration::ZERO,
        std::time::Duration::from_nanos(1),
        std::time::Duration::from_millis(250),
        std::time::Duration::from_secs(10),
        std::time::Duration::new(12_345, 678_901_234),
        std::time::Duration::new(u64::MAX / 4, 999_999_999),
    ];
    let factors = [
        0.0,
        -0.0,
        0.5,
        0.8,
        1.0 / 3.0,
        2.0 / 3.0,
        0.999_999_999,
        1.0,
        1.2,
        2.0,
        3.999,
    ];
    for span in spans {
        let own = Duration::from_total_nanos(span.as_nanos()).unwrap();
        assert_eq!(own.as_secs_binary64(), pattern(span.as_secs_f64()));
        for factor in factors {
            let scaled = own.mul_binary64(&pattern(factor)).unwrap();
            assert_eq!(scaled.as_nanos(), span.mul_f64(factor).as_nanos(), "{span:?} * {factor}");
        }
    }
    let long = Duration::from_secs(u64::MAX);
    assert!(long.mul_binary64(&pattern(2.0)).is_none());
    assert!(long.mul_binary64(&pattern(-1.0)).is_none());
    assert!(long.mul_binary64(&pattern(f64::NAN)).is_none());
}

#[test]
fn rates_become_spans() {
    for rate in [1.0, 0.1, 3.0, 1e9, 1e-9, 7.25] {
        assert_eq!(
            Duration::between_events(&pattern(rate)).unwrap().as_nanos(),
            std::time::Duration::from_secs_f64(1.0 / rate).as_nanos()
        );
    }
    assert!(Duration::between_events(&pattern(2.0_f64.powi(-64))).is_none());
}

#[test]
fn spans_saturate() {
    let most = std::time::Duration::MAX.as_nanos();
    assert_eq!(Duration::longest().as_nanos(), most);
    assert!(Duration::from_total_nanos(most + 1).is_none());
    assert_eq!(Duration::from_secs(u64::MAX).saturating_mul(2).as_nanos(), most);
    assert_eq!(Duration::from_secs(3).saturating_mul(2), Duration::from_secs(6));
    assert_eq!(
        Duration::from_secs(3).saturating_sub(Duration::from_secs(5)),
        Duration::zero()
    );
    assert_eq!(Duration::from_millis(1_500).as_secs(), 1);
    assert_eq!(Duration::from_millis(1_500).subsec_nanos(), 500_000_000);
    assert_eq!(Duration::from_micros(1_500).as_millis(), 1);
    assert_eq!(Duration::from_nanos(1_500).as_micros(), 1);
    assert_eq!(
        Duration::from_secs(1).min(Duration::from_millis(2)),
        Duration::from_millis(2)
    );
    assert_eq!(
        Duration::from_secs(1).max(Duration::from_millis(2)),
        Duration::from_secs(1)
    );
}
