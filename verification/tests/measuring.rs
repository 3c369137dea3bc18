use tak_bench::binary64::Binary64;
use tak_bench::config::{AbortConfig, RampStep, RampStrategy, SchedulerConfig};
use tak_bench::duration::Duration;
use tak_bench::metrics::{raise, Metrics, MetricsSnapshot, VALUE_END};
use tak_bench::scheduler::{start_delays, SchedulerError};
use tak_bench::thresholds::{evaluate, ThresholdViolation};

fn pattern(value: f64) -> Binary64 {
    Binary64 { bits: value.to_bits() }
}

#[test]
fn message_timeouts_and_drops_trigger_thresholds() {
    let message_snapshot = MetricsSnapshot {
        sent_messages: 10,
        message_timeouts: 2,
        ..MetricsSnapshot::default()
    };
    assert_eq!(
        evaluate(
            &AbortConfig {
                message_error_rate: Some(pattern(0.1)),
                ..AbortConfig::default()
            },
            &message_snapshot,
        ),
        Some(ThresholdViolation::MessageErrorRate(pattern(0.2)))
    );

    let drop_snapshot = MetricsSnapshot {
        sent_messages: 1,
        dropped_messages: 1,
        ..MetricsSnapshot::default()
    };
    assert_eq!(
        evaluate(
            &AbortConfig {
                max_dropped_messages: Some(0),
                ..AbortConfig::default()
            },
            &drop_snapshot,
        ),
        Some(ThresholdViolation::DroppedMessages(1))
    );
}

#[test]
fn connection_errors_trigger_thresholds() {
    let snapshot = MetricsSnapshot {
        connection_attempts: 3,
        connection_failures: 1,
        ..MetricsSnapshot::default()
    };
    let config = |limit: f64| AbortConfig {
        connection_error_rate: Some(pattern(limit)),
        ..AbortConfig::default()
    };
    assert_eq!(
        evaluate(&config(0.3), &snapshot),
        Some(ThresholdViolation::ConnectionErrorRate(pattern(1.0 / 3.0)))
    );
    assert_eq!(evaluate(&config(1.0 / 3.0), &snapshot), None);
    let patient = AbortConfig { min_samples: Some(4), ..config(0.3) };
    assert_eq!(evaluate(&patient, &snapshot), None);
    assert_eq!(evaluate(&config(f64::NAN), &snapshot), None);
}

#[test]
fn latencies_trigger_thresholds() {
    let snapshot = MetricsSnapshot {
        sent_messages: 1,
        delivery_p95_ms: Some(pattern(100.5)),
        delivery_p99_ms: Some(pattern(200.5)),
        ..MetricsSnapshot::default()
    };
    let config = |p95: u64, p99: u64| AbortConfig {
        p95_latency: Some(Duration::from_millis(p95)),
        p99_latency: Some(Duration::from_millis(p99)),
        ..AbortConfig::default()
    };
    assert_eq!(
        evaluate(&config(100, 200), &snapshot),
        Some(ThresholdViolation::P95Latency(pattern(100.5)))
    );
    assert_eq!(
        evaluate(&config(101, 200), &snapshot),
        Some(ThresholdViolation::P99Latency(pattern(200.5)))
    );
    assert_eq!(evaluate(&config(101, 201), &snapshot), None);
}

#[test]
fn nothing_is_judged_without_samples_or_thresholds() {
    let idle = MetricsSnapshot { dropped_messages: 5, ..MetricsSnapshot::default() };
    let strict = AbortConfig { max_dropped_messages: Some(0), ..AbortConfig::default() };
    assert_eq!(evaluate(&strict, &idle), None);
    let eager = AbortConfig { min_samples: Some(0), ..strict };
    assert_eq!(
        evaluate(&eager, &idle),
        Some(ThresholdViolation::DroppedMessages(5))
    );
    let busy = MetricsSnapshot { sent_messages: 1, ..idle };
    assert_eq!(evaluate(&AbortConfig::default(), &busy), None);
}

#[test]
fn violations_are_put_into_words() {
    assert_eq!(
        ThresholdViolation::MessageErrorRate(pattern(0.2)).reason("0.2"),
        "threshold:MessageErrorRate(0.2)"
    );
    assert_eq!(
        ThresholdViolation::DroppedMessages(12).reason("unused"),
        "threshold:DroppedMessages(12)"
    );
    assert_eq!(
        ThresholdViolation::ConnectionErrorRate(pattern(1.0)).reason("1.0"),
        "threshold:ConnectionErrorRate(1.0)"
    );
    assert_eq!(
        ThresholdViolation::P95Latency(pattern(1.0)).reason("1.0"),
        "threshold:P95Latency(1.0)"
    );
    assert_eq!(
        ThresholdViolation::P99Latency(pattern(1.0)).reason("1.0"),
        "threshold:P99Latency(1.0)"
    );
}

#[test]
fn nothing_recorded_reports_no_percentiles() {
    assert_eq!(Metrics::new().snapshot(), MetricsSnapshot::default());
}

#[test]
fn percentiles_are_those_of_recorded_latencies() {
    let mut metrics = Metrics::new();
    for micros in 1..=100 {
        metrics.record_delivery(Duration::from_micros(micros));
    }
    metrics.record_handshake(Duration::from_micros(2_050));
    metrics.record_handshake(Duration::from_micros(2_051));
    metrics.record_recovery(Duration::zero());
    let snapshot = metrics.snapshot();
    assert_eq!(snapshot.delivery_p50_ms, Some(pattern(0.05)));
    assert_eq!(snapshot.delivery_p95_ms, Some(pattern(0.095)));
    assert_eq!(snapshot.delivery_p99_ms, Some(pattern(0.099)));
    assert_eq!(snapshot.handshake_p50_ms, Some(pattern(2.051)));
    assert_eq!(snapshot.handshake_p95_ms, Some(pattern(2.051)));
    assert_eq!(snapshot.recovery_p95_ms, Some(pattern(0.001)));
}

#[test]
fn latencies_are_told_apart_to_three_digits() {
    let mut metrics = Metrics::new();
    metrics.record_delivery(Duration::from_micros(1_000_000));
    let expected = f64::from(1_000_000 / 512 * 512 + 511) / 1_000.0;
    assert_eq!(metrics.snapshot().delivery_p50_ms, Some(pattern(expected)));
}

#[test]
fn latencies_beyond_the_histogram_are_left_out() {
    let mut metrics = Metrics::new();
    metrics.record_delivery(Duration::from_micros(VALUE_END));
    assert_eq!(metrics.snapshot().delivery_p50_ms, None);
    metrics.record_delivery(Duration::from_micros(VALUE_END - 1));
    assert_eq!(
        metrics.snapshot().delivery_p50_ms,
        Some(pattern((VALUE_END - 1) as f64 / 1_000.0))
    );
}

#[test]
fn percentiles_are_ordered() {
    let mut metrics = Metrics::new();
    let mut state: u64 = 88_172_645_463_325_252;
    for _ in 0..500 {
        state ^= state << 13;
        state ^= state >> 7;
        state ^= state << 17;
        metrics.record_delivery(Duration::from_micros(state % 5_000_000));
        let snapshot = metrics.snapshot();
        let p50 = snapshot.delivery_p50_ms.unwrap();
        let p95 = snapshot.delivery_p95_ms.unwrap();
        let p99 = snapshot.delivery_p99_ms.unwrap();
        assert!(!p50.exceeds(&p95) && !p95.exceeds(&p99));
    }
}

#[test]
fn counters_start_anew_past_their_largest_value() {
    assert_eq!(raise(5, 3), 8);
    assert_eq!(raise(u64::MAX, 1), 0);
    assert_eq!(raise(u64::MAX - 1, 5), 3);
}

#[test]
fn linear_spreads_clients() {
    let scheduler = SchedulerConfig {
        strategy: RampStrategy::Linear,
        ramp_up: Duration::from_secs(10),
        ..SchedulerConfig::default()
    };
    let exactly = |seconds: f64| {
        Duration::from_total_nanos(std::time::Duration::from_secs_f64(seconds).as_nanos()).unwrap()
    };
    assert_eq!(
        start_delays(3, &scheduler).unwrap(),
        vec![
            Duration::zero(),
            exactly(10.0 / 3.0),
            exactly(20.0 / 3.0)
        ]
    );
}

#[test]
fn linear_ramps_stay_within_their_length() {
    let spans = [
        Duration::zero(),
        Duration::from_nanos(1),
        Duration::from_nanos(999_999_999),
        Duration::from_secs(60),
        Duration::from_nanos(u64::MAX),
        Duration::longest(),
    ];
    for ramp_up in spans {
        for strategy in [RampStrategy::Linear, RampStrategy::Randomized] {
            let scheduler = SchedulerConfig { strategy, ramp_up, ..SchedulerConfig::default() };
            for clients in [1, 2, 3, 7, 1000] {
                let delays = start_delays(clients, &scheduler).unwrap();
                assert!(delays.iter().all(|delay| !delay.exceeds(&ramp_up)));
                assert!(delays.contains(&Duration::zero()));
                if strategy == RampStrategy::Linear {
                    assert_eq!(delays[0], Duration::zero());
                }
            }
        }
    }
}

#[test]
fn immediate_starts_everyone_at_once() {
    assert_eq!(
        start_delays(3, &SchedulerConfig::default()).unwrap(),
        vec![Duration::zero(); 3]
    );
    assert!(start_delays(0, &SchedulerConfig::default()).unwrap().is_empty());
}

fn stepped(steps: Vec<(u64, u32)>) -> SchedulerConfig {
    SchedulerConfig {
        strategy: RampStrategy::Step,
        steps: steps
            .into_iter()
            .map(|(at, clients)| RampStep { at: Duration::from_secs(at), clients })
            .collect(),
        ..SchedulerConfig::default()
    }
}

#[test]
fn steps_start_clients_when_they_come() {
    let secs = |values: &[u64]| -> Vec<Duration> {
        values.iter().map(|value| Duration::from_secs(*value)).collect()
    };
    assert_eq!(
        start_delays(6, &stepped(vec![(0, 2), (5, 2), (10, 4)])).unwrap(),
        secs(&[0, 0, 10, 10, 10, 10])
    );
    assert_eq!(start_delays(2, &stepped(vec![])).unwrap(), secs(&[0, 0]));
    for bad in [vec![(5, 1), (4, 2)], vec![(1, 2), (2, 1)], vec![(1, 4)]] {
        assert_eq!(
            start_delays(3, &stepped(bad)),
            Err(SchedulerError::InvalidSteps)
        );
    }
}

#[test]
fn randomized_shuffles_the_linear_ramp() {
    let linear = SchedulerConfig {
        strategy: RampStrategy::Linear,
        ramp_up: Duration::from_secs(60),
        ..SchedulerConfig::default()
    };
    let randomized = |seed: Option<u64>| SchedulerConfig {
        strategy: RampStrategy::Randomized,
        ramp_up: Duration::from_secs(60),
        seed,
        ..SchedulerConfig::default()
    };
    let ordered = start_delays(40, &linear).unwrap();
    let first = start_delays(40, &randomized(Some(7))).unwrap();
    assert_ne!(first, ordered);
    assert_eq!(start_delays(40, &randomized(Some(7))).unwrap(), first);
    assert_eq!(
        start_delays(40, &randomized(None)).unwrap(),
        start_delays(40, &randomized(Some(0))).unwrap()
    );
    let mut sorted: Vec<u128> = first.iter().map(Duration::as_nanos).collect();
    sorted.sort_unstable();
    let expected: Vec<u128> = ordered.iter().map(Duration::as_nanos).collect();
    assert_eq!(sorted, expected);
}
