//! Thresholds that end a run.
use crate::binary64::{self, Binary64};
use crate::config::AbortConfig;
use crate::duration::{self, Duration};
use crate::metrics::MetricsSnapshot;
use crate::text::{self, decimal};
use vstd::arithmetic::power2::*;
use vstd::prelude::*;
use vstd::string::*;

verus! {

/// The number 1000.
pub const THOUSAND_BITS: u64 = 0x408f_4000_0000_0000;

/// A threshold that has been crossed, with the value that crossed it.
#[derive(Clone, Copy, Debug, PartialEq, Eq, Structural)]
pub enum ThresholdViolation {
    ConnectionErrorRate(Binary64),
    MessageErrorRate(Binary64),
    P95Latency(Binary64),
    P99Latency(Binary64),
    DroppedMessages(u64),
}

/// A count, no more than `u32` holds.
pub open spec fn capped(count: u64) -> nat {
    if count > u32::MAX {
        u32::MAX as nat
    } else {
        count as nat
    }
}

/// The quotient of two counts as a binary64 number; a quotient by zero is zero.
pub open spec fn ratio_of(numerator: u64, denominator: u64) -> Binary64 {
    if denominator == 0 {
        Binary64 { bits: 0 }
    } else {
        Binary64 { bits: binary64::rounded(capped(numerator), capped(denominator)) }
    }
}

/// A span as a binary64 number of milliseconds: its seconds times a thousand.
pub open spec fn limit_ms(nanos: nat) -> Binary64 {
    Binary64 { bits: binary64::product_bits(duration::seconds_bits(nanos), THOUSAND_BITS) }
}

/// Whether a latency is known and above a limit that is set.
pub open spec fn latency_above(limit: Option<Duration>, latency: Option<Binary64>) -> bool {
    limit matches Some(span) && latency matches Some(value) && value.greater(limit_ms(span@))
}

/// Whether a rate is above a limit that is set.
pub open spec fn rate_above(limit: Option<Binary64>, rate: Binary64) -> bool {
    limit matches Some(bound) && rate.greater(bound)
}

/// How many messages timed out or were dropped.
pub open spec fn message_errors(snapshot: MetricsSnapshot) -> u64 {
    if snapshot.message_timeouts + snapshot.dropped_messages > u64::MAX {
        u64::MAX
    } else {
        (snapshot.message_timeouts + snapshot.dropped_messages) as u64
    }
}

/// Whether too few connections were attempted and too few messages sent to judge by them.
pub open spec fn too_few_samples(config: AbortConfig, snapshot: MetricsSnapshot) -> bool {
    let needed = match config.min_samples {
        Some(samples) => samples,
        None => 1,
    };
    snapshot.connection_attempts < needed && snapshot.sent_messages < needed
}

/// The first threshold that a snapshot crosses.
pub open spec fn violation_of(config: AbortConfig, snapshot: MetricsSnapshot) -> Option<
    ThresholdViolation,
> {
    let connection_rate = ratio_of(snapshot.connection_failures, snapshot.connection_attempts);
    let message_rate = ratio_of(message_errors(snapshot), snapshot.sent_messages);
    if too_few_samples(config, snapshot) {
        None
    } else if rate_above(config.connection_error_rate, connection_rate) {
        Some(ThresholdViolation::ConnectionErrorRate(connection_rate))
    } else if rate_above(config.message_error_rate, message_rate) {
        Some(ThresholdViolation::MessageErrorRate(message_rate))
    } else if latency_above(config.p95_latency, snapshot.delivery_p95_ms) {
        Some(ThresholdViolation::P95Latency(snapshot.delivery_p95_ms->0))
    } else if latency_above(config.p99_latency, snapshot.delivery_p99_ms) {
        Some(ThresholdViolation::P99Latency(snapshot.delivery_p99_ms->0))
    } else if config.max_dropped_messages matches Some(limit) && snapshot.dropped_messages
        > limit {
        Some(ThresholdViolation::DroppedMessages(snapshot.dropped_messages))
    } else {
        None
    }
}

/// The quotient of two counts.
fn ratio(numerator: u64, denominator: u64) -> (result: Binary64)
    ensures
        result == ratio_of(numerator, denominator),
{
    if denominator == 0 {
        Binary64 { bits: 0 }
    } else {
        let num = if numerator > u32::MAX as u64 {
            u32::MAX
        } else {
            numerator as u32
        };
        let den = if denominator > u32::MAX as u64 {
            u32::MAX
        } else {
            denominator as u32
        };
        Binary64::from_ratio(num, den)
    }
}

/// Whether a rate is above a limit that is set.
fn rate_exceeds(limit: &Option<Binary64>, rate: &Binary64) -> (result: bool)
    ensures
        result == rate_above(*limit, *rate),
{
    match limit {
        Some(bound) => rate.exceeds(bound),
        None => false,
    }
}

/// Whether a latency is known and above a limit that is set.
fn latency_exceeds(limit: &Option<Duration>, latency: &Option<Binary64>) -> (result: bool)
    ensures
        result == latency_above(*limit, *latency),
{
    match (limit, latency) {
        (Some(span), Some(value)) => {
            let bound = span.as_secs_binary64().times(&Binary64 { bits: THOUSAND_BITS });
            value.exceeds(&bound)
        },
        _ => false,
    }
}

/// Decides whether a run has to end.
pub fn evaluate(config: &AbortConfig, snapshot: &MetricsSnapshot) -> (result: Option<
    ThresholdViolation,
>)
    ensures
        result == violation_of(*config, *snapshot),
{
    let samples = if snapshot.connection_attempts > snapshot.sent_messages {
        snapshot.connection_attempts
    } else {
        snapshot.sent_messages
    };
    let needed = match config.min_samples {
        Some(samples) => samples,
        None => 1,
    };
    if samples < needed {
        return None;
    }
    let connection_rate = ratio(snapshot.connection_failures, snapshot.connection_attempts);
    if rate_exceeds(&config.connection_error_rate, &connection_rate) {
        return Some(ThresholdViolation::ConnectionErrorRate(connection_rate));
    }
    let errors = if snapshot.message_timeouts > u64::MAX - snapshot.dropped_messages {
        u64::MAX
    } else {
        snapshot.message_timeouts + snapshot.dropped_messages
    };
    let message_rate = ratio(errors, snapshot.sent_messages);
    if rate_exceeds(&config.message_error_rate, &message_rate) {
        return Some(ThresholdViolation::MessageErrorRate(message_rate));
    }
    if latency_exceeds(&config.p95_latency, &snapshot.delivery_p95_ms) {
        return match snapshot.delivery_p95_ms {
            Some(value) => Some(ThresholdViolation::P95Latency(value)),
            None => None,
        };
    }
    if latency_exceeds(&config.p99_latency, &snapshot.delivery_p99_ms) {
        return match snapshot.delivery_p99_ms {
            Some(value) => Some(ThresholdViolation::P99Latency(value)),
            None => None,
        };
    }
    match config.max_dropped_messages {
        Some(limit) => if snapshot.dropped_messages > limit {
            Some(ThresholdViolation::DroppedMessages(snapshot.dropped_messages))
        } else {
            None
        },
        None => None,
    }
}

/// A run without thresholds never ends by one.
pub proof fn law_no_thresholds_no_violation(config: AbortConfig, snapshot: MetricsSnapshot)
    requires
        config.connection_error_rate is None,
        config.message_error_rate is None,
        config.p95_latency is None,
        config.p99_latency is None,
        config.max_dropped_messages is None,
    ensures
        violation_of(config, snapshot) is None,
{
}

/// A run that has neither attempted a connection nor sent a message ends by no threshold, unless
/// it may be judged without samples.
pub proof fn law_nothing_done_no_violation(config: AbortConfig, snapshot: MetricsSnapshot)
    requires
        snapshot.connection_attempts == 0,
        snapshot.sent_messages == 0,
        config.min_samples != Some(0u64),
    ensures
        violation_of(config, snapshot) is None,
{
}

/// Every violation names a threshold that is set and a value above it.
pub proof fn law_violations_cross_thresholds(config: AbortConfig, snapshot: MetricsSnapshot)
    ensures
        match violation_of(config, snapshot) {
            Some(ThresholdViolation::ConnectionErrorRate(rate)) => rate_above(
                config.connection_error_rate,
                rate,
            ),
            Some(ThresholdViolation::MessageErrorRate(rate)) => rate_above(
                config.message_error_rate,
                rate,
            ),
            Some(ThresholdViolation::P95Latency(value)) => latency_above(
                config.p95_latency,
                Some(value),
            ),
            Some(ThresholdViolation::P99Latency(value)) => latency_above(
                config.p99_latency,
                Some(value),
            ),
            Some(ThresholdViolation::DroppedMessages(count)) => config.max_dropped_messages matches Some(
                limit,
            ) && count > limit,
            None => true,
        },
{
}

/// Whether a snapshot holds as many attempts or messages as a run is judged by.
pub open spec fn enough_samples(config: AbortConfig, snapshot: MetricsSnapshot) -> bool {
    match config.min_samples {
        Some(needed) => snapshot.connection_attempts >= needed || snapshot.sent_messages >= needed,
        None => snapshot.connection_attempts > 0 || snapshot.sent_messages > 0,
    }
}

/// A run is not judged by fewer attempts and messages than the samples that it needs.
pub proof fn law_few_samples_no_violation(config: AbortConfig, snapshot: MetricsSnapshot)
    requires
        match config.min_samples {
            Some(needed) => snapshot.connection_attempts < needed && snapshot.sent_messages
                < needed,
            None => snapshot.connection_attempts == 0 && snapshot.sent_messages == 0,
        },
    ensures
        violation_of(config, snapshot) is None,
{
}

/// The lesser of two counts.
pub open spec fn lesser(a: nat, b: nat) -> nat {
    if a <= b {
        a
    } else {
        b
    }
}

/// Failed connections end a run when their share of the attempts is the next number above the limit
/// or more, and do not end it when their share is no more than the limit. Counts beyond `u32` are
/// taken as its largest.
pub proof fn law_connection_failures_count(config: AbortConfig, snapshot: MetricsSnapshot)
    requires
        enough_samples(config, snapshot),
        config.connection_error_rate matches Some(limit) && limit.plain(),
        snapshot.connection_attempts > 0,
    ensures
        ({
            let limit = config.connection_error_rate->0.bits;
            let failed = lesser(snapshot.connection_failures as nat, 4_294_967_295);
            let attempted = lesser(snapshot.connection_attempts as nat, 4_294_967_295);
            &&& failed * pow2(1074) >= attempted * binary64::units((limit + 1) as u64)
                ==> violation_of(config, snapshot) is Some && violation_of(
                config,
                snapshot,
            )->0 is ConnectionErrorRate
            &&& failed * pow2(1074) <= attempted * binary64::units(limit) ==> !(violation_of(
                config,
                snapshot,
            ) matches Some(ThresholdViolation::ConnectionErrorRate(_)))
            &&& violation_of(config, snapshot) matches Some(
                ThresholdViolation::ConnectionErrorRate(rate),
            ) ==> binary64::nearest(failed, attempted, rate.bits)
        }),
{
    lemma_rates_decide(
        snapshot.connection_failures,
        snapshot.connection_attempts,
        config.connection_error_rate->0,
    );
}

/// Messages that timed out and messages that were dropped end a run together: when their share of
/// the messages sent is the next number above the limit or more, and not when it is no more than
/// the limit. Counts beyond `u32` are taken as its largest.
pub proof fn law_lost_messages_count(config: AbortConfig, snapshot: MetricsSnapshot)
    requires
        enough_samples(config, snapshot),
        config.connection_error_rate is None,
        config.message_error_rate matches Some(limit) && limit.plain(),
        snapshot.sent_messages > 0,
    ensures
        ({
            let limit = config.message_error_rate->0.bits;
            let lost = lesser(
                (snapshot.message_timeouts + snapshot.dropped_messages) as nat,
                4_294_967_295,
            );
            let sent = lesser(snapshot.sent_messages as nat, 4_294_967_295);
            &&& lost * pow2(1074) >= sent * binary64::units((limit + 1) as u64) ==> violation_of(
                config,
                snapshot,
            ) is Some && violation_of(config, snapshot)->0 is MessageErrorRate
            &&& lost * pow2(1074) <= sent * binary64::units(limit) ==> !(violation_of(
                config,
                snapshot,
            ) matches Some(ThresholdViolation::MessageErrorRate(_)))
            &&& violation_of(config, snapshot) matches Some(
                ThresholdViolation::MessageErrorRate(rate),
            ) ==> binary64::nearest(lost, sent, rate.bits)
        }),
{
    lemma_rates_decide(
        message_errors(snapshot),
        snapshot.sent_messages,
        config.message_error_rate->0,
    );
}

/// Where no limit is set on dropped messages, a message that was dropped counts as one that timed
/// out: only their sum matters.
pub proof fn law_dropped_counts_as_timed_out(
    config: AbortConfig,
    snapshot: MetricsSnapshot,
    other: MetricsSnapshot,
)
    requires
        config.max_dropped_messages is None,
        other.message_timeouts + other.dropped_messages == snapshot.message_timeouts
            + snapshot.dropped_messages,
        other.connection_attempts == snapshot.connection_attempts,
        other.connection_failures == snapshot.connection_failures,
        other.sent_messages == snapshot.sent_messages,
        other.delivery_p95_ms == snapshot.delivery_p95_ms,
        other.delivery_p99_ms == snapshot.delivery_p99_ms,
    ensures
        violation_of(config, other) == violation_of(config, snapshot),
{
}

/// More dropped messages than allowed end a run that no earlier threshold ends, and that many or
/// fewer do not.
pub proof fn law_dropped_messages_count(config: AbortConfig, snapshot: MetricsSnapshot)
    requires
        enough_samples(config, snapshot),
        config.connection_error_rate is None,
        config.message_error_rate is None,
        config.p95_latency is None,
        config.p99_latency is None,
        config.max_dropped_messages is Some,
    ensures
        violation_of(config, snapshot) == (if snapshot.dropped_messages
            > config.max_dropped_messages->0 {
            Some(ThresholdViolation::DroppedMessages(snapshot.dropped_messages))
        } else {
            None
        }),
{
}

/// A delivery latency ends a run that no earlier threshold ends when it is above its limit by more
/// than one part in 2^50 and a nanosecond, and does not when it is below the limit by as much: the
/// 95th percentile by its own limit.
pub proof fn law_p95_latency_counts(config: AbortConfig, snapshot: MetricsSnapshot)
    requires
        enough_samples(config, snapshot),
        config.connection_error_rate is None,
        config.message_error_rate is None,
        config.p95_latency matches Some(limit) && limit@ <= duration::MAX_NANOS,
        snapshot.delivery_p95_ms matches Some(value) && value.plain(),
    ensures
        ({
            let nanos = config.p95_latency->0@;
            let value = snapshot.delivery_p95_ms->0;
            let above = binary64::units(value.bits) * 1_000_000;
            &&& above * 0x4_0000_0000_0000 > (nanos + 1) * pow2(1074) * 0x4_0000_0000_0001
                ==> violation_of(config, snapshot) == Some(ThresholdViolation::P95Latency(value))
            &&& (above + pow2(1074)) * 0x4_0000_0000_0001 <= nanos * pow2(1074) * 0x4_0000_0000_0000
                ==> !(violation_of(config, snapshot) matches Some(
                ThresholdViolation::P95Latency(_),
            ))
        }),
{
    lemma_latencies_decide(config.p95_latency->0@, snapshot.delivery_p95_ms->0);
}

/// As for the 95th percentile, the 99th percentile ends a run by its own limit, unless an earlier
/// threshold does.
pub proof fn law_p99_latency_counts(config: AbortConfig, snapshot: MetricsSnapshot)
    requires
        enough_samples(config, snapshot),
        config.connection_error_rate is None,
        config.message_error_rate is None,
        config.p95_latency is None || snapshot.delivery_p95_ms is None,
        config.p99_latency matches Some(limit) && limit@ <= duration::MAX_NANOS,
        snapshot.delivery_p99_ms matches Some(value) && value.plain(),
    ensures
        ({
            let nanos = config.p99_latency->0@;
            let value = snapshot.delivery_p99_ms->0;
            let above = binary64::units(value.bits) * 1_000_000;
            &&& above * 0x4_0000_0000_0000 > (nanos + 1) * pow2(1074) * 0x4_0000_0000_0001
                ==> violation_of(config, snapshot) == Some(ThresholdViolation::P99Latency(value))
            &&& (above + pow2(1074)) * 0x4_0000_0000_0001 <= nanos * pow2(1074) * 0x4_0000_0000_0000
                ==> !(violation_of(config, snapshot) matches Some(
                ThresholdViolation::P99Latency(_),
            ))
        }),
{
    lemma_latencies_decide(config.p99_latency->0@, snapshot.delivery_p99_ms->0);
}

/// Where nothing was attempted there is no share of failures above a limit, and where nothing was
/// sent there is no share of lost messages above one.
pub proof fn law_no_share_of_nothing(config: AbortConfig, snapshot: MetricsSnapshot)
    requires
        config.connection_error_rate matches Some(limit) ==> limit.plain(),
        config.message_error_rate matches Some(limit) ==> limit.plain(),
    ensures
        snapshot.connection_attempts == 0 ==> !(violation_of(config, snapshot) matches Some(
            ThresholdViolation::ConnectionErrorRate(_),
        )),
        snapshot.sent_messages == 0 ==> !(violation_of(config, snapshot) matches Some(
            ThresholdViolation::MessageErrorRate(_),
        )),
{
    assert(binary64::units(0) == 0);
}

/// A latency in milliseconds is above a span where it is so by more than the roundings, and not
/// where it is below it by as much.
#[verifier::rlimit(40)]
proof fn lemma_latencies_decide(nanos: nat, value: Binary64)
    requires
        nanos <= duration::MAX_NANOS,
        value.plain(),
    ensures
        binary64::units(value.bits) * 1_000_000 * 0x4_0000_0000_0000 > (nanos + 1) * pow2(1074)
            * 0x4_0000_0000_0001 ==> value.greater(limit_ms(nanos)),
        (binary64::units(value.bits) * 1_000_000 + pow2(1074)) * 0x4_0000_0000_0001 <= nanos * pow2(
            1074,
        ) * 0x4_0000_0000_0000 ==> !value.greater(limit_ms(nanos)),
{
    let p = pow2(1074);
    let k = 0x20_0000_0000_0000nat;
    let n = duration::NANOS_PER_SEC as nat;
    let q = 0x4_0000_0000_0000nat;
    lemma_pow2_pos(1074);
    lemma2_to64();
    lemma2_to64_rest();
    lemma_pow2_adds(43, 1031);
    assert(THOUSAND_BITS / 0x10_0000_0000_0000 == 1032);
    assert(THOUSAND_BITS % 0x10_0000_0000_0000 == 0xf_4000_0000_0000);
    let r = pow2(1031);
    assert((0x10_0000_0000_0000 + 0xf_4000_0000_0000) * r == 1000 * (0x800_0000_0000 * r))
        by (nonlinear_arith);
    let f = binary64::units(THOUSAND_BITS);
    assert(f == 1000 * p);
    let seconds = duration::seconds_bits(nanos);
    let s = binary64::units(seconds);
    assert(s * f == f * s) by (nonlinear_arith);
    let bits = binary64::product_bits(THOUSAND_BITS, seconds);
    assert(limit_ms(nanos).bits == bits);
    duration::lemma_scaled_close(nanos, THOUSAND_BITS, p, k, n);
    binary64::lemma_rounded_nearest(f * s, pow2(2148));
    let x = binary64::units(bits);
    let v = binary64::units(value.bits);
    let j = (k - 1) * (k - 1) * (k - 1);
    let m = (k - 2) * (k - 2) * (k - 2);
    let l = k * k * k;
    assert((q + 1) * j >= q * l) by (nonlinear_arith)
        requires
            j == (k - 1) * (k - 1) * (k - 1),
            l == k * k * k,
            k == 0x20_0000_0000_0000,
            q == 0x4_0000_0000_0000,
    ;
    assert(j * q <= m * (q + 1)) by (nonlinear_arith)
        requires
            j == (k - 1) * (k - 1) * (k - 1),
            m == (k - 2) * (k - 2) * (k - 2),
            k == 0x20_0000_0000_0000,
            q == 0x4_0000_0000_0000,
    ;
    assert(j > q && m > q) by (nonlinear_arith)
        requires
            j == (k - 1) * (k - 1) * (k - 1),
            m == (k - 2) * (k - 2) * (k - 2),
            k == 0x20_0000_0000_0000,
            q == 0x4_0000_0000_0000,
    ;
    let y = nanos * p;
    assert(f * nanos == 1000 * y) by (nonlinear_arith)
        requires
            f == 1000 * p,
            y == nanos * p,
    ;
    assert((nanos + 1) * p == y + p) by (nonlinear_arith)
        requires
            y == nanos * p,
    ;
    if v * 1_000_000 * q > (nanos + 1) * p * (q + 1) {
        lemma_far_above(v, x, y, p, j as nat, l, q);
    }
    if (v * 1_000_000 + p) * (q + 1) <= nanos * p * q {
        lemma_far_below(v, x, y, p, j as nat, m as nat, q);
    }
}

/// A latency that is far above a span is not below the span's milliseconds.
proof fn lemma_far_above(v: nat, x: nat, y: nat, p: nat, j: nat, l: nat, q: nat)
    requires
        v * 1_000_000 * q > (y + p) * (q + 1),
        1_000_000_000 * x * j <= 1000 * y * l + p,
        (q + 1) * j >= q * l,
        j > q,
        q > 0,
        p > 0,
    ensures
        x < v,
{
    if x >= v {
        let a = v * 1_000_000;
        assert(1_000_000_000 * x * j >= 1000 * (a * j)) by (nonlinear_arith)
            requires
                x >= v,
                a == v * 1_000_000,
        ;
        assert((a * j) * q > ((y + p) * (q + 1)) * j) by (nonlinear_arith)
            requires
                a * q > (y + p) * (q + 1),
                j > 0,
        ;
        assert(((y + p) * (q + 1)) * j >= (y + p) * (q * l)) by (nonlinear_arith)
            requires
                (q + 1) * j >= q * l,
        ;
        assert((y + p) * (q * l) == q * (y * l) + q * (p * l)) by (nonlinear_arith);
        assert(((y + p) * (q + 1)) * j >= q * (y * l) + p * j) by (nonlinear_arith)
            requires
                (q + 1) * j >= q * l,
                q > 0,
        {
            assert(((y + p) * (q + 1)) * j == y * ((q + 1) * j) + p * ((q + 1) * j));
            assert(y * ((q + 1) * j) >= y * (q * l));
            assert(p * ((q + 1) * j) >= p * j);
        }
        assert((1000 * y * l + p) * q == 1000 * (q * (y * l)) + p * q) by (nonlinear_arith);
        assert(p * j > p * q) by (nonlinear_arith)
            requires
                j > q,
                p > 0,
        ;
        assert((1_000_000_000 * x * j) * q <= (1000 * y * l + p) * q) by (nonlinear_arith)
            requires
                1_000_000_000 * x * j <= 1000 * y * l + p,
        ;
        assert((1_000_000_000 * x * j) * q >= 1000 * ((a * j) * q)) by (nonlinear_arith)
            requires
                1_000_000_000 * x * j >= 1000 * (a * j),
        ;
    }
}

/// A latency that is far below a span is not above the span's milliseconds.
proof fn lemma_far_below(v: nat, x: nat, y: nat, p: nat, j: nat, m: nat, q: nat)
    requires
        (v * 1_000_000 + p) * (q + 1) <= y * q,
        1000 * y * m <= 1_000_000_000 * x * j + p,
        j * q <= m * (q + 1),
        m > q,
        q > 0,
        p > 0,
    ensures
        v <= x,
{
    if v > x {
        let a = v * 1_000_000;
        assert(1_000_000_000 * x * j <= 1000 * (a * j)) by (nonlinear_arith)
            requires
                v > x,
                a == v * 1_000_000,
        ;
        assert((1000 * y * m) * q <= (1000 * (a * j) + p) * q) by (nonlinear_arith)
            requires
                1000 * y * m <= 1000 * (a * j) + p,
        ;
        assert((1000 * (a * j) + p) * q == 1000 * (a * (j * q)) + p * q) by (nonlinear_arith);
        assert(a * (j * q) <= a * (m * (q + 1))) by (nonlinear_arith)
            requires
                j * q <= m * (q + 1),
        ;
        assert((1000 * y * m) * q == 1000 * ((y * q) * m)) by (nonlinear_arith);
        assert((y * q) * m >= ((a + p) * (q + 1)) * m) by (nonlinear_arith)
            requires
                (a + p) * (q + 1) <= y * q,
        ;
        assert(((a + p) * (q + 1)) * m == a * (m * (q + 1)) + p * (m * (q + 1))) by (nonlinear_arith);
        assert(p * (m * (q + 1)) > p * q) by (nonlinear_arith)
            requires
                m > q,
                q > 0,
                p > 0,
        {
            assert(m * (q + 1) > q);
        }
    }
}

/// A share is above a plain limit where it reaches the next number, and not where it reaches the
/// limit at most.
proof fn lemma_rates_decide(num: u64, den: u64, limit: Binary64)
    requires
        limit.plain(),
        den > 0,
    ensures
        ({
            let a = lesser(num as nat, 4_294_967_295);
            let b = lesser(den as nat, 4_294_967_295);
            &&& binary64::nearest(a, b, ratio_of(num, den).bits)
            &&& a * pow2(1074) >= b * binary64::units((limit.bits + 1) as u64) ==> ratio_of(
                num,
                den,
            ).greater(limit)
            &&& a * pow2(1074) <= b * binary64::units(limit.bits) ==> !ratio_of(num, den).greater(
                limit,
            )
        }),
{
    let a = lesser(num as nat, 4_294_967_295);
    let b = lesser(den as nat, 4_294_967_295);
    let rate = binary64::rounded(a, b);
    binary64::lemma_rounded_nearest(a, b);
    if a * pow2(1074) >= b * binary64::units((limit.bits + 1) as u64) {
        binary64::lemma_nearest_reaches(a, b, rate, (limit.bits + 1) as u64);
        binary64::lemma_units_order(limit.bits, rate);
    }
    if a * pow2(1074) <= b * binary64::units(limit.bits) {
        binary64::lemma_nearest_bounded(a, b, rate, limit.bits);
    }
}

/// Every threshold has a name of its own.
pub proof fn law_thresholds_are_named_apart(one: ThresholdViolation, other: ThresholdViolation)
    requires
        one.name() == other.name(),
    ensures
        one is ConnectionErrorRate <==> other is ConnectionErrorRate,
        one is MessageErrorRate <==> other is MessageErrorRate,
        one is P95Latency <==> other is P95Latency,
        one is P99Latency <==> other is P99Latency,
        one is DroppedMessages <==> other is DroppedMessages,
{
    reveal_strlit("ConnectionErrorRate");
    reveal_strlit("MessageErrorRate");
    reveal_strlit("P95Latency");
    reveal_strlit("P99Latency");
    reveal_strlit("DroppedMessages");
    assert("ConnectionErrorRate"@.len() == 19 && "MessageErrorRate"@.len() == 16
        && "DroppedMessages"@.len() == 15);
    assert("P95Latency"@.len() == 10 && "P99Latency"@.len() == 10);
    assert("P95Latency"@[2] == '5' && "P99Latency"@[2] == '9');
}

impl ThresholdViolation {
    /// The name of the threshold.
    pub open spec fn name(self) -> Seq<char> {
        match self {
            ThresholdViolation::ConnectionErrorRate(_) => "ConnectionErrorRate"@,
            ThresholdViolation::MessageErrorRate(_) => "MessageErrorRate"@,
            ThresholdViolation::P95Latency(_) => "P95Latency"@,
            ThresholdViolation::P99Latency(_) => "P99Latency"@,
            ThresholdViolation::DroppedMessages(_) => "DroppedMessages"@,
        }
    }

    /// Why a run that crossed the threshold ended. The text of a rate or a latency is handed in;
    /// a count is written out here.
    pub fn reason(&self, number: &str) -> (result: String)
        ensures
            result@ == "threshold:"@ + self.name() + "("@ + (match *self {
                ThresholdViolation::DroppedMessages(count) => text::decimal_text(count as nat),
                _ => number@,
            }) + ")"@,
    {
        let mut result = "threshold:".to_owned();
        match self {
            ThresholdViolation::ConnectionErrorRate(_) => {
                result.append("ConnectionErrorRate");
            },
            ThresholdViolation::MessageErrorRate(_) => {
                result.append("MessageErrorRate");
            },
            ThresholdViolation::P95Latency(_) => {
                result.append("P95Latency");
            },
            ThresholdViolation::P99Latency(_) => {
                result.append("P99Latency");
            },
            ThresholdViolation::DroppedMessages(_) => {
                result.append("DroppedMessages");
            },
        }
        result.append("(");
        match self {
            ThresholdViolation::DroppedMessages(count) => {
                result.append(decimal(*count as u128).as_str());
            },
            _ => {
                result.append(number);
            },
        }
        result.append(")");
        result
    }
}

} // verus!
