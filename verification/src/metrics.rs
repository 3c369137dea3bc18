//! Counters and latency histograms of a run.
use crate::binary64::{self, Binary64};
use crate::duration::{self, Duration};
use hdrhistogram::Histogram;
use vstd::arithmetic::div_mod::*;
use vstd::arithmetic::power2::*;
use vstd::multiset::Multiset;
use vstd::prelude::*;

verus! {

/// The first value that a latency histogram does not cover.
pub const VALUE_END: u64 = 1_073_741_824;

/// A histogram of latencies in microseconds: `hdrhistogram::Histogram` with bounds of one
/// microsecond and ten minutes and three significant digits.
#[verifier::external_body]
#[derive(Debug)]
pub struct LatencyHistogram {
    histogram: Histogram<u64>,
}

/// The values that a histogram has recorded, each as the lowest value that it does not tell from
/// it.
pub uninterp spec fn recorded(histogram: LatencyHistogram) -> Multiset<u64>;

/// How many values from `value` on a histogram does not tell apart: one up to 2048, and twice as
/// many from each power of two on.
pub open spec fn resolution(value: nat) -> nat
    decreases value,
{
    if value < 2048 {
        1
    } else {
        2 * resolution(value / 2)
    }
}

/// The lowest value that a histogram does not tell from `value`.
pub open spec fn lowest_alike(value: nat) -> nat {
    (value / resolution(value)) * resolution(value)
}

/// The highest value that a histogram does not tell from `value`.
pub open spec fn highest_alike(value: nat) -> nat {
    (lowest_alike(value) + resolution(value) - 1) as nat
}

/// How many of the recorded values are at most `value`.
pub open spec fn count_up_to(values: Multiset<u64>, value: u64) -> nat {
    values.filter(|other: u64| other <= value).len()
}

/// Which of `total` recorded values, counted from the lowest, a percentile is: the product of the
/// total and of the percentage, both as binary64 numbers, rounded up, and at least the first.
pub open spec fn percentile_rank(total: nat, percent: u8) -> nat {
    let product = binary64::product_bits(
        binary64::rounded(percent as nat, 100),
        binary64::rounded(total, 1),
    );
    let rank = ceiling(binary64::units(product), pow2(1074));
    if rank == 0 {
        1
    } else {
        rank
    }
}

/// A quotient, rounded up.
pub open spec fn ceiling(num: nat, den: nat) -> nat {
    if num % den == 0 {
        num / den
    } else {
        num / den + 1
    }
}

/// Whether `value` is the recorded value with the given rank.
pub open spec fn has_rank(values: Multiset<u64>, value: u64, rank: nat) -> bool {
    &&& values.count(value) > 0
    &&& count_up_to(values, value) >= rank
    &&& value > 0 ==> count_up_to(values, (value - 1) as u64) < rank
}

/// Whether `value` is the highest value alike to the recorded value with the rank of a
/// percentile. Of no values, or of more than binary64 numbers count one by one, nothing is said.
pub open spec fn is_percentile(values: Multiset<u64>, percent: u8, value: u64) -> bool {
    0 < values.len() <= pow2(53) ==> exists|found: u64|
        #[trigger] has_rank(values, found, percentile_rank(values.len(), percent)) && value
            == highest_alike(found as nat)
}

impl LatencyHistogram {
    /// Makes a histogram with `Histogram::new_with_bounds`. It has recorded nothing.
    #[verifier::external_body]
    fn empty() -> (histogram: LatencyHistogram)
        ensures
            recorded(histogram) == Multiset::<u64>::empty(),
    {
        LatencyHistogram { histogram: Histogram::new_with_bounds(1, 600_000_000, 3).unwrap() }
    }

    /// Records a value with `Histogram::record`, which refuses values that its buckets do not
    /// cover. Of a histogram that already holds `u64::MAX` values nothing is claimed.
    #[verifier::external_body]
    fn record(&mut self, value: u64) -> (taken: bool)
        ensures
            taken == (value < VALUE_END),
            !taken ==> recorded(*final(self)) == recorded(*old(self)),
            taken && recorded(*old(self)).len() < u64::MAX ==> recorded(*final(self)) == recorded(
                *old(self),
            ).insert(lowest_alike(value as nat) as u64),
    {
        self.histogram.record(value).is_ok()
    }

    /// `Histogram::is_empty`: whether nothing has been recorded.
    #[verifier::external_body]
    fn is_empty(&self) -> (result: bool)
        ensures
            result == (recorded(*self).len() == 0),
    {
        self.histogram.is_empty()
    }

    /// `Histogram::value_at_percentile`: the highest value alike to the recorded value with the
    /// rank of the percentile.
    #[verifier::external_body]
    fn value_at_percentile(&self, percent: u8) -> (value: u64)
        requires
            0 < percent <= 100,
        ensures
            is_percentile(recorded(*self), percent, value),
    {
        self.histogram.value_at_percentile(percent.into())
    }
}

/// A latency in microseconds, at least one, as far as `u64` holds it.
pub open spec fn micros_of(nanos: nat) -> u64 {
    let micros = nanos / 1000;
    if micros > u64::MAX {
        u64::MAX
    } else if micros == 0 {
        1
    } else {
        micros as u64
    }
}

/// Whether a histogram that had recorded `before` has recorded `after` once a latency came in.
///
/// Latencies beyond what the histogram covers are left out. Once `u64::MAX` values are recorded,
/// nothing is said.
pub open spec fn takes_in(before: Multiset<u64>, after: Multiset<u64>, nanos: nat) -> bool {
    if micros_of(nanos) >= VALUE_END {
        after == before
    } else {
        before.len() < u64::MAX ==> after == before.insert(
            lowest_alike(micros_of(nanos) as nat) as u64,
        )
    }
}

/// Microseconds as a binary64 number of milliseconds; more than `u32` holds count as what it
/// holds.
pub open spec fn millis_bits(micros: u64) -> u64 {
    let capped = if micros > u32::MAX {
        u32::MAX as nat
    } else {
        micros as nat
    };
    binary64::rounded(capped, 1000)
}

/// Whether a report's percentile is that of the recorded latencies: none where none is recorded.
pub open spec fn reports_percentile(
    values: Multiset<u64>,
    percent: u8,
    reported: Option<Binary64>,
) -> bool {
    match reported {
        None => values.len() == 0,
        Some(millis) => {
            &&& values.len() > 0
            &&& exists|value: u64|
                #[trigger] is_percentile(values, percent, value) && millis.bits == millis_bits(value)
        },
    }
}

/// The counters and latencies of a run.
#[derive(Debug)]
pub struct Metrics {
    pub connection_attempts: u64,
    pub connection_successes: u64,
    pub connection_failures: u64,
    pub tls_failures: u64,
    pub sent_messages: u64,
    pub received_messages: u64,
    pub duplicate_messages: u64,
    pub dropped_messages: u64,
    pub message_timeouts: u64,
    pub reconnects: u64,
    pub reconnect_failures: u64,
    pub local_dropped_messages: u64,
    pub active_connections: u64,
    pub handshake_us: LatencyHistogram,
    pub delivery_us: LatencyHistogram,
    pub recovery_us: LatencyHistogram,
}

/// What a report tells of the counters and latencies of a run.
#[derive(Clone, Copy, Debug, PartialEq, Eq, Structural)]
pub struct MetricsSnapshot {
    pub connection_attempts: u64,
    pub connection_successes: u64,
    pub connection_failures: u64,
    pub tls_failures: u64,
    pub sent_messages: u64,
    pub received_messages: u64,
    pub duplicate_messages: u64,
    pub dropped_messages: u64,
    pub message_timeouts: u64,
    pub reconnects: u64,
    pub reconnect_failures: u64,
    pub local_dropped_messages: u64,
    pub active_connections: u64,
    pub handshake_p50_ms: Option<Binary64>,
    pub handshake_p95_ms: Option<Binary64>,
    pub delivery_p50_ms: Option<Binary64>,
    pub delivery_p95_ms: Option<Binary64>,
    pub delivery_p99_ms: Option<Binary64>,
    pub recovery_p95_ms: Option<Binary64>,
}

impl MetricsSnapshot {
    /// A snapshot in which nothing has happened.
    pub open spec fn nothing() -> MetricsSnapshot {
        MetricsSnapshot {
            connection_attempts: 0,
            connection_successes: 0,
            connection_failures: 0,
            tls_failures: 0,
            sent_messages: 0,
            received_messages: 0,
            duplicate_messages: 0,
            dropped_messages: 0,
            message_timeouts: 0,
            reconnects: 0,
            reconnect_failures: 0,
            local_dropped_messages: 0,
            active_connections: 0,
            handshake_p50_ms: None,
            handshake_p95_ms: None,
            delivery_p50_ms: None,
            delivery_p95_ms: None,
            delivery_p99_ms: None,
            recovery_p95_ms: None,
        }
    }
}

impl Default for MetricsSnapshot {
    fn default() -> (result: MetricsSnapshot)
        ensures
            result == MetricsSnapshot::nothing(),
    {
        MetricsSnapshot {
            connection_attempts: 0,
            connection_successes: 0,
            connection_failures: 0,
            tls_failures: 0,
            sent_messages: 0,
            received_messages: 0,
            duplicate_messages: 0,
            dropped_messages: 0,
            message_timeouts: 0,
            reconnects: 0,
            reconnect_failures: 0,
            local_dropped_messages: 0,
            active_connections: 0,
            handshake_p50_ms: None,
            handshake_p95_ms: None,
            delivery_p50_ms: None,
            delivery_p95_ms: None,
            delivery_p99_ms: None,
            recovery_p95_ms: None,
        }
    }
}

impl Default for Metrics {
    fn default() -> (result: Metrics)
        ensures
            result.counts_nothing(),
    {
        Metrics {
            connection_attempts: 0,
            connection_successes: 0,
            connection_failures: 0,
            tls_failures: 0,
            sent_messages: 0,
            received_messages: 0,
            duplicate_messages: 0,
            dropped_messages: 0,
            message_timeouts: 0,
            reconnects: 0,
            reconnect_failures: 0,
            local_dropped_messages: 0,
            active_connections: 0,
            handshake_us: LatencyHistogram::empty(),
            delivery_us: LatencyHistogram::empty(),
            recovery_us: LatencyHistogram::empty(),
        }
    }
}

/// A latency in microseconds, at least one.
fn micros(elapsed: &Duration) -> (result: u64)
    ensures
        result == micros_of(elapsed@),
{
    let micros = elapsed.as_micros();
    if micros > u64::MAX as u128 {
        u64::MAX
    } else if micros == 0 {
        1
    } else {
        micros as u64
    }
}

/// The percentile of the recorded latencies in milliseconds.
fn percentile(histogram: &LatencyHistogram, percent: u8) -> (result: Option<Binary64>)
    requires
        0 < percent <= 100,
    ensures
        reports_percentile(recorded(*histogram), percent, result),
{
    if histogram.is_empty() {
        return None;
    }
    let value = histogram.value_at_percentile(percent);
    let capped = if value > u32::MAX as u64 {
        u32::MAX
    } else {
        value as u32
    };
    let millis = Binary64::from_ratio(capped, 1000);
    assert(is_percentile(recorded(*histogram), percent, value));
    assert(millis.bits == millis_bits(value));
    Some(millis)
}

/// A counter that goes up, and starts anew past its largest value.
pub open spec fn raised(counter: u64, by: u64) -> u64 {
    if counter + by > u64::MAX {
        (counter + by - 0x1_0000_0000_0000_0000) as u64
    } else {
        (counter + by) as u64
    }
}

/// Raises a counter.
pub fn raise(counter: u64, by: u64) -> (result: u64)
    ensures
        result == raised(counter, by),
{
    if counter > u64::MAX - by {
        counter - (u64::MAX - by) - 1
    } else {
        counter + by
    }
}

impl Metrics {
    /// Whether nothing has been counted or recorded.
    pub open spec fn counts_nothing(self) -> bool {
        &&& self.connection_attempts == 0
        &&& self.connection_successes == 0
        &&& self.connection_failures == 0
        &&& self.tls_failures == 0
        &&& self.sent_messages == 0
        &&& self.received_messages == 0
        &&& self.duplicate_messages == 0
        &&& self.dropped_messages == 0
        &&& self.message_timeouts == 0
        &&& self.reconnects == 0
        &&& self.reconnect_failures == 0
        &&& self.local_dropped_messages == 0
        &&& self.active_connections == 0
        &&& recorded(self.handshake_us) == Multiset::<u64>::empty()
        &&& recorded(self.delivery_us) == Multiset::<u64>::empty()
        &&& recorded(self.recovery_us) == Multiset::<u64>::empty()
    }

    pub fn new() -> (result: Metrics)
        ensures
            result.counts_nothing(),
    {
        Metrics::default()
    }

    /// Records how long a connection took to establish.
    pub fn record_handshake(&mut self, elapsed: Duration)
        ensures
            *final(self) == (Metrics { handshake_us: final(self).handshake_us, ..*old(self) }),
            takes_in(
                recorded(old(self).handshake_us),
                recorded(final(self).handshake_us),
                elapsed@,
            ),
    {
        self.handshake_us.record(micros(&elapsed));
    }

    /// Records how long an event took from its sender to an observer.
    pub fn record_delivery(&mut self, elapsed: Duration)
        ensures
            *final(self) == (Metrics { delivery_us: final(self).delivery_us, ..*old(self) }),
            takes_in(
                recorded(old(self).delivery_us),
                recorded(final(self).delivery_us),
                elapsed@,
            ),
    {
        self.delivery_us.record(micros(&elapsed));
    }

    /// Records how long a participant took to connect again.
    pub fn record_recovery(&mut self, elapsed: Duration)
        ensures
            *final(self) == (Metrics { recovery_us: final(self).recovery_us, ..*old(self) }),
            takes_in(
                recorded(old(self).recovery_us),
                recorded(final(self).recovery_us),
                elapsed@,
            ),
    {
        self.recovery_us.record(micros(&elapsed));
    }

    /// Whether a snapshot tells what has been counted and recorded.
    pub open spec fn shown_by(self, snapshot: MetricsSnapshot) -> bool {
        &&& snapshot.connection_attempts == self.connection_attempts
        &&& snapshot.connection_successes == self.connection_successes
        &&& snapshot.connection_failures == self.connection_failures
        &&& snapshot.tls_failures == self.tls_failures
        &&& snapshot.sent_messages == self.sent_messages
        &&& snapshot.received_messages == self.received_messages
        &&& snapshot.duplicate_messages == self.duplicate_messages
        &&& snapshot.dropped_messages == self.dropped_messages
        &&& snapshot.message_timeouts == self.message_timeouts
        &&& snapshot.reconnects == self.reconnects
        &&& snapshot.reconnect_failures == self.reconnect_failures
        &&& snapshot.local_dropped_messages == self.local_dropped_messages
        &&& snapshot.active_connections == self.active_connections
        &&& reports_percentile(recorded(self.handshake_us), 50, snapshot.handshake_p50_ms)
        &&& reports_percentile(recorded(self.handshake_us), 95, snapshot.handshake_p95_ms)
        &&& reports_percentile(recorded(self.delivery_us), 50, snapshot.delivery_p50_ms)
        &&& reports_percentile(recorded(self.delivery_us), 95, snapshot.delivery_p95_ms)
        &&& reports_percentile(recorded(self.delivery_us), 99, snapshot.delivery_p99_ms)
        &&& reports_percentile(recorded(self.recovery_us), 95, snapshot.recovery_p95_ms)
    }

    /// What has been counted and recorded so far.
    pub fn snapshot(&self) -> (snapshot: MetricsSnapshot)
        ensures
            self.shown_by(snapshot),
    {
        MetricsSnapshot {
            connection_attempts: self.connection_attempts,
            connection_successes: self.connection_successes,
            connection_failures: self.connection_failures,
            tls_failures: self.tls_failures,
            sent_messages: self.sent_messages,
            received_messages: self.received_messages,
            duplicate_messages: self.duplicate_messages,
            dropped_messages: self.dropped_messages,
            message_timeouts: self.message_timeouts,
            reconnects: self.reconnects,
            reconnect_failures: self.reconnect_failures,
            local_dropped_messages: self.local_dropped_messages,
            active_connections: self.active_connections,
            handshake_p50_ms: percentile(&self.handshake_us, 50),
            handshake_p95_ms: percentile(&self.handshake_us, 95),
            delivery_p50_ms: percentile(&self.delivery_us, 50),
            delivery_p95_ms: percentile(&self.delivery_us, 95),
            delivery_p99_ms: percentile(&self.delivery_us, 99),
            recovery_p95_ms: percentile(&self.recovery_us, 95),
        }
    }
}

/// A higher percentile has no lower rank.
proof fn lemma_rank_grows(total: nat, lower: u8, higher: u8)
    requires
        lower <= higher,
    ensures
        percentile_rank(total, lower) <= percentile_rank(total, higher),
{
    let a = binary64::rounded(lower as nat, 100);
    let b = binary64::rounded(higher as nat, 100);
    let t = binary64::rounded(total, 1);
    let p = pow2(2148);
    lemma_pow2_pos(2148);
    lemma_pow2_pos(1074);
    binary64::lemma_rounded_monotone(lower as nat, 100, higher as nat, 100);
    let x = binary64::units(a) * binary64::units(t);
    let y = binary64::units(b) * binary64::units(t);
    assert(x * p <= y * p) by (nonlinear_arith)
        requires
            x == binary64::units(a) * binary64::units(t),
            y == binary64::units(b) * binary64::units(t),
            binary64::units(a) <= binary64::units(b),
    ;
    binary64::lemma_rounded_monotone(x, p, y, p);
    let u = binary64::units(binary64::product_bits(a, t));
    let v = binary64::units(binary64::product_bits(b, t));
    let d = pow2(1074);
    assert(ceiling(u, d) <= ceiling(v, d)) by {
        vstd::arithmetic::div_mod::lemma_fundamental_div_mod(u as int, d as int);
        vstd::arithmetic::div_mod::lemma_fundamental_div_mod(v as int, d as int);
        vstd::arithmetic::div_mod::lemma_div_is_ordered(u as int, v as int, d as int);
        if u / d == v / d {
            assert(u % d <= v % d);
        }
    }
}

/// At most as many values lie at or below a lower value.
proof fn lemma_count_grows(values: Multiset<u64>, lower: u64, higher: u64)
    requires
        lower <= higher,
    ensures
        count_up_to(values, lower) <= count_up_to(values, higher),
{
    let few = values.filter(|other: u64| other <= lower);
    let many = values.filter(|other: u64| other <= higher);
    assert(few.subset_of(many));
    assert(many =~= few.add(many.sub(few)));
}

/// The highest value alike to another one, from that of its half.
proof fn lemma_highest_alike(value: nat)
    ensures
        resolution(value) > 0,
        value < 2048 ==> highest_alike(value) == value,
        value >= 2048 ==> highest_alike(value) == 2 * highest_alike(value / 2) + 1,
    decreases value,
{
    if value >= 2048 {
        lemma_highest_alike(value / 2);
        let half = resolution(value / 2);
        assert(value / (2 * half) == (value / 2) / half) by {
            vstd::arithmetic::div_mod::lemma_div_denominator(value as int, 2, half as int);
        }
        let q = (value / 2) / half;
        assert(q * (2 * half) == 2 * (q * half)) by (nonlinear_arith);
    } else {
        assert(value / 1 == value);
    }
}

/// A higher value is alike to no lower values.
proof fn lemma_highest_alike_grows(lower: nat, higher: nat)
    requires
        lower <= higher,
    ensures
        highest_alike(lower) <= highest_alike(higher),
    decreases higher,
{
    lemma_highest_alike(lower);
    lemma_highest_alike(higher);
    if higher >= 2048 {
        if lower >= 2048 {
            lemma_highest_alike_grows(lower / 2, higher / 2);
        } else {
            lemma_highest_alike_grows(1024, higher / 2);
            lemma_highest_alike(1024);
        }
    }
}

/// A higher percentile of the same latencies is no smaller.
pub proof fn law_percentiles_are_ordered(
    values: Multiset<u64>,
    lower: u8,
    at_lower: u64,
    higher: u8,
    at_higher: u64,
)
    requires
        0 < values.len() <= pow2(53),
        lower <= higher,
        is_percentile(values, lower, at_lower),
        is_percentile(values, higher, at_higher),
    ensures
        at_lower <= at_higher,
{
    let total = values.len();
    let a = choose|found: u64|
        #[trigger] has_rank(values, found, percentile_rank(total, lower)) && at_lower
            == highest_alike(found as nat);
    let b = choose|found: u64|
        #[trigger] has_rank(values, found, percentile_rank(total, higher)) && at_higher
            == highest_alike(found as nat);
    lemma_rank_grows(total, lower, higher);
    if a > b {
        lemma_count_grows(values, b, (a - 1) as u64);
    }
    lemma_highest_alike_grows(a as nat, b as nat);
}

/// The lowest value alike to a value lies below it by no more than a part in 1024.
pub proof fn lemma_lowest_alike(value: nat)
    ensures
        lowest_alike(value) <= value,
        value - lowest_alike(value) <= value / 1024,
{
    lemma_resolution(value);
    let r = resolution(value);
    lemma_fundamental_div_mod(value as int, r as int);
    assert((value / r) * r == r * (value / r)) by (nonlinear_arith);
    assert(value % r < r);
    if value < 2048 {
        assert(value % 1 == 0);
    }
}

/// A histogram tells values from 1024 on apart to a part in 1024.
proof fn lemma_resolution(value: nat)
    ensures
        resolution(value) > 0,
        value >= 1024 ==> resolution(value) * 1024 <= value,
    decreases value,
{
    if value >= 2048 {
        lemma_resolution(value / 2);
    }
}

/// A counter goes up by what is counted, as long as `u64` holds it.
pub proof fn law_counters_count(counter: u64, by: u64)
    ensures
        counter + by <= u64::MAX ==> raised(counter, by) == counter + by,
{
}

/// A latency that a histogram covers comes in once, as its microseconds, at least one, to three
/// digits; a longer one is left out.
pub proof fn law_latencies_are_recorded(before: Multiset<u64>, after: Multiset<u64>, nanos: nat)
    requires
        takes_in(before, after, nanos),
        before.len() < u64::MAX,
    ensures
        nanos >= 1_073_741_824_000 ==> after == before,
        nanos < 1_073_741_824_000 ==> {
            let micros = if nanos < 1000 {
                1
            } else {
                nanos / 1000
            };
            exists|value: u64| #[trigger]
                before.insert(value) == after && value <= micros && micros - value <= micros / 1024
        },
{
    if nanos < 1_073_741_824_000 {
        let micros = micros_of(nanos) as nat;
        lemma_lowest_alike(micros);
        let value = lowest_alike(micros) as u64;
        assert(before.insert(value) == after);
    }
}

/// A snapshot tells every counter as it stands.
pub proof fn law_snapshots_tell_the_counters(metrics: Metrics, snapshot: MetricsSnapshot)
    requires
        metrics.shown_by(snapshot),
    ensures
        snapshot.connection_attempts == metrics.connection_attempts,
        snapshot.connection_successes == metrics.connection_successes,
        snapshot.connection_failures == metrics.connection_failures,
        snapshot.tls_failures == metrics.tls_failures,
        snapshot.sent_messages == metrics.sent_messages,
        snapshot.received_messages == metrics.received_messages,
        snapshot.duplicate_messages == metrics.duplicate_messages,
        snapshot.dropped_messages == metrics.dropped_messages,
        snapshot.message_timeouts == metrics.message_timeouts,
        snapshot.reconnects == metrics.reconnects,
        snapshot.reconnect_failures == metrics.reconnect_failures,
        snapshot.local_dropped_messages == metrics.local_dropped_messages,
        snapshot.active_connections == metrics.active_connections,
        snapshot.delivery_p95_ms is Some <==> recorded(metrics.delivery_us).len() > 0,
        snapshot.delivery_p99_ms is Some <==> recorded(metrics.delivery_us).len() > 0,
        snapshot.delivery_p50_ms is Some <==> recorded(metrics.delivery_us).len() > 0,
        snapshot.handshake_p50_ms is Some <==> recorded(metrics.handshake_us).len() > 0,
        snapshot.handshake_p95_ms is Some <==> recorded(metrics.handshake_us).len() > 0,
        snapshot.recovery_p95_ms is Some <==> recorded(metrics.recovery_us).len() > 0,
{
}

/// A percentile parts the recorded values as it says: no smaller share of them lies up to it, and no
/// larger share below it, to one value and one part in 2^50. It is told to three digits.
pub proof fn law_percentiles_part_the_values(values: Multiset<u64>, percent: u8, value: u64)
    requires
        0 < values.len() <= pow2(53),
        percent <= 100,
        is_percentile(values, percent, value),
    ensures
        exists|found: u64|
            {
                &&& #[trigger] values.count(found) > 0
                &&& found <= value
                &&& (value - found) * 1024 <= found
                &&& percent * values.len() * 0x4_0000_0000_0000 <= 100 * (values.filter(
                    |other: u64| other <= found,
                ).len() + 1) * 0x4_0000_0000_0001
                &&& found > 0 ==> 100 * values.filter(
                    |other: u64| other <= (found - 1) as u64,
                ).len() * 0x4_0000_0000_0000 <= (percent * values.len() + 1) * 0x4_0000_0000_0001
            },
{
    let total = values.len();
    let rank = percentile_rank(total, percent);
    let found = choose|found: u64| #[trigger]
        has_rank(values, found, rank) && value == highest_alike(found as nat);
    lemma_rank_bounds(percent as nat, total);
    lemma_resolution(found as nat);
    lemma_lowest_alike(found as nat);
    let r = resolution(found as nat);
    lemma_fundamental_div_mod(found as int, r as int);
    let q = 0x4_0000_0000_0000nat;
    let up_to = count_up_to(values, found);
    assert((found as nat / r) * r == r * (found as nat / r)) by (nonlinear_arith);
    assert(found as nat % r < r);
    assert(value >= found);
    assert((value - found) * 1024 <= found) by {
        if found >= 1024 {
            assert(value - found < r);
            assert(r * 1024 <= found);
        } else {
            assert(r == 1);
        }
    }
    assert(100 * (rank + 1) * (q + 1) <= 100 * (up_to + 1) * (q + 1)) by (nonlinear_arith)
        requires
            rank <= up_to,
    ;
    if found > 0 {
        let below = count_up_to(values, (found - 1) as u64);
        assert(100 * below * q <= 100 * (rank - 1) * q) by (nonlinear_arith)
            requires
                below <= rank - 1,
                q > 0,
        ;
    }
    assert(values.count(found) > 0);
}

/// A rank is the share of the total that it stands for, to one and one part in 2^50.
proof fn lemma_rank_bounds(percent: nat, total: nat)
    requires
        percent <= 100,
        0 < total <= pow2(53),
    ensures
        percent * total * 0x4_0000_0000_0000 <= 100 * (percentile_rank(total, percent as u8) + 1)
            * 0x4_0000_0000_0001,
        100 * (percentile_rank(total, percent as u8) - 1) * 0x4_0000_0000_0000 <= (percent * total
            + 1) * 0x4_0000_0000_0001,
{
    let p = pow2(1074);
    let k = 0x20_0000_0000_0000nat;
    let w = 0x10_0000_0000_0000nat;
    let q = 0x4_0000_0000_0000nat;
    lemma2_to64();
    lemma2_to64_rest();
    assert(pow2(53) == k);
    lemma_pow2_pos(1074);
    lemma_pow2_pos(2148);
    lemma_pow2_adds(1074, 1074);
    duration::lemma_large(p);
    binary64::lemma_landmarks();
    let share = binary64::rounded(percent, 100);
    let count = binary64::rounded(total, 1);
    let f = binary64::units(share);
    let t = binary64::units(count);
    binary64::lemma_rounded_nearest(percent, 100);
    binary64::lemma_rounded_nearest(total, 1);
    assert(percent * p <= 100 * p) by (nonlinear_arith)
        requires
            percent <= 100,
    ;
    binary64::lemma_nearest_bounded(percent, 100, share, binary64::ONE_BITS);
    assert(total * p <= 1 * (pow2(64) * p)) by (nonlinear_arith)
        requires
            total <= pow2(64),
    ;
    binary64::lemma_nearest_bounded(total, 1, count, binary64::TWO_64_BITS);
    binary64::lemma_rounded_loss(percent, 100);
    binary64::lemma_rounded_error(percent, 100);
    binary64::lemma_rounded_loss(total, 1);
    binary64::lemma_rounded_error(total, 1);
    let bits = binary64::product_bits(share, count);
    let x = binary64::units(bits);
    let g = 0x1_0000_0000_0000_0000nat;
    assert(f <= g * p) by (nonlinear_arith)
        requires
            f <= p,
            g > 1,
    ;
    duration::lemma_product_finite(f, t, bits);
    binary64::lemma_rounded_loss(f * t, pow2(2148));
    binary64::lemma_rounded_error(f * t, pow2(2148));
    lemma_rank_product(percent, total, f, t, x, p, k, w, g);
    let rank = percentile_rank(total, percent as u8);
    let up = ceiling(x, p);
    lemma_fundamental_div_mod(x as int, p as int);
    assert(x <= up * p && (up > 0 ==> (up - 1) * p < x)) by {
        let d = x / p;
        let m = x % p;
        assert(p * d == d * p) by (nonlinear_arith);
        assert((d + 1) * p == d * p + p) by (nonlinear_arith);
        if m == 0 && d > 0 {
            assert((d - 1) * p == d * p - p) by (nonlinear_arith);
        }
    }
    let i = (k - 1) as nat;
    let h = (k - 2) as nat;
    let j = i * i * i;
    let m = h * h * h;
    let l = k * k * k;
    assert(j > 1 && m > 1 && l > j && j * q <= m * (q + 1) && l * q <= j * (q + 1))
        by (nonlinear_arith)
        requires
            i == 0x1f_ffff_ffff_ffff,
            h == 0x1f_ffff_ffff_fffe,
            k == 0x20_0000_0000_0000,
            j == i * i * i,
            m == h * h * h,
            l == k * k * k,
            q == 0x4_0000_0000_0000,
    ;
    let ab = percent * total;
    let e = 100 * (rank + 1);
    assert(ab * m <= e * j) by (nonlinear_arith)
        requires
            p * (ab * m) <= 100 * (x * j) + p,
            x <= up * p,
            up <= rank,
            e == 100 * (rank + 1),
            j > 1,
            p > 0,
    {
        assert(x * j <= (up * p) * j);
        assert((up * p) * j <= (rank * p) * j);
        assert(100 * ((rank * p) * j) + p <= p * (e * j));
    }
    duration::lemma_cancel(ab, e, m, j, q);
    if rank > 1 {
        let c = (100 * (rank - 1)) as nat;
        let d = ab + 1;
        assert(c * j <= d * l) by (nonlinear_arith)
            requires
                100 * (x * j) <= p * (ab * l) + p,
                (rank - 1) * p < x,
                c == 100 * (rank - 1),
                d == ab + 1,
                l > 1,
                p > 0,
        {
            assert(((rank - 1) * p) * j <= x * j);
            assert(p * (c * j) == 100 * (((rank - 1) * p) * j));
            assert(p * (ab * l) + p <= p * (d * l));
        }
        duration::lemma_cancel(c, d, j, l, q);
    } else {
        assert((ab + 1) * (q + 1) >= 0) by (nonlinear_arith);
    }
}

/// The product of a share and a total, each rounded, and rounded again, is close to the product.
proof fn lemma_rank_product(
    percent: nat,
    total: nat,
    f: nat,
    t: nat,
    x: nat,
    p: nat,
    k: nat,
    w: nat,
    g: nat,
)
    requires
        k == 0x20_0000_0000_0000,
        w == 0x10_0000_0000_0000,
        g == 0x1_0000_0000_0000_0000,
        p >= 0x1_0000_0000_0000_0000_0000_0000_0000_0000_0000_0000_0000_0000_0000_0000_0000_0000nat,
        percent <= 100,
        total <= k,
        f <= p,
        t <= g * p,
        percent * p * (k - 2) <= 100 * f * (k - 1) + 100 * w,
        100 * f * (k - 1) <= percent * p * k + 100 * w,
        total * p * (k - 2) <= 1 * t * (k - 1) + 1 * w,
        1 * t * (k - 1) <= total * p * k + 1 * w,
        f * t * p * (k - 2) <= (p * p) * x * (k - 1) + (p * p) * w,
        (p * p) * x * (k - 1) <= f * t * p * k + (p * p) * w,
    ensures
        p * (percent * total * ((k - 2) * (k - 2) * (k - 2))) <= 100 * (x * ((k - 1) * (k - 1) * (k
            - 1))) + p,
        100 * (x * ((k - 1) * (k - 1) * (k - 1))) <= p * (percent * total * (k * k * k)) + p,
{
    let i = (k - 1) as nat;
    let h = (k - 2) as nat;
    let ft = f * t;
    let ab = percent * total;
    assert(ft * h <= p * (x * i + w)) by (nonlinear_arith)
        requires
            ft * p * h <= (p * p) * x * i + (p * p) * w,
            p > 0,
    {
        assert(p * (ft * h) <= p * (p * (x * i + w)));
    }
    assert(p * (x * i) <= ft * k + p * w) by (nonlinear_arith)
        requires
            (p * p) * x * i <= ft * p * k + (p * p) * w,
            p > 0,
    {
        assert(p * (p * (x * i)) <= p * (ft * k + p * w));
    }
    // From below.
    let u = percent * p * h;
    let v = total * p * h;
    let a = 100 * f * i + 100 * w;
    let b = t * i + w;
    assert(u * v <= a * b) by (nonlinear_arith)
        requires
            u <= a,
            v <= b,
    ;
    assert(u * v == p * (p * (ab * (h * h)))) by (nonlinear_arith)
        requires
            u == percent * p * h,
            v == total * p * h,
            ab == percent * total,
    ;
    let c = w * i + w * (g * i) + w * w;
    assert(a * b == 100 * (ft * (i * i)) + 100 * (w * (f * i) + w * (t * i) + w * w))
        by (nonlinear_arith)
        requires
            a == 100 * f * i + 100 * w,
            b == t * i + w,
            ft == f * t,
    ;
    assert(w * (f * i) + w * (t * i) + w * w <= p * c) by (nonlinear_arith)
        requires
            f <= p,
            t <= g * p,
            c == w * i + w * (g * i) + w * w,
            p > 0,
    {
        assert(w * (f * i) <= w * (p * i));
        assert(w * (t * i) <= w * ((g * p) * i));
        assert(w * w <= p * (w * w));
        assert(w * (p * i) + w * ((g * p) * i) + p * (w * w) == p * c);
    }
    assert(p * (p * (ab * (h * h))) * h <= (100 * (ft * (i * i)) + 100 * (p * c)) * h)
        by (nonlinear_arith)
        requires
            p * (p * (ab * (h * h))) <= 100 * (ft * (i * i)) + 100 * (p * c),
    ;
    let y = p * (x * i + w);
    assert((100 * (ft * (i * i)) + 100 * (p * c)) * h <= 100 * ((i * i) * y) + 100 * (p * c) * h)
        by (nonlinear_arith)
        requires
            ft * h <= y,
    {
        assert((100 * (ft * (i * i))) * h == 100 * ((i * i) * (ft * h)));
        assert((i * i) * (ft * h) <= (i * i) * y);
    }
    let z = 100 * (i * i * w) + 100 * (c * h);
    let xj = x * (i * i * i);
    let iw = i * i * w;
    let ch = c * h;
    assert((i * i) * y == p * (xj + iw)) by (nonlinear_arith)
        requires
            y == p * (x * i + w),
            xj == x * (i * i * i),
            iw == i * i * w,
    ;
    assert((p * c) * h == p * ch) by (nonlinear_arith)
        requires
            ch == c * h,
    ;
    assert(100 * (p * c) * h == 100 * ((p * c) * h)) by (nonlinear_arith);
    assert(100 * (p * (xj + iw)) + 100 * (p * ch) == p * (100 * xj + z)) by (nonlinear_arith)
        requires
            z == 100 * iw + 100 * ch,
    ;
    assert(z <= p) by (nonlinear_arith)
        requires
            z == 100 * (i * i * w) + 100 * (c * h),
            c == w * i + w * (g * i) + w * w,
            i == 0x1f_ffff_ffff_ffff,
            h == 0x1f_ffff_ffff_fffe,
            w == 0x10_0000_0000_0000,
            g == 0x1_0000_0000_0000_0000,
            p
                >= 0x1_0000_0000_0000_0000_0000_0000_0000_0000_0000_0000_0000_0000_0000_0000_0000_0000nat,
    ;
    let low = ab * (h * h * h);
    assert(p * (p * (ab * (h * h))) * h == p * (p * low)) by (nonlinear_arith)
        requires
            low == ab * (h * h * h),
    ;
    assert(p * low <= 100 * (x * (i * i * i)) + z) by (nonlinear_arith)
        requires
            p * (p * low) <= p * (100 * (x * (i * i * i)) + z),
            p > 0,
    ;
    // From above.
    let u2 = percent * p * k + 100 * w;
    let v2 = total * p * k + w;
    assert((100 * f * i) * (t * i) <= u2 * v2) by (nonlinear_arith)
        requires
            100 * f * i <= u2,
            t * i <= v2,
    ;
    assert((100 * f * i) * (t * i) == 100 * (ft * (i * i))) by (nonlinear_arith)
        requires
            ft == f * t,
    ;
    let c2 = percent * k * w + 100 * w * (total * k) + 100 * (w * w);
    let pk = percent * p * k;
    let tk = total * p * k;
    assert(u2 * v2 == pk * tk + pk * w + (100 * w) * tk + (100 * w) * w) by (nonlinear_arith)
        requires
            u2 == pk + 100 * w,
            v2 == tk + w,
    ;
    assert(pk * tk == p * (p * (ab * (k * k)))) by (nonlinear_arith)
        requires
            pk == percent * p * k,
            tk == total * p * k,
            ab == percent * total,
    ;
    assert(pk * w == p * (percent * k * w)) by (nonlinear_arith)
        requires
            pk == percent * p * k,
    ;
    assert((100 * w) * tk == p * (100 * w * (total * k))) by (nonlinear_arith)
        requires
            tk == total * p * k,
    ;
    let ww = 100 * (w * w);
    assert((100 * w) * w == ww) by (nonlinear_arith)
        requires
            ww == 100 * (w * w),
    ;
    assert(ww <= p * ww) by (nonlinear_arith)
        requires
            p > 0,
    ;
    let s1 = percent * k * w;
    let s2 = 100 * w * (total * k);
    assert(p * c2 == p * s1 + p * s2 + p * ww) by (nonlinear_arith)
        requires
            c2 == s1 + s2 + ww,
    ;
    assert(u2 * v2 <= p * (p * (ab * (k * k))) + p * c2);
    assert(100 * ((i * i) * (p * (x * i))) <= 100 * ((i * i) * (ft * k + p * w)))
        by (nonlinear_arith)
        requires
            p * (x * i) <= ft * k + p * w,
    ;
    assert(100 * ((i * i) * (ft * k + p * w)) == (100 * (ft * (i * i))) * k + p * (100 * (i * i
        * w))) by (nonlinear_arith);
    assert((100 * (ft * (i * i))) * k <= (p * (p * (ab * (k * k))) + p * c2) * k)
        by (nonlinear_arith)
        requires
            100 * (ft * (i * i)) <= p * (p * (ab * (k * k))) + p * c2,
    ;
    let high = ab * (k * k * k);
    let z2 = c2 * k + 100 * (i * i * w);
    assert((p * (p * (ab * (k * k))) + p * c2) * k + p * (100 * (i * i * w)) == p * (p * high + z2))
        by (nonlinear_arith)
        requires
            high == ab * (k * k * k),
            z2 == c2 * k + 100 * (i * i * w),
    ;
    assert(100 * ((i * i) * (p * (x * i))) == p * (100 * (x * (i * i * i)))) by (nonlinear_arith);
    assert(100 * (x * (i * i * i)) <= p * high + z2) by (nonlinear_arith)
        requires
            p * (100 * (x * (i * i * i))) <= p * (p * high + z2),
            p > 0,
    ;
    assert(percent * k * w <= 100 * (k * w)) by (nonlinear_arith)
        requires
            percent <= 100,
    ;
    assert(total * k <= k * k) by (nonlinear_arith)
        requires
            total <= k,
    ;
    assert(z2 <= p) by (nonlinear_arith)
        requires
            z2 == c2 * k + 100 * (i * i * w),
            c2 == percent * k * w + 100 * w * (total * k) + 100 * (w * w),
            percent * k * w <= 100 * (k * w),
            total * k <= k * k,
            i == 0x1f_ffff_ffff_ffff,
            k == 0x20_0000_0000_0000,
            w == 0x10_0000_0000_0000,
            p
                >= 0x1_0000_0000_0000_0000_0000_0000_0000_0000_0000_0000_0000_0000_0000_0000_0000_0000nat,
    {
        assert(c2 <= 100 * (k * w) + 100 * w * (k * k) + 100 * (w * w));
        assert(c2 * k <= (100 * (k * w) + 100 * w * (k * k) + 100 * (w * w)) * k);
    }
}

/// A percentile is reported in milliseconds: as the number nearest to a thousandth of its
/// microseconds. None is reported just where nothing was recorded.
pub proof fn law_percentiles_are_told_in_milliseconds(
    values: Multiset<u64>,
    percent: u8,
    reported: Option<Binary64>,
)
    requires
        reports_percentile(values, percent, reported),
    ensures
        reported is None <==> values.len() == 0,
        reported matches Some(millis) ==> exists|value: u64| #[trigger]
            is_percentile(values, percent, value) && (value <= u32::MAX ==> binary64::nearest(
                value as nat,
                1000,
                millis.bits,
            )),
{
    if let Some(millis) = reported {
        let value = choose|value: u64| #[trigger]
            is_percentile(values, percent, value) && millis.bits == millis_bits(value);
        binary64::lemma_rounded_nearest(value as nat, 1000);
        assert(is_percentile(values, percent, value));
    }
}

/// A snapshot tells the median and the 95th percentile of the handshakes, these and the 99th
/// percentile of the deliveries, and the 95th percentile of the recoveries, each of its own
/// latencies.
pub proof fn law_snapshots_tell_their_percentiles(metrics: Metrics, snapshot: MetricsSnapshot)
    requires
        metrics.shown_by(snapshot),
    ensures
        snapshot.handshake_p50_ms matches Some(millis) ==> exists|value: u64| #[trigger]
            is_percentile(recorded(metrics.handshake_us), 50, value) && millis.bits == millis_bits(
                value,
            ),
        snapshot.handshake_p95_ms matches Some(millis) ==> exists|value: u64| #[trigger]
            is_percentile(recorded(metrics.handshake_us), 95, value) && millis.bits == millis_bits(
                value,
            ),
        snapshot.delivery_p50_ms matches Some(millis) ==> exists|value: u64| #[trigger]
            is_percentile(recorded(metrics.delivery_us), 50, value) && millis.bits == millis_bits(
                value,
            ),
        snapshot.delivery_p95_ms matches Some(millis) ==> exists|value: u64| #[trigger]
            is_percentile(recorded(metrics.delivery_us), 95, value) && millis.bits == millis_bits(
                value,
            ),
        snapshot.delivery_p99_ms matches Some(millis) ==> exists|value: u64| #[trigger]
            is_percentile(recorded(metrics.delivery_us), 99, value) && millis.bits == millis_bits(
                value,
            ),
        snapshot.recovery_p95_ms matches Some(millis) ==> exists|value: u64| #[trigger]
            is_percentile(recorded(metrics.recovery_us), 95, value) && millis.bits == millis_bits(
                value,
            ),
{
}

} // verus!
