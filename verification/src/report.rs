//! What a run reports.
use crate::binary64::{self, Binary64, INFINITY_BITS, SIGN_WEIGHT, TWO_64_BITS};
use crate::config::{AppConfig, Environment, Profile};
use crate::duration::Duration;
use crate::ledger::AssertionResult;
use crate::metrics::MetricsSnapshot;
use crate::protocol::version;
use crate::text::{self, decimal, decimal_shifted};
use crate::timestamp::Timestamp;
use vstd::arithmetic::div_mod::*;
use vstd::arithmetic::power2::*;
use vstd::prelude::*;
use vstd::string::*;

verus! {

/// What went wrong for a participant.
#[derive(Clone, Copy, Debug, PartialEq, Eq, Structural)]
pub enum ErrorCategory {
    TcpConnectFailed,
    TlsHandshakeFailed,
    CaLoadFailed,
    ClientCertificateLoadFailed,
    ClientKeyLoadFailed,
    TlsConfigurationFailed,
    ReadinessTimeout,
    ReadFailed,
    ReadTimeout,
    PeerClosed,
    WriteFailed,
    ParseFailed,
    ReconnectExhausted,
}

/// What a participant was doing when it failed.
#[derive(Clone, Copy, Debug, PartialEq, Eq, Structural)]
pub enum ErrorPhase {
    Connect,
    TlsHandshake,
    Readiness,
    Read,
    Write,
    Parse,
    Reconnect,
}

/// A participant that failed, without any more of the error than its kind.
#[derive(Clone, Debug)]
pub struct ParticipantFailure {
    pub participant: String,
    pub phase: ErrorPhase,
    pub category: ErrorCategory,
}

/// How a run ended.
#[derive(Clone, Copy, Debug, PartialEq, Eq, Structural)]
pub enum RunStatus {
    Passed,
    Failed,
    Aborted,
}

/// What a report tells of the configuration.
#[derive(Clone, Debug)]
pub struct SanitizedConfig {
    pub environment: Environment,
    pub profile: Profile,
    pub participants: Vec<String>,
    pub tls_enabled: bool,
    pub reconnect_enabled: bool,
}

/// The report of a run.
#[derive(Debug)]
pub struct RunReport {
    pub version: &'static str,
    pub started_at: Timestamp,
    pub finished_at: Timestamp,
    pub elapsed_ms: u128,
    pub environment: Environment,
    pub target: String,
    pub profile: Profile,
    pub clients: u32,
    pub metrics: MetricsSnapshot,
    pub stop_reason: String,
    pub status: RunStatus,
    pub abort_reason: Option<String>,
    pub assertions: Vec<AssertionResult>,
    pub participant_failures: Vec<ParticipantFailure>,
    pub sanitized_config: SanitizedConfig,
}

/// What a `SanitizedConfig` holds.
pub struct SanitizedView {
    pub environment: Environment,
    pub profile: Profile,
    pub participants: Seq<Seq<char>>,
    pub tls_enabled: bool,
    pub reconnect_enabled: bool,
}

impl View for SanitizedConfig {
    type V = SanitizedView;

    open spec fn view(&self) -> SanitizedView {
        SanitizedView {
            environment: self.environment,
            profile: self.profile,
            participants: text::texts(self.participants@),
            tls_enabled: self.tls_enabled,
            reconnect_enabled: self.reconnect_enabled,
        }
    }
}

/// What may be told of a configuration: where it runs and as what, the names of its participants,
/// and whether TLS and reconnecting are on.
pub open spec fn sanitized(config: AppConfig) -> SanitizedView {
    SanitizedView {
        environment: config.environment,
        profile: config.run.profile,
        participants: Seq::new(config.participants@.len(), |i: int| config.participants@[i].id@),
        tls_enabled: config.tls.enabled,
        reconnect_enabled: config.reconnect.enabled,
    }
}

/// What may be told of a configuration does not depend on the certificate material, on the allowed
/// hosts or on the path of the report.
pub proof fn law_sanitized_config_holds_no_credentials(config: AppConfig, other: AppConfig)
    requires
        config.environment == other.environment,
        config.run == other.run,
        config.participants == other.participants,
        config.tls.enabled == other.tls.enabled,
        config.reconnect == other.reconnect,
    ensures
        sanitized(config) == sanitized(other),
{
    assert(sanitized(config).participants =~= sanitized(other).participants);
}

/// What may be told of a configuration.
fn sanitize(config: &AppConfig) -> (result: SanitizedConfig)
    ensures
        result@ == sanitized(*config),
{
    let ghost ids = sanitized(*config).participants;
    let mut participants: Vec<String> = Vec::new();
    let mut i: usize = 0;
    while i < config.participants.len()
        invariant
            i <= config.participants.len(),
            ids == sanitized(*config).participants,
            text::texts(participants@) == ids.take(i as int),
        decreases config.participants.len() - i,
    {
        let ghost before = participants@;
        participants.push(config.participants[i].id.clone());
        proof {
            assert(text::texts(participants@) =~= text::texts(before).push(ids[i as int]));
            assert(ids.take(i as int).push(ids[i as int]) =~= ids.take(i + 1));
        }
        i = i + 1;
    }
    assert(ids.take(ids.len() as int) =~= ids);
    SanitizedConfig {
        environment: config.environment,
        profile: config.run.profile,
        participants,
        tls_enabled: config.tls.enabled,
        reconnect_enabled: config.reconnect.enabled,
    }
}

/// The name of a profile.
fn profile_name(profile: Profile) -> (name: &'static str)
    ensures
        name@ == profile.name(),
{
    match profile {
        Profile::Smoke => "smoke",
        Profile::Functional => "functional",
        Profile::Load => "load",
        Profile::Stress => "stress",
        Profile::Spike => "spike",
        Profile::Soak => "soak",
        Profile::Reconnect => "reconnect",
    }
}

/// A number of hundredths as a decimal fraction with two digits.
pub open spec fn hundredths_text(hundredths: nat) -> Seq<char> {
    text::decimal_text(hundredths / 100) + seq![
        '.',
        text::digit(hundredths / 10 % 10),
        text::digit(hundredths % 10),
    ]
}

/// A number with two decimal digits, rounded to the nearest. What is infinite or undefined is named.
pub open spec fn number_text(number: Binary64) -> Seq<char> {
    let magnitude = (number.bits % SIGN_WEIGHT) as u64;
    let sign = if number.bits >= SIGN_WEIGHT {
        "-"@
    } else {
        ""@
    };
    if number.nan() {
        "NaN"@
    } else if magnitude == INFINITY_BITS {
        sign + "inf"@
    } else {
        sign + hundredths_text(
            binary64::half_even(binary64::units(magnitude) * 100, pow2(1074)),
        )
    }
}

/// A latency with two decimal digits, or `n/a` where it is not known.
pub open spec fn latency_text(latency: Option<Binary64>) -> Seq<char> {
    match latency {
        Some(millis) => number_text(millis),
        None => "n/a"@,
    }
}

/// Writes a number of hundredths as a decimal fraction with two digits.
fn hundredths(value: u128) -> (result: String)
    ensures
        result@ == hundredths_text(value as nat),
{
    let mut result = decimal(value / 100);
    let ghost whole = result@;
    let tens = (48 + (value / 10 % 10) as u8) as char;
    let ones = (48 + (value % 10) as u8) as char;
    result.push('.');
    result.push(tens);
    result.push(ones);
    proof {
        assert(tens == text::digit((value / 10 % 10) as nat));
        assert(ones == text::digit((value % 10) as nat));
        assert(result@ =~= whole + seq!['.', tens, ones]);
    }
    result
}

/// Writes a non-negative number with two decimal digits.
fn magnitude(number: &Binary64) -> (result: String)
    requires
        number.plain(),
    ensures
        result@ == hundredths_text(
            binary64::half_even(binary64::units(number.bits) * 100, pow2(1074)),
        ),
{
    let ghost p = pow2(1074);
    proof {
        binary64::lemma_landmarks();
        lemma_pow2_pos(1074);
    }
    if number.bits < TWO_64_BITS {
        proof {
            binary64::lemma_units_increase(number.bits, TWO_64_BITS);
        }
        return hundredths(number.times_rounded(100));
    }
    let (value, shift) = number.as_doubled();
    let mut result = decimal_shifted(value, shift);
    let ghost whole = (value * pow2(shift as nat)) as nat;
    let ghost digits = result@;
    result.append(".00");
    proof {
        let num = binary64::units(number.bits) * 100;
        assert(num == p * (100 * whole) + 0) by (nonlinear_arith)
            requires
                num == (whole * p) * 100,
        ;
        lemma_fundamental_div_mod_converse(num as int, p as int, (100 * whole) as int, 0);
        reveal_strlit(".00");
        assert(text::digit(0) == '0');
        assert(".00"@ =~= seq!['.', '0', '0']);
        assert(result@ =~= digits + seq!['.', '0', '0']);
    }
    result
}

/// Writes a number with two decimal digits.
fn two_digits(number: &Binary64) -> (result: String)
    ensures
        result@ == number_text(*number),
{
    let bits = number.bits % SIGN_WEIGHT;
    if bits > INFINITY_BITS {
        return "NaN".to_owned();
    }
    let mut result = if number.bits >= SIGN_WEIGHT {
        "-".to_owned()
    } else {
        "".to_owned()
    };
    if bits == INFINITY_BITS {
        result.append("inf");
    } else {
        result.append(magnitude(&Binary64 { bits }).as_str());
    }
    result
}

impl RunReport {
    /// Makes the report of a run.
    ///
    /// The reason why the run stopped is the reason why it was aborted, unless it passed.
    pub fn new(
        config: &AppConfig,
        started_at: Timestamp,
        finished_at: Timestamp,
        elapsed: Duration,
        metrics: MetricsSnapshot,
        stop_reason: String,
        status: RunStatus,
        assertions: Vec<AssertionResult>,
        participant_failures: Vec<ParticipantFailure>,
    ) -> (report: RunReport)
        ensures
            report.version@ == "0.2.0"@,
            report.started_at == started_at,
            report.finished_at == finished_at,
            report.elapsed_ms == elapsed@ / 1_000_000,
            report.environment == config.environment,
            report.target@ == config.target.server@,
            report.profile == config.run.profile,
            report.clients == config.run.clients,
            report.metrics == metrics,
            report.stop_reason@ == stop_reason@,
            report.status == status,
            match report.abort_reason {
                Some(reason) => status != RunStatus::Passed && reason@ == stop_reason@,
                None => status == RunStatus::Passed,
            },
            report.assertions == assertions,
            report.participant_failures == participant_failures,
            report.sanitized_config@ == sanitized(*config),
    {
        let abort_reason = match status {
            RunStatus::Passed => None,
            _ => Some(stop_reason.clone()),
        };
        RunReport {
            version: version(),
            started_at,
            finished_at,
            elapsed_ms: elapsed.as_millis(),
            environment: config.environment,
            target: config.target.server.clone(),
            profile: config.run.profile,
            clients: config.run.clients,
            metrics,
            stop_reason,
            status,
            abort_reason,
            assertions,
            participant_failures,
            sanitized_config: sanitize(config),
        }
    }

    /// The line that sums the report up.
    pub open spec fn summary(self) -> Seq<char> {
        "tak_bench "@ + self.profile.name() + " against "@ + self.target@ + ": "@
            + text::decimal_text(self.metrics.sent_messages as nat) + " sent, "@
            + text::decimal_text(self.metrics.connection_successes as nat) + "/"@
            + text::decimal_text(self.metrics.connection_attempts as nat)
            + " connections succeeded, p95 handshake: "@ + latency_text(
            self.metrics.handshake_p95_ms,
        ) + " ms"@
    }

    /// Sums the report up in a line.
    pub fn terminal(&self) -> (line: String)
        ensures
            line@ == self.summary(),
    {
        let latency = match &self.metrics.handshake_p95_ms {
            Some(millis) => two_digits(millis),
            None => "n/a".to_owned(),
        };
        let mut line = "tak_bench ".to_owned();
        line.append(profile_name(self.profile));
        line.append(" against ");
        line.append(self.target.as_str());
        line.append(": ");
        line.append(decimal(self.metrics.sent_messages as u128).as_str());
        line.append(" sent, ");
        line.append(decimal(self.metrics.connection_successes as u128).as_str());
        line.append("/");
        line.append(decimal(self.metrics.connection_attempts as u128).as_str());
        line.append(" connections succeeded, p95 handshake: ");
        line.append(latency.as_str());
        line.append(" ms");
        line
    }
}

/// A number that is neither negative nor infinite nor undefined is written with the two decimal digits
/// that are nearest to it.
pub proof fn law_numbers_are_written_with_two_digits(number: Binary64)
    requires
        number.plain(),
    ensures
        exists|hundredths: nat|
            {
                &&& number_text(number) == #[trigger] text::decimal_text(hundredths / 100) + seq![
                    '.',
                    text::digit(hundredths / 10 % 10),
                    text::digit(hundredths % 10),
                ]
                &&& 2 * (hundredths * pow2(1074)) <= 2 * (100 * binary64::units(number.bits))
                    + pow2(1074)
                &&& 2 * (100 * binary64::units(number.bits)) <= 2 * (hundredths * pow2(1074))
                    + pow2(1074)
            },
{
    let p = pow2(1074);
    let u = binary64::units(number.bits) * 100;
    let h = binary64::half_even(u, p);
    lemma_pow2_pos(1074);
    lemma_fundamental_div_mod(u as int, p as int);
    let d = u / p;
    assert(p * d == d * p) by (nonlinear_arith);
    assert((d + 1) * p == d * p + p) by (nonlinear_arith);
    reveal_strlit("");
    assert(""@ + hundredths_text(h) =~= hundredths_text(h));
    assert(number_text(number) == text::decimal_text(h / 100) + seq![
        '.',
        text::digit(h / 10 % 10),
        text::digit(h % 10),
    ]);
}

/// What may be told of a configuration is its environment and profile, the aliases of its participants
/// in their order, and whether TLS and reconnecting are on.
pub proof fn law_reports_tell_the_settings(config: AppConfig, index: int)
    ensures
        sanitized(config).environment == config.environment,
        sanitized(config).profile == config.run.profile,
        sanitized(config).tls_enabled == config.tls.enabled,
        sanitized(config).reconnect_enabled == config.reconnect.enabled,
        sanitized(config).participants.len() == config.participants@.len(),
        0 <= index < config.participants@.len() ==> sanitized(config).participants[index]
            == config.participants@[index].id@,
{
}

/// The line that sums a report up names its profile and its target, and then tells how much was sent,
/// how many connections succeeded of how many, and the 95th percentile of the handshakes, or that
/// there is none.
pub proof fn law_summaries_tell_the_run(report: RunReport)
    ensures
        ({
            let metrics = report.metrics;
            let head = "tak_bench "@ + report.profile.name() + " against "@ + report.target@ + ": "@;
            let counts = text::decimal_text(metrics.sent_messages as nat) + " sent, "@
                + text::decimal_text(metrics.connection_successes as nat) + "/"@
                + text::decimal_text(metrics.connection_attempts as nat)
                + " connections succeeded, p95 handshake: "@;
            &&& head.is_prefix_of(report.summary())
            &&& (head + counts).is_prefix_of(report.summary())
            &&& metrics.handshake_p95_ms is None ==> report.summary() == head + counts + "n/a"@
                + " ms"@
            &&& metrics.handshake_p95_ms matches Some(millis) ==> report.summary() == head + counts
                + number_text(millis) + " ms"@
        }),
{
    let metrics = report.metrics;
    let head = "tak_bench "@ + report.profile.name() + " against "@ + report.target@ + ": "@;
    let counts = text::decimal_text(metrics.sent_messages as nat) + " sent, "@ + text::decimal_text(
        metrics.connection_successes as nat,
    ) + "/"@ + text::decimal_text(metrics.connection_attempts as nat)
        + " connections succeeded, p95 handshake: "@;
    let whole = head + counts + latency_text(metrics.handshake_p95_ms) + " ms"@;
    assert(report.summary() =~= whole);
    assert(head =~= whole.subrange(0, head.len() as int));
    assert(head + counts =~= whole.subrange(0, (head + counts).len() as int));
}

} // verus!
