//! How a participant connects, and connects again.
use crate::binary64::{self, Binary64};
use crate::config::{AppConfig, ReconnectConfig};
use crate::duration::{self, Duration};
use crate::metrics::{self, raise, Metrics};
use vstd::arithmetic::power2::*;
use vstd::prelude::*;

verus! {

/// What a participant is doing.
#[derive(Clone, Copy, Debug, PartialEq, Eq, Structural)]
pub enum SessionPhase {
    Connecting,
    Connected,
    Waiting,
    Done,
}

/// How often a participant has connected again, and what it is doing.
#[derive(Clone, Copy, Debug, PartialEq, Eq, Structural)]
pub struct Session {
    pub attempt: u32,
    pub phase: SessionPhase,
}

/// What happens to a participant.
#[derive(Clone, Copy, Debug, PartialEq, Eq, Structural)]
pub enum SessionEvent {
    /// The connection is established. Setting it up took `handshake`, and the participant started
    /// `since_start` ago.
    Opened { handshake: Duration, since_start: Duration },
    /// The connection could not be established.
    ConnectFailed,
    /// The work on the connection is over, without a failure or with one, before the deadline or
    /// past it.
    Closed { clean: bool, past_deadline: bool },
    /// The pause before connecting again is over.
    BackoffElapsed,
    /// The run is to stop, or its deadline has come, while the participant is not connected.
    Cancelled,
}

/// What a participant has to do next.
#[derive(Clone, Copy, Debug, PartialEq, Eq, Structural)]
pub enum SessionAction {
    /// Connect.
    Connect,
    /// Work on the connection.
    Work,
    /// Wait for the pause that belongs to this attempt.
    Pause { attempt: u32 },
    /// End with the result that there is.
    Finish,
    /// End, since every attempt to connect again is used up.
    GiveUp,
}

/// Whether an event can happen to a participant in its present phase.
pub open spec fn can_happen(phase: SessionPhase, event: SessionEvent) -> bool {
    match event {
        SessionEvent::Opened { .. } => phase == SessionPhase::Connecting,
        SessionEvent::ConnectFailed => phase == SessionPhase::Connecting,
        SessionEvent::Closed { .. } => phase == SessionPhase::Connected,
        SessionEvent::BackoffElapsed => phase == SessionPhase::Waiting,
        SessionEvent::Cancelled => phase == SessionPhase::Connecting || phase
            == SessionPhase::Waiting,
    }
}

/// The pause after a failure, or the end where every attempt is used up.
pub open spec fn retried(session: Session, reconnect: ReconnectConfig) -> (
    Session,
    SessionAction,
) {
    if session.attempt >= reconnect.max_attempts {
        (Session { phase: SessionPhase::Done, ..session }, SessionAction::GiveUp)
    } else {
        let attempt = (session.attempt + 1) as u32;
        (Session { attempt, phase: SessionPhase::Waiting }, SessionAction::Pause { attempt })
    }
}

/// What becomes of a participant, and what it has to do next.
pub open spec fn next_session(session: Session, event: SessionEvent, reconnect: ReconnectConfig) -> (
    Session,
    SessionAction,
) {
    match event {
        SessionEvent::Opened { .. } => (
            Session { phase: SessionPhase::Connected, ..session },
            SessionAction::Work,
        ),
        SessionEvent::ConnectFailed => if reconnect.enabled {
            retried(session, reconnect)
        } else {
            (Session { phase: SessionPhase::Done, ..session }, SessionAction::Finish)
        },
        SessionEvent::Closed { clean, past_deadline } => if clean || past_deadline
            || !reconnect.enabled {
            (Session { phase: SessionPhase::Done, ..session }, SessionAction::Finish)
        } else {
            retried(session, reconnect)
        },
        SessionEvent::BackoffElapsed => (
            Session { phase: SessionPhase::Connecting, ..session },
            SessionAction::Connect,
        ),
        SessionEvent::Cancelled => (
            Session { phase: SessionPhase::Done, ..session },
            SessionAction::Finish,
        ),
    }
}

/// A counter that goes down, and below zero starts anew at its largest value.
pub open spec fn lowered(counter: u64) -> u64 {
    if counter == 0 {
        u64::MAX
    } else {
        (counter - 1) as u64
    }
}

/// Whether the metrics of a run are those after an event of a participant.
pub open spec fn metrics_follow(
    before: Metrics,
    after: Metrics,
    session: Session,
    event: SessionEvent,
    config: AppConfig,
) -> bool {
    match event {
        SessionEvent::Opened { handshake, since_start } => {
            &&& after == (Metrics {
                connection_successes: metrics::raised(before.connection_successes, 1),
                active_connections: metrics::raised(before.active_connections, 1),
                reconnects: if session.attempt > 0 {
                    metrics::raised(before.reconnects, 1)
                } else {
                    before.reconnects
                },
                handshake_us: after.handshake_us,
                recovery_us: after.recovery_us,
                ..before
            })
            &&& metrics::takes_in(
                metrics::recorded(before.handshake_us),
                metrics::recorded(after.handshake_us),
                handshake@,
            )
            &&& if session.attempt > 0 {
                metrics::takes_in(
                    metrics::recorded(before.recovery_us),
                    metrics::recorded(after.recovery_us),
                    since_start@,
                )
            } else {
                after.recovery_us == before.recovery_us
            }
        },
        SessionEvent::ConnectFailed => after == (Metrics {
            connection_failures: metrics::raised(before.connection_failures, 1),
            tls_failures: if config.tls.enabled {
                metrics::raised(before.tls_failures, 1)
            } else {
                before.tls_failures
            },
            reconnect_failures: if config.reconnect.enabled {
                metrics::raised(before.reconnect_failures, 1)
            } else {
                before.reconnect_failures
            },
            ..before
        }),
        SessionEvent::Closed { .. } => after == (Metrics {
            active_connections: lowered(before.active_connections),
            ..before
        }),
        SessionEvent::BackoffElapsed => after == (Metrics {
            connection_attempts: metrics::raised(before.connection_attempts, 1),
            ..before
        }),
        SessionEvent::Cancelled => after == before,
    }
}

impl Session {
    /// Starts a participant: it has to connect.
    pub fn start(metrics: &mut Metrics) -> (session: Session)
        ensures
            session == (Session { attempt: 0, phase: SessionPhase::Connecting }),
            *final(metrics) == (Metrics {
                connection_attempts: metrics::raised(old(metrics).connection_attempts, 1),
                ..*old(metrics)
            }),
    {
        metrics.connection_attempts = raise(metrics.connection_attempts, 1);
        Session { attempt: 0, phase: SessionPhase::Connecting }
    }

    /// Whether an event can happen to the participant in its present phase.
    pub fn accepts(&self, event: &SessionEvent) -> (result: bool)
        ensures
            result == can_happen(self.phase, *event),
    {
        match event {
            SessionEvent::Opened { .. } => self.phase == SessionPhase::Connecting,
            SessionEvent::ConnectFailed => self.phase == SessionPhase::Connecting,
            SessionEvent::Closed { .. } => self.phase == SessionPhase::Connected,
            SessionEvent::BackoffElapsed => self.phase == SessionPhase::Waiting,
            SessionEvent::Cancelled => self.phase == SessionPhase::Connecting || self.phase
                == SessionPhase::Waiting,
        }
    }

    /// The pause after a failure, or the end where every attempt is used up.
    fn retry(&mut self, reconnect: &ReconnectConfig) -> (action: SessionAction)
        ensures
            (*final(self), action) == retried(*old(self), *reconnect),
    {
        if self.attempt >= reconnect.max_attempts {
            self.phase = SessionPhase::Done;
            SessionAction::GiveUp
        } else {
            self.attempt = self.attempt + 1;
            self.phase = SessionPhase::Waiting;
            SessionAction::Pause { attempt: self.attempt }
        }
    }

    /// Takes an event in, counts it, and tells what to do next.
    pub fn step(&mut self, event: SessionEvent, config: &AppConfig, metrics: &mut Metrics) -> (action:
        SessionAction)
        requires
            can_happen(old(self).phase, event),
        ensures
            (*final(self), action) == next_session(*old(self), event, config.reconnect),
            metrics_follow(*old(metrics), *final(metrics), *old(self), event, *config),
    {
        match event {
            SessionEvent::Opened { handshake, since_start } => {
                metrics.connection_successes = raise(metrics.connection_successes, 1);
                metrics.active_connections = raise(metrics.active_connections, 1);
                metrics.record_handshake(handshake);
                if self.attempt > 0 {
                    metrics.reconnects = raise(metrics.reconnects, 1);
                    metrics.record_recovery(since_start);
                }
                self.phase = SessionPhase::Connected;
                SessionAction::Work
            },
            SessionEvent::ConnectFailed => {
                metrics.connection_failures = raise(metrics.connection_failures, 1);
                if config.tls.enabled {
                    metrics.tls_failures = raise(metrics.tls_failures, 1);
                }
                if !config.reconnect.enabled {
                    self.phase = SessionPhase::Done;
                    return SessionAction::Finish;
                }
                metrics.reconnect_failures = raise(metrics.reconnect_failures, 1);
                self.retry(&config.reconnect)
            },
            SessionEvent::Closed { clean, past_deadline } => {
                metrics.active_connections = if metrics.active_connections == 0 {
                    u64::MAX
                } else {
                    metrics.active_connections - 1
                };
                if clean || past_deadline || !config.reconnect.enabled {
                    self.phase = SessionPhase::Done;
                    return SessionAction::Finish;
                }
                self.retry(&config.reconnect)
            },
            SessionEvent::BackoffElapsed => {
                metrics.connection_attempts = raise(metrics.connection_attempts, 1);
                self.phase = SessionPhase::Connecting;
                SessionAction::Connect
            },
            SessionEvent::Cancelled => {
                self.phase = SessionPhase::Done;
                SessionAction::Finish
            },
        }
    }
}

/// A participant after some events.
pub open spec fn session_after(
    session: Session,
    events: Seq<SessionEvent>,
    reconnect: ReconnectConfig,
) -> Session
    decreases events.len(),
{
    if events.len() == 0 {
        session
    } else {
        next_session(
            session_after(session, events.drop_last(), reconnect),
            events.last(),
            reconnect,
        ).0
    }
}

/// Whether some events can happen to a participant one after the other.
pub open spec fn can_all_happen(
    session: Session,
    events: Seq<SessionEvent>,
    reconnect: ReconnectConfig,
) -> bool
    decreases events.len(),
{
    events.len() > 0 ==> {
        &&& can_all_happen(session, events.drop_last(), reconnect)
        &&& can_happen(
            session_after(session, events.drop_last(), reconnect).phase,
            events.last(),
        )
    }
}

/// How often a participant connects during some events, its start included.
pub open spec fn connects(events: Seq<SessionEvent>) -> nat
    decreases events.len(),
{
    if events.len() == 0 {
        1
    } else {
        connects(events.drop_last()) + (if events.last() is BackoffElapsed {
            1nat
        } else {
            0
        })
    }
}

/// How many connections a participant has open after some events.
pub open spec fn opened_minus_closed(events: Seq<SessionEvent>) -> int
    decreases events.len(),
{
    if events.len() == 0 {
        0
    } else {
        opened_minus_closed(events.drop_last()) + (match events.last() {
            SessionEvent::Opened { .. } => 1int,
            SessionEvent::Closed { .. } => -1int,
            _ => 0,
        })
    }
}

/// The session that every participant starts with.
pub open spec fn fresh() -> Session {
    Session { attempt: 0, phase: SessionPhase::Connecting }
}

/// How often a participant has connected is one more than its attempt, unless it still waits for
/// it.
proof fn lemma_connects(events: Seq<SessionEvent>, reconnect: ReconnectConfig)
    requires
        can_all_happen(fresh(), events, reconnect),
    ensures
        ({
            let session = session_after(fresh(), events, reconnect);
            &&& session.attempt <= reconnect.max_attempts
            &&& session.phase == SessionPhase::Waiting ==> connects(events) == session.attempt
            &&& session.phase == SessionPhase::Connecting || session.phase
                == SessionPhase::Connected ==> connects(events) == session.attempt + 1
            &&& connects(events) <= session.attempt + 1
        }),
    decreases events.len(),
{
    if events.len() > 0 {
        lemma_connects(events.drop_last(), reconnect);
    }
}

/// Reconnecting is bounded: whatever happens, a participant connects at most once more often than
/// it may attempt to reconnect.
pub proof fn law_reconnects_are_bounded(events: Seq<SessionEvent>, reconnect: ReconnectConfig)
    requires
        can_all_happen(fresh(), events, reconnect),
    ensures
        connects(events) <= reconnect.max_attempts + 1,
{
    lemma_connects(events, reconnect);
}

/// Where reconnecting is off, a participant connects once.
pub proof fn law_no_reconnect_unless_enabled(
    events: Seq<SessionEvent>,
    reconnect: ReconnectConfig,
)
    requires
        can_all_happen(fresh(), events, reconnect),
        !reconnect.enabled,
    ensures
        connects(events) == 1,
        session_after(fresh(), events, reconnect).phase != SessionPhase::Waiting,
    decreases events.len(),
{
    if events.len() > 0 {
        law_no_reconnect_unless_enabled(events.drop_last(), reconnect);
    }
}

/// A participant has one connection open while it is connected, and none at any other time.
pub proof fn law_connections_are_paired(events: Seq<SessionEvent>, reconnect: ReconnectConfig)
    requires
        can_all_happen(fresh(), events, reconnect),
    ensures
        opened_minus_closed(events) == (if session_after(fresh(), events, reconnect).phase
            == SessionPhase::Connected {
            1int
        } else {
            0
        }),
    decreases events.len(),
{
    if events.len() > 0 {
        law_connections_are_paired(events.drop_last(), reconnect);
    }
}

/// How often the shortest pause is doubled into the pause of an attempt, as far as `u32` holds it.
pub open spec fn multiplier_of(attempt: nat) -> nat {
    let doublings = if attempt == 0 {
        0
    } else {
        (attempt - 1) as nat
    };
    if doublings >= 32 {
        u32::MAX as nat
    } else {
        pow2(doublings)
    }
}

/// The pause of an attempt before any jitter: the shortest one, doubled for each attempt after the
/// first, but never longer than the longest one.
pub open spec fn backoff_of(reconnect: ReconnectConfig, attempt: nat) -> nat {
    duration::shorter(
        duration::shorter(
            reconnect.min_backoff@ * multiplier_of(attempt),
            duration::MAX_NANOS as nat,
        ),
        reconnect.max_backoff@,
    )
}

/// The pause before an attempt: its backoff, times the factor that is drawn for it where there is
/// jitter.
pub open spec fn pause_of(reconnect: ReconnectConfig, attempt: nat, factor: Binary64) -> Option<
    nat,
> {
    let base = backoff_of(reconnect, attempt);
    if reconnect.jitter_percent == 0 {
        Some(base)
    } else {
        duration::scaled_nanos(base, factor)
    }
}

/// Two to the power of the doublings of an attempt.
fn multiplier(attempt: u32) -> (result: u32)
    ensures
        result == multiplier_of(attempt as nat),
{
    proof {
        lemma2_to64();
    }
    if attempt <= 1 {
        return 1;
    }
    if attempt >= 33 {
        return u32::MAX;
    }
    let mut result: u32 = 1;
    let mut i: u32 = 1;
    while i < attempt
        invariant
            1 <= i <= attempt <= 32,
            result == pow2((i - 1) as nat),
            result < 0x1_0000_0000,
        decreases attempt - i,
    {
        proof {
            lemma2_to64();
            lemma_pow2_unfold(i as nat);
            if i < 31 {
                lemma_pow2_strictly_increases(i as nat, 31);
            }
        }
        result = result * 2;
        i = i + 1;
    }
    result
}

/// The pause before an attempt to connect again.
///
/// Without jitter it is the backoff of the attempt. With jitter it is the backoff times a factor
/// that is drawn for it, rounded to the nanosecond, where that is a span.
pub fn reconnect_delay(config: &AppConfig, attempt: u32, factor: &Binary64) -> (result: Option<
    Duration,
>)
    ensures
        ({
            let owed = pause_of(config.reconnect, attempt as nat, *factor);
            match result {
                Some(pause) => owed == Some(pause@),
                None => owed is None,
            }
        }),
{
    let base = config.reconnect.min_backoff.saturating_mul(multiplier(attempt)).min(
        config.reconnect.max_backoff,
    );
    if config.reconnect.jitter_percent == 0 {
        Some(base)
    } else {
        base.mul_binary64(factor)
    }
}

/// The largest deviation from the backoff that jitter may make, in percent.
pub fn jitter_bound(config: &AppConfig) -> (percent: u8)
    ensures
        percent == (if config.reconnect.jitter_percent > 100 {
            100
        } else {
            config.reconnect.jitter_percent
        }),
{
    if config.reconnect.jitter_percent > 100 {
        100
    } else {
        config.reconnect.jitter_percent
    }
}

/// The backoff of an attempt is never longer than the longest pause, nor shorter than the shortest
/// one where that is not the longer of the two, and never shorter than the backoff of an earlier
/// attempt.
pub proof fn law_backoff_is_bounded(reconnect: ReconnectConfig, attempt: nat, later: nat)
    requires
        attempt <= later,
        reconnect.min_backoff@ <= reconnect.max_backoff@ <= duration::MAX_NANOS,
    ensures
        reconnect.min_backoff@ <= backoff_of(reconnect, attempt) <= reconnect.max_backoff@,
        backoff_of(reconnect, attempt) <= backoff_of(reconnect, later),
{
    let a = multiplier_of(attempt);
    let b = multiplier_of(later);
    lemma2_to64();
    assert(1 <= a <= b) by {
        let d = if attempt == 0 {
            0
        } else {
            (attempt - 1) as nat
        };
        let e = if later == 0 {
            0
        } else {
            (later - 1) as nat
        };
        lemma_pow2_pos(d);
        if d < 32 {
            lemma_pow2_strictly_increases(d, 32);
            if d < e {
                lemma_pow2_strictly_increases(d, e);
            }
        }
    }
    let m = reconnect.min_backoff@;
    assert(m <= m * a <= m * b) by (nonlinear_arith)
        requires
            1 <= a <= b,
    ;
}

/// Pauses double: the first one is the shortest, and each later one is twice the one before, as far
/// as the longest one allows.
pub proof fn law_backoff_doubles(reconnect: ReconnectConfig, attempt: nat)
    requires
        1 <= attempt < 32,
        reconnect.min_backoff@ <= duration::MAX_NANOS,
        reconnect.max_backoff@ <= duration::MAX_NANOS,
    ensures
        backoff_of(reconnect, 1) == (if reconnect.min_backoff@ <= reconnect.max_backoff@ {
            reconnect.min_backoff@
        } else {
            reconnect.max_backoff@
        }),
        backoff_of(reconnect, attempt + 1) == (if 2 * backoff_of(reconnect, attempt)
            <= reconnect.max_backoff@ {
            2 * backoff_of(reconnect, attempt)
        } else {
            reconnect.max_backoff@
        }),
        backoff_of(reconnect, 0) == backoff_of(reconnect, 1),
{
    lemma2_to64();
    lemma_pow2_unfold(attempt);
    let m = reconnect.min_backoff@;
    let a = multiplier_of(attempt);
    assert(multiplier_of(attempt + 1) == 2 * a);
    assert(m * (2 * a) == 2 * (m * a)) by (nonlinear_arith);
    assert(m * 1 == m);
}

/// Without jitter the pauses are the backoffs, whatever factor is drawn. With jitter a pause is the
/// backoff times the factor, to two nanoseconds and one part in 2^50.
pub proof fn law_jitter_scales_the_backoff(
    reconnect: ReconnectConfig,
    attempt: nat,
    factor: Binary64,
    base: nat,
)
    requires
        reconnect.max_backoff@ <= duration::MAX_NANOS,
        base == backoff_of(reconnect, attempt),
    ensures
        reconnect.jitter_percent == 0 ==> pause_of(reconnect, attempt, factor) == Some(base),
        reconnect.jitter_percent > 0 && factor.plain() && binary64::units(factor.bits)
            <= 0x1_0000_0000_0000_0000 * pow2(1074) && pause_of(reconnect, attempt, factor) is Some
            ==> {
            let pause = pause_of(reconnect, attempt, factor)->0;
            &&& binary64::units(factor.bits) * base * 0x4_0000_0000_0000 <= (pause + 2) * pow2(1074)
                * 0x4_0000_0000_0001
            &&& pause * pow2(1074) * 0x4_0000_0000_0000 <= (binary64::units(factor.bits) * base + 2
                * pow2(1074)) * 0x4_0000_0000_0001
        },
{
    if reconnect.jitter_percent > 0 && factor.plain() && binary64::units(factor.bits)
        <= 0x1_0000_0000_0000_0000 * pow2(1074) && pause_of(reconnect, attempt, factor) is Some {
        duration::law_scaled_spans_are_products(base, factor);
    }
}

/// A participant that loses its connection, or gets none, waits and connects again as long as it may:
/// the attempts count up one by one, an established connection does not start them anew, and only
/// when all are used up does the participant give up.
pub proof fn law_sessions_go_on_while_they_may(
    session: Session,
    event: SessionEvent,
    reconnect: ReconnectConfig,
)
    requires
        can_happen(session.phase, event),
    ensures
        ({
            let (after, action) = next_session(session, event, reconnect);
            let lost = event is ConnectFailed || (event matches SessionEvent::Closed {
                clean,
                past_deadline,
            } && !clean && !past_deadline);
            let closed = event is Closed && !lost;
            &&& event is Opened ==> after.phase == SessionPhase::Connected && after.attempt
                == session.attempt && action == SessionAction::Work
            &&& event is BackoffElapsed ==> after.phase == SessionPhase::Connecting && after.attempt
                == session.attempt && action == SessionAction::Connect
            &&& lost && reconnect.enabled && session.attempt < reconnect.max_attempts
                ==> after.phase == SessionPhase::Waiting && after.attempt == session.attempt + 1
                && action == SessionAction::Pause { attempt: after.attempt }
            &&& lost && reconnect.enabled && session.attempt >= reconnect.max_attempts
                ==> after.phase == SessionPhase::Done && action == SessionAction::GiveUp
            &&& lost && !reconnect.enabled ==> after.phase == SessionPhase::Done && action
                == SessionAction::Finish
            &&& closed || event is Cancelled ==> after.phase == SessionPhase::Done && action
                == SessionAction::Finish
        }),
{
}

/// Connections that fail one after the other, each with the pause after it.
pub open spec fn failures(count: nat) -> Seq<SessionEvent>
    decreases count,
{
    if count == 0 {
        Seq::empty()
    } else {
        failures((count - 1) as nat).push(SessionEvent::ConnectFailed).push(
            SessionEvent::BackoffElapsed,
        )
    }
}

/// A participant that never gets a connection tries once more often than it may connect again, and
/// then gives up.
pub proof fn law_all_attempts_are_used(reconnect: ReconnectConfig, count: nat)
    requires
        reconnect.enabled,
        count <= reconnect.max_attempts,
    ensures
        can_all_happen(fresh(), failures(count), reconnect),
        connects(failures(count)) == count + 1,
        session_after(fresh(), failures(count), reconnect) == (Session {
            attempt: count as u32,
            phase: SessionPhase::Connecting,
        }),
        count == reconnect.max_attempts ==> next_session(
            session_after(fresh(), failures(count), reconnect),
            SessionEvent::ConnectFailed,
            reconnect,
        ).1 == SessionAction::GiveUp,
    decreases count,
{
    if count > 0 {
        law_all_attempts_are_used(reconnect, (count - 1) as nat);
        let earlier = failures((count - 1) as nat);
        let failed = earlier.push(SessionEvent::ConnectFailed);
        let all = failures(count);
        assert(all.drop_last() =~= failed);
        assert(failed.drop_last() =~= earlier);
        assert(all.last() == SessionEvent::BackoffElapsed);
        assert(failed.last() == SessionEvent::ConnectFailed);
        assert(connects(failed) == connects(earlier));
        assert(connects(all) == connects(failed) + 1);
        assert(session_after(fresh(), failed, reconnect) == next_session(
            session_after(fresh(), earlier, reconnect),
            SessionEvent::ConnectFailed,
            reconnect,
        ).0);
        assert(session_after(fresh(), all, reconnect) == next_session(
            session_after(fresh(), failed, reconnect),
            SessionEvent::BackoffElapsed,
            reconnect,
        ).0);
        assert(can_all_happen(fresh(), failed, reconnect));
    }
}

/// Whether a participant is connecting, as a number.
pub open spec fn connecting(session: Session) -> int {
    if session.phase == SessionPhase::Connecting {
        1
    } else {
        0
    }
}

/// Whether a participant is connected, as a number.
pub open spec fn connected(session: Session) -> int {
    if session.phase == SessionPhase::Connected {
        1
    } else {
        0
    }
}

/// Every attempt to connect succeeds, fails or is still under way, and as many connections are
/// active as participants are connected: what happens to a participant keeps both, unless it is
/// cancelled while it connects. Nothing that is sent or received is counted by it.
pub proof fn law_attempts_are_accounted_for(
    before: Metrics,
    after: Metrics,
    session: Session,
    event: SessionEvent,
    config: AppConfig,
)
    requires
        can_happen(session.phase, event),
        metrics_follow(before, after, session, event, config),
        before.connection_attempts < u64::MAX,
        before.connection_successes < u64::MAX,
        before.connection_failures < u64::MAX,
        before.active_connections < u64::MAX,
        before.tls_failures < u64::MAX,
        before.reconnects < u64::MAX,
        before.reconnect_failures < u64::MAX,
        event is Closed ==> before.active_connections > 0,
    ensures
        ({
            let next = next_session(session, event, config.reconnect).0;
            &&& !(event is Cancelled) ==> after.connection_attempts - after.connection_successes
                - after.connection_failures - connecting(next) == before.connection_attempts
                - before.connection_successes - before.connection_failures - connecting(session)
            &&& after.active_connections - connected(next) == before.active_connections - connected(
                session,
            )
            &&& after.connection_attempts == before.connection_attempts + (if event is BackoffElapsed {
                1int
            } else {
                0
            })
            &&& after.connection_failures == before.connection_failures + (if event is ConnectFailed {
                1int
            } else {
                0
            })
            &&& after.tls_failures == before.tls_failures + (if event is ConnectFailed
                && config.tls.enabled {
                1int
            } else {
                0
            })
            &&& after.reconnect_failures == before.reconnect_failures + (if event is ConnectFailed
                && config.reconnect.enabled {
                1int
            } else {
                0
            })
            &&& after.reconnects == before.reconnects + (if event is Opened && session.attempt > 0 {
                1int
            } else {
                0
            })
            &&& after.sent_messages == before.sent_messages
            &&& after.received_messages == before.received_messages
            &&& after.dropped_messages == before.dropped_messages
            &&& after.duplicate_messages == before.duplicate_messages
            &&& after.message_timeouts == before.message_timeouts
            &&& after.local_dropped_messages == before.local_dropped_messages
            &&& after.delivery_us == before.delivery_us
        }),
{
}

/// A connection that is established leaves the time that it took, and one that is established again
/// the time since the participant started; nothing else leaves either.
pub proof fn law_connections_are_timed(
    before: Metrics,
    after: Metrics,
    session: Session,
    event: SessionEvent,
    config: AppConfig,
)
    requires
        metrics_follow(before, after, session, event, config),
        event matches SessionEvent::Opened { handshake, since_start } ==> handshake@
            < 1_073_741_824_000 && since_start@ < 1_073_741_824_000,
        metrics::recorded(before.handshake_us).len() < u64::MAX,
        metrics::recorded(before.recovery_us).len() < u64::MAX,
    ensures
        metrics::recorded(after.handshake_us).len() == metrics::recorded(before.handshake_us).len()
            + (if event is Opened {
            1int
        } else {
            0
        }),
        metrics::recorded(after.recovery_us).len() == metrics::recorded(before.recovery_us).len() + (
        if event is Opened && session.attempt > 0 {
            1int
        } else {
            0
        }),
{
}

/// Pauses never get shorter from one attempt to the next, and from the 33rd attempt on they stay as
/// they are.
pub proof fn law_backoff_levels_off(reconnect: ReconnectConfig, attempt: nat)
    requires
        reconnect.min_backoff@ <= duration::MAX_NANOS,
        reconnect.max_backoff@ <= duration::MAX_NANOS,
    ensures
        backoff_of(reconnect, attempt) <= backoff_of(reconnect, attempt + 1),
        attempt >= 33 ==> backoff_of(reconnect, attempt + 1) == backoff_of(reconnect, attempt),
        attempt >= 33 ==> backoff_of(reconnect, attempt) == (if reconnect.min_backoff@
            * 4_294_967_295 <= reconnect.max_backoff@ {
            reconnect.min_backoff@ * 4_294_967_295
        } else {
            reconnect.max_backoff@
        }),
{
    lemma2_to64();
    lemma2_to64_rest();
    let m = reconnect.min_backoff@;
    if 1 <= attempt < 32 {
        law_backoff_doubles(reconnect, attempt);
    } else if attempt == 0 {
        law_backoff_doubles(reconnect, 1);
    } else if attempt == 32 {
        assert(pow2(31) == 0x8000_0000);
        assert(m * pow2(31) <= m * 4_294_967_295) by (nonlinear_arith)
            requires
                pow2(31) == 0x8000_0000,
        ;
    }
}

/// A connection opens or fails only while a participant connects, closes only while it is connected, and
/// a pause ends only while it waits; it is cancelled while it connects or waits, and nothing happens
/// to one that is done.
pub proof fn law_events_fit_their_phase(phase: SessionPhase, event: SessionEvent)
    ensures
        phase == SessionPhase::Connecting ==> (can_happen(phase, event) <==> event is Opened
            || event is ConnectFailed || event is Cancelled),
        phase == SessionPhase::Connected ==> (can_happen(phase, event) <==> event is Closed),
        phase == SessionPhase::Waiting ==> (can_happen(phase, event) <==> event is BackoffElapsed
            || event is Cancelled),
        phase == SessionPhase::Done ==> !can_happen(phase, event),
{
}

/// Counting a connection down undoes counting it up, whatever the counter holds.
pub proof fn law_lowering_undoes_raising(counter: u64)
    ensures
        lowered(metrics::raised(counter, 1)) == counter,
        metrics::raised(lowered(counter), 1) == counter,
{
}

} // verus!
