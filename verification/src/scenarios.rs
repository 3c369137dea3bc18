//! Built-in, server-neutral workload scenarios.
use crate::config::{self, AppConfig, ParticipantConfig, ParticipantRole};
use crate::connection::ConnectError;
use crate::duration::{self, Duration, MAX_NANOS};
use crate::ledger;
use crate::lifecycle::DisconnectReason;
use crate::receiver::ReadDecision;
use crate::report::{self, ErrorCategory, ErrorPhase, ParticipantFailure};
use crate::runner;
use crate::scheduler::{self, start_delays, SchedulerError};
use crate::session::{SessionAction, SessionEvent};
use crate::text::decimal;
use vstd::prelude::*;
use vstd::string::*;

pub use crate::ledger::{evaluate_routing, AssertionResult, CorrelationLedger};
pub use crate::sender::{position_xml, Fragments, Sender};
pub use crate::session::{reconnect_delay, Session};

verus! {

/// What came of a scenario.
#[derive(Clone, Debug)]
pub struct ScenarioOutcome {
    pub assertions: Vec<AssertionResult>,
    pub participant_failures: Vec<ParticipantFailure>,
}

impl Default for ScenarioOutcome {
    fn default() -> (result: ScenarioOutcome)
        ensures
            result.assertions@.len() == 0,
            result.participant_failures@.len() == 0,
    {
        ScenarioOutcome { assertions: Vec::new(), participant_failures: Vec::new() }
    }
}

/// The identifier of a participant that has none of its own.
pub fn default_participant_id(index: u32) -> (id: String)
    ensures
        id@ == config::default_id(index as nat),
{
    let mut id = "client-".to_owned();
    id.append(decimal(index as u128).as_str());
    id
}

/// What some participants hold.
pub open spec fn participant_views(participants: Seq<ParticipantConfig>) -> Seq<
    config::ParticipantView,
> {
    Seq::new(participants.len(), |i: int| participants[i]@)
}

/// The participants of a run: those that the configuration names, or else as many as it wants
/// clients.
pub fn participants(config: &AppConfig) -> (result: Vec<ParticipantConfig>)
    ensures
        participant_views(result@) == config::participants_of(*config),
{
    let ghost all = config::participants_of(*config);
    let mut result: Vec<ParticipantConfig> = Vec::new();
    if config.participants.len() > 0 {
        let mut i: usize = 0;
        while i < config.participants.len()
            invariant
                i <= config.participants.len(),
                config.participants.len() > 0,
                all == config::participants_of(*config),
                result.len() == i,
                forall|k: int| 0 <= k < i ==> (#[trigger] result@[k])@ == all[k],
            decreases config.participants.len() - i,
        {
            result.push(config.participants[i].clone());
            i = i + 1;
        }
    } else {
        let mut index: u32 = 0;
        while index < config.run.clients
            invariant
                index <= config.run.clients,
                config.participants.len() == 0,
                all == config::participants_of(*config),
                result.len() == index,
                forall|k: int| 0 <= k < index ==> (#[trigger] result@[k])@ == all[k],
            decreases config.run.clients - index,
        {
            let mut participant = ParticipantConfig::default();
            participant.id = default_participant_id(index);
            assert(participant@ == config::plain_participant(config::default_id(index as nat)));
            result.push(participant);
            index = index + 1;
        }
    }
    assert(participant_views(result@) =~= all);
    result
}

/// A participant and when it starts.
#[derive(Debug)]
pub struct PlannedParticipant {
    pub participant: ParticipantConfig,
    pub delay: Duration,
}

/// Why a run cannot be planned.
#[derive(Clone, Copy, Debug, PartialEq, Eq, Structural)]
pub enum PlanError {
    TooManyParticipants,
    Scheduler(SchedulerError),
}

/// The delays of some planned participants.
pub open spec fn planned_delays(plan: Seq<PlannedParticipant>) -> Seq<nat> {
    Seq::new(plan.len(), |i: int| plan[i].delay@)
}

/// What some planned participants hold.
pub open spec fn planned_views(plan: Seq<PlannedParticipant>) -> Seq<config::ParticipantView> {
    Seq::new(plan.len(), |i: int| plan[i].participant@)
}

/// Plans a run: which participants take part, and when each of them starts.
pub fn plan_run(config: &AppConfig) -> (result: Result<Vec<PlannedParticipant>, PlanError>)
    ensures
        ({
            let count = config::participants_of(*config).len();
            let unscheduled = config.scheduler.strategy == config::RampStrategy::Step
                && !scheduler::valid_steps(config.scheduler.steps@, count);
            match result {
                Ok(plan) => {
                    &&& count <= u32::MAX
                    &&& !unscheduled
                    &&& planned_views(plan@) == config::participants_of(*config)
                    &&& scheduler::is_schedule(planned_delays(plan@), count, config.scheduler)
                },
                Err(PlanError::TooManyParticipants) => count > u32::MAX,
                Err(PlanError::Scheduler(SchedulerError::InvalidSteps)) => count <= u32::MAX
                    && unscheduled,
            }
        }),
{
    let all = participants(config);
    let ghost views = participant_views(all@);
    if all.len() > u32::MAX as usize {
        return Err(PlanError::TooManyParticipants);
    }
    let delays = match start_delays(all.len() as u32, &config.scheduler) {
        Ok(delays) => delays,
        Err(error) => {
            return Err(PlanError::Scheduler(error));
        },
    };
    let ghost spans = scheduler::spans(delays@);
    let mut plan: Vec<PlannedParticipant> = Vec::new();
    let mut i: usize = 0;
    while i < all.len()
        invariant
            i <= all.len(),
            all.len() == delays.len(),
            views == participant_views(all@),
            spans == scheduler::spans(delays@),
            plan.len() == i,
            forall|k: int| 0 <= k < i ==> (#[trigger] plan@[k]).participant@ == views[k],
            forall|k: int| 0 <= k < i ==> (#[trigger] plan@[k]).delay@ == spans[k],
        decreases all.len() - i,
    {
        plan.push(PlannedParticipant { participant: all[i].clone(), delay: delays[i] });
        i = i + 1;
    }
    proof {
        assert(planned_views(plan@) =~= views);
        assert(planned_delays(plan@) =~= spans);
    }
    Ok(plan)
}

/// What a participant does once it is connected.
#[derive(Clone, Copy, Debug, PartialEq, Eq, Structural)]
pub struct ConnectedPlan {
    /// How long to wait before anything is written or read.
    pub initial_delay: Option<Duration>,
    /// Whether it reads.
    pub reads: bool,
    /// Whether it writes.
    pub writes: bool,
}

/// Decides what a participant does once it is connected.
pub fn connected_plan(role: ParticipantRole, config: &AppConfig) -> (plan: ConnectedPlan)
    ensures
        plan == plan_of(role, *config),
{
    ConnectedPlan {
        initial_delay: if config.scenario.slow_connect.enabled {
            Some(config.scenario.slow_connect.initial_write_delay)
        } else {
            None
        },
        reads: role != ParticipantRole::SendOnly,
        writes: role != ParticipantRole::ReceiveOnly,
    }
}

/// What a participant does once it is connected.
pub open spec fn plan_of(role: ParticipantRole, config: AppConfig) -> ConnectedPlan {
    ConnectedPlan {
        initial_delay: if config.scenario.slow_connect.enabled {
            Some(config.scenario.slow_connect.initial_write_delay)
        } else {
            None
        },
        reads: role != ParticipantRole::SendOnly,
        writes: role != ParticipantRole::ReceiveOnly,
    }
}

/// Every participant reads or writes. One that only sends does not read, one that only receives does
/// not write, and only a slow connect delays the first write.
pub proof fn law_roles_are_kept(role: ParticipantRole, config: AppConfig)
    ensures
        plan_of(role, config).reads || plan_of(role, config).writes,
        plan_of(role, config).reads <==> role == ParticipantRole::ReceiveOnly || role
            == ParticipantRole::SendReceive,
        plan_of(role, config).writes <==> role == ParticipantRole::SendOnly || role
            == ParticipantRole::SendReceive,
        config.scenario.slow_connect.enabled ==> plan_of(role, config).initial_delay == Some(
            config.scenario.slow_connect.initial_write_delay,
        ),
        !config.scenario.slow_connect.enabled ==> plan_of(role, config).initial_delay is None,
{
}

/// How the reading or the sending half of a connection ended.
pub type WorkEnd = Result<DisconnectReason, WorkFailure>;

/// How the work on a connection ended, from the ends of its halves as far as they are known.
pub open spec fn end_of_work(
    plan: ConnectedPlan,
    reader: Option<WorkEnd>,
    sender: Option<WorkEnd>,
) -> Option<WorkEnd> {
    if !plan.writes {
        reader
    } else if plan.reads && (reader matches Some(end) && end is Err) {
        reader
    } else {
        sender
    }
}

/// A failure of a half that works is the failure of the whole: the reader's at once, the sender's
/// unless the reader failed. Work that ends well ends as the half that decides, and the end of a
/// half that does not work is nothing.
pub proof fn law_a_failed_half_fails_the_work(
    role: ParticipantRole,
    config: AppConfig,
    reader: Option<WorkEnd>,
    sender: Option<WorkEnd>,
)
    ensures
        ({
            let end = end_of_work(plan_of(role, config), reader, sender);
            &&& role == ParticipantRole::ReceiveOnly ==> end == reader
            &&& role == ParticipantRole::SendOnly ==> end == sender
            &&& role == ParticipantRole::SendReceive ==> {
                &&& reader matches Some(Err(_)) ==> end == reader
                &&& !(reader matches Some(Err(_))) ==> end == sender
            }
        }),
{
}

/// Decides how the work on a connection ended, from the ends of its halves as far as they are known.
///
/// One that only reads or only sends ends as that half does. Of one that does both, a failure of
/// the reader counts at once; else the sender decides, and where it has not ended yet, it is waited
/// for.
pub fn connected_result(plan: &ConnectedPlan, reader: Option<WorkEnd>, sender: Option<WorkEnd>) -> (result:
    Option<WorkEnd>)
    ensures
        result == end_of_work(*plan, reader, sender),
{
    if !plan.writes {
        reader
    } else {
        match reader {
            Some(Err(failure)) if plan.reads => Some(Err(failure)),
            _ => sender,
        }
    }
}

/// With what a participant ends once its session finishes or gives up.
pub open spec fn end_of_session(
    action: SessionAction,
    event: SessionEvent,
    last: Result<(), WorkFailure>,
) -> Result<(), WorkFailure> {
    if action == SessionAction::GiveUp {
        Err::<(), WorkFailure>(WorkFailure::ReconnectExhausted)
    } else if event == SessionEvent::Cancelled {
        Ok::<(), WorkFailure>(())
    } else {
        last
    }
}

/// A participant that gives up fails since its attempts are used up, one that is cancelled does not
/// fail, and any other ends as its last connection did.
pub proof fn law_giving_up_is_a_failure(
    action: SessionAction,
    event: SessionEvent,
    last: Result<(), WorkFailure>,
)
    ensures
        action == SessionAction::GiveUp ==> end_of_session(action, event, last) == Err::<
            (),
            WorkFailure,
        >(WorkFailure::ReconnectExhausted),
        action != SessionAction::GiveUp && event is Cancelled ==> end_of_session(
            action,
            event,
            last,
        ) is Ok,
        action != SessionAction::GiveUp && !(event is Cancelled) ==> end_of_session(
            action,
            event,
            last,
        ) == last,
{
}

/// Decides with what a participant ends once its session finishes or gives up: every attempt to
/// connect again may be used up; one that was cancelled has not failed; any other ends with the
/// result of its last connection or attempt to connect.
pub fn session_result(action: SessionAction, event: SessionEvent, last: Result<(), WorkFailure>) -> (result:
    Result<(), WorkFailure>)
    ensures
        result == end_of_session(action, event, last),
{
    match (action, event) {
        (SessionAction::GiveUp, _) => Err(WorkFailure::ReconnectExhausted),
        (_, SessionEvent::Cancelled) => Ok(()),
        _ => last,
    }
}

/// Notes that a participant has ended, and tells whether the others are to be cancelled: they are
/// just where it failed, and then its failure is reported.
pub fn note_joined(outcome: &mut ScenarioOutcome, id: &str, result: Result<(), WorkFailure>) -> (cancel:
    bool)
    ensures
        cancel == result is Err,
        final(outcome).assertions == old(outcome).assertions,
        match result {
            Ok(_) => *final(outcome) == *old(outcome),
            Err(failure) => joins_failure(
                old(outcome).participant_failures@,
                final(outcome).participant_failures@,
                id@,
                failure,
            ),
        },
{
    if let Err(failure) = result {
        outcome.participant_failures.push(failure.report(id));
        assert(outcome.participant_failures@.drop_last() =~= old(outcome).participant_failures@);
        return true;
    }
    false
}

/// Whether the failure of a participant was reported behind those that were reported before.
pub open spec fn joins_failure(
    before: Seq<ParticipantFailure>,
    after: Seq<ParticipantFailure>,
    id: Seq<char>,
    failure: WorkFailure,
) -> bool {
    &&& after.len() == before.len() + 1
    &&& after.drop_last() == before
    &&& after.last().participant@ == id
    &&& after.last().phase == failure.phase_of()
    &&& after.last().category == failure.category_of()
}

/// Once a participant has failed, the run does not pass, whatever the others do and whatever its
/// assertions say.
pub proof fn law_failed_participant_fails_the_run(
    before: Seq<ParticipantFailure>,
    outcome: ScenarioOutcome,
    id: Seq<char>,
    failure: WorkFailure,
    threshold: Option<String>,
)
    requires
        joins_failure(before, outcome.participant_failures@, id, failure),
    ensures
        runner::status_of(threshold, Ok::<ScenarioOutcome, String>(outcome))
            != report::RunStatus::Passed,
{
}

/// Judges the routing of a run whose participants have all ended, also where some of them failed.
pub fn judge_routing(outcome: ScenarioOutcome, config: &AppConfig, ledger: &CorrelationLedger) -> (judged:
    ScenarioOutcome)
    ensures
        judged.participant_failures == outcome.participant_failures,
        judged.assertions.len() == config.scenario.routing.len(),
        forall|i: int|
            0 <= i < config.scenario.routing.len() ==> ledger::is_assertion_result(
                ledger@,
                config.scenario.routing@[i],
                #[trigger] judged.assertions@[i],
            ),
{
    ScenarioOutcome {
        assertions: evaluate_routing(&config.scenario.routing, ledger),
        participant_failures: outcome.participant_failures,
    }
}

/// The shortest time after which a position may be stale: twice the interval between positions.
pub fn minimum_stale_interval(interval: Duration) -> (result: Duration)
    ensures
        result@ == duration::shorter(interval@ * 2, MAX_NANOS as nat),
{
    interval.saturating_mul(2)
}

/// How the work of a participant failed.
#[derive(Clone, Copy, Debug, PartialEq, Eq, Structural)]
pub enum WorkFailure {
    Connect { phase: ErrorPhase, category: ErrorCategory },
    Readiness,
    ReadTimeout,
    Read,
    PeerClosed,
    Parse,
    Write,
    ReconnectExhausted,
}

/// The failure of a participant that reads, if it fails.
pub open spec fn failure_of_read(decision: ReadDecision) -> Option<WorkFailure> {
    match decision {
        ReadDecision::Continue => None,
        ReadDecision::EndStopped => None,
        ReadDecision::EndDeadline => None,
        ReadDecision::FailTimeout => Some(WorkFailure::ReadTimeout),
        ReadDecision::FailRead => Some(WorkFailure::Read),
        ReadDecision::FailClosed => Some(WorkFailure::PeerClosed),
        ReadDecision::FailParse => Some(WorkFailure::Parse),
    }
}

/// Going on, a stop and the deadline are no failures; every other end of reading is one, and of its
/// own kind.
pub proof fn law_reading_fails_as_decided(decision: ReadDecision, other: ReadDecision)
    ensures
        failure_of_read(decision) is None <==> decision == ReadDecision::Continue || decision
            == ReadDecision::EndStopped || decision == ReadDecision::EndDeadline,
        failure_of_read(decision) is Some && failure_of_read(decision) == failure_of_read(other)
            ==> decision == other,
        failure_of_read(decision) == Some(WorkFailure::ReadTimeout) <==> decision
            == ReadDecision::FailTimeout,
        failure_of_read(decision) == Some(WorkFailure::PeerClosed) <==> decision
            == ReadDecision::FailClosed,
        failure_of_read(decision) == Some(WorkFailure::Parse) <==> decision
            == ReadDecision::FailParse,
        failure_of_read(decision) == Some(WorkFailure::Read) <==> decision
            == ReadDecision::FailRead,
{
}

impl WorkFailure {
    /// What was being done when the failure came.
    pub open spec fn phase_of(self) -> ErrorPhase {
        match self {
            WorkFailure::Connect { phase, .. } => phase,
            WorkFailure::Readiness => ErrorPhase::Readiness,
            WorkFailure::ReadTimeout => ErrorPhase::Read,
            WorkFailure::Read => ErrorPhase::Read,
            WorkFailure::PeerClosed => ErrorPhase::Read,
            WorkFailure::Parse => ErrorPhase::Parse,
            WorkFailure::Write => ErrorPhase::Write,
            WorkFailure::ReconnectExhausted => ErrorPhase::Reconnect,
        }
    }

    /// What the failure is reported as.
    pub open spec fn category_of(self) -> ErrorCategory {
        match self {
            WorkFailure::Connect { category, .. } => category,
            WorkFailure::Readiness => ErrorCategory::ReadinessTimeout,
            WorkFailure::ReadTimeout => ErrorCategory::ReadTimeout,
            WorkFailure::Read => ErrorCategory::ReadFailed,
            WorkFailure::PeerClosed => ErrorCategory::PeerClosed,
            WorkFailure::Parse => ErrorCategory::ParseFailed,
            WorkFailure::Write => ErrorCategory::WriteFailed,
            WorkFailure::ReconnectExhausted => ErrorCategory::ReconnectExhausted,
        }
    }

    /// Why the participant is no longer connected.
    pub open spec fn reason_of(self) -> DisconnectReason {
        match self {
            WorkFailure::Connect { .. } => DisconnectReason::ConnectFailed,
            WorkFailure::Readiness => DisconnectReason::ReadinessTimeout,
            WorkFailure::ReadTimeout => DisconnectReason::ReadFailed,
            WorkFailure::Read => DisconnectReason::ReadFailed,
            WorkFailure::PeerClosed => DisconnectReason::PeerClosed,
            WorkFailure::Parse => DisconnectReason::ParseFailed,
            WorkFailure::Write => DisconnectReason::WriteFailed,
            WorkFailure::ReconnectExhausted => DisconnectReason::ReconnectExhausted,
        }
    }

    /// The failure of a connection that could not be established.
    pub fn of_connect(error: &ConnectError) -> (failure: WorkFailure)
        ensures
            failure == (WorkFailure::Connect {
                phase: if error is Tcp {
                    ErrorPhase::Connect
                } else {
                    ErrorPhase::TlsHandshake
                },
                category: error.category_of(),
            }),
    {
        WorkFailure::Connect { phase: error.phase(), category: error.category() }
    }

    /// The failure of a participant that reads, if it fails.
    pub fn of_read(decision: ReadDecision) -> (failure: Option<WorkFailure>)
        ensures
            failure == failure_of_read(decision),
    {
        match decision {
            ReadDecision::Continue => None,
            ReadDecision::EndStopped => None,
            ReadDecision::EndDeadline => None,
            ReadDecision::FailTimeout => Some(WorkFailure::ReadTimeout),
            ReadDecision::FailRead => Some(WorkFailure::Read),
            ReadDecision::FailClosed => Some(WorkFailure::PeerClosed),
            ReadDecision::FailParse => Some(WorkFailure::Parse),
        }
    }

    /// Why the participant is no longer connected.
    pub fn reason(&self) -> (reason: DisconnectReason)
        ensures
            reason == self.reason_of(),
    {
        match self {
            WorkFailure::Connect { .. } => DisconnectReason::ConnectFailed,
            WorkFailure::Readiness => DisconnectReason::ReadinessTimeout,
            WorkFailure::ReadTimeout => DisconnectReason::ReadFailed,
            WorkFailure::Read => DisconnectReason::ReadFailed,
            WorkFailure::PeerClosed => DisconnectReason::PeerClosed,
            WorkFailure::Parse => DisconnectReason::ParseFailed,
            WorkFailure::Write => DisconnectReason::WriteFailed,
            WorkFailure::ReconnectExhausted => DisconnectReason::ReconnectExhausted,
        }
    }

    /// What is reported of the failure of a participant: its alias, the phase and the category.
    pub fn report(&self, participant: &str) -> (failure: ParticipantFailure)
        ensures
            failure.participant@ == participant@,
            failure.phase == self.phase_of(),
            failure.category == self.category_of(),
    {
        let (phase, category) = match self {
            WorkFailure::Connect { phase, category } => (*phase, *category),
            WorkFailure::Readiness => (ErrorPhase::Readiness, ErrorCategory::ReadinessTimeout),
            WorkFailure::ReadTimeout => (ErrorPhase::Read, ErrorCategory::ReadTimeout),
            WorkFailure::Read => (ErrorPhase::Read, ErrorCategory::ReadFailed),
            WorkFailure::PeerClosed => (ErrorPhase::Read, ErrorCategory::PeerClosed),
            WorkFailure::Parse => (ErrorPhase::Parse, ErrorCategory::ParseFailed),
            WorkFailure::Write => (ErrorPhase::Write, ErrorCategory::WriteFailed),
            WorkFailure::ReconnectExhausted => (
                ErrorPhase::Reconnect,
                ErrorCategory::ReconnectExhausted,
            ),
        };
        ParticipantFailure { participant: participant.to_owned(), phase, category }
    }
}

/// A failure is reported with the phase in which it came and a category of its own: failures other
/// than those of connecting that are told apart by their category are the same failure.
pub proof fn law_failures_are_told_apart(failure: WorkFailure, other: WorkFailure)
    requires
        !(failure is Connect),
        !(other is Connect),
    ensures
        failure.category_of() == other.category_of() ==> failure == other,
        failure.phase_of() == ErrorPhase::Read <==> failure == WorkFailure::ReadTimeout || failure
            == WorkFailure::Read || failure == WorkFailure::PeerClosed,
        failure.reason_of() == DisconnectReason::ReadFailed <==> failure == WorkFailure::ReadTimeout
            || failure == WorkFailure::Read,
        failure == WorkFailure::Readiness <==> failure.reason_of()
            == DisconnectReason::ReadinessTimeout,
        failure == WorkFailure::Write <==> failure.reason_of() == DisconnectReason::WriteFailed,
        failure == WorkFailure::Parse <==> failure.reason_of() == DisconnectReason::ParseFailed,
        failure == WorkFailure::PeerClosed <==> failure.reason_of() == DisconnectReason::PeerClosed,
        failure == WorkFailure::ReconnectExhausted <==> failure.reason_of()
            == DisconnectReason::ReconnectExhausted,
{
}

/// A failure to connect is reported with the phase and the category of the connection's error.
pub proof fn law_connect_failures_keep_their_cause(phase: ErrorPhase, category: ErrorCategory)
    ensures
        ({
            let failure = WorkFailure::Connect { phase, category };
            &&& failure.phase_of() == phase
            &&& failure.category_of() == category
            &&& failure.reason_of() == DisconnectReason::ConnectFailed
        }),
{
}

/// A run has a participant for each that the configuration names, in that order and as configured,
/// or else as many as it wants clients, who send and receive and hold nothing back.
pub proof fn law_participants_are_those_configured(config: AppConfig, index: int)
    requires
        0 <= index < config::participants_of(config).len(),
    ensures
        config.participants@.len() > 0 ==> {
            let own = config::participants_of(config)[index];
            &&& config::participants_of(config).len() == config.participants@.len()
            &&& own.id == config.participants@[index].id@
            &&& own.role == config.participants@[index].role
            &&& own.read_delay == config.participants@[index].read_delay
            &&& own.pause_read_for == config.participants@[index].pause_read_for
        },
        config.participants@.len() == 0 ==> {
            let own = config::participants_of(config)[index];
            &&& config::participants_of(config).len() == config.run.clients
            &&& own.id == "client-"@ + crate::text::decimal_text(index as nat)
            &&& own.role == ParticipantRole::SendReceive
            &&& own.read_delay is None
            &&& own.pause_read_for is None
        },
{
}

} // verus!
