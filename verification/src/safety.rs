//! What a run must not do.
use crate::binary64::{self, Binary64, INFINITY_BITS, ONE_BITS, TWO_64_BITS};
use crate::config::{
    self, AppConfig, Environment, Movement, ParticipantConfig, ParticipantRole, Profile,
    ScenarioKind,
};
use crate::duration::{Duration, NANOS_PER_SEC};
use crate::host::{self, host_from_server, is_loopback};
use crate::scenarios::default_participant_id;
use crate::text::{self, contains_text, same_text};
use vstd::arithmetic::power2::*;
use vstd::prelude::*;
use vstd::string::*;

verus! {

/// What every command that opens a connection tells its user.
pub const AUTHORIZATION_BANNER: &'static str =
    "Use somente contra servidores que você administra ou possui autorização para testar.";

/// The number 0.1.
pub const TENTH_BITS: u64 = 0x3fb9_9999_9999_999a;

/// Why a run is refused.
#[derive(Debug, PartialEq, Eq)]
pub enum SafetyError {
    /// Authorization has not been acknowledged.
    AuthorizationRequired,
    /// The target host is not among the allowed ones.
    HostNotAllowed(String),
    /// Production has not been allowed.
    ProductionNotAllowed,
    /// The profile is not one for production.
    ProductionProfile(Profile),
    /// There are more clients than production permits.
    ProductionClients,
    /// The run lasts longer than production permits.
    ProductionDuration,
    /// Positions are sent more often than production permits.
    ProductionRate,
    /// There are more clients than `max_clients`.
    ClientLimit,
    /// `run.clients` is not the number of explicit participants.
    ParticipantCountMismatch,
    /// There is no participant.
    NoParticipants,
    /// A participant's identifier is empty, or two participants have the same.
    InvalidParticipantId,
    /// A routing assertion names no receiver, or someone who is not there or whose role does not
    /// fit.
    InvalidRoutingAssertion,
    /// The workload is not one of fixed positions.
    UnsupportedWorkload,
    /// An option is set that has no effect.
    UnsupportedOption,
    /// The certificate path templates give no paths for some participant.
    InvalidTlsTemplates,
    /// A duration, a timeout, a rate or a reconnect bound is not finite and positive.
    InvalidBounds,
    /// The profile, or a disruptive control, is for local or temporary environments only.
    EnvironmentProfileNotAllowed,
    /// Invalid events are not permitted in the environment.
    InvalidEventsNotAllowed,
    /// Invalid events are not bounded, or come more often than once a second.
    InvalidEventLimit,
    /// Slow clients, slow connects and abrupt disconnects are not for production.
    SlowClientNotAllowed,
}

/// What the caller has allowed.
#[derive(Clone, Copy, Debug, PartialEq, Eq, Structural)]
pub struct SafetyOptions {
    pub allow_production: bool,
    pub allow_invalid_events: bool,
}

impl Default for SafetyOptions {
    fn default() -> (result: SafetyOptions)
        ensures
            !result.allow_production,
            !result.allow_invalid_events,
    {
        SafetyOptions { allow_production: false, allow_invalid_events: false }
    }
}

/// Whether each participant has an identifier of its own.
pub open spec fn distinct_ids(participants: Seq<ParticipantConfig>) -> bool {
    &&& forall|i: int| 0 <= i < participants.len() ==> (#[trigger] participants[i]).id@.len() > 0
    &&& forall|i: int, j: int|
        0 <= i < j < participants.len() ==> (#[trigger] participants[i]).id@ != (
        #[trigger] participants[j]).id@
}

/// Whether there is a participant with the given identifier whose role is not `excluded`.
pub open spec fn takes_part(
    participants: Seq<ParticipantConfig>,
    id: Seq<char>,
    excluded: ParticipantRole,
) -> bool {
    exists|i: int|
        0 <= i < participants.len() && (#[trigger] participants[i]).id@ == id
            && participants[i].role != excluded
}

/// Whether a routing assertion can be observed: its sender sends, it names a receiver, expected
/// or forbidden, and all that it names receive.
pub open spec fn observable(
    assertion: config::RoutingAssertion,
    participants: Seq<ParticipantConfig>,
) -> bool {
    &&& takes_part(participants, assertion.sender@, ParticipantRole::ReceiveOnly)
    &&& assertion.receivers@.len() > 0 || assertion.forbidden_receivers@.len() > 0
    &&& forall|i: int|
        0 <= i < assertion.receivers@.len() ==> takes_part(
            participants,
            (#[trigger] assertion.receivers@[i])@,
            ParticipantRole::SendOnly,
        )
    &&& forall|i: int|
        0 <= i < assertion.forbidden_receivers@.len() ==> takes_part(
            participants,
            (#[trigger] assertion.forbidden_receivers@[i])@,
            ParticipantRole::SendOnly,
        )
}

/// Why the participants and the routing assertions are refused, if they are.
pub open spec fn participants_refusal(config: AppConfig) -> Option<SafetyError> {
    if config.participants@.len() == 0 {
        if config.scenario.routing@.len() == 0 {
            None
        } else {
            Some(SafetyError::InvalidRoutingAssertion)
        }
    } else if !distinct_ids(config.participants@) {
        Some(SafetyError::InvalidParticipantId)
    } else if exists|i: int|
        0 <= i < config.scenario.routing@.len() && !observable(
            #[trigger] config.scenario.routing@[i],
            config.participants@,
        ) {
        Some(SafetyError::InvalidRoutingAssertion)
    } else {
        None
    }
}

/// Whether events can be sent at a rate: it is finite and positive, and so is its reciprocal,
/// which is no longer than the longest span.
pub open spec fn usable_rate(rate: Binary64) -> bool {
    let interval = Binary64 { bits: binary64::reciprocal_bits(rate.bits) };
    &&& rate.plain()
    &&& rate.bits > 0
    &&& interval.plain()
    &&& !interval.greater(Binary64 { bits: TWO_64_BITS })
}

/// Whether durations, timeouts, rates and reconnect bounds are finite and positive.
pub open spec fn sound_bounds(config: AppConfig) -> bool {
    &&& config.run.duration@ > 0
    &&& config.run.gps_interval@ > 0
    &&& config.timeouts.connect@ > 0
    &&& config.timeouts.tls_handshake@ > 0
    &&& config.timeouts.read@ > 0
    &&& config.timeouts.write@ > 0
    &&& config.run.max_rate matches Some(rate) ==> usable_rate(rate)
    &&& config.reconnect.enabled ==> 0 < config.reconnect.min_backoff@
        <= config.reconnect.max_backoff@
}

/// Whether the rate is set and greater than the number with the given pattern.
pub open spec fn rate_above(config: AppConfig, bits: u64) -> bool {
    config.run.max_rate matches Some(rate) && rate.greater(Binary64 { bits })
}

/// Whether a participant reads slowly.
pub open spec fn reads_slowly(participant: ParticipantConfig) -> bool {
    participant.read_delay is Some || participant.pause_read_for is Some
}

/// Whether a control is on that strains the server or the connection.
pub open spec fn is_disruptive(config: AppConfig) -> bool {
    ||| config.scenario.slow_connect.enabled
    ||| config.scenario.abrupt_disconnect.enabled
    ||| exists|i: int|
        0 <= i < config.participants@.len() && reads_slowly(#[trigger] config.participants@[i])
}

/// Whether the environment is one that may be strained.
pub open spec fn is_local_or_temporary(environment: Environment) -> bool {
    environment == Environment::Local || environment == Environment::Temporary
}

/// Whether the certificate path templates give no paths for some participant.
pub open spec fn templates_fail(config: AppConfig) -> bool {
    exists|i: int|
        0 <= i < config::participants_of(config).len() && config.tls.template_error(
            (#[trigger] config::participants_of(config)[i]).id,
        ) is Some
}

/// Why production refuses a run, if it does.
pub open spec fn production_refusal(config: AppConfig) -> Option<SafetyError> {
    if config.run.profile != Profile::Smoke {
        Some(SafetyError::ProductionProfile(config.run.profile))
    } else if config.run.clients > 3 || config.run.max_clients > 3 {
        Some(SafetyError::ProductionClients)
    } else if config.run.duration@ > 900 * NANOS_PER_SEC {
        Some(SafetyError::ProductionDuration)
    } else if config.run.gps_interval@ < 30 * NANOS_PER_SEC || rate_above(config, TENTH_BITS) {
        Some(SafetyError::ProductionRate)
    } else if is_disruptive(config) {
        Some(SafetyError::SlowClientNotAllowed)
    } else {
        None
    }
}

/// Whether invalid events are bounded in number and come at most once a second.
pub open spec fn invalid_events_bounded(config: AppConfig) -> bool {
    &&& config.scenario.invalid.max_events matches Some(events) && events > 0
    &&& !rate_above(config, ONE_BITS)
    &&& config.run.gps_interval@ >= NANOS_PER_SEC
}

/// Why a workload is refused, if it is. The first reason counts.
pub open spec fn workload_refusal(config: AppConfig) -> Option<SafetyError> {
    let named = config.participants@.len();
    let environment = config.environment;
    let profile = config.run.profile;
    if named > u32::MAX {
        Some(SafetyError::ClientLimit)
    } else if named > 0 && named != config.run.clients {
        Some(SafetyError::ParticipantCountMismatch)
    } else if config.run.clients == 0 {
        Some(SafetyError::NoParticipants)
    } else if config.run.clients > config.run.max_clients {
        Some(SafetyError::ClientLimit)
    } else if participants_refusal(config) is Some {
        participants_refusal(config)
    } else if !sound_bounds(config) {
        Some(SafetyError::InvalidBounds)
    } else if config.scenario.kind != ScenarioKind::Position || config.scenario.movement
        != Movement::Fixed {
        Some(SafetyError::UnsupportedWorkload)
    } else if config.scheduler.ramp_down@ > 0 {
        Some(SafetyError::UnsupportedOption)
    } else if templates_fail(config) {
        Some(SafetyError::InvalidTlsTemplates)
    } else if !is_local_or_temporary(environment) && (profile == Profile::Stress || profile
        == Profile::Spike || profile == Profile::Soak) {
        Some(SafetyError::EnvironmentProfileNotAllowed)
    } else if environment == Environment::Staging && is_disruptive(config) {
        Some(SafetyError::EnvironmentProfileNotAllowed)
    } else if environment == Environment::Production && production_refusal(config) is Some {
        production_refusal(config)
    } else if config.scenario.invalid.enabled && !invalid_events_bounded(config) {
        Some(SafetyError::InvalidEventLimit)
    } else {
        None
    }
}

/// Whether the target host may be connected to: it is listed, or it is this machine in a local
/// environment.
pub open spec fn host_allowed(config: AppConfig) -> bool {
    let host = host::host_of(config.target.server@);
    ||| config.environment == Environment::Local && host::is_loopback_host(host)
    ||| text::texts(config.allow_hosts@).contains(host)
}

/// Why a run to an allowed host is refused, if it is.
pub open spec fn run_refusal(config: AppConfig, options: SafetyOptions) -> Option<SafetyError> {
    if workload_refusal(config) is Some {
        workload_refusal(config)
    } else if config.environment == Environment::Production && !options.allow_production {
        Some(SafetyError::ProductionNotAllowed)
    } else if config.scenario.invalid.enabled && !is_local_or_temporary(config.environment) && !(
    config.environment == Environment::Staging && options.allow_invalid_events) {
        Some(SafetyError::InvalidEventsNotAllowed)
    } else {
        None
    }
}

/// Whether a run is accepted.
pub open spec fn accepted(config: AppConfig, options: SafetyOptions) -> bool {
    &&& config.authorization.acknowledged
    &&& host_allowed(config)
    &&& run_refusal(config, options) is None
}

/// Whether a result is the one owed to a run with the given acknowledgement and options.
pub open spec fn is_verdict(
    result: Result<(), SafetyError>,
    config: AppConfig,
    acknowledged: bool,
    options: SafetyOptions,
) -> bool {
    if !acknowledged {
        result == Err::<(), SafetyError>(SafetyError::AuthorizationRequired)
    } else if !host_allowed(config) {
        result matches Err(SafetyError::HostNotAllowed(name)) && name@ == host::host_of(
            config.target.server@,
        )
    } else {
        match run_refusal(config, options) {
            Some(refusal) => result == Err::<(), SafetyError>(refusal),
            None => result == Ok::<(), SafetyError>(()),
        }
    }
}

/// Decides whether a run is accepted, with production not allowed unless the caller says so and
/// invalid events not allowed.
pub fn validate(config: &AppConfig, allow_production: bool) -> (result: Result<(), SafetyError>)
    ensures
        is_verdict(
            result,
            *config,
            config.authorization.acknowledged,
            SafetyOptions { allow_production, allow_invalid_events: false },
        ),
        result is Ok <==> accepted(
            *config,
            SafetyOptions { allow_production, allow_invalid_events: false },
        ),
{
    validate_with_options(config, SafetyOptions { allow_production, allow_invalid_events: false })
}

/// Decides whether a run is accepted: authorization, host and environment limits.
pub fn validate_with_options(config: &AppConfig, options: SafetyOptions) -> (result: Result<
    (),
    SafetyError,
>)
    ensures
        is_verdict(result, *config, config.authorization.acknowledged, options),
        result is Ok <==> accepted(*config, options),
{
    if !config.authorization.acknowledged {
        return Err(SafetyError::AuthorizationRequired);
    }
    validate_acknowledged(config, options)
}

/// Decides whether a configuration could be accepted: what `validate_with_options` decides once
/// authorization is acknowledged and everything is allowed.
pub fn validate_structure(config: &AppConfig) -> (result: Result<(), SafetyError>)
    ensures
        is_verdict(
            result,
            *config,
            true,
            SafetyOptions { allow_production: true, allow_invalid_events: true },
        ),
{
    validate_acknowledged(
        config,
        SafetyOptions { allow_production: true, allow_invalid_events: true },
    )
}

/// Decides whether a run for which authorization is acknowledged is accepted.
fn validate_acknowledged(config: &AppConfig, options: SafetyOptions) -> (result: Result<
    (),
    SafetyError,
>)
    ensures
        is_verdict(result, *config, true, options),
{
    let host = host_from_server(config.target.server.as_str());
    let local_loopback = config.environment == Environment::Local && is_loopback(host.as_str());
    if !local_loopback && !contains_text(&config.allow_hosts, host.as_str()) {
        return Err(SafetyError::HostNotAllowed(host));
    }
    match validate_workload(config) {
        Ok(()) => {},
        Err(refusal) => {
            return Err(refusal);
        },
    }
    if config.environment == Environment::Production && !options.allow_production {
        return Err(SafetyError::ProductionNotAllowed);
    }
    if config.scenario.invalid.enabled {
        let permitted = local_or_temporary(config.environment) || (config.environment
            == Environment::Staging && options.allow_invalid_events);
        if !permitted {
            return Err(SafetyError::InvalidEventsNotAllowed);
        }
    }
    Ok(())
}

/// Whether the environment is one that may be strained.
fn local_or_temporary(environment: Environment) -> (result: bool)
    ensures
        result == is_local_or_temporary(environment),
{
    environment == Environment::Local || environment == Environment::Temporary
}

/// Whether a rate is one at which events can be sent.
fn rate_is_usable(rate: &Binary64) -> (result: bool)
    ensures
        result == usable_rate(*rate),
{
    if rate.bits == 0 || rate.bits >= INFINITY_BITS {
        return false;
    }
    let interval = rate.reciprocal();
    interval.bits < INFINITY_BITS && !interval.exceeds(&Binary64 { bits: TWO_64_BITS })
}

/// Whether durations, timeouts, rates and reconnect bounds are finite and positive.
fn bounds_are_sound(config: &AppConfig) -> (result: bool)
    ensures
        result == sound_bounds(*config),
{
    let rate_ok = match &config.run.max_rate {
        Some(rate) => rate_is_usable(rate),
        None => true,
    };
    rate_ok && !config.run.duration.is_zero() && !config.run.gps_interval.is_zero()
        && !config.timeouts.connect.is_zero() && !config.timeouts.tls_handshake.is_zero()
        && !config.timeouts.read.is_zero() && !config.timeouts.write.is_zero() && (
    !config.reconnect.enabled || (!config.reconnect.min_backoff.is_zero()
        && !config.reconnect.max_backoff.is_zero() && !config.reconnect.min_backoff.exceeds(
        &config.reconnect.max_backoff,
    )))
}

/// Whether the rate is set and greater than the number with the given pattern.
fn rate_exceeds(config: &AppConfig, bits: u64) -> (result: bool)
    ensures
        result == rate_above(*config, bits),
{
    match &config.run.max_rate {
        Some(rate) => rate.exceeds(&Binary64 { bits }),
        None => false,
    }
}

/// Whether a control is on that strains the server or the connection.
fn disruptive(config: &AppConfig) -> (result: bool)
    ensures
        result == is_disruptive(*config),
{
    if config.scenario.slow_connect.enabled || config.scenario.abrupt_disconnect.enabled {
        return true;
    }
    let mut i: usize = 0;
    while i < config.participants.len()
        invariant
            i <= config.participants.len(),
            forall|j: int| 0 <= j < i ==> !reads_slowly(#[trigger] config.participants@[j]),
        decreases config.participants.len() - i,
    {
        let participant = &config.participants[i];
        if participant.read_delay.is_some() || participant.pause_read_for.is_some() {
            assert(reads_slowly(config.participants@[i as int]));
            return true;
        }
        i = i + 1;
    }
    false
}

/// Checks what must hold of a workload even for direct callers of the library: that it is
/// supported, that its bounds are sound, and that it stays within the limits of its declaration
/// and of its environment.
pub fn validate_workload(config: &AppConfig) -> (result: Result<(), SafetyError>)
    ensures
        match workload_refusal(*config) {
            Some(refusal) => result == Err::<(), SafetyError>(refusal),
            None => result == Ok::<(), SafetyError>(()),
        },
{
    let named = config.participants.len();
    if named > 0 {
        if named > u32::MAX as usize {
            return Err(SafetyError::ClientLimit);
        }
        if named as u32 != config.run.clients {
            return Err(SafetyError::ParticipantCountMismatch);
        }
    }
    if config.run.clients == 0 {
        return Err(SafetyError::NoParticipants);
    }
    if config.run.clients > config.run.max_clients {
        return Err(SafetyError::ClientLimit);
    }
    match validate_participants_and_routing(config) {
        Ok(()) => {},
        Err(refusal) => {
            return Err(refusal);
        },
    }
    if !bounds_are_sound(config) {
        return Err(SafetyError::InvalidBounds);
    }
    if config.scenario.kind != ScenarioKind::Position || config.scenario.movement
        != Movement::Fixed {
        return Err(SafetyError::UnsupportedWorkload);
    }
    if !config.scheduler.ramp_down.is_zero() {
        return Err(SafetyError::UnsupportedOption);
    }
    match validate_tls_templates(config) {
        Ok(()) => {},
        Err(refusal) => {
            return Err(refusal);
        },
    }
    let disruptive = disruptive(config);
    let profile = config.run.profile;
    if (!local_or_temporary(config.environment) && (profile == Profile::Stress || profile
        == Profile::Spike || profile == Profile::Soak)) || (config.environment
        == Environment::Staging && disruptive) {
        return Err(SafetyError::EnvironmentProfileNotAllowed);
    }
    if config.environment == Environment::Production {
        if profile != Profile::Smoke {
            return Err(SafetyError::ProductionProfile(profile));
        }
        if config.run.clients > 3 || config.run.max_clients > 3 {
            return Err(SafetyError::ProductionClients);
        }
        if config.run.duration.exceeds(&Duration::from_secs(15 * 60)) {
            return Err(SafetyError::ProductionDuration);
        }
        if Duration::from_secs(30).exceeds(&config.run.gps_interval) || rate_exceeds(
            config,
            TENTH_BITS,
        ) {
            return Err(SafetyError::ProductionRate);
        }
        if disruptive {
            return Err(SafetyError::SlowClientNotAllowed);
        }
    }
    if config.scenario.invalid.enabled {
        let bounded = match config.scenario.invalid.max_events {
            Some(events) => events > 0,
            None => false,
        };
        if !bounded || rate_exceeds(config, ONE_BITS) || Duration::from_secs(1).exceeds(
            &config.run.gps_interval,
        ) {
            return Err(SafetyError::InvalidEventLimit);
        }
    }
    Ok(())
}

/// Checks that the certificate path templates give paths for every participant.
fn validate_tls_templates(config: &AppConfig) -> (result: Result<(), SafetyError>)
    ensures
        result == (if templates_fail(*config) {
            Err::<(), SafetyError>(SafetyError::InvalidTlsTemplates)
        } else {
            Ok::<(), SafetyError>(())
        }),
{
    let ghost all = config::participants_of(*config);
    if config.participants.len() == 0 {
        let mut index: u32 = 0;
        while index < config.run.clients
            invariant
                index <= config.run.clients,
                config.participants.len() == 0,
                all == config::participants_of(*config),
                forall|j: int|
                    0 <= j < index ==> config.tls.template_error((#[trigger] all[j]).id) is None,
            decreases config.run.clients - index,
        {
            let id = default_participant_id(index);
            assert(all[index as int].id == id@);
            if config.tls.for_participant(id.as_str()).is_err() {
                return Err(SafetyError::InvalidTlsTemplates);
            }
            index = index + 1;
        }
    } else {
        let mut index: usize = 0;
        while index < config.participants.len()
            invariant
                index <= config.participants.len(),
                config.participants.len() > 0,
                all == config::participants_of(*config),
                forall|j: int|
                    0 <= j < index ==> config.tls.template_error((#[trigger] all[j]).id) is None,
            decreases config.participants.len() - index,
        {
            assert(all[index as int].id == config.participants@[index as int].id@);
            if config.tls.for_participant(config.participants[index].id.as_str()).is_err() {
                return Err(SafetyError::InvalidTlsTemplates);
            }
            index = index + 1;
        }
    }
    Ok(())
}

/// Whether a participant at or behind a position has the given identifier.
fn id_occurs_from(participants: &Vec<ParticipantConfig>, start: usize, id: &str) -> (result: bool)
    requires
        start <= participants.len(),
    ensures
        result == exists|j: int|
            start <= j < participants@.len() && (#[trigger] participants@[j]).id@ == id@,
{
    let mut j = start;
    while j < participants.len()
        invariant
            start <= j <= participants.len(),
            forall|k: int| start <= k < j ==> (#[trigger] participants@[k]).id@ != id@,
        decreases participants.len() - j,
    {
        if same_text(participants[j].id.as_str(), id) {
            assert(participants@[j as int].id@ == id@);
            return true;
        }
        j = j + 1;
    }
    false
}

/// Whether each participant has an identifier of its own.
fn ids_are_distinct(participants: &Vec<ParticipantConfig>) -> (result: bool)
    ensures
        result == distinct_ids(participants@),
{
    let mut i: usize = 0;
    while i < participants.len()
        invariant
            i <= participants.len(),
            forall|k: int| 0 <= k < i ==> (#[trigger] participants@[k]).id@.len() > 0,
            forall|k: int, j: int|
                0 <= k < i && k < j < participants@.len() ==> (#[trigger] participants@[k]).id@ != (
                #[trigger] participants@[j]).id@,
        decreases participants.len() - i,
    {
        let id = participants[i].id.as_str();
        proof {
            reveal_strlit("");
            assert(id@ == ""@ ==> id@.len() == 0);
            assert(id@.len() == 0 ==> id@ =~= ""@);
        }
        if same_text(id, "") || id_occurs_from(participants, i + 1, id) {
            return false;
        }
        i = i + 1;
    }
    true
}

/// Whether there is a participant with the given identifier whose role is not `excluded`.
fn participates(
    participants: &Vec<ParticipantConfig>,
    id: &str,
    excluded: ParticipantRole,
) -> (result: bool)
    ensures
        result == takes_part(participants@, id@, excluded),
{
    let mut i: usize = 0;
    while i < participants.len()
        invariant
            i <= participants.len(),
            forall|k: int|
                0 <= k < i ==> !((#[trigger] participants@[k]).id@ == id@ && participants@[k].role
                    != excluded),
        decreases participants.len() - i,
    {
        if same_text(participants[i].id.as_str(), id) && participants[i].role != excluded {
            assert(participants@[i as int].id@ == id@);
            return true;
        }
        i = i + 1;
    }
    false
}

/// Whether all the named participants receive.
fn all_receive(names: &Vec<String>, participants: &Vec<ParticipantConfig>) -> (result: bool)
    ensures
        result == forall|i: int|
            0 <= i < names@.len() ==> takes_part(
                participants@,
                (#[trigger] names@[i])@,
                ParticipantRole::SendOnly,
            ),
{
    let mut i: usize = 0;
    while i < names.len()
        invariant
            i <= names.len(),
            forall|k: int|
                0 <= k < i ==> takes_part(
                    participants@,
                    (#[trigger] names@[k])@,
                    ParticipantRole::SendOnly,
                ),
        decreases names.len() - i,
    {
        if !participates(participants, names[i].as_str(), ParticipantRole::SendOnly) {
            return false;
        }
        i = i + 1;
    }
    true
}

/// Checks the participants' identifiers and that the routing assertions can be observed.
fn validate_participants_and_routing(config: &AppConfig) -> (result: Result<(), SafetyError>)
    ensures
        match participants_refusal(*config) {
            Some(refusal) => result == Err::<(), SafetyError>(refusal),
            None => result == Ok::<(), SafetyError>(()),
        },
{
    if config.participants.len() == 0 {
        return if config.scenario.routing.len() == 0 {
            Ok(())
        } else {
            Err(SafetyError::InvalidRoutingAssertion)
        };
    }
    if !ids_are_distinct(&config.participants) {
        return Err(SafetyError::InvalidParticipantId);
    }
    let mut i: usize = 0;
    while i < config.scenario.routing.len()
        invariant
            i <= config.scenario.routing.len(),
            config.participants@.len() > 0,
            distinct_ids(config.participants@),
            forall|k: int|
                0 <= k < i ==> observable(
                    #[trigger] config.scenario.routing@[k],
                    config.participants@,
                ),
        decreases config.scenario.routing.len() - i,
    {
        let assertion = &config.scenario.routing[i];
        if !participates(
            &config.participants,
            assertion.sender.as_str(),
            ParticipantRole::ReceiveOnly,
        ) || (assertion.receivers.len() == 0 && assertion.forbidden_receivers.len() == 0)
            || !all_receive(&assertion.receivers, &config.participants) || !all_receive(
            &assertion.forbidden_receivers,
            &config.participants,
        ) {
            assert(!observable(config.scenario.routing@[i as int], config.participants@));
            return Err(SafetyError::InvalidRoutingAssertion);
        }
        assert(observable(config.scenario.routing@[i as int], config.participants@));
        i = i + 1;
    }
    Ok(())
}

/// No run is accepted without authorization, nor to a host that is not listed, but for this
/// machine in a local environment.
pub proof fn law_authorized_hosts_only(config: AppConfig, options: SafetyOptions)
    requires
        accepted(config, options),
    ensures
        config.authorization.acknowledged,
        text::texts(config.allow_hosts@).contains(host::host_of(config.target.server@)) || (
        config.environment == Environment::Local && host::is_loopback_host(
            host::host_of(config.target.server@),
        )),
{
}

/// A run in production is allowed explicitly, goes to a listed host, is a smoke test of at most
/// three participants and 15 minutes, sends a position every 30 seconds or less often, and
/// neither strains the server nor sends invalid events.
pub proof fn law_production_limits(config: AppConfig, options: SafetyOptions)
    requires
        accepted(config, options),
        config.environment == Environment::Production,
    ensures
        options.allow_production,
        text::texts(config.allow_hosts@).contains(host::host_of(config.target.server@)),
        config.run.profile == Profile::Smoke,
        config::participants_of(config).len() <= 3,
        config.run.duration@ <= 900 * NANOS_PER_SEC,
        config.run.gps_interval@ >= 30 * NANOS_PER_SEC,
        !is_disruptive(config),
        !config.scenario.invalid.enabled,
{
}

/// Stress, spike and soak runs, and disruptive controls, are accepted in local and temporary
/// environments only.
pub proof fn law_strain_stays_local(config: AppConfig, options: SafetyOptions)
    requires
        accepted(config, options),
        config.run.profile == Profile::Stress || config.run.profile == Profile::Spike
            || config.run.profile == Profile::Soak || is_disruptive(config),
    ensures
        is_local_or_temporary(config.environment),
{
}

/// Invalid events are accepted only where they are bounded in number and at most one a second,
/// in local and temporary environments or, with an explicit opt-in, in staging.
pub proof fn law_invalid_events_are_bounded(config: AppConfig, options: SafetyOptions)
    requires
        accepted(config, options),
        config.scenario.invalid.enabled,
    ensures
        invalid_events_bounded(config),
        is_local_or_temporary(config.environment) || (config.environment == Environment::Staging
            && options.allow_invalid_events),
{
}

/// An accepted run has at least one participant, as many as it declares and no more than its
/// limit. Explicit participants have identifiers of their own, and the routing assertions can be
/// observed.
pub proof fn law_participants_are_as_declared(config: AppConfig, options: SafetyOptions)
    requires
        accepted(config, options),
    ensures
        0 < config::participants_of(config).len() == config.run.clients,
        config.run.clients <= config.run.max_clients,
        distinct_ids(config.participants@),
        forall|i: int|
            0 <= i < config.scenario.routing@.len() ==> observable(
                #[trigger] config.scenario.routing@[i],
                config.participants@,
            ),
{
}

/// In an accepted run every participant gets its certificate paths.
pub proof fn law_identities_resolve(config: AppConfig, options: SafetyOptions, index: int)
    requires
        accepted(config, options),
        0 <= index < config::participants_of(config).len(),
    ensures
        config.tls.template_error(config::participants_of(config)[index].id) is None,
{
}

/// What is accepted stays accepted when more is allowed.
pub proof fn law_allowing_more_refuses_nothing(
    config: AppConfig,
    options: SafetyOptions,
    wider: SafetyOptions,
)
    requires
        accepted(config, options),
        options.allow_production ==> wider.allow_production,
        options.allow_invalid_events ==> wider.allow_invalid_events,
    ensures
        accepted(config, wider),
{
}

/// Outside local and temporary environments an accepted run connects and disconnects in the ordinary
/// way, and none of its participants holds back its reading.
pub proof fn law_no_slow_clients_outside_local(config: AppConfig, options: SafetyOptions, index: int)
    requires
        accepted(config, options),
        config.environment == Environment::Staging || config.environment
            == Environment::Production,
        0 <= index < config.participants@.len(),
    ensures
        !config.scenario.slow_connect.enabled,
        !config.scenario.abrupt_disconnect.enabled,
        config.participants@[index].read_delay is None,
        config.participants@[index].pause_read_for is None,
{
    let participant = config.participants@[index];
    if participant.read_delay is Some || participant.pause_read_for is Some {
        assert(reads_slowly(config.participants@[index]));
    }
}

/// Also without named participants an accepted run outside local and temporary environments connects
/// and disconnects in the ordinary way, and is neither a stress nor a spike nor a soak run.
pub proof fn law_no_strain_outside_local(config: AppConfig, options: SafetyOptions)
    requires
        accepted(config, options),
        config.environment == Environment::Staging || config.environment
            == Environment::Production,
    ensures
        !config.scenario.slow_connect.enabled,
        !config.scenario.abrupt_disconnect.enabled,
        config.run.profile != Profile::Stress,
        config.run.profile != Profile::Spike,
        config.run.profile != Profile::Soak,
{
}

/// Whether a participant that sends has the given identifier.
pub open spec fn can_send(participants: Seq<ParticipantConfig>, id: Seq<char>) -> bool {
    exists|i: int|
        0 <= i < participants.len() && (#[trigger] participants[i]).id@ == id && (
        participants[i].role == ParticipantRole::SendOnly || participants[i].role
            == ParticipantRole::SendReceive)
}

/// Whether a participant that receives has the given identifier.
pub open spec fn can_receive(participants: Seq<ParticipantConfig>, id: Seq<char>) -> bool {
    exists|i: int|
        0 <= i < participants.len() && (#[trigger] participants[i]).id@ == id && (
        participants[i].role == ParticipantRole::ReceiveOnly || participants[i].role
            == ParticipantRole::SendReceive)
}

/// Whether the routing assertions speak of participants that send and receive as they say, and of at
/// least one receiver each.
pub open spec fn routing_fits(config: AppConfig) -> bool {
    forall|k: int|
        0 <= k < config.scenario.routing@.len() ==> {
            let assertion = #[trigger] config.scenario.routing@[k];
            &&& can_send(config.participants@, assertion.sender@)
            &&& assertion.receivers@.len() + assertion.forbidden_receivers@.len() > 0
            &&& forall|i: int|
                0 <= i < assertion.receivers@.len() ==> can_receive(
                    config.participants@,
                    (#[trigger] assertion.receivers@[i])@,
                )
            &&& forall|i: int|
                0 <= i < assertion.forbidden_receivers@.len() ==> can_receive(
                    config.participants@,
                    (#[trigger] assertion.forbidden_receivers@[i])@,
                )
        }
}

/// Two ways to say that an assertion can be observed.
proof fn lemma_observable(
    assertion: config::RoutingAssertion,
    participants: Seq<ParticipantConfig>,
)
    ensures
        observable(assertion, participants) <==> {
            &&& can_send(participants, assertion.sender@)
            &&& assertion.receivers@.len() + assertion.forbidden_receivers@.len() > 0
            &&& forall|i: int|
                0 <= i < assertion.receivers@.len() ==> can_receive(
                    participants,
                    (#[trigger] assertion.receivers@[i])@,
                )
            &&& forall|i: int|
                0 <= i < assertion.forbidden_receivers@.len() ==> can_receive(
                    participants,
                    (#[trigger] assertion.forbidden_receivers@[i])@,
                )
        },
{
    assert forall|id: Seq<char>| #[trigger]
        takes_part(participants, id, ParticipantRole::SendOnly) <==> can_receive(
            participants,
            id,
        ) by {
        if takes_part(participants, id, ParticipantRole::SendOnly) {
            let i = choose|i: int|
                0 <= i < participants.len() && (#[trigger] participants[i]).id@ == id
                    && participants[i].role != ParticipantRole::SendOnly;
            assert(participants[i].id@ == id);
        }
        if can_receive(participants, id) {
            let i = choose|i: int|
                0 <= i < participants.len() && (#[trigger] participants[i]).id@ == id && (
                participants[i].role == ParticipantRole::ReceiveOnly || participants[i].role
                    == ParticipantRole::SendReceive);
            assert(participants[i].id@ == id);
        }
    }
    let id = assertion.sender@;
    if takes_part(participants, id, ParticipantRole::ReceiveOnly) {
        let i = choose|i: int|
            0 <= i < participants.len() && (#[trigger] participants[i]).id@ == id
                && participants[i].role != ParticipantRole::ReceiveOnly;
        assert(participants[i].id@ == id);
    }
    if can_send(participants, id) {
        let i = choose|i: int|
            0 <= i < participants.len() && (#[trigger] participants[i]).id@ == id && (
            participants[i].role == ParticipantRole::SendOnly || participants[i].role
                == ParticipantRole::SendReceive);
        assert(participants[i].id@ == id);
    }
    assert forall|i: int|
        0 <= i < assertion.receivers@.len() && takes_part(
            participants,
            (#[trigger] assertion.receivers@[i])@,
            ParticipantRole::SendOnly,
        ) implies can_receive(participants, assertion.receivers@[i]@) by {}
    assert forall|i: int|
        0 <= i < assertion.forbidden_receivers@.len() && takes_part(
            participants,
            (#[trigger] assertion.forbidden_receivers@[i])@,
            ParticipantRole::SendOnly,
        ) implies can_receive(participants, assertion.forbidden_receivers@[i]@) by {}
    assert forall|i: int|
        0 <= i < assertion.receivers@.len() && can_receive(
            participants,
            (#[trigger] assertion.receivers@[i])@,
        ) implies takes_part(
        participants,
        assertion.receivers@[i]@,
        ParticipantRole::SendOnly,
    ) by {
        assert(takes_part(participants, assertion.receivers@[i]@, ParticipantRole::SendOnly)
            <==> can_receive(participants, assertion.receivers@[i]@));
    }
    assert forall|i: int|
        0 <= i < assertion.forbidden_receivers@.len() && can_receive(
            participants,
            (#[trigger] assertion.forbidden_receivers@[i])@,
        ) implies takes_part(
        participants,
        assertion.forbidden_receivers@[i]@,
        ParticipantRole::SendOnly,
    ) by {
        assert(takes_part(
            participants,
            assertion.forbidden_receivers@[i]@,
            ParticipantRole::SendOnly,
        ) <==> can_receive(participants, assertion.forbidden_receivers@[i]@));
    }
}

/// The routing assertions of an accepted run speak of its participants: the sender sends, and all
/// that are expected or forbidden to receive do receive.
pub proof fn law_routing_speaks_of_participants(config: AppConfig, options: SafetyOptions)
    requires
        accepted(config, options),
    ensures
        routing_fits(config),
        config.participants@.len() == 0 ==> config.scenario.routing@.len() == 0,
{
    assert forall|k: int| 0 <= k < config.scenario.routing@.len() implies ({
        let assertion = #[trigger] config.scenario.routing@[k];
        &&& can_send(config.participants@, assertion.sender@)
        &&& assertion.receivers@.len() + assertion.forbidden_receivers@.len() > 0
        &&& forall|i: int|
            0 <= i < assertion.receivers@.len() ==> can_receive(
                config.participants@,
                (#[trigger] assertion.receivers@[i])@,
            )
        &&& forall|i: int|
            0 <= i < assertion.forbidden_receivers@.len() ==> can_receive(
                config.participants@,
                (#[trigger] assertion.forbidden_receivers@[i])@,
            )
    }) by {
        lemma_observable(config.scenario.routing@[k], config.participants@);
        assert(observable(config.scenario.routing@[k], config.participants@));
    }
}

/// An accepted run has been acknowledged, lasts some time, waits for nothing without end, sends
/// fixed positions, ramps nothing down, has as many participants as it says and gives each an
/// identifier of its own.
pub proof fn law_accepted_runs_are_bounded(config: AppConfig, options: SafetyOptions)
    requires
        accepted(config, options),
    ensures
        config.authorization.acknowledged,
        config.run.duration@ > 0,
        config.run.gps_interval@ > 0,
        config.timeouts.connect@ > 0,
        config.timeouts.tls_handshake@ > 0,
        config.timeouts.read@ > 0,
        config.timeouts.write@ > 0,
        config.reconnect.enabled ==> config.reconnect.min_backoff@ > 0
            && config.reconnect.min_backoff@ <= config.reconnect.max_backoff@,
        config.scenario.kind == ScenarioKind::Position,
        config.scenario.movement == Movement::Fixed,
        config.scheduler.ramp_down@ == 0,
        0 < config.run.clients <= config.run.max_clients,
        config.participants@.len() > 0 ==> config.participants@.len() == config.run.clients,
        forall|i: int|
            0 <= i < config.participants@.len() ==> (#[trigger] config.participants@[i]).id@.len()
                > 0,
        forall|i: int, j: int|
            0 <= i < j < config.participants@.len() ==> (#[trigger] config.participants@[i]).id@
                != (#[trigger] config.participants@[j]).id@,
        config.run.max_rate matches Some(rate) ==> 0 < rate.bits < 0x7ff0_0000_0000_0000,
{
}

/// A run in production is allowed explicitly, is a smoke test, has at most three clients and says
/// so, lasts at most 15 minutes, sends a position every 30 seconds or less often, at no more than a
/// tenth of an event a second to one part in 2^50, and sends nothing invalid.
pub proof fn law_production_is_gentle(config: AppConfig, options: SafetyOptions)
    requires
        accepted(config, options),
        config.environment == Environment::Production,
    ensures
        options.allow_production,
        config.run.profile == Profile::Smoke,
        config.run.clients <= 3,
        config.run.max_clients <= 3,
        config.participants@.len() <= 3,
        config.run.duration@ <= 900_000_000_000,
        config.run.gps_interval@ >= 30_000_000_000,
        config.run.max_rate matches Some(rate) ==> binary64::units(rate.bits) * 10
            * 0x4_0000_0000_0000 <= pow2(1074) * 0x4_0000_0000_0001,
        !config.scenario.invalid.enabled,
{
    lemma_tenth();
}

/// A run that sends invalid events is limited to some number of them and to one a second, and is in
/// a local or temporary environment or, where invalid events are allowed, in staging.
pub proof fn law_invalid_events_are_limited_and_slow(config: AppConfig, options: SafetyOptions)
    requires
        accepted(config, options),
        config.scenario.invalid.enabled,
    ensures
        config.scenario.invalid.max_events matches Some(events) && events > 0,
        config.run.gps_interval@ >= 1_000_000_000,
        config.run.max_rate matches Some(rate) ==> binary64::units(rate.bits) <= pow2(1074),
        config.environment != Environment::Production,
        config.environment == Environment::Staging ==> options.allow_invalid_events,
{
    binary64::lemma_landmarks();
}

/// The pattern of a tenth stands for a number that is hardly more than a tenth.
proof fn lemma_tenth()
    ensures
        binary64::units(TENTH_BITS) * 10 * 0x4_0000_0000_0000 <= pow2(1074) * 0x4_0000_0000_0001,
        binary64::units(TENTH_BITS) * 10 >= pow2(1074),
{
    lemma2_to64();
    lemma2_to64_rest();
    lemma_pow2_adds(56, 1018);
    let r = pow2(1018);
    lemma_pow2_pos(1018);
    assert(TENTH_BITS / 0x10_0000_0000_0000 == 1019);
    assert(TENTH_BITS % 0x10_0000_0000_0000 == 0x9_9999_9999_999a);
    let u = binary64::units(TENTH_BITS);
    assert(u == 0x19_9999_9999_999a * r);
    assert(u * 10 * 0x4_0000_0000_0000 <= (0x100_0000_0000_0000 * r) * 0x4_0000_0000_0001)
        by (nonlinear_arith)
        requires
            u == 0x19_9999_9999_999a * r,
            r > 0,
    ;
    assert(u * 10 >= 0x100_0000_0000_0000 * r) by (nonlinear_arith)
        requires
            u == 0x19_9999_9999_999a * r,
            r > 0,
    ;
}

/// Events can be sent at a rate that is finite and positive and that leaves no more than 2^64
/// seconds between two events; a rate that leaves noticeably more is refused.
pub proof fn law_usable_rates(rate: Binary64)
    requires
        0 < rate.bits < 0x7ff0_0000_0000_0000,
    ensures
        pow2(1074) <= binary64::units(rate.bits) * 0x1_0000_0000_0000_0000 ==> usable_rate(rate),
        usable_rate(rate) ==> pow2(1074) <= binary64::units(rate.bits) * (0x1_0000_0000_0000_0000
            + 2048),
{
    let u = binary64::units(rate.bits);
    let p = pow2(1074);
    let bits = binary64::reciprocal_bits(rate.bits);
    let g = 0x1_0000_0000_0000_0000nat;
    lemma_pow2_pos(1074);
    binary64::lemma_units_order(0, rate.bits);
    binary64::lemma_landmarks();
    binary64::lemma_rounded_nearest(p, u);
    if p <= u * g {
        assert(p * p <= u * (g * p)) by (nonlinear_arith)
            requires
                p <= u * g,
        ;
        binary64::lemma_nearest_bounded(p, u, bits, TWO_64_BITS);
    }
    if usable_rate(rate) {
        assert(bits <= TWO_64_BITS) by {
            binary64::lemma_units_order(TWO_64_BITS, bits);
        }
        binary64::lemma_units_order(bits, TWO_64_BITS);
        binary64::lemma_units_order((bits + 1) as u64, (TWO_64_BITS + 1) as u64);
        let middle = binary64::units(bits) + binary64::units((bits + 1) as u64);
        assert(2 * p * p <= u * middle);
        assert(p <= u * (g + 2048)) by (nonlinear_arith)
            requires
                2 * p * p <= u * middle,
                middle <= g * p + (g + 4096) * p,
                p > 0,
                u >= 0,
        {
            assert(u * middle <= u * (g * p + (g + 4096) * p));
            assert(u * (g * p + (g + 4096) * p) == 2 * (p * (u * (g + 2048))));
            assert(2 * (p * p) <= 2 * (p * (u * (g + 2048))));
        }
    }
}

/// A run that keeps to the rules is accepted: nothing else is held against it.
pub proof fn law_harmless_runs_are_accepted(config: AppConfig, options: SafetyOptions)
    requires
        config.authorization.acknowledged,
        text::texts(config.allow_hosts@).contains(host::host_of(config.target.server@)),
        0 < config.run.clients <= config.run.max_clients,
        config.participants@.len() > 0 ==> config.participants@.len() == config.run.clients,
        forall|i: int|
            0 <= i < config.participants@.len() ==> (#[trigger] config.participants@[i]).id@.len()
                > 0,
        forall|i: int, j: int|
            0 <= i < j < config.participants@.len() ==> (#[trigger] config.participants@[i]).id@
                != (#[trigger] config.participants@[j]).id@,
        routing_fits(config),
        config.participants@.len() == 0 ==> config.scenario.routing@.len() == 0,
        config.run.duration@ > 0,
        config.run.gps_interval@ > 0,
        config.timeouts.connect@ > 0,
        config.timeouts.tls_handshake@ > 0,
        config.timeouts.read@ > 0,
        config.timeouts.write@ > 0,
        config.run.max_rate matches Some(rate) ==> usable_rate(rate),
        config.reconnect.enabled ==> config.reconnect.min_backoff@ > 0
            && config.reconnect.min_backoff@ <= config.reconnect.max_backoff@,
        config.scenario.kind == ScenarioKind::Position,
        config.scenario.movement == Movement::Fixed,
        config.scheduler.ramp_down@ == 0,
        forall|i: int|
            0 <= i < config::participants_of(config).len() ==> config.tls.template_error(
                (#[trigger] config::participants_of(config)[i]).id,
            ) is None,
        config.environment == Environment::Staging || config.environment == Environment::Production
            ==> {
            &&& config.run.profile != Profile::Stress
            &&& config.run.profile != Profile::Spike
            &&& config.run.profile != Profile::Soak
            &&& !config.scenario.slow_connect.enabled
            &&& !config.scenario.abrupt_disconnect.enabled
            &&& forall|i: int|
                0 <= i < config.participants@.len() ==> (#[trigger] config.participants@[
                    i
                ]).read_delay is None && config.participants@[i].pause_read_for is None
        },
        config.environment == Environment::Production ==> {
            &&& options.allow_production
            &&& config.run.profile == Profile::Smoke
            &&& config.run.max_clients <= 3
            &&& config.run.duration@ <= 900_000_000_000
            &&& config.run.gps_interval@ >= 30_000_000_000
            &&& config.run.max_rate matches Some(rate) ==> binary64::units(rate.bits) * 10 <= pow2(
                1074,
            )
            &&& !config.scenario.invalid.enabled
        },
        config.scenario.invalid.enabled ==> {
            &&& config.scenario.invalid.max_events matches Some(events) && events > 0
            &&& config.run.gps_interval@ >= 1_000_000_000
            &&& config.run.max_rate matches Some(rate) ==> binary64::units(rate.bits) <= pow2(1074)
            &&& config.environment == Environment::Staging ==> options.allow_invalid_events
        },
    ensures
        accepted(config, options),
{
    lemma_tenth();
    binary64::lemma_landmarks();
    assert forall|k: int| 0 <= k < config.scenario.routing@.len() implies observable(
        #[trigger] config.scenario.routing@[k],
        config.participants@,
    ) by {
        lemma_observable(config.scenario.routing@[k], config.participants@);
    }
    assert(distinct_ids(config.participants@));
    assert(sound_bounds(config));
}

/// A run in a local environment to this machine is accepted without a listed host where one to a
/// listed host is.
pub proof fn law_this_machine_needs_no_listing(config: AppConfig, options: SafetyOptions)
    requires
        config.environment == Environment::Local,
        host::is_loopback_host(host::host_of(config.target.server@)),
        config.authorization.acknowledged,
    ensures
        accepted(config, options) <==> run_refusal(config, options) is None,
{
}

/// Every refusal names what is wrong with the run.
pub proof fn law_refusals_are_deserved(config: AppConfig, options: SafetyOptions)
    ensures
        match run_refusal(config, options) {
            None => true,
            Some(SafetyError::AuthorizationRequired) => false,
            Some(SafetyError::HostNotAllowed(_)) => false,
            Some(SafetyError::ProductionNotAllowed) => config.environment == Environment::Production
                && !options.allow_production,
            Some(SafetyError::ProductionProfile(profile)) => config.environment
                == Environment::Production && profile == config.run.profile && profile
                != Profile::Smoke,
            Some(SafetyError::ProductionClients) => config.environment == Environment::Production
                && (config.run.clients > 3 || config.run.max_clients > 3),
            Some(SafetyError::ProductionDuration) => config.environment == Environment::Production
                && config.run.duration@ > 900_000_000_000,
            Some(SafetyError::ProductionRate) => config.environment == Environment::Production && (
            config.run.gps_interval@ < 30_000_000_000 || (config.run.max_rate matches Some(rate)
                && binary64::units(rate.bits) * 10 > pow2(1074))),
            Some(SafetyError::ClientLimit) => config.participants@.len() > u32::MAX
                || config.run.clients > config.run.max_clients,
            Some(SafetyError::ParticipantCountMismatch) => config.participants@.len() > 0
                && config.participants@.len() != config.run.clients,
            Some(SafetyError::NoParticipants) => config.run.clients == 0,
            Some(SafetyError::InvalidParticipantId) => (exists|i: int|
                0 <= i < config.participants@.len() && (#[trigger] config.participants@[
                    i
                ]).id@.len() == 0) || (exists|i: int, j: int|
                0 <= i < j < config.participants@.len() && (#[trigger] config.participants@[i]).id@
                    == (#[trigger] config.participants@[j]).id@),
            Some(SafetyError::InvalidRoutingAssertion) => config.scenario.routing@.len() > 0 && (
            config.participants@.len() == 0 || !routing_fits(config)),
            Some(SafetyError::UnsupportedWorkload) => config.scenario.kind
                != ScenarioKind::Position || config.scenario.movement != Movement::Fixed,
            Some(SafetyError::UnsupportedOption) => config.scheduler.ramp_down@ > 0,
            Some(SafetyError::InvalidTlsTemplates) => exists|i: int|
                0 <= i < config::participants_of(config).len() && config.tls.template_error(
                    (#[trigger] config::participants_of(config)[i]).id,
                ) is Some,
            Some(SafetyError::InvalidBounds) => {
                ||| config.run.duration@ == 0
                ||| config.run.gps_interval@ == 0
                ||| config.timeouts.connect@ == 0
                ||| config.timeouts.tls_handshake@ == 0
                ||| config.timeouts.read@ == 0
                ||| config.timeouts.write@ == 0
                ||| (config.run.max_rate matches Some(rate) && !usable_rate(rate))
                ||| config.reconnect.enabled && (config.reconnect.min_backoff@ == 0
                    || config.reconnect.min_backoff@ > config.reconnect.max_backoff@)
            },
            Some(SafetyError::EnvironmentProfileNotAllowed) => config.environment
                != Environment::Local && config.environment != Environment::Temporary,
            Some(SafetyError::InvalidEventsNotAllowed) => config.scenario.invalid.enabled && (
            config.environment == Environment::Production || (config.environment
                == Environment::Staging && !options.allow_invalid_events)),
            Some(SafetyError::InvalidEventLimit) => config.scenario.invalid.enabled && (
            config.run.gps_interval@ < 1_000_000_000 || config.scenario.invalid.max_events is None
                || config.scenario.invalid.max_events == Some(0u32) || (
            config.run.max_rate matches Some(rate) && binary64::units(rate.bits) > pow2(1074))),
            Some(SafetyError::SlowClientNotAllowed) => config.environment
                == Environment::Production && (config.scenario.slow_connect.enabled
                || config.scenario.abrupt_disconnect.enabled || exists|i: int|
                0 <= i < config.participants@.len() && ((#[trigger] config.participants@[
                    i
                ]).read_delay is Some || config.participants@[i].pause_read_for is Some)),
        },
{
    lemma_tenth();
    binary64::lemma_landmarks();
    if run_refusal(config, options) == Some(SafetyError::InvalidRoutingAssertion) {
        if routing_fits(config) && config.participants@.len() > 0 {
            assert forall|k: int| 0 <= k < config.scenario.routing@.len() implies observable(
                #[trigger] config.scenario.routing@[k],
                config.participants@,
            ) by {
                lemma_observable(config.scenario.routing@[k], config.participants@);
            }
        }
    }
}

/// The configuration that nobody has changed runs on this machine once it is acknowledged, and is
/// refused before; it also keeps to what production permits.
pub proof fn law_default_runs_are_harmless(config: AppConfig, options: SafetyOptions)
    requires
        config.target.is_default(),
        config.tls.is_default(),
        config.run.is_default(),
        config.timeouts.is_default(),
        config.scheduler.is_default(),
        config.reconnect.is_default(),
        config.scenario.is_default(),
        config.participants@.len() == 0,
        config.environment == Environment::Local,
    ensures
        accepted(config, options) <==> config.authorization.acknowledged,
        production_refusal(config) is None,
        config.run.clients <= config.run.max_clients <= 3,
{
    reveal_strlit("127.0.0.1:8089");
    let server = config.target.server@;
    let port = seq!['8', '0', '8', '9'];
    let own = seq!['1', '2', '7'] + seq!['.'] + text::decimal_text(0) + seq!['.']
        + text::decimal_text(0) + seq!['.'] + text::decimal_text(1);
    reveal_with_fuel(text::decimal_text, 1);
    assert(text::decimal_text(0) =~= seq!['0']);
    assert(text::decimal_text(1) =~= seq!['1']);
    assert(server =~= own + seq![':'] + port);
    assert(!port.contains(':'));
    host::law_hosts_stand_before_ports(own, port);
    host::law_every_127_address_is_loopback(0, 0, 1);
    assert(host::host_of(server) == own);
}

} // verus!
