//! What the command line changes in a configuration.
use crate::binary64::Binary64;
use crate::config::duration_serde::{self, read_duration, DurationFault};
use crate::config::{
    AppConfig, AuthorizationConfig, Environment, OutputConfig, Profile, RunConfig,
    TargetConfig,
};
use crate::duration::{Duration, NANOS_PER_SEC};
use crate::text;
use vstd::prelude::*;
use vstd::string::*;

verus! {

/// What a command line may say about a run.
#[derive(Debug)]
pub struct RunArgs {
    pub server: Option<String>,
    pub environment: Option<String>,
    pub profile: Option<String>,
    pub clients: Option<u32>,
    pub max_clients: Option<u32>,
    pub duration: Option<String>,
    pub gps_interval: Option<String>,
    pub max_rate: Option<Binary64>,
    pub output: Option<String>,
    pub lifecycle_jsonl: bool,
    pub acknowledge_authorization: bool,
}

/// Why a command line cannot be followed.
#[derive(Debug)]
pub enum OverrideError {
    Environment(String),
    Profile(String),
    Duration(DurationFault),
}

/// Whether what a command line says about an environment is unknown.
pub open spec fn environment_unknown(args: RunArgs) -> bool {
    args.environment matches Some(value) && forall|known: Environment|
        value@ != #[trigger] known.name()
}

/// Whether what a command line says about a profile counts and is unknown.
pub open spec fn profile_unknown(args: RunArgs, forced_profile: Option<Profile>) -> bool {
    &&& forced_profile is None
    &&& args.profile matches Some(value) && forall|known: Profile|
        value@ != #[trigger] known.name()
}

/// Whether a text is there and denotes no duration.
pub open spec fn duration_unknown(value: Option<String>) -> bool {
    value matches Some(raw) && duration_serde::seconds_of(raw@) is None
}

/// Whether a duration is the one that a text denotes, or else the one from before.
pub open spec fn duration_overridden(
    before: Duration,
    after: Duration,
    value: Option<String>,
) -> bool {
    match value {
        Some(raw) => duration_serde::seconds_of(raw@) is Some && after@
            == duration_serde::seconds_of(raw@)->0 * NANOS_PER_SEC,
        None => after == before,
    }
}

/// Whether a configuration is the one from before with what a command line says put in place.
pub open spec fn overridden(
    before: AppConfig,
    after: AppConfig,
    args: RunArgs,
    forced_profile: Option<Profile>,
) -> bool {
    &&& after.target.server@ == (match args.server {
        Some(server) => server@,
        None => before.target.server@,
    })
    &&& after.target.sni == before.target.sni
    &&& match args.environment {
        Some(value) => value@ == after.environment.name(),
        None => after.environment == before.environment,
    }
    &&& match (forced_profile, args.profile) {
        (Some(profile), _) => after.run.profile == profile,
        (None, Some(value)) => value@ == after.run.profile.name(),
        (None, None) => after.run.profile == before.run.profile,
    }
    &&& after.run.clients == (match args.clients {
        Some(clients) => clients,
        None => before.run.clients,
    })
    &&& after.run.max_clients == (match args.max_clients {
        Some(clients) => clients,
        None => before.run.max_clients,
    })
    &&& duration_overridden(before.run.duration, after.run.duration, args.duration)
    &&& duration_overridden(before.run.gps_interval, after.run.gps_interval, args.gps_interval)
    &&& after.run.max_rate == (match args.max_rate {
        Some(rate) => Some(rate),
        None => before.run.max_rate,
    })
    &&& text::text_option(after.output.json) == (match args.output {
        Some(path) => Some(path@),
        None => text::text_option(before.output.json),
    })
    &&& after.output.lifecycle_jsonl == (before.output.lifecycle_jsonl || args.lifecycle_jsonl)
    &&& after.authorization.acknowledged == (before.authorization.acknowledged
        || args.acknowledge_authorization)
    &&& after.version == before.version
    &&& after.allow_hosts == before.allow_hosts
    &&& after.tls == before.tls
    &&& after.timeouts == before.timeouts
    &&& after.synchronization == before.synchronization
    &&& after.scheduler == before.scheduler
    &&& after.reconnect == before.reconnect
    &&& after.abort == before.abort
    &&& after.participants == before.participants
    &&& after.scenario == before.scenario
}

/// The environment that a command line names, or else the one from before.
fn override_environment(before: Environment, value: &Option<String>) -> (result: Result<
    Environment,
    String,
>)
    ensures
        match (result, *value) {
            (Ok(after), Some(name)) => name@ == after.name(),
            (Ok(after), None) => after == before,
            (Err(message), Some(name)) => {
                &&& forall|known: Environment| name@ != #[trigger] known.name()
                &&& message@ == "environment must be local, staging, temporary, or production"@
            },
            (Err(_), None) => false,
        },
{
    match value {
        Some(name) => Environment::from_str(name.as_str()),
        None => Ok(before),
    }
}

/// The profile that a command stands for, or else the one that it names, or else the one from
/// before.
fn override_profile(before: Profile, value: &Option<String>, forced: Option<Profile>) -> (result:
    Result<Profile, String>)
    ensures
        match (result, forced, *value) {
            (Ok(after), Some(profile), _) => after == profile,
            (Ok(after), None, Some(name)) => name@ == after.name(),
            (Ok(after), None, None) => after == before,
            (Err(message), None, Some(name)) => {
                &&& forall|known: Profile| name@ != #[trigger] known.name()
                &&& message@ == "unknown profile"@
            },
            (Err(_), _, _) => false,
        },
{
    match (forced, value) {
        (Some(profile), _) => Ok(profile),
        (None, Some(name)) => Profile::from_str(name.as_str()),
        (None, None) => Ok(before),
    }
}

/// The duration that a command line says, or else the one from before.
fn override_duration(before: Duration, value: &Option<String>) -> (result: Result<
    Duration,
    DurationFault,
>)
    ensures
        match result {
            Ok(after) => duration_overridden(before, after, *value),
            Err(fault) => duration_unknown(*value) && duration_serde::fault_of(value->0@) == Some(
                fault,
            ),
        },
{
    match value {
        Some(raw) => read_duration(raw.as_str()),
        None => Ok(before),
    }
}

/// Puts what a command line says in place of what a configuration says. A profile that the command
/// itself stands for goes before one that it is told.
pub fn apply_overrides(config: AppConfig, args: &RunArgs, forced_profile: Option<Profile>) -> (result:
    Result<AppConfig, OverrideError>)
    ensures
        match result {
            Ok(changed) => {
                &&& !environment_unknown(*args)
                &&& !profile_unknown(*args, forced_profile)
                &&& !duration_unknown(args.duration)
                &&& !duration_unknown(args.gps_interval)
                &&& overridden(config, changed, *args, forced_profile)
            },
            Err(OverrideError::Environment(message)) => {
                &&& environment_unknown(*args)
                &&& message@ == "environment must be local, staging, temporary, or production"@
            },
            Err(OverrideError::Profile(message)) => {
                &&& !environment_unknown(*args)
                &&& profile_unknown(*args, forced_profile)
                &&& message@ == "unknown profile"@
            },
            Err(OverrideError::Duration(fault)) => {
                &&& !environment_unknown(*args)
                &&& !profile_unknown(*args, forced_profile)
                &&& if duration_unknown(args.duration) {
                    duration_serde::fault_of(args.duration->0@) == Some(fault)
                } else {
                    duration_unknown(args.gps_interval) && duration_serde::fault_of(
                        args.gps_interval->0@,
                    ) == Some(fault)
                }
            },
        },
{
    let environment = match override_environment(config.environment, &args.environment) {
        Ok(environment) => environment,
        Err(message) => {
            return Err(OverrideError::Environment(message));
        },
    };
    let profile = match override_profile(config.run.profile, &args.profile, forced_profile) {
        Ok(profile) => profile,
        Err(message) => {
            return Err(OverrideError::Profile(message));
        },
    };
    let duration = match override_duration(config.run.duration, &args.duration) {
        Ok(duration) => duration,
        Err(fault) => {
            return Err(OverrideError::Duration(fault));
        },
    };
    let gps_interval = match override_duration(config.run.gps_interval, &args.gps_interval) {
        Ok(interval) => interval,
        Err(fault) => {
            return Err(OverrideError::Duration(fault));
        },
    };
    let run = RunConfig {
        profile,
        clients: match args.clients {
            Some(clients) => clients,
            None => config.run.clients,
        },
        max_clients: match args.max_clients {
            Some(clients) => clients,
            None => config.run.max_clients,
        },
        duration,
        gps_interval,
        max_rate: match args.max_rate {
            Some(rate) => Some(rate),
            None => config.run.max_rate,
        },
    };
    let server = match &args.server {
        Some(server) => server.clone(),
        None => config.target.server,
    };
    let json = match &args.output {
        Some(path) => Some(path.clone()),
        None => config.output.json,
    };
    let lifecycle_jsonl = config.output.lifecycle_jsonl || args.lifecycle_jsonl;
    let acknowledged = config.authorization.acknowledged || args.acknowledge_authorization;
    Ok(
        AppConfig {
            version: config.version,
            authorization: AuthorizationConfig { acknowledged },
            environment,
            allow_hosts: config.allow_hosts,
            target: TargetConfig { server, sni: config.target.sni },
            tls: config.tls,
            run,
            timeouts: config.timeouts,
            synchronization: config.synchronization,
            scheduler: config.scheduler,
            reconnect: config.reconnect,
            abort: config.abort,
            participants: config.participants,
            scenario: config.scenario,
            output: OutputConfig { json, lifecycle_jsonl },
        },
    )
}

/// A command line can acknowledge authorization, and never withdraws it.
pub proof fn law_acknowledgement_is_kept(
    before: AppConfig,
    after: AppConfig,
    args: RunArgs,
    forced_profile: Option<Profile>,
)
    requires
        overridden(before, after, args, forced_profile),
        before.authorization.acknowledged,
    ensures
        after.authorization.acknowledged,
{
}

/// An argument that is given wins over the configuration, and one that is not leaves it as it was.
pub proof fn law_arguments_win(
    before: AppConfig,
    after: AppConfig,
    args: RunArgs,
    forced_profile: Option<Profile>,
)
    requires
        overridden(before, after, args, forced_profile),
    ensures
        args.server matches Some(server) ==> after.target.server@ == server@,
        args.server is None ==> after.target.server@ == before.target.server@,
        args.environment matches Some(name) ==> after.environment.name() == name@,
        args.environment is None ==> after.environment == before.environment,
        forced_profile matches Some(profile) ==> after.run.profile == profile,
        forced_profile is None ==> (args.profile matches Some(name) ==> after.run.profile.name()
            == name@),
        forced_profile is None && args.profile is None ==> after.run.profile == before.run.profile,
        args.clients matches Some(clients) ==> after.run.clients == clients,
        args.clients is None ==> after.run.clients == before.run.clients,
        args.max_clients matches Some(clients) ==> after.run.max_clients == clients,
        args.max_clients is None ==> after.run.max_clients == before.run.max_clients,
        args.duration matches Some(raw) ==> (duration_serde::seconds_of(raw@) matches Some(secs)
            && after.run.duration@ == secs * 1_000_000_000),
        args.duration is None ==> after.run.duration == before.run.duration,
        args.gps_interval matches Some(raw) ==> (duration_serde::seconds_of(raw@) matches Some(secs)
            && after.run.gps_interval@ == secs * 1_000_000_000),
        args.gps_interval is None ==> after.run.gps_interval == before.run.gps_interval,
        args.max_rate is Some ==> after.run.max_rate == args.max_rate,
        args.max_rate is None ==> after.run.max_rate == before.run.max_rate,
        args.output matches Some(path) ==> (after.output.json matches Some(own) && own@ == path@),
        args.output is None ==> (after.output.json is Some <==> before.output.json is Some),
        args.lifecycle_jsonl || before.output.lifecycle_jsonl <==> after.output.lifecycle_jsonl,
        args.acknowledge_authorization || before.authorization.acknowledged
            <==> after.authorization.acknowledged,
{
}

/// No argument widens what a run may do beyond what arguments are for: the allowed hosts, the
/// certificates, the timeouts, the limits and the scenario stay as configured.
pub proof fn law_arguments_leave_the_rest(
    before: AppConfig,
    after: AppConfig,
    args: RunArgs,
    forced_profile: Option<Profile>,
)
    requires
        overridden(before, after, args, forced_profile),
    ensures
        after.allow_hosts == before.allow_hosts,
        after.tls == before.tls,
        after.target.sni == before.target.sni,
        after.timeouts == before.timeouts,
        after.synchronization == before.synchronization,
        after.scheduler == before.scheduler,
        after.reconnect == before.reconnect,
        after.abort == before.abort,
        after.participants == before.participants,
        after.scenario == before.scenario,
        after.version == before.version,
{
}

/// A name of an environment or a profile is known just where it is one of theirs, a profile that is
/// forced needs no name, and a duration is known just where it can be read.
pub proof fn law_known_names_are_taken(
    args: RunArgs,
    environment: Environment,
    profile: Profile,
    forced_profile: Option<Profile>,
    value: Option<String>,
)
    ensures
        args.environment is None ==> !environment_unknown(args),
        args.environment matches Some(name) ==> (name@ == environment.name()
            ==> !environment_unknown(args)),
        args.environment matches Some(name) ==> (name@ != "local"@ && name@ != "staging"@ && name@
            != "temporary"@ && name@ != "production"@ ==> environment_unknown(args)),
        forced_profile is Some ==> !profile_unknown(args, forced_profile),
        args.profile is None ==> !profile_unknown(args, forced_profile),
        args.profile matches Some(name) ==> (name@ == profile.name() ==> !profile_unknown(
            args,
            forced_profile,
        )),
        forced_profile is None ==> (args.profile matches Some(name) ==> (name@ != "smoke"@ && name@
            != "functional"@ && name@ != "load"@ && name@ != "stress"@ && name@ != "spike"@ && name@
            != "soak"@ && name@ != "reconnect"@ ==> profile_unknown(args, forced_profile))),
        value is None ==> !duration_unknown(value),
        value matches Some(raw) ==> (duration_unknown(value) <==> duration_serde::seconds_of(
            raw@,
        ) is None),
{
}

} // verus!
