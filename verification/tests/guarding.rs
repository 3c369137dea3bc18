use tak_bench::binary64::Binary64;
use tak_bench::config::duration_serde::{duration_text, parse_duration, DurationFault};
use tak_bench::config::{
    host_from_server, is_loopback, AbruptDisconnectConfig, AppConfig, AuthorizationConfig,
    ConfigError, Environment, InvalidEventKind, InvalidScenarioConfig, Movement,
    ParticipantConfig, ParticipantRole, Profile, ReconnectConfig, RoutingAssertion, RunConfig,
    ScenarioConfig, ScenarioKind, SchedulerConfig, SlowConnectConfig, TargetConfig, TimeoutConfig,
    TlsConfig, TlsTemplateError,
};
use tak_bench::duration::Duration;
use tak_bench::overrides::{apply_overrides, OverrideError, RunArgs};
use tak_bench::safety::{
    validate, validate_structure, validate_with_options, validate_workload, SafetyError,
    SafetyOptions, AUTHORIZATION_BANNER,
};

fn rate(value: f64) -> Option<Binary64> {
    Some(Binary64 { bits: value.to_bits() })
}

fn acknowledged() -> AppConfig {
    AppConfig {
        authorization: AuthorizationConfig { acknowledged: true },
        ..AppConfig::default()
    }
}

fn production() -> AppConfig {
    AppConfig {
        environment: Environment::Production,
        allow_hosts: vec!["example.test".into()],
        target: TargetConfig { server: "example.test:8089".into(), sni: None },
        ..acknowledged()
    }
}

fn allowing_all() -> SafetyOptions {
    SafetyOptions { allow_production: true, allow_invalid_events: true }
}

fn participant(id: &str, role: ParticipantRole) -> ParticipantConfig {
    ParticipantConfig { id: id.into(), role, ..ParticipantConfig::default() }
}

#[test]
fn production_needs_explicit_opt_in() {
    let config = AppConfig {
        environment: Environment::Production,
        authorization: AuthorizationConfig { acknowledged: true },
        allow_hosts: vec!["example.test".into()],
        target: TargetConfig {
            server: "example.test:8089".into(),
            sni: None,
        },
        ..AppConfig::default()
    };
    assert_eq!(
        validate(&config, false),
        Err(SafetyError::ProductionNotAllowed)
    );
}

#[test]
fn invalid_events_need_a_bounded_rate() {
    let config = AppConfig {
        authorization: AuthorizationConfig { acknowledged: true },
        scenario: ScenarioConfig {
            invalid: InvalidScenarioConfig {
                enabled: true,
                max_events: Some(1),
                ..InvalidScenarioConfig::default()
            },
            ..ScenarioConfig::default()
        },
        run: RunConfig {
            gps_interval: Duration::from_millis(500),
            ..RunConfig::default()
        },
        ..AppConfig::default()
    };
    assert_eq!(
        validate(&config, false),
        Err(SafetyError::InvalidEventLimit)
    );
}

#[test]
fn invalid_event_kinds_are_blocked_in_production_and_cannot_bypass_rate_limit() {
    let kinds = [
        InvalidEventKind::MalformedXml,
        InvalidEventKind::UnterminatedXml,
        InvalidEventKind::OversizedFrame,
        InvalidEventKind::InvalidCoordinates,
        InvalidEventKind::InvalidTime,
    ];
    for kind in kinds {
        let scenario = ScenarioConfig {
            invalid: InvalidScenarioConfig {
                enabled: true,
                kind: Some(kind),
                max_events: Some(2),
            },
            ..ScenarioConfig::default()
        };
        let production = AppConfig {
            authorization: AuthorizationConfig { acknowledged: true },
            environment: Environment::Production,
            allow_hosts: vec!["example.test".into()],
            target: TargetConfig {
                server: "example.test:8089".into(),
                sni: None,
            },
            scenario: scenario.clone(),
            ..AppConfig::default()
        };
        assert_eq!(
            validate_with_options(
                &production,
                SafetyOptions {
                    allow_production: true,
                    allow_invalid_events: true,
                },
            ),
            Err(SafetyError::InvalidEventsNotAllowed)
        );

        let rate_bypass = AppConfig {
            authorization: AuthorizationConfig { acknowledged: true },
            scenario,
            run: RunConfig {
                gps_interval: Duration::from_millis(999),
                max_rate: rate(1.0),
                ..RunConfig::default()
            },
            ..AppConfig::default()
        };
        assert_eq!(
            validate(&rate_bypass, false),
            Err(SafetyError::InvalidEventLimit)
        );
    }
}

#[test]
fn abrupt_disconnect_is_blocked_in_production() {
    let config = AppConfig {
        environment: Environment::Production,
        authorization: AuthorizationConfig { acknowledged: true },
        allow_hosts: vec!["example.test".into()],
        target: TargetConfig {
            server: "example.test:8089".into(),
            sni: None,
        },
        scenario: ScenarioConfig {
            abrupt_disconnect: AbruptDisconnectConfig {
                enabled: true,
                after_events: 1,
            },
            ..ScenarioConfig::default()
        },
        ..AppConfig::default()
    };
    assert_eq!(
        validate_with_options(
            &config,
            SafetyOptions {
                allow_production: true,
                allow_invalid_events: false
            }
        ),
        Err(SafetyError::SlowClientNotAllowed)
    );
}

#[test]
fn explicit_participants_cannot_bypass_declared_limits() {
    let participants = (0..4)
        .map(|index| ParticipantConfig {
            id: format!("participant-{index}"),
            ..ParticipantConfig::default()
        })
        .collect();
    let mismatched = AppConfig {
        participants,
        run: RunConfig {
            clients: 1,
            max_clients: 3,
            ..RunConfig::default()
        },
        ..AppConfig::default()
    };
    assert_eq!(
        validate_workload(&mismatched),
        Err(SafetyError::ParticipantCountMismatch)
    );

    let over_limit = AppConfig {
        run: RunConfig {
            clients: 4,
            max_clients: 3,
            ..RunConfig::default()
        },
        ..mismatched
    };
    assert_eq!(
        validate_workload(&over_limit),
        Err(SafetyError::ClientLimit)
    );
}

#[test]
fn participant_ids_routing_and_workload_options_are_validated() {
    let duplicate = AppConfig {
        run: RunConfig {
            clients: 2,
            ..RunConfig::default()
        },
        participants: vec![
            ParticipantConfig {
                id: "duplicate".into(),
                ..ParticipantConfig::default()
            },
            ParticipantConfig {
                id: "duplicate".into(),
                ..ParticipantConfig::default()
            },
        ],
        ..AppConfig::default()
    };
    assert_eq!(
        validate_workload(&duplicate),
        Err(SafetyError::InvalidParticipantId)
    );

    let unsupported = AppConfig {
        scenario: ScenarioConfig {
            kind: ScenarioKind::Chat,
            ..ScenarioConfig::default()
        },
        ..AppConfig::default()
    };
    assert_eq!(
        validate_workload(&unsupported),
        Err(SafetyError::UnsupportedWorkload)
    );
}

#[test]
fn default_configuration_lacks_only_authorization() {
    assert_eq!(
        validate(&AppConfig::default(), false),
        Err(SafetyError::AuthorizationRequired)
    );
    assert_eq!(validate(&acknowledged(), false), Ok(()));
    assert_eq!(validate_structure(&AppConfig::default()), Ok(()));
}

#[test]
fn hosts_must_be_listed_outside_local_loopback() {
    let remote = AppConfig {
        target: TargetConfig { server: "example.test:8089".into(), sni: None },
        ..acknowledged()
    };
    assert_eq!(
        validate(&remote, false),
        Err(SafetyError::HostNotAllowed("example.test".into()))
    );
    let listed = AppConfig { allow_hosts: vec!["example.test".into()], ..remote };
    assert_eq!(validate(&listed, false), Ok(()));
    let staging_loopback = AppConfig { environment: Environment::Staging, ..acknowledged() };
    assert_eq!(
        validate(&staging_loopback, false),
        Err(SafetyError::HostNotAllowed("127.0.0.1".into()))
    );
}

#[test]
fn production_has_its_own_limits() {
    let options = allowing_all();
    assert_eq!(validate_with_options(&production(), options), Ok(()));
    let profile = AppConfig {
        run: RunConfig { profile: Profile::Load, ..RunConfig::default() },
        ..production()
    };
    assert_eq!(
        validate_with_options(&profile, options),
        Err(SafetyError::ProductionProfile(Profile::Load))
    );
    let clients = AppConfig {
        run: RunConfig { clients: 4, max_clients: 4, ..RunConfig::default() },
        ..production()
    };
    assert_eq!(
        validate_with_options(&clients, options),
        Err(SafetyError::ProductionClients)
    );
    let long = AppConfig {
        run: RunConfig { duration: Duration::from_secs(901), ..RunConfig::default() },
        ..production()
    };
    assert_eq!(
        validate_with_options(&long, options),
        Err(SafetyError::ProductionDuration)
    );
    let fast = AppConfig {
        run: RunConfig { gps_interval: Duration::from_secs(29), ..RunConfig::default() },
        ..production()
    };
    assert_eq!(
        validate_with_options(&fast, options),
        Err(SafetyError::ProductionRate)
    );
    let rated = AppConfig {
        run: RunConfig { max_rate: rate(0.11), ..RunConfig::default() },
        ..production()
    };
    assert_eq!(
        validate_with_options(&rated, options),
        Err(SafetyError::ProductionRate)
    );
    let slow_enough = AppConfig {
        run: RunConfig { max_rate: rate(0.1), ..RunConfig::default() },
        ..production()
    };
    assert_eq!(validate_with_options(&slow_enough, options), Ok(()));
}

#[test]
fn strain_stays_in_local_and_temporary_environments() {
    for profile in [Profile::Stress, Profile::Spike, Profile::Soak] {
        let local = AppConfig {
            run: RunConfig { profile, ..RunConfig::default() },
            ..acknowledged()
        };
        assert_eq!(validate(&local, false), Ok(()));
        let staging = AppConfig {
            environment: Environment::Staging,
            allow_hosts: vec!["127.0.0.1".into()],
            ..local
        };
        assert_eq!(
            validate(&staging, false),
            Err(SafetyError::EnvironmentProfileNotAllowed)
        );
    }
    let slow = AppConfig {
        environment: Environment::Staging,
        allow_hosts: vec!["127.0.0.1".into()],
        scenario: ScenarioConfig {
            slow_connect: SlowConnectConfig {
                enabled: true,
                initial_write_delay: Duration::from_secs(1),
            },
            ..ScenarioConfig::default()
        },
        ..acknowledged()
    };
    assert_eq!(
        validate(&slow, false),
        Err(SafetyError::EnvironmentProfileNotAllowed)
    );
}

#[test]
fn invalid_events_in_staging_need_an_opt_in() {
    let staging = AppConfig {
        environment: Environment::Staging,
        allow_hosts: vec!["127.0.0.1".into()],
        scenario: ScenarioConfig {
            invalid: InvalidScenarioConfig { enabled: true, kind: None, max_events: Some(1) },
            ..ScenarioConfig::default()
        },
        ..acknowledged()
    };
    assert_eq!(
        validate(&staging, false),
        Err(SafetyError::InvalidEventsNotAllowed)
    );
    assert_eq!(
        validate_with_options(
            &staging,
            SafetyOptions { allow_production: false, allow_invalid_events: true }
        ),
        Ok(())
    );
}

#[test]
fn bounds_must_be_finite_and_positive() {
    let with_run = |run: RunConfig| AppConfig { run, ..AppConfig::default() };
    for bad in [0.0, -1.0, f64::NAN, f64::INFINITY, f64::MIN_POSITIVE, -0.0, 1e-20] {
        assert_eq!(
            validate_workload(&with_run(RunConfig { max_rate: rate(bad), ..RunConfig::default() })),
            Err(SafetyError::InvalidBounds)
        );
    }
    for good in [1.0, 0.001, 1e19, f64::MAX / 2.0, 2.0_f64.powi(-64)] {
        assert_eq!(
            validate_workload(&with_run(RunConfig { max_rate: rate(good), ..RunConfig::default() })),
            Ok(())
        );
    }
    assert_eq!(
        validate_workload(&with_run(RunConfig {
            duration: Duration::zero(),
            ..RunConfig::default()
        })),
        Err(SafetyError::InvalidBounds)
    );
    let timeouts = AppConfig {
        timeouts: TimeoutConfig { read: Duration::zero(), ..TimeoutConfig::default() },
        ..AppConfig::default()
    };
    assert_eq!(validate_workload(&timeouts), Err(SafetyError::InvalidBounds));
    let backoff = AppConfig {
        reconnect: ReconnectConfig {
            enabled: true,
            min_backoff: Duration::from_secs(2),
            max_backoff: Duration::from_secs(1),
            ..ReconnectConfig::default()
        },
        ..AppConfig::default()
    };
    assert_eq!(validate_workload(&backoff), Err(SafetyError::InvalidBounds));
}

#[test]
fn workloads_must_be_supported() {
    let moving = AppConfig {
        scenario: ScenarioConfig { movement: Movement::Circle, ..ScenarioConfig::default() },
        ..AppConfig::default()
    };
    assert_eq!(
        validate_workload(&moving),
        Err(SafetyError::UnsupportedWorkload)
    );
    let ramping_down = AppConfig {
        scheduler: SchedulerConfig {
            ramp_down: Duration::from_secs(1),
            ..SchedulerConfig::default()
        },
        ..AppConfig::default()
    };
    assert_eq!(
        validate_workload(&ramping_down),
        Err(SafetyError::UnsupportedOption)
    );
    let nobody = AppConfig {
        run: RunConfig { clients: 0, ..RunConfig::default() },
        ..AppConfig::default()
    };
    assert_eq!(validate_workload(&nobody), Err(SafetyError::NoParticipants));
}

#[test]
fn routing_assertions_name_fitting_participants() {
    let with_routing = |assertion: RoutingAssertion| AppConfig {
        run: RunConfig { clients: 2, ..RunConfig::default() },
        participants: vec![
            participant("sender", ParticipantRole::SendOnly),
            participant("receiver", ParticipantRole::ReceiveOnly),
        ],
        scenario: ScenarioConfig { routing: vec![assertion], ..ScenarioConfig::default() },
        ..AppConfig::default()
    };
    let fitting = RoutingAssertion {
        sender: "sender".into(),
        receivers: vec!["receiver".into()],
        ..RoutingAssertion::default()
    };
    assert_eq!(validate_workload(&with_routing(fitting.clone())), Ok(()));
    for unfit in [
        RoutingAssertion { sender: "receiver".into(), ..fitting.clone() },
        RoutingAssertion { sender: "nobody".into(), ..fitting.clone() },
        RoutingAssertion { receivers: vec![], ..fitting.clone() },
        RoutingAssertion { receivers: vec!["sender".into()], ..fitting.clone() },
        RoutingAssertion { forbidden_receivers: vec!["nobody".into()], ..fitting.clone() },
    ] {
        assert_eq!(
            validate_workload(&with_routing(unfit)),
            Err(SafetyError::InvalidRoutingAssertion)
        );
    }
    let unnamed = AppConfig {
        scenario: ScenarioConfig { routing: vec![fitting], ..ScenarioConfig::default() },
        ..AppConfig::default()
    };
    assert_eq!(
        validate_workload(&unnamed),
        Err(SafetyError::InvalidRoutingAssertion)
    );
}

#[test]
fn certificate_templates_resolve_per_participant() {
    let tls = TlsConfig {
        enabled: true,
        ca: Some("ca.pem".into()),
        client_cert_template: Some("{participant_id}/{participant_id}.pem".into()),
        client_key_template: Some("keys/{participant_id}.key".into()),
        ..TlsConfig::default()
    };
    let own = tls.for_participant("a-1").unwrap();
    assert_eq!(own.ca.as_deref(), Some("ca.pem"));
    assert_eq!(own.client_cert.as_deref(), Some("a-1/a-1.pem"));
    assert_eq!(own.client_key.as_deref(), Some("keys/a-1.key"));
    assert_eq!(own.client_cert_template, None);
    for bad in ["", ".", "..", "a/b", "a b", "ä"] {
        assert_eq!(
            tls.for_participant(bad).unwrap_err(),
            TlsTemplateError::UnsafeParticipantId
        );
    }
    let unpaired = TlsConfig { client_key_template: None, ..tls.clone() };
    assert_eq!(
        unpaired.for_participant("a").unwrap_err(),
        TlsTemplateError::Unpaired
    );
    let mixed = TlsConfig { client_cert: Some("c".into()), ..tls.clone() };
    assert_eq!(
        mixed.for_participant("a").unwrap_err(),
        TlsTemplateError::MixedWithGlobalIdentity
    );
    let config = AppConfig { tls: mixed, ..AppConfig::default() };
    assert_eq!(
        validate_workload(&config),
        Err(SafetyError::InvalidTlsTemplates)
    );
    let named = AppConfig {
        tls,
        participants: vec![participant("a b", ParticipantRole::SendReceive)],
        ..AppConfig::default()
    };
    assert_eq!(
        validate_workload(&named),
        Err(SafetyError::InvalidTlsTemplates)
    );
}

#[test]
fn durations_are_read_and_written() {
    assert_eq!(parse_duration("30s").unwrap(), Duration::from_secs(30));
    assert_eq!(parse_duration(" 5m\n").unwrap(), Duration::from_secs(300));
    assert_eq!(parse_duration("1h").unwrap(), Duration::from_secs(3600));
    assert_eq!(
        parse_duration("18446744073709551615h").unwrap(),
        Duration::from_secs(u64::MAX)
    );
    for bad in ["", "s", "30", " 30 ", "30 s", "1d", "-1s", "18446744073709551616s", "1ms"] {
        match parse_duration(bad) {
            Err(ConfigError::Duration(raw)) => assert_eq!(raw, bad),
            Ok(_) => panic!("{bad}"),
        }
    }
    assert_eq!(duration_text(&Duration::from_millis(90_500)), "90s");
    for secs in [0, 1, 9, 10, 99, 12_345, u64::MAX] {
        let text = duration_text(&Duration::from_secs(secs));
        assert_eq!(parse_duration(&text).unwrap(), Duration::from_secs(secs));
    }
}

#[test]
fn hosts_are_taken_from_servers() {
    assert_eq!(host_from_server("example.test:8089"), "example.test");
    assert_eq!(host_from_server("[::1]:8089"), "::1");
    assert_eq!(host_from_server("example.test"), "example.test");
    assert_eq!(host_from_server("[::1]"), ":");
    assert_eq!(host_from_server(""), "");
    assert_eq!(host_from_server(":1"), "");
}

#[test]
fn loopback_addresses_are_known_in_every_spelling() {
    for host in [
        "localhost",
        "127.0.0.1",
        "127.255.255.255",
        "127.1.20.9",
        "::1",
        "0::1",
        "::0:1",
        "::0001",
        "0000::0000:1",
        "0:0:0:0:0:0:0:1",
        "0:0:0:0:0:0::1",
        "0:0:0::0:0:1",
        "::0:0:0:0:0:0:1",
        "::0.0.0.1",
        "0:0:0:0:0:0:0.0.0.1",
        "0:0:0:0:0::0.0.0.1",
    ] {
        assert!(is_loopback(host), "{host}");
    }
    for host in [
        "",
        "LOCALHOST",
        "127",
        "127.0.1",
        "127.0.0.256",
        "127.0.0.01",
        "127.0.0.1.",
        "127.0.0.1 ",
        " ::1",
        "128.0.0.1",
        "1",
        ":1",
        "::",
        "::2",
        "::00001",
        "::1:",
        ":::1",
        "0::0::1",
        "::1%0",
        "0:0:0:0:0:0:0::1",
        "0:0:0:0:0:0:0:0:1",
        "::0:0:0:0:0:0:0:1",
        "0:0:0:0:0:0:0:0",
        "1:0:0:0:0:0:0:1",
        "::ffff:127.0.0.1",
        "::0.0.0.2",
        "::00.0.0.1",
        "0:0:0:0:0:0.0.0.1",
        "0:0:0:0:0:0::0.0.0.1",
    ] {
        assert!(!is_loopback(host), "{host}");
    }
}

#[test]
fn names_are_read() {
    assert_eq!(Environment::from_str("temporary"), Ok(Environment::Temporary));
    assert_eq!(
        Environment::from_str("Local"),
        Err("environment must be local, staging, temporary, or production".to_owned())
    );
    for (name, profile) in [
        ("smoke", Profile::Smoke),
        ("functional", Profile::Functional),
        ("load", Profile::Load),
        ("stress", Profile::Stress),
        ("spike", Profile::Spike),
        ("soak", Profile::Soak),
        ("reconnect", Profile::Reconnect),
    ] {
        assert_eq!(Profile::from_str(name), Ok(profile));
    }
    assert_eq!(Profile::from_str(""), Err("unknown profile".to_owned()));
}

fn no_args() -> RunArgs {
    RunArgs {
        server: None,
        environment: None,
        profile: None,
        clients: None,
        max_clients: None,
        duration: None,
        gps_interval: None,
        max_rate: None,
        output: None,
        lifecycle_jsonl: false,
        acknowledge_authorization: false,
    }
}

#[test]
fn command_line_goes_before_the_file() {
    let args = RunArgs {
        server: Some("example.test:1".into()),
        environment: Some("staging".into()),
        profile: Some("load".into()),
        clients: Some(5),
        max_clients: Some(6),
        duration: Some("2m".into()),
        gps_interval: Some("3s".into()),
        max_rate: rate(0.5),
        output: Some("out.json".into()),
        lifecycle_jsonl: true,
        acknowledge_authorization: true,
    };
    let config = apply_overrides(AppConfig::default(), &args, None).unwrap();
    assert!(config.output.lifecycle_jsonl);
    assert_eq!(config.target.server, "example.test:1");
    assert_eq!(config.environment, Environment::Staging);
    assert_eq!(config.run.profile, Profile::Load);
    assert_eq!(config.run.clients, 5);
    assert_eq!(config.run.max_clients, 6);
    assert_eq!(config.run.duration, Duration::from_secs(120));
    assert_eq!(config.run.gps_interval, Duration::from_secs(3));
    assert_eq!(config.run.max_rate, rate(0.5));
    assert_eq!(config.output.json.as_deref(), Some("out.json"));
    assert!(config.authorization.acknowledged);
    let smoke = apply_overrides(AppConfig::default(), &args, Some(Profile::Smoke)).unwrap();
    assert_eq!(smoke.run.profile, Profile::Smoke);
    let kept = apply_overrides(acknowledged(), &no_args(), None).unwrap();
    assert!(kept.authorization.acknowledged);
    assert_eq!(kept.target.server, "127.0.0.1:8089");
    assert_eq!(kept.run, RunConfig::default());
}

#[test]
fn command_line_is_checked() {
    let environment = RunArgs { environment: Some("x".into()), ..no_args() };
    assert!(matches!(
        apply_overrides(AppConfig::default(), &environment, None),
        Err(OverrideError::Environment(_))
    ));
    let profile = RunArgs { profile: Some("x".into()), ..no_args() };
    assert!(matches!(
        apply_overrides(AppConfig::default(), &profile, None),
        Err(OverrideError::Profile(_))
    ));
    assert!(apply_overrides(AppConfig::default(), &profile, Some(Profile::Smoke)).is_ok());
    for (raw, fault, message) in [
        ("x", DurationFault::Number, "duration needs a numeric value"),
        ("", DurationFault::Number, "duration needs a numeric value"),
        (
            "18446744073709551616s",
            DurationFault::Number,
            "duration needs a numeric value",
        ),
        ("5", DurationFault::Unit, "duration must use s, m, or h"),
        ("5d", DurationFault::Unit, "duration must use s, m, or h"),
        ("5ms", DurationFault::Unit, "duration must use s, m, or h"),
    ] {
        assert_eq!(fault.message(), message);
        let interval = RunArgs { gps_interval: Some(raw.into()), ..no_args() };
        assert!(matches!(
            apply_overrides(AppConfig::default(), &interval, None),
            Err(OverrideError::Duration(found)) if found == fault
        ));
        let duration = RunArgs { duration: Some(raw.into()), ..no_args() };
        assert!(matches!(
            apply_overrides(AppConfig::default(), &duration, None),
            Err(OverrideError::Duration(found)) if found == fault
        ));
    }
}

#[test]
fn users_are_told_what_the_tool_is_for() {
    assert!(AUTHORIZATION_BANNER.starts_with("Use somente contra servidores"));
}
