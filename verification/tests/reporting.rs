use tak_bench::binary64::Binary64;
use tak_bench::config::{AppConfig, ParticipantConfig, Profile, RunConfig, TargetConfig, TlsConfig};
use tak_bench::connection::{
    build_tls_config, tls_name, tls_server_name, ConnectError, TlsFiles,
};
use tak_bench::duration::Duration;
use tak_bench::ledger::AssertionResult;
use tak_bench::lifecycle::{
    CompletionStatus, DisconnectReason, LifecycleEmitter, LifecycleEvent,
};
use tak_bench::metrics::MetricsSnapshot;
use tak_bench::provisioning::{FixtureSpec, Provisioner, ProvisioningError};
use tak_bench::report::{
    ErrorCategory, ErrorPhase, ParticipantFailure, RunReport, RunStatus,
};
use tak_bench::runner::{completion_event, finish_run, RunExecution};
use tak_bench::scenarios::ScenarioOutcome;
use tak_bench::test_support::FakeProvisioner;
use tak_bench::timestamp::Timestamp;

#[test]
fn lifecycle_records_only_contain_the_sanitized_schema() {
    let event = LifecycleEvent::ParticipantDisconnected {
        participant: "a2".into(),
        reason: DisconnectReason::PeerClosed,
    };
    assert_eq!(
        event.to_json(),
        r#"{"event":"participant_disconnected","participant":"a2","reason":"peer_closed"}"#
    );
}

#[test]
fn lifecycle_records_are_json() {
    let odd = "a\"b\\c\n\t\r\u{8}\u{c}\u{1f}\u{7f}é";
    for (event, name) in [
        (
            LifecycleEvent::ParticipantConnected { participant: odd.into() },
            "participant_connected",
        ),
        (
            LifecycleEvent::ParticipantReady { participant: odd.into() },
            "participant_ready",
        ),
        (
            LifecycleEvent::ParticipantDisconnected {
                participant: odd.into(),
                reason: DisconnectReason::ReadinessTimeout,
            },
            "participant_disconnected",
        ),
    ] {
        let line = event.to_json();
        assert!(!line.contains('\n'));
        let value: serde_json::Value = serde_json::from_str(&line).unwrap();
        assert_eq!(value["event"], name);
        assert_eq!(value["participant"], odd);
    }
    assert!(LifecycleEvent::ParticipantReady { participant: odd.into() }
        .to_json()
        .contains("\"a\\\"b\\\\c\\n\\t\\r\\b\\f\\u001f\u{7f}é\""));
}

#[test]
fn lifecycle_names_are_snake_case() {
    for (reason, name) in [
        (DisconnectReason::RunDeadline, "run_deadline"),
        (DisconnectReason::ExternalStop, "external_stop"),
        (DisconnectReason::PeerClosed, "peer_closed"),
        (DisconnectReason::ReadFailed, "read_failed"),
        (DisconnectReason::WriteFailed, "write_failed"),
        (DisconnectReason::ParseFailed, "parse_failed"),
        (DisconnectReason::ConnectFailed, "connect_failed"),
        (DisconnectReason::ReadinessTimeout, "readiness_timeout"),
        (DisconnectReason::ReconnectExhausted, "reconnect_exhausted"),
        (DisconnectReason::AbruptDisconnect, "abrupt_disconnect"),
    ] {
        assert_eq!(reason.as_str(), name);
    }
}

#[test]
fn disabled_emitters_write_nothing() {
    let event = completion_event(RunStatus::Aborted);
    assert_eq!(LifecycleEmitter::disabled().emit(&event), None);
    assert_eq!(LifecycleEmitter::default().emit(&event), None);
    assert_eq!(
        LifecycleEmitter::new(true).emit(&event).unwrap(),
        r#"{"event":"run_completed","status":"aborted"}"#
    );
    assert_eq!(
        completion_event(RunStatus::Passed),
        LifecycleEvent::RunCompleted { status: CompletionStatus::Passed }
    );
    assert_eq!(
        completion_event(RunStatus::Failed),
        LifecycleEvent::RunCompleted { status: CompletionStatus::Failed }
    );
}

fn assertion(passed: bool) -> AssertionResult {
    AssertionResult {
        sender: "a".into(),
        passed,
        expected_receivers: 0,
        forbidden_receivers: 0,
        pairs: vec![],
    }
}

fn failed_participant() -> ParticipantFailure {
    ParticipantFailure {
        participant: "a".into(),
        phase: ErrorPhase::Read,
        category: ErrorCategory::PeerClosed,
    }
}

fn config() -> AppConfig {
    AppConfig {
        run: RunConfig { profile: Profile::Load, clients: 1, ..RunConfig::default() },
        tls: TlsConfig {
            enabled: true,
            client_key: Some("/secret/key.pem".into()),
            ..TlsConfig::default()
        },
        participants: vec![ParticipantConfig { id: "a".into(), ..ParticipantConfig::default() }],
        ..AppConfig::default()
    }
}

fn finish(
    threshold: Option<&str>,
    outcome: Result<ScenarioOutcome, String>,
) -> RunExecution {
    finish_run(
        &config(),
        Timestamp::from_unix_nanos(1),
        Timestamp::from_unix_nanos(2),
        Duration::from_micros(1_500_999),
        MetricsSnapshot { sent_messages: 3, ..MetricsSnapshot::default() },
        threshold.map(str::to_owned),
        outcome,
    )
}

fn outcome(
    assertions: Vec<AssertionResult>,
    participant_failures: Vec<ParticipantFailure>,
) -> Result<ScenarioOutcome, String> {
    Ok(ScenarioOutcome { assertions, participant_failures })
}

#[test]
fn runs_pass_when_nothing_failed() {
    let execution = finish(None, outcome(vec![assertion(true)], vec![]));
    assert!(execution.passed());
    assert_eq!(execution.report.status, RunStatus::Passed);
    assert_eq!(execution.report.stop_reason, "completed");
    assert_eq!(execution.report.abort_reason, None);
    assert_eq!(execution.report.version, "0.2.0");
    assert_eq!(execution.report.elapsed_ms, 1_500);
    assert_eq!(execution.report.metrics.sent_messages, 3);
    assert_eq!(execution.report.assertions.len(), 1);
    assert_eq!(execution.report.started_at, Timestamp::from_unix_nanos(1));
    assert_eq!(execution.report.finished_at, Timestamp::from_unix_nanos(2));
    assert!(execution.into_result().is_ok());
}

#[test]
fn runs_fail_and_abort_for_a_reason() {
    let routing = finish(None, outcome(vec![assertion(true), assertion(false)], vec![]));
    assert!(!routing.passed());
    assert_eq!(routing.report.status, RunStatus::Failed);
    assert_eq!(routing.report.stop_reason, "routing_assertion_failed");
    assert_eq!(
        routing.report.abort_reason.as_deref(),
        Some("routing_assertion_failed")
    );
    assert_eq!(
        routing.into_result().unwrap_err(),
        "run failed; see the sanitized JSON report"
    );
    let participant = finish(None, outcome(vec![], vec![failed_participant()]));
    assert_eq!(participant.report.status, RunStatus::Failed);
    assert_eq!(participant.report.stop_reason, "scenario_error");
    assert_eq!(participant.report.participant_failures.len(), 1);
    let error = finish(None, Err("no".into()));
    assert_eq!(error.report.stop_reason, "scenario_error");
    assert!(error.report.assertions.is_empty());
    assert_eq!(error.into_result().unwrap_err(), "no");
    let aborted = finish(Some("threshold:x"), outcome(vec![], vec![]));
    assert!(!aborted.passed());
    assert_eq!(aborted.report.status, RunStatus::Aborted);
    assert_eq!(aborted.report.stop_reason, "threshold:x");
    assert_eq!(aborted.report.abort_reason.as_deref(), Some("threshold:x"));
    assert_eq!(aborted.into_result().unwrap_err(), "threshold:x");
    let both = finish(Some("threshold:x"), Err("no".into()));
    assert!(!both.passed());
    assert_eq!(both.into_result().unwrap_err(), "no");
    let mut told_failed = finish(None, outcome(vec![], vec![]));
    told_failed.report.status = RunStatus::Failed;
    assert!(!told_failed.passed());
    assert_eq!(told_failed.into_result().unwrap_err(), "completed");
}

#[test]
fn reports_tell_no_credentials() {
    let report = finish(None, outcome(vec![], vec![])).report;
    assert!(!format!("{report:?}").contains("secret"));
    assert_eq!(report.sanitized_config.participants, vec!["a"]);
    assert!(report.sanitized_config.tls_enabled);
    assert!(!report.sanitized_config.reconnect_enabled);
    assert_eq!(report.sanitized_config.profile, Profile::Load);
}

fn report_with(latency: Option<f64>) -> RunReport {
    let metrics = MetricsSnapshot {
        sent_messages: 12,
        connection_successes: 3,
        connection_attempts: 4,
        handshake_p95_ms: latency.map(|value| Binary64 { bits: value.to_bits() }),
        ..MetricsSnapshot::default()
    };
    RunReport::new(
        &config(),
        Timestamp::from_unix_nanos(0),
        Timestamp::from_unix_nanos(0),
        Duration::zero(),
        metrics,
        "completed".into(),
        RunStatus::Passed,
        vec![],
        vec![],
    )
}

#[test]
fn reports_are_summed_up_in_a_line() {
    assert_eq!(
        report_with(None).terminal(),
        "tak_bench load against 127.0.0.1:8089: 12 sent, 3/4 connections succeeded, \
         p95 handshake: n/a ms"
    );
    let latencies = [
        0.0, 0.001, 0.004, 0.005, 0.015, 0.025, 0.125, 0.375, 0.625, 0.875, 0.995, 0.999, 1.005,
        12.345, 99.995, 1234.5678, 4_294_967.295, 9_007_199_254_740_993.0, 1.8e19,
        18_446_744_073_709_551_615.0, 1e22, 1e23, 1e300, f64::MAX, f64::MIN_POSITIVE, -0.0, -0.001,
        -1.005, -1e30, f64::INFINITY, f64::NEG_INFINITY, f64::NAN,
    ];
    for latency in latencies {
        assert_eq!(
            report_with(Some(latency)).terminal(),
            format!(
                "tak_bench load against 127.0.0.1:8089: 12 sent, 3/4 connections succeeded, \
                 p95 handshake: {latency:.2} ms"
            )
        );
    }
}

#[test]
fn fake_fixtures_need_participants() {
    let spec = FixtureSpec {
        name: "one".into(),
        participants: vec!["a".into()],
        groups: vec![],
    };
    let fixture = FakeProvisioner.prepare(&spec).unwrap();
    assert_eq!(fixture.id, "fake-one");
    assert!(FakeProvisioner.cleanup(&fixture).is_ok());
    let empty = FixtureSpec { participants: vec![], ..spec };
    match FakeProvisioner.prepare(&empty) {
        Err(ProvisioningError::Unavailable(reason)) => {
            assert_eq!(reason, "a fixture needs at least one participant");
        }
        Ok(_) => panic!("an empty fixture was prepared"),
    }
}

#[test]
fn connection_errors_are_classified() {
    let tcp = ConnectError::Tcp("x".into());
    assert!(!tcp.is_tls());
    assert_eq!(tcp.category(), ErrorCategory::TcpConnectFailed);
    assert_eq!(tcp.phase(), ErrorPhase::Connect);
    for (error, category) in [
        (
            ConnectError::TlsHandshake("x".into()),
            ErrorCategory::TlsHandshakeFailed,
        ),
        (ConnectError::CaLoad("x".into()), ErrorCategory::CaLoadFailed),
        (
            ConnectError::ClientCertificateLoad("x".into()),
            ErrorCategory::ClientCertificateLoadFailed,
        ),
        (
            ConnectError::ClientKeyLoad("x".into()),
            ErrorCategory::ClientKeyLoadFailed,
        ),
        (
            ConnectError::TlsConfiguration("x".into()),
            ErrorCategory::TlsConfigurationFailed,
        ),
    ] {
        assert!(error.is_tls());
        assert_eq!(error.category(), category);
        assert_eq!(error.phase(), ErrorPhase::TlsHandshake);
    }
}

#[test]
fn servers_are_verified_by_name() {
    let tls = TlsConfig { enabled: true, ..TlsConfig::default() };
    let target = |server: &str, sni: Option<&str>| TargetConfig {
        server: server.into(),
        sni: sni.map(str::to_owned),
    };
    assert_eq!(
        tls_server_name(&target("example.test:1", None), &tls).unwrap(),
        Some("example.test".to_owned())
    );
    assert_eq!(
        tls_server_name(&target("[::1]:1", None), &tls).unwrap(),
        Some("::1".to_owned())
    );
    assert_eq!(
        tls_server_name(&target("example.test:1", Some("other.test")), &tls).unwrap(),
        Some("other.test".to_owned())
    );
    assert!(matches!(
        tls_server_name(&target("bad name:1", None), &tls),
        Err(ConnectError::TlsConfiguration(_))
    ));
    assert_eq!(
        tls_server_name(&target("bad name:1", None), &TlsConfig::default()).unwrap(),
        None
    );
    assert!(matches!(
        tls_name(true, "x".into(), false),
        Err(ConnectError::TlsConfiguration(_))
    ));
    assert_eq!(tls_name(true, "x".into(), true).unwrap(), Some("x".to_owned()));
    assert_eq!(tls_name(false, "x".into(), false).unwrap(), None);
}

const CERTIFICATE: &str = "\
MIIBdTCCARugAwIBAgIUIrFEK5RRrWXuL6czmUOctJehExgwCgYIKoZIzj0EAwIw
DzENMAsGA1UEAwwEdGVzdDAgFw0yNjExMTYxNzE0MjFaGA8yMTI2MTAyMzE3MTQy
MVowDzENMAsGA1UEAwwEdGVzdDBZMBMGByqGSM49AgEGCCqGSM49AwEHA0IABGtR
6xkAhjcilyqr+oqFTEZg3kLV5PVG3h0EcUqrX32xW4LwUGMnF5D3MoGTfCckz4Lv
yZDypbFaBf5FEjZbJLSjUzBRMB0GA1UdDgQWBBQWWsbOWbZibiG+OlGYPY6Hcavv
ajAfBgNVHSMEGDAWgBQWWsbOWbZibiG+OlGYPY6HcavvajAPBgNVHRMBAf8EBTAD
AQH/MAoGCCqGSM49BAMCA0gAMEUCIQCZEbQQQ6ftPp3Er8uOMaSoFCvmZe+0iKhf
szw7HYARQwIgSrI4f1+f906bcqvxhK4C35zZP/AV9nn3+h1DMygd340=
";

const KEY_OF_CERTIFICATE: &str = "\
MIGHAgEAMBMGByqGSM49AgEGCCqGSM49AwEHBG0wawIBAQQgDj9JH9aIWgyfU54Z
qCUDXHNXlIZqooINO0gSM6+Fx9ChRANCAARrUesZAIY3Ipcqq/qKhUxGYN5C1eT1
Rt4dBHFKq199sVuC8FBjJxeQ9zKBk3wnJM+C78mQ8qWxWgX+RRI2WyS0
";

const SEC1_KEY_OF_CERTIFICATE: &str = "\
MHcCAQEEIA4/SR/WiFoMn1OeGaglA1xzV5SGaqKCDTtIEjOvhcfQoAoGCCqGSM49
AwEHoUQDQgAEa1HrGQCGNyKXKqv6ioVMRmDeQtXk9UbeHQRxSqtffbFbgvBQYycX
kPcygZN8JyTPgu/JkPKlsVoF/kUSNlsktA==
";

fn pem(kind: &str, body: &str) -> Vec<u8> {
    format!("-----BEGIN {kind}-----\n{body}-----END {kind}-----\n").into_bytes()
}

fn mtls() -> TlsConfig {
    TlsConfig {
        enabled: true,
        ca: Some("ca".into()),
        client_cert: Some("cert".into()),
        client_key: Some("key".into()),
        ..TlsConfig::default()
    }
}

fn files() -> TlsFiles {
    TlsFiles {
        ca: Some(pem("CERTIFICATE", CERTIFICATE)),
        client_cert: Some(pem("CERTIFICATE", CERTIFICATE)),
        client_key: Some(pem("PRIVATE KEY", KEY_OF_CERTIFICATE)),
    }
}

#[test]
fn tls_is_configured_from_files() {
    let identified = build_tls_config(&mtls(), files()).unwrap();
    assert!(identified.client_auth_cert_resolver.has_certs());
    let sec1 = TlsFiles {
        client_key: Some(pem("EC PRIVATE KEY", SEC1_KEY_OF_CERTIFICATE)),
        ..files()
    };
    assert!(build_tls_config(&mtls(), sec1).is_ok());
    let server_only = TlsConfig { client_cert: None, client_key: None, ..mtls() };
    let anonymous = build_tls_config(&server_only, files()).unwrap();
    assert!(!anonymous.client_auth_cert_resolver.has_certs());
}

#[test]
fn tls_faults_are_classified() {
    let category = |tls: TlsConfig, files: TlsFiles| {
        build_tls_config(&tls, files).unwrap_err().category()
    };
    let garbage = || Some(pem("CERTIFICATE", "AAAA\n"));
    let broken = || Some(b"-----BEGIN CERTIFICATE-----\n!\n".to_vec());
    assert_eq!(
        category(TlsConfig { ca: None, ..mtls() }, files()),
        ErrorCategory::TlsConfigurationFailed
    );
    for ca in [None, garbage(), broken()] {
        assert_eq!(
            category(mtls(), TlsFiles { ca, ..files() }),
            ErrorCategory::CaLoadFailed
        );
    }
    assert_eq!(
        category(TlsConfig { client_key: None, ..mtls() }, files()),
        ErrorCategory::TlsConfigurationFailed
    );
    assert_eq!(
        category(TlsConfig { client_cert: None, ..mtls() }, files()),
        ErrorCategory::TlsConfigurationFailed
    );
    for client_cert in [None, broken()] {
        assert_eq!(
            category(mtls(), TlsFiles { client_cert, ..files() }),
            ErrorCategory::ClientCertificateLoadFailed
        );
    }
    for client_key in [None, Some(Vec::new()), garbage()] {
        assert_eq!(
            category(mtls(), TlsFiles { client_key, ..files() }),
            ErrorCategory::ClientKeyLoadFailed
        );
    }
    assert_eq!(
        category(
            mtls(),
            TlsFiles { client_key: Some(pem("PRIVATE KEY", "AAAA\n")), ..files() }
        ),
        ErrorCategory::TlsConfigurationFailed
    );
}
