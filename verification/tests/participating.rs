use tak_bench::binary64::Binary64;
use tak_bench::config::{
    AbruptDisconnectConfig, AppConfig, FragmentationConfig, InvalidEventKind,
    InvalidScenarioConfig, ParticipantConfig, ParticipantRole, Profile, RampStep, RampStrategy,
    ReconnectConfig, RoutingAssertion, RunConfig, ScenarioConfig, SchedulerConfig,
    SlowConnectConfig, SynchronizationConfig, TlsConfig,
};
use tak_bench::connection::ConnectError;
use tak_bench::duration::Duration;
use tak_bench::ledger::{CorrelationLedger, Expectation, Observation};
use tak_bench::lifecycle::DisconnectReason;
use tak_bench::metrics::Metrics;
use tak_bench::protocol::{inspect_event, CotStreamDecoder};
use tak_bench::readiness::{Barrier, Gate};
use tak_bench::receiver::{
    after_read, observe, receive, ReadDecision, ReadEvent, ReceiveError, MAX_EVENT_BYTES,
};
use tak_bench::report::{ErrorCategory, ErrorPhase};
use tak_bench::scenarios::{
    connected_plan, connected_result, default_participant_id, evaluate_routing, judge_routing,
    minimum_stale_interval, note_joined, participants, plan_run, session_result, PlanError,
    ScenarioOutcome, WorkFailure,
};
use tak_bench::scheduler::SchedulerError;
use tak_bench::sender::{
    draw_event, emission_interval, invalid_event, next_event, position_xml, DrawnEvent, Fragments,
    SendStep, Sender,
};
use tak_bench::session::{
    jitter_bound, reconnect_delay, Session, SessionAction, SessionEvent, SessionPhase,
};
use tak_bench::timestamp::{Timestamp, END_NANO};

fn event(text: &str) -> DrawnEvent {
    DrawnEvent { correlation_id: 0, text: text.into() }
}

fn pattern(value: f64) -> Binary64 {
    Binary64 { bits: value.to_bits() }
}

fn secs(value: u64) -> Duration {
    Duration::from_secs(value)
}

#[test]
fn reconnect_backoff_is_bounded() {
    let config = AppConfig {
        reconnect: ReconnectConfig {
            min_backoff: Duration::from_secs(1),
            max_backoff: Duration::from_secs(3),
            jitter_percent: 0,
            ..ReconnectConfig::default()
        },
        ..AppConfig::default()
    };
    assert_eq!(
        reconnect_delay(&config, 1, &pattern(1.0)),
        Some(Duration::from_secs(1))
    );
    assert_eq!(
        reconnect_delay(&config, 3, &pattern(1.0)),
        Some(Duration::from_secs(3))
    );
}

#[test]
fn reconnect_backoff_doubles_and_is_jittered() {
    let config = AppConfig {
        reconnect: ReconnectConfig {
            min_backoff: Duration::from_nanos(1),
            max_backoff: Duration::longest(),
            jitter_percent: 0,
            ..ReconnectConfig::default()
        },
        ..AppConfig::default()
    };
    let pause = |attempt: u32| reconnect_delay(&config, attempt, &pattern(1.0)).unwrap();
    assert_eq!(pause(0).as_nanos(), 1);
    assert_eq!(pause(2).as_nanos(), 2);
    assert_eq!(pause(32).as_nanos(), 1 << 31);
    assert_eq!(pause(33).as_nanos(), u128::from(u32::MAX));
    assert_eq!(pause(u32::MAX).as_nanos(), u128::from(u32::MAX));
    let jittered = AppConfig {
        reconnect: ReconnectConfig {
            min_backoff: secs(10),
            jitter_percent: 150,
            ..ReconnectConfig::default()
        },
        ..AppConfig::default()
    };
    assert_eq!(
        reconnect_delay(&jittered, 1, &pattern(0.5)),
        Some(secs(5))
    );
    assert_eq!(jitter_bound(&jittered), 100);
    assert_eq!(jitter_bound(&AppConfig::default()), 20);
    let endless = AppConfig {
        reconnect: ReconnectConfig {
            min_backoff: Duration::longest(),
            max_backoff: Duration::longest(),
            ..ReconnectConfig::default()
        },
        ..AppConfig::default()
    };
    assert_eq!(reconnect_delay(&endless, 1, &pattern(1.2)), None);
}

#[test]
fn routing_reports_expected_and_forbidden_receivers_without_payloads() {
    let id = 0;
    let mut state = CorrelationLedger::default();
    state.note_sent(id, "sender".into(), secs(1));
    state.note_seen("receiver", id, secs(1));
    let assertion = RoutingAssertion {
        sender: "sender".into(),
        receivers: vec!["receiver".into()],
        forbidden_receivers: vec!["forbidden".into()],
        timeout: None,
    };
    let result = evaluate_routing(&vec![assertion.clone()], &state);
    assert!(result[0].passed);
    state.note_seen("forbidden", id, secs(1));
    assert!(!evaluate_routing(&vec![assertion], &state)[0].passed);
}

#[test]
fn routing_is_judged_pair_by_pair() {
    let mut state = CorrelationLedger::new();
    for id in 0..3 {
        state.note_sent(id, "a".into(), secs(10));
    }
    state.note_sent(99, "other".into(), secs(10));
    for id in 0..3 {
        state.note_seen("b", id, secs(40));
    }
    state.note_seen("c", 0, secs(10));
    state.note_seen("c", 1, Duration::from_millis(40_001));
    state.note_seen("c", 99, secs(11));
    let assertion = RoutingAssertion {
        sender: "a".into(),
        receivers: vec!["b".into(), "c".into()],
        forbidden_receivers: vec!["d".into(), "c".into()],
        timeout: None,
    };
    let result = &evaluate_routing(&vec![assertion], &state)[0];
    assert_eq!(result.sender, "a");
    assert!(!result.passed);
    assert_eq!(result.expected_receivers, 4);
    assert_eq!(result.forbidden_receivers, 2);
    let told: Vec<(&str, Expectation, bool, u64)> = result
        .pairs
        .iter()
        .map(|pair| {
            (
                pair.receiver.as_str(),
                pair.expectation,
                pair.passed,
                pair.received_count,
            )
        })
        .collect();
    assert_eq!(
        told,
        vec![
            ("b", Expectation::Expected, true, 3),
            ("c", Expectation::Expected, false, 1),
            ("d", Expectation::Forbidden, true, 0),
            ("c", Expectation::Forbidden, false, 2),
        ]
    );
    assert_eq!(
        result.passed,
        result.pairs.iter().all(|pair| pair.passed)
    );
}

#[test]
fn routing_timeouts_count_from_the_last_sighting() {
    let mut state = CorrelationLedger::new();
    state.note_sent(1, "a".into(), secs(0));
    let assertion = |timeout: u64| {
        vec![RoutingAssertion {
            sender: "a".into(),
            receivers: vec!["b".into()],
            forbidden_receivers: vec![],
            timeout: Some(secs(timeout)),
        }]
    };
    assert_eq!(state.note_seen("b", 1, secs(2)), Observation::Delivered(secs(2)));
    assert!(evaluate_routing(&assertion(2), &state)[0].passed);
    assert!(!evaluate_routing(&assertion(1), &state)[0].passed);
    assert_eq!(state.note_seen("b", 1, secs(5)), Observation::Duplicate);
    assert!(!evaluate_routing(&assertion(2), &state)[0].passed);
    assert_eq!(state.note_seen("b", 7, secs(5)), Observation::Unknown);
    assert_eq!(state.count_sent("a"), 1);
    assert_eq!(state.count_sent("b"), 0);
    assert_eq!(state.count_observed("a", "b", None), 1);
}

#[test]
fn default_participants_follow_client_count() {
    let config = AppConfig {
        run: RunConfig {
            clients: 2,
            ..RunConfig::default()
        },
        ..AppConfig::default()
    };
    assert_eq!(participants(&config).len(), 2);
    assert_eq!(participants(&config)[1].id, "client-1");
    assert_eq!(participants(&config)[1].role, ParticipantRole::SendReceive);
    assert_eq!(default_participant_id(120), "client-120");
}

#[test]
fn named_participants_go_before_the_client_count() {
    let config = AppConfig {
        participants: vec![ParticipantConfig {
            id: "x".into(),
            role: ParticipantRole::ReceiveOnly,
            groups: vec!["g".into()],
            read_delay: Some(secs(1)),
            pause_read_for: None,
        }],
        ..AppConfig::default()
    };
    let all = participants(&config);
    assert_eq!(all.len(), 1);
    assert_eq!(all[0].id, "x");
    assert_eq!(all[0].role, ParticipantRole::ReceiveOnly);
    assert_eq!(all[0].groups, vec!["g"]);
    assert_eq!(all[0].read_delay, Some(secs(1)));
}

#[test]
fn runs_are_planned() {
    let with_scheduler = |steps: Vec<RampStep>| AppConfig {
        run: RunConfig { clients: 2, ..RunConfig::default() },
        scheduler: SchedulerConfig {
            strategy: RampStrategy::Step,
            steps,
            ..SchedulerConfig::default()
        },
        ..AppConfig::default()
    };
    let plan = plan_run(&with_scheduler(vec![
        RampStep { at: secs(1), clients: 1 },
        RampStep { at: secs(9), clients: 2 },
    ]))
    .unwrap();
    let told: Vec<(&str, Duration)> = plan
        .iter()
        .map(|planned| (planned.participant.id.as_str(), planned.delay))
        .collect();
    assert_eq!(told, vec![("client-0", secs(1)), ("client-1", secs(9))]);
    assert_eq!(
        plan_run(&with_scheduler(vec![RampStep { at: secs(1), clients: 3 }])).unwrap_err(),
        PlanError::Scheduler(SchedulerError::InvalidSteps)
    );
}

#[test]
fn roles_decide_what_is_done_once_connected() {
    let config = AppConfig {
        scenario: ScenarioConfig {
            slow_connect: SlowConnectConfig { enabled: true, initial_write_delay: secs(4) },
            ..ScenarioConfig::default()
        },
        ..AppConfig::default()
    };
    let plan = connected_plan(ParticipantRole::SendOnly, &config);
    assert!(plan.writes && !plan.reads);
    assert_eq!(plan.initial_delay, Some(secs(4)));
    let plan = connected_plan(ParticipantRole::ReceiveOnly, &AppConfig::default());
    assert!(!plan.writes && plan.reads);
    assert_eq!(plan.initial_delay, None);
    let plan = connected_plan(ParticipantRole::SendReceive, &AppConfig::default());
    assert!(plan.writes && plan.reads);
}

#[test]
fn positions_are_stale_after_two_intervals() {
    assert_eq!(minimum_stale_interval(secs(15)), secs(30));
    assert_eq!(
        minimum_stale_interval(Duration::longest()),
        Duration::longest()
    );
    let now = Timestamp::from_unix_nanos(0);
    let xml = position_xml("p1", &Duration::from_millis(30_900), &now, 5).unwrap();
    assert!(xml.contains("uid=\"tak-bench-p1\""));
    assert!(xml.contains("callsign=\"p1\""));
    assert!(xml.contains("time=\"1970-01-01T00:00:00Z\" start=\"1970-01-01T00:00:00Z\""));
    assert!(xml.contains("stale=\"1970-01-01T00:01:00Z\""));
    assert!(xml.contains("lat=\"-23.5505\" lon=\"-46.6333\" hae=\"760\""));
    assert!(xml.contains("course=\"0\" speed=\"0\""));
    assert_eq!(inspect_event(xml).unwrap().correlation_id, Some(5));
    let last = Timestamp::from_unix_nanos(END_NANO - 1);
    assert_eq!(position_xml("p1", &secs(1), &last, 5), None);
    let next = Timestamp::from_unix_nanos(END_NANO);
    assert_eq!(position_xml("p1", &secs(1), &next, 5), None);
    assert!(position_xml("p1", &Duration::zero(), &last, 5).is_some());
    let far = Duration::from_secs(u64::MAX);
    assert!(position_xml("p1", &far, &now, 5).unwrap().contains("00:01:00Z"));
}

fn sending_invalid(kind: Option<InvalidEventKind>, max_events: Option<u32>) -> AppConfig {
    AppConfig {
        scenario: ScenarioConfig {
            invalid: InvalidScenarioConfig { enabled: true, kind, max_events },
            ..ScenarioConfig::default()
        },
        ..AppConfig::default()
    }
}

#[test]
fn invalid_events_come_first_and_end() {
    let config = sending_invalid(None, Some(2));
    let now = Timestamp::from_unix_nanos(0);
    assert_eq!(next_event("p", &config, 0, &now, 1).unwrap(), "<event");
    assert_eq!(next_event("p", &config, 1, &now, 1).unwrap(), "<event");
    assert!(next_event("p", &config, 2, &now, 1).unwrap().starts_with("<event version"));
    assert_eq!(invalid_event(&sending_invalid(None, None), 0), None);
    assert_eq!(invalid_event(&AppConfig::default(), 0), None);
    let text = |kind: InvalidEventKind| {
        invalid_event(&sending_invalid(Some(kind), Some(1)), 0).unwrap()
    };
    assert_eq!(text(InvalidEventKind::MalformedXml), "<event");
    assert_eq!(text(InvalidEventKind::UnterminatedXml), "<event uid=\"invalid\">");
    assert_eq!(
        text(InvalidEventKind::InvalidCoordinates),
        "<event><point lat=\"nan\" lon=\"999\"/></event>"
    );
    assert_eq!(
        text(InvalidEventKind::InvalidTime),
        "<event time=\"not-a-time\"></event>"
    );
    let oversized = text(InvalidEventKind::OversizedFrame);
    assert_eq!(oversized.len(), 7 + 8 * 1024 * 1024 + 1 + 8);
    assert!(oversized.starts_with("<event>xxx") && oversized.ends_with("xxx</event>"));
}

#[test]
fn drawn_events_carry_random_identifiers_and_the_time() {
    let before = Timestamp::now();
    let first = draw_event("p", &AppConfig::default(), 0).unwrap();
    let second = draw_event("p", &AppConfig::default(), 1).unwrap();
    assert_ne!(first.correlation_id, second.correlation_id);
    for drawn in [&first, &second] {
        assert_eq!(drawn.correlation_id >> 76 & 0xf, 4);
        assert_eq!(drawn.correlation_id >> 62 & 0x3, 2);
    }
    let event = inspect_event(first.text.clone()).unwrap();
    assert_eq!(event.correlation_id, Some(first.correlation_id));
    assert_eq!(event.uid.as_deref(), Some("tak-bench-p"));
    assert!(before.local_nanos > 1_577_836_800_000_000_000 && before.is_valid());
    let century = &before.to_text()[..2];
    assert!(first.text.contains(&format!("time=\"{century}")));
    let invalid = draw_event("p", &sending_invalid(None, Some(1)), 0).unwrap();
    assert_eq!(invalid.text, "<event");
}

#[test]
fn rates_lengthen_the_interval() {
    let with_rate = |rate: Option<f64>| AppConfig {
        run: RunConfig {
            gps_interval: secs(5),
            max_rate: rate.map(pattern),
            ..RunConfig::default()
        },
        ..AppConfig::default()
    };
    assert_eq!(emission_interval(&with_rate(None)), secs(5));
    assert_eq!(emission_interval(&with_rate(Some(10.0))), secs(5));
    assert_eq!(emission_interval(&with_rate(Some(0.1))), secs(10));
    assert_eq!(emission_interval(&with_rate(Some(f64::NAN))), secs(5));
    assert_eq!(
        emission_interval(&with_rate(Some(2.0_f64.powi(-64)))),
        Duration::longest()
    );
}

#[test]
fn events_are_batched_and_counted() {
    let mut metrics = Metrics::new();
    let mut sender = Sender::new(&FragmentationConfig {
        chunk_sizes: vec![],
        events_per_write: 2,
    });
    assert!(!sender.has_unwritten());
    assert_eq!(sender.add(&event("<a>")), SendStep::Collect);
    assert_eq!(sender.add(&event("<b>")), SendStep::Write);
    assert_eq!(sender.bytes(), b"<a><b>");
    sender.written(true, &mut metrics);
    assert_eq!(metrics.sent_messages, 2);
    assert!(!sender.has_unwritten());
    assert_eq!(sender.add(&event("<c>")), SendStep::Collect);
    sender.discard(&mut metrics);
    assert_eq!(metrics.local_dropped_messages, 1);
    sender.add(&event("<d>"));
    sender.add(&event("<e>"));
    sender.written(false, &mut metrics);
    assert_eq!(metrics.dropped_messages, 2);
    assert_eq!(sender.count(), 5);
    assert_eq!(
        sender.count(),
        metrics.sent_messages + metrics.dropped_messages + metrics.local_dropped_messages
    );
    let mut single = Sender::new(&FragmentationConfig {
        chunk_sizes: vec![],
        events_per_write: 0,
    });
    assert_eq!(single.add(&event("<a>")), SendStep::Write);
    let mut large = Sender::new(&FragmentationConfig::default());
    assert_eq!(large.add(&event(&"x".repeat(MAX_EVENT_BYTES))), SendStep::Write);
    let mut too_large = Sender::new(&FragmentationConfig::default());
    assert_eq!(
        too_large.add(&event(&"x".repeat(MAX_EVENT_BYTES + 1))),
        SendStep::TooLarge
    );
}

#[test]
fn connections_are_dropped_after_so_many_events() {
    let with_after = |after_events: u32| AppConfig {
        scenario: ScenarioConfig {
            abrupt_disconnect: AbruptDisconnectConfig { enabled: true, after_events },
            ..ScenarioConfig::default()
        },
        ..AppConfig::default()
    };
    let mut sender = Sender::new(&FragmentationConfig {
        chunk_sizes: vec![],
        events_per_write: 9,
    });
    assert!(!sender.disconnects_now(&with_after(0)));
    sender.add(&event("<a>"));
    assert!(sender.disconnects_now(&with_after(0)));
    assert!(sender.disconnects_now(&with_after(1)));
    assert!(!sender.disconnects_now(&with_after(2)));
    assert!(!sender.disconnects_now(&AppConfig::default()));
}

fn pieces_of(bytes: &[u8], chunks: &Vec<usize>) -> Vec<Vec<u8>> {
    let mut fragments = Fragments::start(bytes, chunks);
    let mut pieces = Vec::new();
    while let Some((start, end)) = fragments.next(bytes, chunks) {
        pieces.push(bytes[start..end].to_vec());
    }
    pieces
}

#[test]
fn writes_are_cut_into_chunks_in_turn() {
    assert_eq!(
        pieces_of(b"abcdefgh", &vec![3, 0, 2]),
        vec![b"abc".to_vec(), b"d".to_vec(), b"ef".to_vec(), b"gh".to_vec()]
    );
    assert_eq!(pieces_of(b"abc", &vec![]), vec![b"abc".to_vec()]);
    assert_eq!(pieces_of(b"", &vec![]), vec![Vec::<u8>::new()]);
    assert!(pieces_of(b"", &vec![1]).is_empty());
    for size in 1..12 {
        let joined: Vec<u8> = pieces_of(b"abcdefgh", &vec![size, 1, 4]).concat();
        assert_eq!(joined, b"abcdefgh");
    }
}

#[test]
fn batches_cut_into_pieces_are_read_back() {
    let now = Timestamp::from_unix_nanos(0);
    let texts: Vec<String> = (0..5)
        .map(|id| position_xml("p<&\"'>", &secs(1), &now, id).unwrap())
        .collect();
    let mut sender = Sender::new(&FragmentationConfig {
        chunk_sizes: vec![],
        events_per_write: 5,
    });
    for text in &texts {
        sender.add(&event(text));
    }
    for chunks in [vec![], vec![1], vec![3, 7, 11], vec![1000]] {
        let mut decoder = CotStreamDecoder::new(MAX_EVENT_BYTES);
        assert!(decoder.push(b"<auth>ignored</auth>").unwrap().is_empty());
        let mut read = Vec::new();
        for piece in pieces_of(sender.bytes(), &chunks) {
            read.extend(decoder.push(&piece).unwrap());
        }
        assert_eq!(read, texts);
        for (id, text) in read.into_iter().enumerate() {
            let event = inspect_event(text).unwrap();
            assert_eq!(event.correlation_id, Some(id as u128));
            assert_eq!(event.uid.as_deref(), Some("tak-bench-p&lt;&amp;&quot;&apos;&gt;"));
        }
    }
}

#[test]
fn sessions_take_only_what_can_happen() {
    let closed = SessionEvent::Closed { clean: true, past_deadline: false };
    let connecting = Session { attempt: 0, phase: SessionPhase::Connecting };
    assert!(connecting.accepts(&SessionEvent::ConnectFailed));
    assert!(!connecting.accepts(&closed));
    assert!(!connecting.accepts(&SessionEvent::BackoffElapsed));
    let connected = Session { attempt: 0, phase: SessionPhase::Connected };
    assert!(connected.accepts(&closed) && !connected.accepts(&SessionEvent::Cancelled));
    let done = Session { attempt: 0, phase: SessionPhase::Done };
    assert!(!done.accepts(&SessionEvent::Cancelled));
}

#[test]
fn waiting_events_are_noted_by_their_identifiers() {
    let mut ledger = CorrelationLedger::new();
    let mut sender = Sender::new(&FragmentationConfig {
        chunk_sizes: vec![],
        events_per_write: 5,
    });
    for id in [7, 8] {
        sender.add(&DrawnEvent { correlation_id: id, text: "<a>".into() });
    }
    sender.note_waiting("a", secs(3), &mut ledger);
    assert_eq!(ledger.count_sent("a"), 2);
    assert_eq!(ledger.note_seen("b", 8, secs(4)), Observation::Delivered(secs(1)));
    sender.written(true, &mut Metrics::new());
    sender.note_waiting("c", secs(3), &mut ledger);
    assert_eq!(ledger.count_sent("c"), 0);
}

#[test]
fn senders_end_by_writing_or_discarding() {
    for (past_deadline, success, counts) in [
        (false, true, (0, 0, 2)),
        (false, false, (0, 0, 2)),
        (true, true, (2, 0, 0)),
        (true, false, (0, 2, 0)),
    ] {
        let mut metrics = Metrics::new();
        let mut sender = Sender::new(&FragmentationConfig {
            chunk_sizes: vec![],
            events_per_write: 5,
        });
        sender.add(&event("<a>"));
        sender.add(&event("<b>"));
        sender.end(past_deadline, success, &mut metrics);
        assert_eq!(
            (
                metrics.sent_messages,
                metrics.dropped_messages,
                metrics.local_dropped_messages
            ),
            counts
        );
        assert!(!sender.has_unwritten());
    }
}

#[test]
fn failed_participants_are_reported_and_cancel_the_others() {
    let mut outcome = ScenarioOutcome::default();
    assert!(!note_joined(&mut outcome, "a", Ok(())));
    assert!(note_joined(&mut outcome, "b", Err(WorkFailure::Parse)));
    assert!(note_joined(&mut outcome, "c", Err(WorkFailure::Write)));
    let told: Vec<(&str, ErrorCategory)> = outcome
        .participant_failures
        .iter()
        .map(|failure| (failure.participant.as_str(), failure.category))
        .collect();
    assert_eq!(
        told,
        vec![
            ("b", ErrorCategory::ParseFailed),
            ("c", ErrorCategory::WriteFailed)
        ]
    );
    assert!(outcome.assertions.is_empty());
    let config = AppConfig {
        scenario: ScenarioConfig {
            routing: vec![RoutingAssertion {
                sender: "a".into(),
                receivers: vec!["b".into()],
                forbidden_receivers: vec![],
                timeout: None,
            }],
            ..ScenarioConfig::default()
        },
        ..AppConfig::default()
    };
    let mut ledger = CorrelationLedger::new();
    ledger.note_sent(1, "a".into(), secs(0));
    let judged = judge_routing(outcome, &config, &ledger);
    assert_eq!(judged.participant_failures.len(), 2);
    assert!(!judged.assertions[0].passed);
}

#[test]
fn participants_end_with_their_last_result() {
    let failed = Err(WorkFailure::Read);
    let closed = SessionEvent::Closed { clean: false, past_deadline: true };
    assert_eq!(session_result(SessionAction::Finish, closed, failed), failed);
    assert_eq!(session_result(SessionAction::Finish, closed, Ok(())), Ok(()));
    assert_eq!(
        session_result(SessionAction::Finish, SessionEvent::Cancelled, failed),
        Ok(())
    );
    assert_eq!(
        session_result(SessionAction::GiveUp, SessionEvent::ConnectFailed, failed),
        Err(WorkFailure::ReconnectExhausted)
    );
}

#[test]
fn halves_of_a_connection_decide_its_end() {
    let plan = |role| connected_plan(role, &AppConfig::default());
    let well = Ok(DisconnectReason::RunDeadline);
    let stopped = Ok(DisconnectReason::ExternalStop);
    let failed = Err(WorkFailure::Parse);
    let both = plan(ParticipantRole::SendReceive);
    assert_eq!(connected_result(&both, None, Some(well)), Some(well));
    assert_eq!(connected_result(&both, Some(well), None), None);
    assert_eq!(connected_result(&both, Some(well), Some(stopped)), Some(stopped));
    assert_eq!(connected_result(&both, Some(failed), None), Some(failed));
    let reads = plan(ParticipantRole::ReceiveOnly);
    assert_eq!(connected_result(&reads, Some(well), None), Some(well));
    let sends = plan(ParticipantRole::SendOnly);
    assert_eq!(connected_result(&sends, None, Some(failed)), Some(failed));
}

#[test]
fn waiting_events_are_written_at_the_deadline_alone() {
    let mut metrics = Metrics::new();
    let mut sender = Sender::new(&FragmentationConfig {
        chunk_sizes: vec![],
        events_per_write: 5,
    });
    assert!(!sender.at_end(true) && !sender.at_end(false));
    sender.add(&event("<a>"));
    sender.add(&event("<b>"));
    assert!(sender.at_end(true) && !sender.at_end(false));
    sender.discard(&mut metrics);
    assert_eq!(metrics.sent_messages, 0);
    assert_eq!(metrics.dropped_messages, 0);
    assert_eq!(metrics.local_dropped_messages, 2);
}

#[test]
fn senders_take_events_while_there_is_room() {
    let mut sender = Sender::new(&FragmentationConfig {
        chunk_sizes: vec![],
        events_per_write: 1,
    });
    assert!(sender.can_take());
    sender.add(&event("<a>"));
    assert!(!sender.can_take());
    sender.written(true, &mut Metrics::new());
    assert!(sender.can_take());
}

#[test]
fn received_events_are_counted_and_timed() {
    let mut ledger = CorrelationLedger::new();
    let mut metrics = Metrics::new();
    let mut decoder = CotStreamDecoder::new(MAX_EVENT_BYTES);
    let now = Timestamp::from_unix_nanos(0);
    let xml = position_xml("a", &secs(1), &now, 77).unwrap();
    ledger.note_sent(77, "a".into(), Duration::from_millis(1));
    let mut stream = xml.clone().into_bytes();
    stream.extend_from_slice(b"<event></event>");
    stream.extend_from_slice(xml.as_bytes());
    let (head, tail) = stream.split_at(100);
    let at = Duration::from_millis(3);
    assert_eq!(receive(&mut decoder, head, "b", at, &mut ledger, &mut metrics), Ok(()));
    assert_eq!(metrics.received_messages, 0);
    assert_eq!(receive(&mut decoder, tail, "b", at, &mut ledger, &mut metrics), Ok(()));
    assert_eq!(metrics.received_messages, 3);
    assert_eq!(metrics.duplicate_messages, 1);
    assert_eq!(metrics.snapshot().delivery_p50_ms, Some(pattern(2.0)));
    assert_eq!(
        receive(&mut decoder, b"<event></x></event>", "b", at, &mut ledger, &mut metrics),
        Err(ReceiveError::Malformed)
    );
    let oversized = format!("<event>{}</event>", "x".repeat(MAX_EVENT_BYTES));
    assert_eq!(
        receive(&mut decoder, oversized.as_bytes(), "b", at, &mut ledger, &mut metrics),
        Err(ReceiveError::TooLarge)
    );
    assert_eq!(metrics.received_messages, 3);
}

#[test]
fn events_without_known_sender_have_no_latency() {
    let mut ledger = CorrelationLedger::new();
    let mut metrics = Metrics::new();
    observe("b", None, secs(1), &mut ledger, &mut metrics);
    observe("b", Some(1), secs(1), &mut ledger, &mut metrics);
    observe("b", Some(1), secs(2), &mut ledger, &mut metrics);
    observe("c", Some(1), secs(2), &mut ledger, &mut metrics);
    assert_eq!(metrics.received_messages, 4);
    assert_eq!(metrics.duplicate_messages, 1);
    assert_eq!(metrics.snapshot().delivery_p50_ms, None);
}

#[test]
fn read_timeouts_are_no_failure_in_functional_runs() {
    assert_eq!(
        after_read(ReadEvent::TimedOut, Profile::Functional),
        ReadDecision::Continue
    );
    assert_eq!(
        after_read(ReadEvent::TimedOut, Profile::Smoke),
        ReadDecision::FailTimeout
    );
    for (event, decision, failure) in [
        (ReadEvent::StopRequested, ReadDecision::EndStopped, None),
        (ReadEvent::Deadline, ReadDecision::EndDeadline, None),
        (ReadEvent::TakenIn, ReadDecision::Continue, None),
        (ReadEvent::Failed, ReadDecision::FailRead, Some(WorkFailure::Read)),
        (ReadEvent::Closed, ReadDecision::FailClosed, Some(WorkFailure::PeerClosed)),
        (ReadEvent::Rejected, ReadDecision::FailParse, Some(WorkFailure::Parse)),
    ] {
        assert_eq!(after_read(event, Profile::Functional), decision);
        assert_eq!(WorkFailure::of_read(decision), failure);
    }
    assert_eq!(
        WorkFailure::of_read(ReadDecision::FailTimeout),
        Some(WorkFailure::ReadTimeout)
    );
}

fn reconnecting(max_attempts: u32) -> AppConfig {
    AppConfig {
        reconnect: ReconnectConfig { enabled: true, max_attempts, ..ReconnectConfig::default() },
        ..AppConfig::default()
    }
}

#[test]
fn sessions_reconnect_a_bounded_number_of_times() {
    let config = reconnecting(2);
    let mut metrics = Metrics::new();
    let mut session = Session::start(&mut metrics);
    let mut connects = 1;
    loop {
        match session.step(SessionEvent::ConnectFailed, &config, &mut metrics) {
            SessionAction::Pause { attempt } => {
                assert_eq!(attempt, connects);
                assert_eq!(
                    session.step(SessionEvent::BackoffElapsed, &config, &mut metrics),
                    SessionAction::Connect
                );
                connects += 1;
            }
            action => {
                assert_eq!(action, SessionAction::GiveUp);
                break;
            }
        }
    }
    assert_eq!(connects, 3);
    assert_eq!(metrics.connection_attempts, 3);
    assert_eq!(metrics.connection_failures, 3);
    assert_eq!(metrics.reconnect_failures, 3);
    assert_eq!(metrics.tls_failures, 0);
    assert_eq!(session.phase, SessionPhase::Done);
}

#[test]
fn sessions_count_what_happens_to_them() {
    let config = reconnecting(1);
    let mut metrics = Metrics::new();
    let mut session = Session::start(&mut metrics);
    let opened = SessionEvent::Opened {
        handshake: Duration::from_millis(5),
        since_start: secs(2),
    };
    assert_eq!(session.step(opened, &config, &mut metrics), SessionAction::Work);
    assert_eq!(metrics.active_connections, 1);
    assert_eq!(metrics.reconnects, 0);
    let broken = SessionEvent::Closed { clean: false, past_deadline: false };
    assert_eq!(
        session.step(broken, &config, &mut metrics),
        SessionAction::Pause { attempt: 1 }
    );
    assert_eq!(metrics.active_connections, 0);
    session.step(SessionEvent::BackoffElapsed, &config, &mut metrics);
    assert_eq!(session.step(opened, &config, &mut metrics), SessionAction::Work);
    assert_eq!(metrics.reconnects, 1);
    let snapshot = metrics.snapshot();
    assert_eq!(snapshot.handshake_p50_ms, Some(pattern(5.003)));
    assert_eq!(snapshot.connection_successes, 2);
    assert_eq!(snapshot.recovery_p95_ms, Some(pattern(f64::from(2_000_895) / 1_000.0)));
    assert_eq!(
        session.step(
            SessionEvent::Closed { clean: true, past_deadline: false },
            &config,
            &mut metrics
        ),
        SessionAction::Finish
    );
    assert_eq!(metrics.active_connections, 0);
}

#[test]
fn sessions_end_without_reconnecting_unless_asked() {
    let config = AppConfig {
        tls: TlsConfig { enabled: true, ..TlsConfig::default() },
        ..AppConfig::default()
    };
    let mut metrics = Metrics::new();
    let mut session = Session::start(&mut metrics);
    assert_eq!(
        session.step(SessionEvent::ConnectFailed, &config, &mut metrics),
        SessionAction::Finish
    );
    assert_eq!(metrics.tls_failures, 1);
    assert_eq!(metrics.reconnect_failures, 0);
    let mut late = Session { attempt: 0, phase: SessionPhase::Connected };
    assert_eq!(
        late.step(
            SessionEvent::Closed { clean: false, past_deadline: true },
            &reconnecting(5),
            &mut metrics
        ),
        SessionAction::Finish
    );
    let mut waiting = Session { attempt: 1, phase: SessionPhase::Waiting };
    assert_eq!(
        waiting.step(SessionEvent::Cancelled, &reconnecting(5), &mut metrics),
        SessionAction::Finish
    );
}

#[test]
fn senders_wait_for_named_participants() {
    let mut barrier = Barrier::new(&SynchronizationConfig {
        wait_for_ready: vec!["a".into(), "b".into()],
        timeout: secs(5),
    });
    assert_eq!(barrier.gate(&secs(4)), Gate::Wait);
    assert_eq!(barrier.gate(&secs(5)), Gate::TimedOut);
    barrier.note_ready("b");
    barrier.note_ready("b");
    barrier.note_ready("c");
    assert_eq!(barrier.gate(&secs(0)), Gate::Wait);
    barrier.note_ready("a");
    assert_eq!(barrier.gate(&secs(9)), Gate::Open);
    let open = Barrier::new(&SynchronizationConfig::default());
    assert_eq!(open.gate(&secs(99)), Gate::Open);
}

#[test]
fn failures_are_classified() {
    let failure = WorkFailure::of_connect(&ConnectError::Tcp("refused".into()));
    let told = failure.report("a2");
    assert_eq!(told.participant, "a2");
    assert_eq!(told.phase, ErrorPhase::Connect);
    assert_eq!(told.category, ErrorCategory::TcpConnectFailed);
    assert_eq!(failure.reason(), DisconnectReason::ConnectFailed);
    let failure = WorkFailure::of_connect(&ConnectError::CaLoad("x".into()));
    assert_eq!(failure.report("a").phase, ErrorPhase::TlsHandshake);
    for (failure, phase, category, reason) in [
        (
            WorkFailure::Readiness,
            ErrorPhase::Readiness,
            ErrorCategory::ReadinessTimeout,
            DisconnectReason::ReadinessTimeout,
        ),
        (
            WorkFailure::ReadTimeout,
            ErrorPhase::Read,
            ErrorCategory::ReadTimeout,
            DisconnectReason::ReadFailed,
        ),
        (
            WorkFailure::Read,
            ErrorPhase::Read,
            ErrorCategory::ReadFailed,
            DisconnectReason::ReadFailed,
        ),
        (
            WorkFailure::PeerClosed,
            ErrorPhase::Read,
            ErrorCategory::PeerClosed,
            DisconnectReason::PeerClosed,
        ),
        (
            WorkFailure::Parse,
            ErrorPhase::Parse,
            ErrorCategory::ParseFailed,
            DisconnectReason::ParseFailed,
        ),
        (
            WorkFailure::Write,
            ErrorPhase::Write,
            ErrorCategory::WriteFailed,
            DisconnectReason::WriteFailed,
        ),
        (
            WorkFailure::ReconnectExhausted,
            ErrorPhase::Reconnect,
            ErrorCategory::ReconnectExhausted,
            DisconnectReason::ReconnectExhausted,
        ),
    ] {
        assert_eq!(failure.report("a").phase, phase);
        assert_eq!(failure.report("a").category, category);
        assert_eq!(failure.reason(), reason);
    }
}
