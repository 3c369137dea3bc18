//! Sanitized, opt-in lifecycle events for external orchestration.
use crate::correlation;
use vstd::prelude::*;
use vstd::string::*;

verus! {

/// Why a participant is no longer connected.
#[derive(Clone, Copy, Debug, PartialEq, Eq, Structural)]
pub enum DisconnectReason {
    RunDeadline,
    ExternalStop,
    PeerClosed,
    ReadFailed,
    WriteFailed,
    ParseFailed,
    ConnectFailed,
    ReadinessTimeout,
    ReconnectExhausted,
    /// The participant dropped the connection itself, as its scenario wants it.
    AbruptDisconnect,
}

/// How a run was completed.
#[derive(Clone, Copy, Debug, PartialEq, Eq, Structural)]
pub enum CompletionStatus {
    Passed,
    Failed,
    Aborted,
}

/// Something that an orchestrator may be told. It holds aliases and classified reasons only.
#[derive(Clone, Debug, PartialEq, Eq)]
pub enum LifecycleEvent {
    ParticipantConnected { participant: String },
    ParticipantReady { participant: String },
    ParticipantDisconnected { participant: String, reason: DisconnectReason },
    RunCompleted { status: CompletionStatus },
}

/// How a character is written in a JSON string.
pub open spec fn json_char(c: char) -> Seq<char> {
    if c == '"' {
        seq!['\\', '"']
    } else if c == '\\' {
        seq!['\\', '\\']
    } else if c == '\u{8}' {
        seq!['\\', 'b']
    } else if c == '\u{9}' {
        seq!['\\', 't']
    } else if c == '\u{a}' {
        seq!['\\', 'n']
    } else if c == '\u{c}' {
        seq!['\\', 'f']
    } else if c == '\u{d}' {
        seq!['\\', 'r']
    } else if 32 > c as nat {
        seq!['\\', 'u', '0', '0', correlation::hex_digit(c as nat / 16), correlation::hex_digit(c as nat % 16)]
    } else {
        seq![c]
    }
}

/// How characters are written in a JSON string.
pub open spec fn json_chars(value: Seq<char>) -> Seq<char>
    decreases value.len(),
{
    if value.len() == 0 {
        Seq::empty()
    } else {
        json_chars(value.drop_last()) + json_char(value.last())
    }
}

/// A text as a JSON string.
pub open spec fn json_string(value: Seq<char>) -> Seq<char> {
    seq!['"'] + json_chars(value) + seq!['"']
}

/// Writes a text as a JSON string with `serde_json::to_string`.
///
/// Quotation marks, backslashes and control characters are escaped; everything else is written as
/// it is.
#[verifier::external_body]
fn quote(value: &str) -> (result: String)
    ensures
        result@ == json_string(value@),
{
    serde_json::to_string(value).unwrap()
}

impl DisconnectReason {
    /// The name of the reason in a record.
    pub open spec fn name(self) -> Seq<char> {
        match self {
            DisconnectReason::RunDeadline => "run_deadline"@,
            DisconnectReason::ExternalStop => "external_stop"@,
            DisconnectReason::PeerClosed => "peer_closed"@,
            DisconnectReason::ReadFailed => "read_failed"@,
            DisconnectReason::WriteFailed => "write_failed"@,
            DisconnectReason::ParseFailed => "parse_failed"@,
            DisconnectReason::ConnectFailed => "connect_failed"@,
            DisconnectReason::ReadinessTimeout => "readiness_timeout"@,
            DisconnectReason::ReconnectExhausted => "reconnect_exhausted"@,
            DisconnectReason::AbruptDisconnect => "abrupt_disconnect"@,
        }
    }

    /// The name of the reason in a record.
    pub fn as_str(&self) -> (name: &'static str)
        ensures
            name@ == self.name(),
    {
        match self {
            DisconnectReason::RunDeadline => "run_deadline",
            DisconnectReason::ExternalStop => "external_stop",
            DisconnectReason::PeerClosed => "peer_closed",
            DisconnectReason::ReadFailed => "read_failed",
            DisconnectReason::WriteFailed => "write_failed",
            DisconnectReason::ParseFailed => "parse_failed",
            DisconnectReason::ConnectFailed => "connect_failed",
            DisconnectReason::ReadinessTimeout => "readiness_timeout",
            DisconnectReason::ReconnectExhausted => "reconnect_exhausted",
            DisconnectReason::AbruptDisconnect => "abrupt_disconnect",
        }
    }
}

impl CompletionStatus {
    /// The name of the status in a record.
    pub open spec fn name(self) -> Seq<char> {
        match self {
            CompletionStatus::Passed => "passed"@,
            CompletionStatus::Failed => "failed"@,
            CompletionStatus::Aborted => "aborted"@,
        }
    }

    /// The name of the status in a record.
    pub fn as_str(&self) -> (name: &'static str)
        ensures
            name@ == self.name(),
    {
        match self {
            CompletionStatus::Passed => "passed",
            CompletionStatus::Failed => "failed",
            CompletionStatus::Aborted => "aborted",
        }
    }
}

impl LifecycleEvent {
    /// The record of the event, one line of JSON.
    pub open spec fn json(self) -> Seq<char> {
        match self {
            LifecycleEvent::ParticipantConnected { participant } => {
                "{\"event\":\"participant_connected\",\"participant\":"@ + json_string(participant@)
                    + "}"@
            },
            LifecycleEvent::ParticipantReady { participant } => {
                "{\"event\":\"participant_ready\",\"participant\":"@ + json_string(participant@)
                    + "}"@
            },
            LifecycleEvent::ParticipantDisconnected { participant, reason } => {
                "{\"event\":\"participant_disconnected\",\"participant\":"@ + json_string(
                    participant@,
                ) + ",\"reason\":\""@ + reason.name() + "\"}"@
            },
            LifecycleEvent::RunCompleted { status } => {
                "{\"event\":\"run_completed\",\"status\":\""@ + status.name() + "\"}"@
            },
        }
    }

    /// Writes the record of the event.
    pub fn to_json(&self) -> (line: String)
        ensures
            line@ == self.json(),
    {
        match self {
            LifecycleEvent::ParticipantConnected { participant } => {
                let mut line = "{\"event\":\"participant_connected\",\"participant\":".to_owned();
                line.append(quote(participant.as_str()).as_str());
                line.append("}");
                line
            },
            LifecycleEvent::ParticipantReady { participant } => {
                let mut line = "{\"event\":\"participant_ready\",\"participant\":".to_owned();
                line.append(quote(participant.as_str()).as_str());
                line.append("}");
                line
            },
            LifecycleEvent::ParticipantDisconnected { participant, reason } => {
                let mut line =
                    "{\"event\":\"participant_disconnected\",\"participant\":".to_owned();
                line.append(quote(participant.as_str()).as_str());
                line.append(",\"reason\":\"");
                line.append(reason.as_str());
                line.append("\"}");
                line
            },
            LifecycleEvent::RunCompleted { status } => {
                let mut line = "{\"event\":\"run_completed\",\"status\":\"".to_owned();
                line.append(status.as_str());
                line.append("\"}");
                line
            },
        }
    }
}

/// Decides whether lifecycle events are told. A disabled emitter writes no record.
#[derive(Clone, Copy, Debug, PartialEq, Eq, Structural)]
pub struct LifecycleEmitter {
    pub enabled: bool,
}

impl LifecycleEmitter {
    pub fn disabled() -> (emitter: LifecycleEmitter)
        ensures
            !emitter.enabled,
    {
        LifecycleEmitter { enabled: false }
    }

    pub fn new(enabled: bool) -> (emitter: LifecycleEmitter)
        ensures
            emitter.enabled == enabled,
    {
        LifecycleEmitter { enabled }
    }

    /// The record to write for an event, if any.
    pub fn emit(&self, event: &LifecycleEvent) -> (line: Option<String>)
        ensures
            line is Some <==> self.enabled,
            line matches Some(record) ==> record@ == event.json(),
    {
        if !self.enabled {
            return None;
        }
        Some(event.to_json())
    }
}

impl Default for LifecycleEmitter {
    fn default() -> (emitter: LifecycleEmitter)
        ensures
            !emitter.enabled,
    {
        LifecycleEmitter::disabled()
    }
}

/// No character of a JSON string ends a line.
proof fn lemma_one_line(value: Seq<char>)
    ensures
        forall|i: int|
            0 <= i < json_chars(value).len() ==> #[trigger] json_chars(value)[i] != '\n',
    decreases value.len(),
{
    if value.len() > 0 {
        lemma_one_line(value.drop_last());
        let c = value.last();
        if 32 > c as nat {
            assert(correlation::hex_digit(c as nat / 16) != '\n');
            assert(correlation::hex_digit(c as nat % 16) != '\n');
        }
        let written = json_char(c);
        assert(forall|i: int| 0 <= i < written.len() ==> #[trigger] written[i] != '\n');
        let before = json_chars(value.drop_last());
        assert(json_chars(value) == before + written);
        assert forall|i: int| 0 <= i < json_chars(value).len() implies #[trigger] json_chars(
            value,
        )[i] != '\n' by {
            if i < before.len() {
                assert(json_chars(value)[i] == before[i]);
            } else {
                assert(json_chars(value)[i] == written[i - before.len()]);
            }
        }
    }
}

/// A record is one line, whatever the participant is called.
pub proof fn law_records_are_single_lines(event: LifecycleEvent)
    ensures
        forall|i: int| 0 <= i < event.json().len() ==> #[trigger] event.json()[i] != '\n',
{
    reveal_strlit("{\"event\":\"participant_connected\",\"participant\":");
    reveal_strlit("{\"event\":\"participant_ready\",\"participant\":");
    reveal_strlit("{\"event\":\"participant_disconnected\",\"participant\":");
    reveal_strlit("{\"event\":\"run_completed\",\"status\":\"");
    reveal_strlit("}");
    reveal_strlit(",\"reason\":\"");
    reveal_strlit("\"}");
    reveal_strlit("run_deadline");
    reveal_strlit("external_stop");
    reveal_strlit("peer_closed");
    reveal_strlit("read_failed");
    reveal_strlit("write_failed");
    reveal_strlit("parse_failed");
    reveal_strlit("connect_failed");
    reveal_strlit("readiness_timeout");
    reveal_strlit("reconnect_exhausted");
    reveal_strlit("abrupt_disconnect");
    reveal_strlit("passed");
    reveal_strlit("failed");
    reveal_strlit("aborted");
    match event {
        LifecycleEvent::ParticipantConnected { participant } => {
            lemma_one_line(participant@);
        },
        LifecycleEvent::ParticipantReady { participant } => {
            lemma_one_line(participant@);
        },
        LifecycleEvent::ParticipantDisconnected { participant, .. } => {
            lemma_one_line(participant@);
        },
        LifecycleEvent::RunCompleted { .. } => {},
    }
}

/// Every reason and every status has a name of its own.
pub proof fn law_names_tell_apart(
    reason: DisconnectReason,
    other: DisconnectReason,
    status: CompletionStatus,
    another: CompletionStatus,
)
    ensures
        reason.name() == other.name() ==> reason == other,
        status.name() == another.name() ==> status == another,
{
    reveal_strlit("run_deadline");
    reveal_strlit("external_stop");
    reveal_strlit("peer_closed");
    reveal_strlit("read_failed");
    reveal_strlit("write_failed");
    reveal_strlit("parse_failed");
    reveal_strlit("connect_failed");
    reveal_strlit("readiness_timeout");
    reveal_strlit("reconnect_exhausted");
    reveal_strlit("abrupt_disconnect");
    reveal_strlit("passed");
    reveal_strlit("failed");
    reveal_strlit("aborted");
    assert("external_stop"@.len() == 13 && "connect_failed"@.len() == 14
        && "reconnect_exhausted"@.len() == 19);
    assert("peer_closed"@[0] == 'p');
    assert("run_deadline"@.len() == 12 && "write_failed"@.len() == 12 && "parse_failed"@.len()
        == 12);
    assert("run_deadline"@[0] == 'r' && "write_failed"@[0] == 'w' && "parse_failed"@[0] == 'p');
    assert("peer_closed"@.len() == 11 && "read_failed"@.len() == 11 && "read_failed"@[0] == 'r');
    assert("readiness_timeout"@.len() == 17 && "abrupt_disconnect"@.len() == 17
        && "readiness_timeout"@[0] == 'r' && "abrupt_disconnect"@[0] == 'a');
    assert("passed"@[0] == 'p' && "failed"@[0] == 'f' && "aborted"@[0] == 'a');
}

/// What a text is written as, from its first character on.
proof fn lemma_json_front(value: Seq<char>)
    requires
        value.len() > 0,
    ensures
        json_chars(value) == json_char(value[0]) + json_chars(value.drop_first()),
    decreases value.len(),
{
    let rest = value.drop_last();
    let nothing = Seq::<char>::empty();
    assert(json_chars(nothing) =~= nothing);
    if value.len() == 1 {
        assert(rest =~= nothing);
        assert(value.drop_first() =~= nothing);
        assert(value.last() == value[0]);
        assert(nothing + json_char(value[0]) =~= json_char(value[0]));
        assert(json_char(value[0]) + nothing =~= json_char(value[0]));
    } else {
        lemma_json_front(rest);
        assert(rest.drop_first() =~= value.drop_first().drop_last());
        assert(value.drop_first().last() == value.last());
        assert(json_chars(value) =~= json_char(value[0]) + json_chars(value.drop_first()));
    }
}

/// Characters that are written alike at the start of two texts are the same character.
proof fn lemma_json_char(a: char, b: char, after_a: Seq<char>, after_b: Seq<char>)
    requires
        json_char(a) + after_a == json_char(b) + after_b,
    ensures
        a == b,
        after_a == after_b,
{
    let left = json_char(a) + after_a;
    let right = json_char(b) + after_b;
    assert(left[0] == right[0]);
    assert(json_char(a)[0] == left[0]);
    assert(json_char(b)[0] == right[0]);
    if left[0] == '\\' {
        assert(json_char(a).len() >= 2 && json_char(b).len() >= 2);
        assert(json_char(a)[1] == left[1]);
        assert(json_char(b)[1] == right[1]);
        if left[1] == 'u' {
            assert(json_char(a).len() == 6 && json_char(b).len() == 6);
            assert(json_char(a)[4] == left[4] && json_char(a)[5] == left[5]);
            assert(json_char(b)[4] == right[4] && json_char(b)[5] == right[5]);
            assert(a as nat / 16 == b as nat / 16);
            assert(a as nat % 16 == b as nat % 16);
            assert(a as nat == b as nat);
        }
    }
    assert(a == b);
    let n = json_char(a).len() as int;
    assert(left.skip(n) =~= after_a);
    assert(right.skip(n) =~= after_b);
}

/// Writing a text as JSON loses nothing: different texts are written differently.
pub proof fn law_json_loses_nothing(a: Seq<char>, b: Seq<char>)
    requires
        json_string(a) == json_string(b),
    ensures
        a == b,
{
    let left = json_string(a);
    let right = json_string(b);
    assert(left.subrange(1, left.len() - 1) =~= json_chars(a));
    assert(right.subrange(1, right.len() - 1) =~= json_chars(b));
    lemma_json_chars(a, b);
}

/// Different texts are written with different characters.
proof fn lemma_json_chars(a: Seq<char>, b: Seq<char>)
    requires
        json_chars(a) == json_chars(b),
    ensures
        a == b,
    decreases a.len(),
{
    if a.len() > 0 {
        lemma_json_front(a);
    }
    if b.len() > 0 {
        lemma_json_front(b);
    }
    if a.len() == 0 {
        assert(json_chars(a).len() == 0);
        if b.len() > 0 {
            assert(json_char(b[0]).len() > 0);
            assert(json_chars(b).len() > 0);
        }
        assert(a =~= b);
    } else if b.len() == 0 {
        assert(json_char(a[0]).len() > 0);
        assert(json_chars(a).len() > 0);
        assert(json_chars(b).len() == 0);
    } else {
        lemma_json_char(a[0], b[0], json_chars(a.drop_first()), json_chars(b.drop_first()));
        lemma_json_chars(a.drop_first(), b.drop_first());
        assert(a =~= seq![a[0]] + a.drop_first());
        assert(b =~= seq![b[0]] + b.drop_first());
    }
}

/// A record tells what happened and to whom: records of different kinds differ, and so do those of
/// different participants, of different reasons and of different ends.
pub proof fn law_records_tell_what_happened(event: LifecycleEvent, other: LifecycleEvent)
    requires
        event.json() == other.json(),
    ensures
        event is ParticipantConnected <==> other is ParticipantConnected,
        event is ParticipantReady <==> other is ParticipantReady,
        event is ParticipantDisconnected <==> other is ParticipantDisconnected,
        event is RunCompleted <==> other is RunCompleted,
        event matches LifecycleEvent::ParticipantConnected { participant } ==> (
        other matches LifecycleEvent::ParticipantConnected { participant: same } && participant@
            == same@),
        event matches LifecycleEvent::ParticipantReady { participant } ==> (
        other matches LifecycleEvent::ParticipantReady { participant: same } && participant@
            == same@),
        event matches LifecycleEvent::ParticipantDisconnected { participant, reason } ==> (
        other matches LifecycleEvent::ParticipantDisconnected { participant: same, reason: why } && (
        reason == why ==> participant@ == same@) && (participant@ == same@ ==> reason == why)),
        event matches LifecycleEvent::RunCompleted { status } ==> (
        other matches LifecycleEvent::RunCompleted { status: same } && status == same),
{
    reveal_strlit("{\"event\":\"participant_connected\",\"participant\":");
    reveal_strlit("{\"event\":\"participant_ready\",\"participant\":");
    reveal_strlit("{\"event\":\"participant_disconnected\",\"participant\":");
    reveal_strlit("{\"event\":\"run_completed\",\"status\":\"");
    let connected = "{\"event\":\"participant_connected\",\"participant\":"@;
    let ready = "{\"event\":\"participant_ready\",\"participant\":"@;
    let disconnected = "{\"event\":\"participant_disconnected\",\"participant\":"@;
    let completed = "{\"event\":\"run_completed\",\"status\":\""@;
    assert(connected[10] == 'p' && ready[10] == 'p' && disconnected[10] == 'p' && completed[10]
        == 'r');
    assert(connected[22] == 'c' && ready[22] == 'r' && disconnected[22] == 'd');
    lemma_starts(event);
    lemma_starts(other);
    match (event, other) {
        (
            LifecycleEvent::ParticipantConnected { participant },
            LifecycleEvent::ParticipantConnected { participant: same },
        ) => {
            lemma_framed(connected, json_string(participant@), json_string(same@), "}"@);
            law_json_loses_nothing(participant@, same@);
        },
        (
            LifecycleEvent::ParticipantReady { participant },
            LifecycleEvent::ParticipantReady { participant: same },
        ) => {
            lemma_framed(ready, json_string(participant@), json_string(same@), "}"@);
            law_json_loses_nothing(participant@, same@);
        },
        (
            LifecycleEvent::ParticipantDisconnected { participant, reason },
            LifecycleEvent::ParticipantDisconnected { participant: same, reason: why },
        ) => {
            let key = ",\"reason\":\""@;
            let end = "\"}"@;
            if reason == why {
                let tail = key + reason.name() + end;
                assert(event.json() =~= disconnected + json_string(participant@) + tail);
                assert(other.json() =~= disconnected + json_string(same@) + tail);
                lemma_framed(disconnected, json_string(participant@), json_string(same@), tail);
                law_json_loses_nothing(participant@, same@);
            }
            if participant@ == same@ {
                let head = disconnected + json_string(participant@) + key;
                assert(event.json() =~= head + reason.name() + end);
                assert(other.json() =~= head + why.name() + end);
                lemma_framed(head, reason.name(), why.name(), end);
                law_names_tell_apart(
                    reason,
                    why,
                    CompletionStatus::Passed,
                    CompletionStatus::Passed,
                );
            }
        },
        (
            LifecycleEvent::RunCompleted { status },
            LifecycleEvent::RunCompleted { status: same },
        ) => {
            lemma_framed(completed, status.name(), same.name(), "\"}"@);
            law_names_tell_apart(
                DisconnectReason::RunDeadline,
                DisconnectReason::RunDeadline,
                status,
                same,
            );
        },
        _ => {},
    }
}

/// How a record starts.
proof fn lemma_starts(event: LifecycleEvent)
    ensures
        event.json().len() > 22,
        event.json()[10] == (if event is RunCompleted {
            'r'
        } else {
            'p'
        }),
        event is ParticipantConnected ==> event.json()[22] == 'c',
        event is ParticipantReady ==> event.json()[22] == 'r',
        event is ParticipantDisconnected ==> event.json()[22] == 'd',
{
    reveal_strlit("{\"event\":\"participant_connected\",\"participant\":");
    reveal_strlit("{\"event\":\"participant_ready\",\"participant\":");
    reveal_strlit("{\"event\":\"participant_disconnected\",\"participant\":");
    reveal_strlit("{\"event\":\"run_completed\",\"status\":\"");
}

/// Texts between the same start and the same end are the same where the whole is.
proof fn lemma_framed(start: Seq<char>, a: Seq<char>, b: Seq<char>, end: Seq<char>)
    requires
        start + a + end == start + b + end,
    ensures
        a == b,
{
    let left = start + a + end;
    let right = start + b + end;
    assert(left.len() == right.len());
    assert(a =~= left.subrange(start.len() as int, left.len() - end.len()));
    assert(b =~= right.subrange(start.len() as int, right.len() - end.len()));
}

} // verus!
