//! What a participant sends.
use crate::binary64::{self, Binary64, INFINITY_BITS};
use crate::config::{AppConfig, Environment, FragmentationConfig, InvalidEventKind};
use crate::correlation::{self, random_id};
use crate::duration::{self, Duration, MAX_NANOS, NANOS_PER_SEC};
use crate::framing;
use crate::ledger::{CorrelationLedger, LedgerView};
use crate::metrics::{self, raise, Metrics};
use crate::protocol::{self, NumberText, PositionEvent};
use crate::receiver::MAX_EVENT_BYTES;
use crate::safety::{self, SafetyOptions};
use crate::timestamp::{self, Timestamp};
use vstd::arithmetic::power2::*;
use vstd::prelude::*;
use vstd::string::*;
use vstd::utf8::*;

verus! {

/// The event that a participant sends to tell its position.
pub open spec fn is_position_event(
    event: PositionEvent,
    id: Seq<char>,
    now: Timestamp,
    gps_secs: nat,
    correlation_id: u128,
) -> bool {
    &&& event.uid@ == "tak-bench-"@ + id
    &&& event.callsign@ == id
    &&& event.latitude@ == "-23.5505"@
    &&& event.longitude@ == "-46.6333"@
    &&& event.altitude_m@ == "760"@
    &&& event.course_deg@ == "0"@
    &&& event.speed_mps@ == "0"@
    &&& event.time == now
    &&& event.stale == (Timestamp {
        local_nanos: (now.local_nanos + stale_secs(gps_secs) * NANOS_PER_SEC) as i128,
        offset_minutes: now.offset_minutes,
    })
    &&& event.correlation_id == correlation_id
}

/// Whether a text is the event that a participant sends to tell its position.
pub open spec fn is_position_text(
    text: Seq<char>,
    id: Seq<char>,
    now: Timestamp,
    gps_secs: nat,
    correlation_id: u128,
) -> bool {
    exists|event: PositionEvent| #[trigger]
        is_position_event(event, id, now, gps_secs, correlation_id) && text == event.xml_text()
            && event.is_legible()
}

/// How many seconds after it was made a position is stale: twice the whole seconds between two
/// positions, or a minute where `i64` does not hold those.
pub open spec fn stale_secs(gps_secs: nat) -> nat {
    if gps_secs > i64::MAX {
        60
    } else {
        2 * gps_secs
    }
}

/// Whether a position made at `now` has times from the year 0 to the year 9999.
pub open spec fn can_be_told(now: Timestamp, gps_interval: nat) -> bool {
    &&& now.valid()
    &&& now.local_nanos + stale_secs(gps_interval / NANOS_PER_SEC as nat) * NANOS_PER_SEC
        < timestamp::END_NANO
}

/// Writes the position of a participant, where its times lie from the year 0 to the year 9999.
pub fn position_xml(id: &str, gps_interval: &Duration, now: &Timestamp, correlation_id: u128) -> (result:
    Option<String>)
    ensures
        result is Some <==> can_be_told(*now, gps_interval@),
        result matches Some(xml) ==> is_position_text(
            xml@,
            id@,
            *now,
            gps_interval@ / NANOS_PER_SEC as nat,
            correlation_id,
        ),
{
    if !now.is_valid() {
        return None;
    }
    let secs = gps_interval.as_secs();
    let stale_after: u64 = if secs > i64::MAX as u64 {
        60
    } else {
        2 * secs
    };
    let stale = match now.plus_secs(stale_after) {
        Some(stale) => stale,
        None => {
            return None;
        },
    };
    proof {
        reveal_strlit("-23.5505");
        reveal_strlit("-46.6333");
        reveal_strlit("760");
        reveal_strlit("0");
    }
    let mut uid = "tak-bench-".to_owned();
    uid.append(id);
    match (
        NumberText::new("-23.5505"),
        NumberText::new("-46.6333"),
        NumberText::new("760"),
        NumberText::new("0"),
        NumberText::new("0"),
    ) {
        (Some(latitude), Some(longitude), Some(altitude_m), Some(course_deg), Some(speed_mps)) => {
            let event = PositionEvent {
                uid,
                callsign: id.to_owned(),
                latitude,
                longitude,
                altitude_m,
                course_deg,
                speed_mps,
                time: *now,
                stale,
                correlation_id,
            };
            let xml = event.to_xml();
            assert(is_position_event(
                event,
                id@,
                *now,
                gps_interval@ / NANOS_PER_SEC as nat,
                correlation_id,
            ));
            Some(xml)
        },
        _ => {
            assert(protocol::is_number_char("-23.5505"@[0]));
            None
        },
    }
}

/// The text of an invalid event.
pub open spec fn invalid_text(kind: InvalidEventKind) -> Seq<char> {
    match kind {
        InvalidEventKind::MalformedXml => "<event"@,
        InvalidEventKind::UnterminatedXml => "<event uid=\"invalid\">"@,
        InvalidEventKind::OversizedFrame => "<event>"@ + Seq::new(
            (MAX_EVENT_BYTES + 1) as nat,
            |i: int| 'x',
        ) + "</event>"@,
        InvalidEventKind::InvalidCoordinates => "<event><point lat=\"nan\" lon=\"999\"/></event>"@,
        InvalidEventKind::InvalidTime => "<event time=\"not-a-time\"></event>"@,
    }
}

/// The invalid event that comes as number `count`, if it is one of those that are to be invalid.
pub open spec fn invalid_event_of(config: AppConfig, count: nat) -> Option<Seq<char>> {
    let invalid = config.scenario.invalid;
    if invalid.enabled && (invalid.max_events matches Some(events) && count < events) {
        Some(
            invalid_text(
                match invalid.kind {
                    Some(kind) => kind,
                    None => InvalidEventKind::MalformedXml,
                },
            ),
        )
    } else {
        None
    }
}

/// An event that is larger than any may be.
fn oversized() -> (result: String)
    ensures
        result@ == invalid_text(InvalidEventKind::OversizedFrame),
{
    let mut result = "<event>".to_owned();
    let ghost start = result@;
    let mut i: usize = 0;
    proof {
        assert(start + Seq::new(0, |i: int| 'x') =~= start);
    }
    while i < MAX_EVENT_BYTES + 1
        invariant
            i <= MAX_EVENT_BYTES + 1,
            start == "<event>"@,
            result@ == start + Seq::new(i as nat, |i: int| 'x'),
        decreases MAX_EVENT_BYTES + 1 - i,
    {
        result.push('x');
        proof {
            assert((start + Seq::new(i as nat, |i: int| 'x')).push('x') =~= start + Seq::new(
                (i + 1) as nat,
                |i: int| 'x',
            ));
        }
        i = i + 1;
    }
    result.append("</event>");
    result
}

/// The invalid event that comes as number `count`, if it is one of those that are to be invalid.
pub fn invalid_event(config: &AppConfig, count: u64) -> (result: Option<String>)
    ensures
        match result {
            Some(text) => invalid_event_of(*config, count as nat) == Some(text@),
            None => invalid_event_of(*config, count as nat) is None,
        },
{
    let invalid = &config.scenario.invalid;
    let wanted = match invalid.max_events {
        Some(events) => invalid.enabled && count < events as u64,
        None => false,
    };
    if !wanted {
        return None;
    }
    let kind = match invalid.kind {
        Some(kind) => kind,
        None => InvalidEventKind::MalformedXml,
    };
    Some(
        match kind {
            InvalidEventKind::MalformedXml => "<event".to_owned(),
            InvalidEventKind::UnterminatedXml => "<event uid=\"invalid\">".to_owned(),
            InvalidEventKind::OversizedFrame => oversized(),
            InvalidEventKind::InvalidCoordinates =>
                "<event><point lat=\"nan\" lon=\"999\"/></event>".to_owned(),
            InvalidEventKind::InvalidTime => "<event time=\"not-a-time\"></event>".to_owned(),
        },
    )
}

/// The event that comes as number `count`: an invalid one, or else the position of the
/// participant. None, where a position would have a time before the year 0 or after the year 9999.
pub fn next_event(
    id: &str,
    config: &AppConfig,
    count: u64,
    now: &Timestamp,
    correlation_id: u128,
) -> (result: Option<String>)
    ensures
        match invalid_event_of(*config, count as nat) {
            Some(text) => result matches Some(event) && event@ == text,
            None => {
                &&& result is Some <==> can_be_told(*now, config.run.gps_interval@)
                &&& result matches Some(xml) ==> is_position_text(
                    xml@,
                    id@,
                    *now,
                    config.run.gps_interval@ / NANOS_PER_SEC as nat,
                    correlation_id,
                )
            },
        },
{
    match invalid_event(config, count) {
        Some(event) => Some(event),
        None => position_xml(id, &config.run.gps_interval, now, correlation_id),
    }
}

/// Whether a text is the event by which a participant tells its position at some moment, in UTC.
pub open spec fn is_timely_position(
    text: Seq<char>,
    id: Seq<char>,
    gps_secs: nat,
    correlation_id: u128,
) -> bool {
    exists|now: Timestamp| #[trigger]
        is_position_text(text, id, now, gps_secs, correlation_id) && now.valid()
            && now.offset_minutes == 0
}

/// An event and the identifier by which it is found again.
#[derive(Debug)]
pub struct DrawnEvent {
    pub correlation_id: u128,
    pub text: String,
}

/// Makes the event that comes as number `count`, with an identifier drawn at random and the time of
/// the machine. None, where that time gives a position no text.
pub fn draw_event(id: &str, config: &AppConfig, count: u64) -> (result: Option<DrawnEvent>)
    ensures
        result matches Some(drawn) ==> correlation::is_random_id(drawn.correlation_id),
        match invalid_event_of(*config, count as nat) {
            Some(text) => result matches Some(drawn) && drawn.text@ == text,
            None => result matches Some(drawn) ==> is_timely_position(
                drawn.text@,
                id@,
                config.run.gps_interval@ / NANOS_PER_SEC as nat,
                drawn.correlation_id,
            ),
        },
        result is None ==> exists|now: Timestamp|
            now.offset_minutes == 0 && !#[trigger] can_be_told(now, config.run.gps_interval@),
{
    let correlation_id = random_id();
    let now = Timestamp::now();
    match next_event(id, config, count, &now, correlation_id) {
        Some(text) => Some(DrawnEvent { correlation_id, text }),
        None => None,
    }
}

/// The span between two events of a rate, or the longest span where there is none.
pub open spec fn spacing_of(config: AppConfig) -> nat {
    match config.run.max_rate {
        Some(rate) => {
            let bits = binary64::reciprocal_bits(rate.bits);
            if !rate.plain() || rate.bits == 0 {
                0
            } else if duration::is_span(bits) {
                duration::span_of(bits)
            } else {
                MAX_NANOS as nat
            }
        },
        None => 0,
    }
}

/// How long a participant waits from one event to the next.
pub open spec fn interval_of(config: AppConfig) -> nat {
    duration::longer(config.run.gps_interval@, spacing_of(config))
}

/// How long a participant waits from one event to the next: the interval between positions, or
/// longer where the rate asks for it. A rate that is not positive and finite asks for nothing.
pub fn emission_interval(config: &AppConfig) -> (result: Duration)
    ensures
        result@ == interval_of(*config),
{
    match &config.run.max_rate {
        Some(rate) => if rate.bits == 0 || rate.bits >= INFINITY_BITS {
            config.run.gps_interval
        } else {
            match Duration::between_events(rate) {
                Some(spacing) => config.run.gps_interval.max(spacing),
                None => config.run.gps_interval.max(Duration::longest()),
            }
        },
        None => config.run.gps_interval,
    }
}

/// A rate lengthens the interval between events and never shortens it.
pub proof fn law_rate_never_shortens(config: AppConfig)
    ensures
        interval_of(config) >= config.run.gps_interval@,
{
}

/// Events come no more often than the interval between positions and the rate allow, and no less
/// often: without a usable rate they come at that interval, and where the rate asks for more, at the
/// rate, to two nanoseconds and one part in 2^50.
pub proof fn law_events_keep_the_rate(config: AppConfig)
    ensures
        interval_of(config) >= config.run.gps_interval@,
        config.run.max_rate is None ==> interval_of(config) == config.run.gps_interval@,
        config.run.max_rate matches Some(rate) ==> {
            let per_second = binary64::units(rate.bits);
            let second = 1_000_000_000 * pow2(1074);
            &&& rate.bits == 0 || rate.bits >= 0x7ff0_0000_0000_0000 ==> interval_of(config)
                == config.run.gps_interval@
            &&& 0 < rate.bits < 0x7ff0_0000_0000_0000 && per_second * 0x8000_0000_0000_0000 >= pow2(
                1074,
            ) ==> {
                &&& second * 0x4_0000_0000_0000 <= per_second * (interval_of(config) + 2)
                    * 0x4_0000_0000_0001
                &&& interval_of(config) > config.run.gps_interval@ ==> per_second * interval_of(
                    config,
                ) * 0x4_0000_0000_0000 <= (second + 2 * per_second) * 0x4_0000_0000_0001
            }
        },
{
    if let Some(rate) = config.run.max_rate {
        let u = binary64::units(rate.bits);
        if 0 < rate.bits < 0x7ff0_0000_0000_0000 && u * 0x8000_0000_0000_0000 >= pow2(1074) {
            duration::law_spans_between_events(rate);
            let spacing = spacing_of(config);
            let interval = interval_of(config);
            assert(u * (spacing + 2) * 0x4_0000_0000_0001 <= u * (interval + 2)
                * 0x4_0000_0000_0001) by (nonlinear_arith)
                requires
                    spacing <= interval,
            ;
        }
    }
}

/// A rate that leaves 2^64 seconds or more for one event is answered with the longest wait there is.
pub proof fn law_tiny_rates_wait_longest(config: AppConfig, rate: Binary64)
    requires
        config.run.max_rate == Some(rate),
        0 < rate.bits < 0x7ff0_0000_0000_0000,
        pow2(1074) >= binary64::units(rate.bits) * 0x1_0000_0000_0000_0000,
        config.run.gps_interval@ <= MAX_NANOS,
    ensures
        interval_of(config) == MAX_NANOS,
{
    let u = binary64::units(rate.bits);
    let p = pow2(1074);
    let g = 0x1_0000_0000_0000_0000nat;
    let bits = binary64::reciprocal_bits(rate.bits);
    binary64::lemma_landmarks();
    binary64::lemma_units_order(0, rate.bits);
    lemma_pow2_pos(1074);
    binary64::lemma_rounded_nearest(p, u);
    assert(p * p >= u * (g * p)) by (nonlinear_arith)
        requires
            p >= u * g,
    ;
    binary64::lemma_nearest_reaches(p, u, bits, binary64::TWO_64_BITS);
}

/// An event tells its participant, the moment at which it was made and the fixed position, and goes
/// stale after the whole seconds of two intervals.
pub proof fn law_positions_outlast_two_intervals(
    event: PositionEvent,
    id: Seq<char>,
    now: Timestamp,
    gps_interval: nat,
    correlation_id: u128,
)
    requires
        is_position_event(
            event,
            id,
            now,
            gps_interval / NANOS_PER_SEC as nat,
            correlation_id,
        ),
        can_be_told(now, gps_interval),
        gps_interval <= i64::MAX,
    ensures
        event.time == now,
        event.stale.offset_minutes == now.offset_minutes,
        event.stale.local_nanos - event.time.local_nanos <= 2 * gps_interval,
        event.stale.local_nanos - event.time.local_nanos > 2 * gps_interval - 2_000_000_000,
        (event.stale.local_nanos - event.time.local_nanos) % 2_000_000_000 == 0,
        event.uid@ == "tak-bench-"@ + id,
        event.callsign@ == id,
        event.latitude@ == "-23.5505"@,
        event.longitude@ == "-46.6333"@,
        event.altitude_m@ == "760"@,
        event.course_deg@ == "0"@,
        event.speed_mps@ == "0"@,
        event.correlation_id == correlation_id,
{
    let n = 1_000_000_000nat;
    let secs = gps_interval / n;
    assert(secs * n <= gps_interval && gps_interval < secs * n + n);
    assert((2 * secs) * n == secs * 2_000_000_000);
    let stale = event.stale.local_nanos - event.time.local_nanos;
    assert(stale == secs * 2_000_000_000);
}

/// Invalid events come first, as many as are configured and of the kind that is, or else the
/// malformed one; without them nothing is invalid.
pub proof fn law_invalid_events_come_first(config: AppConfig, count: nat)
    ensures
        !config.scenario.invalid.enabled || config.scenario.invalid.max_events is None
            ==> invalid_event_of(config, count) is None,
        config.scenario.invalid.max_events matches Some(events) ==> {
            &&& count >= events ==> invalid_event_of(config, count) is None
            &&& config.scenario.invalid.enabled && count < events ==> {
                &&& config.scenario.invalid.kind matches Some(kind) ==> invalid_event_of(
                    config,
                    count,
                ) == Some(invalid_text(kind))
                &&& config.scenario.invalid.kind is None ==> invalid_event_of(config, count)
                    == Some(invalid_text(InvalidEventKind::MalformedXml))
            }
        },
{
}

/// Every kind of invalid event starts as an event, the oversized one has more characters than a frame
/// may have bytes, and the malformed and the unterminated one are shorter than any event that ends.
pub proof fn law_invalid_events_are_invalid()
    ensures
        invalid_text(InvalidEventKind::OversizedFrame).len() > 8_388_608,
        invalid_text(InvalidEventKind::MalformedXml).len() < 7,
        !invalid_text(InvalidEventKind::UnterminatedXml).contains('/'),
        forall|kind: InvalidEventKind| (#[trigger] invalid_text(kind)).take(6) == "<event"@,
{
    reveal_strlit("<event");
    reveal_strlit("<event>");
    reveal_strlit("</event>");
    reveal_strlit("<event uid=\"invalid\">");
    reveal_strlit("<event><point lat=\"nan\" lon=\"999\"/></event>");
    reveal_strlit("<event time=\"not-a-time\"></event>");
    assert forall|kind: InvalidEventKind| (#[trigger] invalid_text(kind)).take(6) == "<event"@ by {
        assert(invalid_text(kind).take(6) =~= "<event"@);
    }
}

/// In an accepted production run at least 30 seconds lie between two events of a participant.
pub proof fn law_production_cadence(config: AppConfig, options: SafetyOptions)
    requires
        safety::accepted(config, options),
        config.environment == Environment::Production,
    ensures
        interval_of(config) >= 30 * NANOS_PER_SEC,
{
}

/// In an accepted run that sends invalid events at least a second lies between two events of a
/// participant, and no more of its events are invalid than the run may send.
pub proof fn law_invalid_events_are_limited(config: AppConfig, options: SafetyOptions, count: nat)
    requires
        safety::accepted(config, options),
        config.scenario.invalid.enabled,
    ensures
        interval_of(config) >= NANOS_PER_SEC,
        config.scenario.invalid.max_events is Some,
        invalid_event_of(config, count) is Some <==> count < config.scenario.invalid.max_events->0,
{
}

/// The events that a participant has made and not yet written.
#[derive(Debug)]
pub struct Sender {
    batch: Vec<u8>,
    ids: Vec<u128>,
    pending: u32,
    batch_size: u32,
    event_count: u64,
}

/// What a participant does once it has made an event.
#[derive(Clone, Copy, Debug, PartialEq, Eq, Structural)]
pub enum SendStep {
    /// Make further events first.
    Collect,
    /// Write the events that it has made.
    Write,
    /// Fail, since the events that it has made are too large to be written together.
    TooLarge,
}

/// How many events are written together: as many as configured, but at least one.
pub open spec fn batch_size_of(fragmentation: FragmentationConfig) -> nat {
    if fragmentation.events_per_write == 0 {
        1
    } else if fragmentation.events_per_write > u32::MAX {
        u32::MAX as nat
    } else {
        fragmentation.events_per_write as nat
    }
}

impl Sender {
    /// The bytes of the events not yet written.
    pub closed spec fn unwritten(&self) -> Seq<u8> {
        self.batch@
    }

    /// The identifiers of the events not yet written, in the order in which they were made.
    pub closed spec fn waiting(&self) -> Seq<u128> {
        self.ids@
    }

    /// How many events are not yet written.
    pub closed spec fn pending_events(&self) -> nat {
        self.pending as nat
    }

    /// How many events are written together.
    pub closed spec fn events_per_write(&self) -> nat {
        self.batch_size as nat
    }

    /// How many events have been made.
    pub closed spec fn made(&self) -> nat {
        self.event_count as nat
    }

    /// Whether some events are those that wait: their texts are the bytes not yet written, and their
    /// identifiers are those that wait.
    pub open spec fn holds(&self, events: Seq<DrawnEvent>) -> bool {
        &&& self.unwritten() == events.map_values(
            |event: DrawnEvent| encode_utf8(event.text@),
        ).flatten()
        &&& self.waiting() == events.map_values(|event: DrawnEvent| event.correlation_id)
        &&& self.pending_events() == events.len()
    }

    /// Whether no more events wait than are written together, each with its identifier, and none
    /// are made that it cannot count.
    pub closed spec fn wf(&self) -> bool {
        &&& 0 < self.batch_size
        &&& self.ids@.len() == self.pending
        &&& self.pending <= self.batch_size
        &&& self.pending <= self.event_count
    }

    /// Whether the events that wait are written when a participant ends.
    pub open spec fn writes_at_end(self, past_deadline: bool) -> bool {
        past_deadline && self.unwritten().len() > 0
    }

    /// Whether a sender has ended: it has written the events that waited where they are to be
    /// written, and else discarded them.
    pub open spec fn ends(
        self,
        after: Sender,
        before_metrics: Metrics,
        after_metrics: Metrics,
        past_deadline: bool,
        success: bool,
    ) -> bool {
        &&& self.settles(after)
        &&& if self.writes_at_end(past_deadline) {
            written_metrics(self, before_metrics, after_metrics, success)
        } else {
            discarded_metrics(self, before_metrics, after_metrics)
        }
    }

    /// Whether a sender has taken one more event.
    pub open spec fn adds(self, after: Sender, event: DrawnEvent) -> bool {
        &&& after.wf()
        &&& after.events_per_write() == self.events_per_write()
        &&& after.unwritten() == self.unwritten() + encode_utf8(event.text@)
        &&& after.waiting() == self.waiting().push(event.correlation_id)
        &&& after.pending_events() == self.pending_events() + 1
        &&& after.made() == self.made() + 1
    }

    /// Whether a sender has no more events that wait.
    pub open spec fn settles(self, after: Sender) -> bool {
        &&& after.wf()
        &&& after.events_per_write() == self.events_per_write()
        &&& after.holds(Seq::empty())
        &&& after.made() == self.made()
    }

    /// What a participant does now that it has made an event.
    pub open spec fn next_step(self) -> SendStep {
        if self.unwritten().len() > MAX_EVENT_BYTES {
            SendStep::TooLarge
        } else if self.pending_events() == self.events_per_write() {
            SendStep::Write
        } else {
            SendStep::Collect
        }
    }

    pub fn new(fragmentation: &FragmentationConfig) -> (sender: Sender)
        ensures
            sender.wf(),
            sender.holds(Seq::empty()),
            sender.made() == 0,
            sender.events_per_write() == batch_size_of(*fragmentation),
    {
        let batch_size = if fragmentation.events_per_write == 0 {
            1
        } else if fragmentation.events_per_write > u32::MAX as usize {
            u32::MAX
        } else {
            fragmentation.events_per_write as u32
        };
        let sender = Sender {
            batch: Vec::new(),
            ids: Vec::new(),
            pending: 0,
            batch_size,
            event_count: 0,
        };
        proof {
            lemma_no_events();
        }
        sender
    }

    /// How many events have been made.
    pub fn count(&self) -> (count: u64)
        ensures
            count == self.made(),
    {
        self.event_count
    }

    /// The bytes of the events not yet written.
    pub fn bytes(&self) -> (bytes: &[u8])
        ensures
            bytes@ == self.unwritten(),
    {
        self.batch.as_slice()
    }

    /// Whether there are events that are not yet written.
    pub fn has_unwritten(&self) -> (result: bool)
        ensures
            result == (self.unwritten().len() > 0),
    {
        self.batch.len() > 0
    }

    /// Whether one more event can be taken before those that wait are written.
    pub fn can_take(&self) -> (result: bool)
        ensures
            result == (self.pending_events() < self.events_per_write() && self.made() < u64::MAX),
    {
        self.pending < self.batch_size && self.event_count < u64::MAX
    }

    /// Takes an event that was made.
    pub fn add(&mut self, event: &DrawnEvent) -> (step: SendStep)
        requires
            old(self).wf(),
            old(self).pending_events() < old(self).events_per_write(),
            old(self).made() < u64::MAX,
        ensures
            old(self).adds(*final(self), *event),
            forall|events: Seq<DrawnEvent>| #[trigger]
                old(self).holds(events) ==> final(self).holds(events.push(*event)),
            step == final(self).next_step(),
    {
        self.batch.extend_from_slice(event.text.as_str().as_bytes());
        self.ids.push(event.correlation_id);
        self.pending = self.pending + 1;
        self.event_count = self.event_count + 1;
        proof {
            assert(self.unwritten() =~= old(self).unwritten() + encode_utf8(event.text@));
            assert forall|events: Seq<DrawnEvent>| #[trigger]
                old(self).holds(events) implies self.holds(events.push(*event)) by {
                lemma_one_more_event(events, *event);
            }
        }
        if self.batch.len() > MAX_EVENT_BYTES {
            SendStep::TooLarge
        } else if self.pending == self.batch_size {
            SendStep::Write
        } else {
            SendStep::Collect
        }
    }

    /// Counts the events that waited as sent, or as dropped where writing them failed.
    pub fn written(&mut self, success: bool, metrics: &mut Metrics)
        requires
            old(self).wf(),
        ensures
            old(self).settles(*final(self)),
            written_metrics(*old(self), *old(metrics), *final(metrics), success),
    {
        if success {
            metrics.sent_messages = raise(metrics.sent_messages, self.pending as u64);
        } else {
            metrics.dropped_messages = raise(metrics.dropped_messages, self.pending as u64);
        }
        self.batch = Vec::new();
        self.ids = Vec::new();
        self.pending = 0;
        proof {
            lemma_no_events();
        }
    }

    /// Discards the events that waited, and counts them as dropped here.
    pub fn discard(&mut self, metrics: &mut Metrics)
        requires
            old(self).wf(),
        ensures
            old(self).settles(*final(self)),
            discarded_metrics(*old(self), *old(metrics), *final(metrics)),
    {
        metrics.local_dropped_messages = raise(metrics.local_dropped_messages, self.pending as u64);
        self.batch = Vec::new();
        self.ids = Vec::new();
        self.pending = 0;
        proof {
            lemma_no_events();
        }
    }

    /// Decides what becomes of the events that wait when a participant ends: at the deadline of the
    /// run they are written, and where the run is stopped before, they are not.
    pub fn at_end(&self, past_deadline: bool) -> (write: bool)
        ensures
            write == self.writes_at_end(past_deadline),
    {
        past_deadline && self.has_unwritten()
    }

    /// Ends a participant, once the events that wait have been written, with success or without, if
    /// they were to be written: counts them, or else discards them.
    pub fn end(&mut self, past_deadline: bool, success: bool, metrics: &mut Metrics)
        requires
            old(self).wf(),
        ensures
            old(self).ends(
                *final(self),
                *old(metrics),
                *final(metrics),
                past_deadline,
                success,
            ),
    {
        if self.at_end(past_deadline) {
            self.written(success, metrics);
        } else {
            self.discard(metrics);
        }
    }

    /// Notes the events that wait as sent by a participant, as is done right before they are
    /// written.
    pub fn note_waiting(&self, sender: &str, at: Duration, ledger: &mut CorrelationLedger)
        requires
            old(ledger)@.wf(),
        ensures
            final(ledger)@.wf(),
            final(ledger)@ == sent_all(old(ledger)@, self.waiting(), sender@, at@),
    {
        let ghost before = ledger@;
        let ghost ids = self.waiting();
        let mut i: usize = 0;
        assert(ids.take(0) =~= Seq::<u128>::empty());
        while i < self.ids.len()
            invariant
                i <= self.ids.len(),
                ids == self.ids@,
                ledger@.wf(),
                ledger@ == sent_all(before, ids.take(i as int), sender@, at@),
            decreases self.ids.len() - i,
        {
            ledger.note_sent(self.ids[i], sender.to_owned(), at);
            proof {
                assert(ids.take(i + 1).drop_last() =~= ids.take(i as int));
            }
            i = i + 1;
        }
        assert(ids.take(ids.len() as int) =~= ids);
    }

    /// Decides whether a participant drops its connection now that it has made so many events.
    pub fn disconnects_now(&self, config: &AppConfig) -> (result: bool)
        ensures
            result == drops_connection(*config, self.made()),
    {
        config.scenario.abrupt_disconnect.enabled && self.event_count >= 1 && self.event_count
            >= config.scenario.abrupt_disconnect.after_events as u64
    }
}

/// Whether a participant drops its connection once it has made so many events.
pub open spec fn drops_connection(config: AppConfig, made: nat) -> bool {
    config.scenario.abrupt_disconnect.enabled && made >= 1 && made
        >= config.scenario.abrupt_disconnect.after_events
}

/// Abrupt disconnects come when so many events have been made as configured, but not before the first
/// one, and never where they are off.
pub proof fn law_disconnects_come_when_configured(config: AppConfig, made: nat)
    ensures
        !config.scenario.abrupt_disconnect.enabled ==> !drops_connection(config, made),
        !drops_connection(config, 0),
        made < config.scenario.abrupt_disconnect.after_events ==> !drops_connection(config, made),
        config.scenario.abrupt_disconnect.enabled && made > 0 && made
            >= config.scenario.abrupt_disconnect.after_events ==> drops_connection(config, made),
{
}

/// Events are collected until as many wait as are written together, and are then written; events of
/// more than eight mebibytes together are never written.
pub proof fn law_batches_are_filled(sender: Sender)
    ensures
        sender.unwritten().len() > 8_388_608 <==> sender.next_step() == SendStep::TooLarge,
        sender.unwritten().len() <= 8_388_608 && sender.pending_events()
            == sender.events_per_write() <==> sender.next_step() == SendStep::Write,
{
}

/// As many events are written together as are configured, and one where none are.
pub proof fn law_batches_are_as_configured(fragmentation: FragmentationConfig)
    ensures
        0 < fragmentation.events_per_write <= u32::MAX ==> batch_size_of(fragmentation)
            == fragmentation.events_per_write,
        fragmentation.events_per_write == 0 ==> batch_size_of(fragmentation) == 1,
{
}

/// What is written counts as sent, one for each event that waited, or as dropped where writing
/// failed; what is discarded counts as dropped here. No other counter moves.
pub proof fn law_waiting_events_are_counted_once(
    sender: Sender,
    before: Metrics,
    after: Metrics,
    success: bool,
)
    requires
        sender.wf(),
        before.sent_messages + sender.waiting().len() <= u64::MAX,
        before.dropped_messages + sender.waiting().len() <= u64::MAX,
        before.local_dropped_messages + sender.waiting().len() <= u64::MAX,
    ensures
        written_metrics(sender, before, after, success) ==> {
            &&& after.sent_messages == before.sent_messages + (if success {
                sender.waiting().len() as int
            } else {
                0
            })
            &&& after.dropped_messages == before.dropped_messages + (if success {
                0
            } else {
                sender.waiting().len() as int
            })
            &&& after.local_dropped_messages == before.local_dropped_messages
            &&& after.received_messages == before.received_messages
            &&& after.message_timeouts == before.message_timeouts
        },
        discarded_metrics(sender, before, after) ==> {
            &&& after.local_dropped_messages == before.local_dropped_messages
                + sender.waiting().len()
            &&& after.sent_messages == before.sent_messages
            &&& after.dropped_messages == before.dropped_messages
            &&& after.received_messages == before.received_messages
            &&& after.message_timeouts == before.message_timeouts
        },
{
}

/// At the deadline events that wait are written; where the run is stopped before, or nothing waits,
/// nothing is.
pub proof fn law_deadline_writes_what_waits(sender: Sender, past_deadline: bool)
    ensures
        sender.writes_at_end(past_deadline) <==> past_deadline && sender.unwritten().len() > 0,
{
}

/// Once events have been noted as sent, each of them is known as sent by its participant at that
/// time, and every other event as before.
pub proof fn law_sent_events_are_known(
    ledger: LedgerView,
    ids: Seq<u128>,
    sender: Seq<char>,
    at: nat,
    id: u128,
)
    ensures
        ({
            let after = sent_all(ledger, ids, sender, at);
            &&& ids.contains(id) ==> after.sent.contains_key(id) && after.sent[id] == (sender, at)
            &&& !ids.contains(id) ==> after.sent.contains_key(id) == ledger.sent.contains_key(id)
            &&& !ids.contains(id) && ledger.sent.contains_key(id) ==> after.sent[id]
                == ledger.sent[id]
            &&& after.seen == ledger.seen
        }),
    decreases ids.len(),
{
    if ids.len() > 0 {
        let rest = ids.drop_last();
        law_sent_events_are_known(ledger, rest, sender, at, id);
        assert(ids[ids.len() - 1] == ids.last());
        if ids.contains(id) && id != ids.last() {
            let k = choose|k: int| 0 <= k < ids.len() && ids[k] == id;
            assert(rest[k] == id);
        }
        if rest.contains(id) {
            let k = choose|k: int| 0 <= k < rest.len() && rest[k] == id;
            assert(ids[k] == id);
        }
    }
}

/// What a ledger holds once a participant has sent some events.
pub open spec fn sent_all(
    ledger: LedgerView,
    ids: Seq<u128>,
    sender: Seq<char>,
    at: nat,
) -> LedgerView
    decreases ids.len(),
{
    if ids.len() == 0 {
        ledger
    } else {
        sent_all(ledger, ids.drop_last(), sender, at).with_sent(ids.last(), sender, at)
    }
}

/// No events have no bytes and no identifiers.
proof fn lemma_no_events()
    ensures
        Seq::<DrawnEvent>::empty().map_values(
            |event: DrawnEvent| encode_utf8(event.text@),
        ).flatten() == Seq::<u8>::empty(),
        Seq::<DrawnEvent>::empty().map_values(|event: DrawnEvent| event.correlation_id)
            == Seq::<u128>::empty(),
{
    let texts = Seq::<DrawnEvent>::empty().map_values(
        |event: DrawnEvent| encode_utf8(event.text@),
    );
    assert(texts.flatten() =~= Seq::<u8>::empty());
}

/// One more event adds its bytes and its identifier behind those of the others.
proof fn lemma_one_more_event(events: Seq<DrawnEvent>, event: DrawnEvent)
    ensures
        events.push(event).map_values(|event: DrawnEvent| encode_utf8(event.text@)).flatten()
            == events.map_values(|event: DrawnEvent| encode_utf8(event.text@)).flatten()
            + encode_utf8(event.text@),
        events.push(event).map_values(|event: DrawnEvent| event.correlation_id)
            == events.map_values(|event: DrawnEvent| event.correlation_id).push(
            event.correlation_id,
        ),
{
    let texts = events.map_values(|event: DrawnEvent| encode_utf8(event.text@));
    let more = events.push(event).map_values(|event: DrawnEvent| encode_utf8(event.text@));
    assert(more =~= texts.push(encode_utf8(event.text@)));
    texts.lemma_flatten_push(encode_utf8(event.text@));
}

/// How many events were made more than wait, were sent, were dropped in writing or were discarded.
pub open spec fn unaccounted(sender: Sender, metrics: Metrics) -> int {
    sender.made() - sender.pending_events() - metrics.sent_messages - metrics.dropped_messages
        - metrics.local_dropped_messages
}

/// Every event that is made waits, is sent, is dropped or is discarded: whatever a participant does
/// next with its events, none is lost and none counted twice, as long as no counter starts anew.
pub proof fn law_events_are_accounted_for(
    before: Sender,
    after: Sender,
    metrics_before: Metrics,
    metrics_after: Metrics,
    event: DrawnEvent,
    success: bool,
)
    requires
        before.wf(),
        metrics_before.sent_messages + before.pending_events() <= u64::MAX,
        metrics_before.dropped_messages + before.pending_events() <= u64::MAX,
        metrics_before.local_dropped_messages + before.pending_events() <= u64::MAX,
        ({
            ||| before.adds(after, event) && metrics_after == metrics_before
            ||| before.settles(after) && written_metrics(
                before,
                metrics_before,
                metrics_after,
                success,
            )
            ||| before.settles(after) && discarded_metrics(before, metrics_before, metrics_after)
        }),
    ensures
        unaccounted(after, metrics_after) == unaccounted(before, metrics_before),
{
}

/// Where a run is stopped, the events that wait are never written: none of them counts as sent or as
/// dropped in writing, and all of them count as dropped here.
pub proof fn law_stop_never_writes(
    before: Sender,
    after: Sender,
    before_metrics: Metrics,
    after_metrics: Metrics,
    success: bool,
)
    requires
        before.ends(after, before_metrics, after_metrics, false, success),
    ensures
        !before.writes_at_end(false),
        after.pending_events() == 0,
        after_metrics.sent_messages == before_metrics.sent_messages,
        after_metrics.dropped_messages == before_metrics.dropped_messages,
        after_metrics.local_dropped_messages == metrics::raised(
            before_metrics.local_dropped_messages,
            before.pending_events() as u64,
        ),
{
}

/// Whether the metrics count the events that waited as sent, or as dropped where writing them
/// failed.
pub open spec fn written_metrics(
    sender: Sender,
    before: Metrics,
    after: Metrics,
    success: bool,
) -> bool {
    after == (if success {
        Metrics {
            sent_messages: metrics::raised(before.sent_messages, sender.pending_events() as u64),
            ..before
        }
    } else {
        Metrics {
            dropped_messages: metrics::raised(
                before.dropped_messages,
                sender.pending_events() as u64,
            ),
            ..before
        }
    })
}

/// Whether the metrics count the events that waited as dropped here.
pub open spec fn discarded_metrics(sender: Sender, before: Metrics, after: Metrics) -> bool {
    after == (Metrics {
        local_dropped_messages: metrics::raised(
            before.local_dropped_messages,
            sender.pending_events() as u64,
        ),
        ..before
    })
}

/// How large the next piece of a write is: the chunk whose turn it is, but at least one byte.
pub open spec fn piece_size(chunks: Seq<usize>, turn: nat) -> nat {
    let chunk = chunks[(turn % chunks.len()) as int] as nat;
    if chunk == 0 {
        1
    } else {
        chunk
    }
}

/// The pieces in which bytes are written, from the given turn on. Without chunks they are written
/// at once.
pub open spec fn pieces(bytes: Seq<u8>, chunks: Seq<usize>, turn: nat) -> Seq<Seq<u8>>
    decreases bytes.len(),
{
    if chunks.len() == 0 {
        seq![bytes]
    } else if bytes.len() == 0 {
        Seq::empty()
    } else {
        let size = piece_size(chunks, turn);
        if size >= bytes.len() {
            seq![bytes]
        } else {
            seq![bytes.take(size as int)] + pieces(bytes.skip(size as int), chunks, turn + 1)
        }
    }
}

/// What is written in pieces is what was to be written, whatever the chunks.
pub proof fn law_pieces_join(bytes: Seq<u8>, chunks: Seq<usize>, turn: nat)
    ensures
        pieces(bytes, chunks, turn).flatten() == bytes,
    decreases bytes.len(),
{
    reveal_with_fuel(Seq::flatten, 2);
    let all = pieces(bytes, chunks, turn);
    if chunks.len() == 0 || (bytes.len() > 0 && piece_size(chunks, turn) >= bytes.len()) {
        assert(seq![bytes].drop_first() =~= Seq::<Seq<u8>>::empty());
        assert(bytes + Seq::<u8>::empty() =~= bytes);
    } else if bytes.len() > 0 {
        let size = piece_size(chunks, turn);
        let rest = bytes.skip(size as int);
        law_pieces_join(rest, chunks, turn + 1);
        assert(all.drop_first() =~= pieces(rest, chunks, turn + 1));
        assert(bytes.take(size as int) + rest =~= bytes);
    } else {
        assert(bytes =~= Seq::<u8>::empty());
    }
}

/// The pieces of a write take the chunks in turn, and start again with the first one after the last:
/// every piece but the last one is as long as its chunk, but at least one byte, and the last one is no
/// longer and not empty.
pub proof fn law_pieces_take_chunks_in_turn(bytes: Seq<u8>, chunks: Seq<usize>, index: int)
    requires
        chunks.len() > 0,
        0 <= index < pieces(bytes, chunks, 0).len(),
    ensures
        ({
            let all = pieces(bytes, chunks, 0);
            let chunk = chunks[index % chunks.len() as int] as nat;
            let size = if chunk == 0 {
                1
            } else {
                chunk
            };
            &&& index < all.len() - 1 ==> all[index].len() == size
            &&& 0 < all[index].len() <= size
        }),
{
    lemma_pieces_take_turns(bytes, chunks, 0, index);
}

/// What `law_pieces_take_chunks_in_turn` says, from any turn on.
proof fn lemma_pieces_take_turns(bytes: Seq<u8>, chunks: Seq<usize>, turn: nat, index: int)
    requires
        chunks.len() > 0,
        0 <= index < pieces(bytes, chunks, turn).len(),
    ensures
        ({
            let all = pieces(bytes, chunks, turn);
            let size = piece_size(chunks, (turn + index) as nat);
            &&& index < all.len() - 1 ==> all[index].len() == size
            &&& 0 < all[index].len() <= size
        }),
    decreases bytes.len(),
{
    let all = pieces(bytes, chunks, turn);
    let size = piece_size(chunks, turn);
    if size < bytes.len() {
        let rest = pieces(bytes.skip(size as int), chunks, turn + 1);
        assert(all == seq![bytes.take(size as int)] + rest);
        if index > 0 {
            assert(all[index] == rest[index - 1]);
            lemma_pieces_take_turns(bytes.skip(size as int), chunks, turn + 1, index - 1);
        }
    }
}

/// Without chunks a write is one piece.
pub proof fn law_without_chunks_one_piece(bytes: Seq<u8>)
    ensures
        pieces(bytes, Seq::empty(), 0) == seq![bytes],
{
}

/// Whoever frames the pieces of a write one by one gets what framing the whole write gives: the same
/// frames, the same failure, and the same bytes kept where nothing fails.
pub proof fn law_pieces_are_framed_as_a_whole(bytes: Seq<u8>, chunks: Seq<usize>, limit: nat)
    requires
        bytes.len() > 0,
    ensures
        ({
            let cut = framing::drain_parts(Seq::empty(), pieces(bytes, chunks, 0), limit);
            let whole = framing::drain(bytes, limit);
            &&& cut.frames == whole.frames
            &&& cut.failure == whole.failure
            &&& cut.failure is None ==> cut.rest == whole.rest
        }),
{
    law_pieces_join(bytes, chunks, 0);
    framing::law_parts(Seq::empty(), pieces(bytes, chunks, 0), limit);
    assert(Seq::<u8>::empty() + bytes =~= bytes);
}

/// How far a write in pieces has come.
#[derive(Clone, Copy, Debug, PartialEq, Eq, Structural)]
pub struct Fragments {
    pub offset: usize,
    pub turn: usize,
    pub done: bool,
}

impl Fragments {
    /// The pieces still to be written.
    pub open spec fn ahead(self, bytes: Seq<u8>, chunks: Seq<usize>) -> Seq<Seq<u8>> {
        if self.done {
            Seq::empty()
        } else {
            pieces(bytes.skip(self.offset as int), chunks, self.turn as nat)
        }
    }

    /// Whether the write has not gone past the bytes.
    pub open spec fn within(self, bytes: Seq<u8>) -> bool {
        self.offset <= bytes.len() && self.turn <= self.offset
    }

    /// Starts a write.
    pub fn start(bytes: &[u8], chunks: &Vec<usize>) -> (fragments: Fragments)
        ensures
            fragments.within(bytes@),
            fragments.ahead(bytes@, chunks@) == pieces(bytes@, chunks@, 0),
    {
        assert(bytes@.skip(0) =~= bytes@);
        Fragments { offset: 0, turn: 0, done: false }
    }

    /// Where the next piece starts and ends, if there is one.
    pub fn next(&mut self, bytes: &[u8], chunks: &Vec<usize>) -> (piece: Option<(usize, usize)>)
        requires
            old(self).within(bytes@),
        ensures
            final(self).within(bytes@),
            match piece {
                Some((start, end)) => {
                    &&& start <= end <= bytes@.len()
                    &&& old(self).ahead(bytes@, chunks@) == seq![
                        bytes@.subrange(start as int, end as int),
                    ] + final(self).ahead(bytes@, chunks@)
                },
                None => {
                    &&& old(self).ahead(bytes@, chunks@).len() == 0
                    &&& *final(self) == *old(self)
                },
            },
    {
        let ghost rest = bytes@.skip(self.offset as int);
        let ghost nothing = Seq::<Seq<u8>>::empty();
        if self.done {
            return None;
        }
        let start = self.offset;
        let total = bytes.len();
        if chunks.len() == 0 {
            self.done = true;
            assert(bytes@.subrange(start as int, total as int) =~= rest);
            assert(seq![rest] + nothing =~= seq![rest]);
            return Some((start, total));
        }
        if start == total {
            return None;
        }
        let chunk = chunks[self.turn % chunks.len()];
        let size = if chunk == 0 {
            1
        } else {
            chunk
        };
        if size >= total - start {
            self.done = true;
            assert(bytes@.subrange(start as int, total as int) =~= rest);
            assert(seq![rest] + nothing =~= seq![rest]);
            return Some((start, total));
        }
        self.offset = start + size;
        self.turn = self.turn + 1;
        proof {
            assert(bytes@.subrange(start as int, start + size) =~= rest.take(size as int));
            assert(rest.skip(size as int) =~= bytes@.skip(start + size));
        }
        Some((start, start + size))
    }
}

/// A participant that ends at the deadline has what waits written, and counted as sent or as dropped
/// by how that went; afterwards nothing waits, and nothing more has been made.
pub proof fn law_deadline_counts_what_waits(
    before: Sender,
    after: Sender,
    before_metrics: Metrics,
    after_metrics: Metrics,
    success: bool,
)
    requires
        before.wf(),
        before.ends(after, before_metrics, after_metrics, true, success),
        before.unwritten().len() > 0,
        before_metrics.sent_messages + before.waiting().len() <= u64::MAX,
        before_metrics.dropped_messages + before.waiting().len() <= u64::MAX,
    ensures
        after.waiting().len() == 0,
        after.pending_events() == 0,
        after.unwritten().len() == 0,
        after.made() == before.made(),
        success ==> after_metrics.sent_messages == before_metrics.sent_messages
            + before.waiting().len() && after_metrics.dropped_messages
            == before_metrics.dropped_messages,
        !success ==> after_metrics.dropped_messages == before_metrics.dropped_messages
            + before.waiting().len() && after_metrics.sent_messages == before_metrics.sent_messages,
        after_metrics.local_dropped_messages == before_metrics.local_dropped_messages,
{
    lemma_no_events();
}

} // verus!
