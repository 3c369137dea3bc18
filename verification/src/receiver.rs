//! What a participant does with what it receives.
use crate::config::Profile;
use crate::duration::Duration;
use crate::framing::{self, CotStreamDecoder, FramingFailure};
use crate::ledger::{self, CorrelationLedger, LedgerView, Observation};
use crate::metrics::{self, raise, Metrics};
use crate::protocol::{self, inspect_event, DecodeError};
use crate::text;
use crate::xml;
use vstd::multiset::Multiset;
use vstd::prelude::*;
use vstd::string::*;
use vstd::utf8::*;

verus! {

/// The size that no received event may exceed.
pub const MAX_EVENT_BYTES: usize = 8_388_608;

/// What has been observed: what the ledger holds, the latencies recorded, and how many duplicates
/// there were.
#[verifier::ext_equal]
pub struct Observed {
    pub ledger: LedgerView,
    pub deliveries: Multiset<u64>,
    pub duplicates: nat,
}

/// What has been observed once one more event came in, at the time `at`, at a receiver.
pub open spec fn observed_with(
    before: Observed,
    receiver: Seq<char>,
    correlation: Option<u128>,
    at: nat,
) -> Observed {
    match correlation {
        None => before,
        Some(id) => {
            let ledger = before.ledger.with_seen(receiver, id, at);
            if before.ledger.seen.contains_key((receiver, id)) {
                Observed { ledger, duplicates: before.duplicates + 1, ..before }
            } else if before.ledger.sent.contains_key(id) {
                Observed {
                    ledger,
                    deliveries: with_latency(
                        before.deliveries,
                        ledger::elapsed_since(before.ledger.sent[id].1, at),
                    ),
                    ..before
                }
            } else {
                Observed { ledger, ..before }
            }
        },
    }
}

/// The latencies recorded once one more came in; one that the histogram does not cover is left out.
pub open spec fn with_latency(before: Multiset<u64>, nanos: nat) -> Multiset<u64> {
    if metrics::micros_of(nanos) >= metrics::VALUE_END {
        before
    } else {
        before.insert(metrics::lowest_alike(metrics::micros_of(nanos) as nat) as u64)
    }
}

/// What has been observed once some events came in.
pub open spec fn observed_all(
    before: Observed,
    receiver: Seq<char>,
    correlations: Seq<Option<u128>>,
    at: nat,
) -> Observed
    decreases correlations.len(),
{
    if correlations.len() == 0 {
        before
    } else {
        observed_with(
            observed_all(before, receiver, correlations.drop_last(), at),
            receiver,
            correlations.last(),
            at,
        )
    }
}

/// What a ledger and metrics have observed, with `duplicates` counted apart.
pub open spec fn observed_so_far(ledger: LedgerView, metrics: Metrics, duplicates: nat) -> Observed {
    Observed { ledger, deliveries: metrics::recorded(metrics.delivery_us), duplicates }
}

/// A counter that goes up by a number of any size, and starts anew past its largest value.
pub open spec fn raised_by(counter: u64, by: nat) -> u64
    decreases by,
{
    if by == 0 {
        counter
    } else {
        metrics::raised(raised_by(counter, (by - 1) as nat), 1)
    }
}

/// The correlation identifier that an event's text tells.
pub open spec fn correlation_in(raw: Seq<char>) -> Option<u128> {
    protocol::event_facts(xml::xml_items(encode_utf8(raw))).correlation_id
}

/// Whether metrics and a ledger are those after some events came in at a receiver.
///
/// Each event counts as received. Of latencies, once `u64::MAX` of them are recorded, nothing is
/// said.
pub open spec fn took_in(
    before_ledger: LedgerView,
    after_ledger: LedgerView,
    before: Metrics,
    after: Metrics,
    receiver: Seq<char>,
    correlations: Seq<Option<u128>>,
    at: nat,
) -> bool {
    let expected = observed_all(
        observed_so_far(before_ledger, before, 0),
        receiver,
        correlations,
        at,
    );
    &&& after_ledger == expected.ledger
    &&& after == (Metrics {
        received_messages: raised_by(before.received_messages, correlations.len()),
        duplicate_messages: raised_by(before.duplicate_messages, expected.duplicates),
        delivery_us: after.delivery_us,
        ..before
    })
    &&& metrics::recorded(before.delivery_us).len() + correlations.len() < u64::MAX
        ==> metrics::recorded(after.delivery_us) == expected.deliveries
}

/// At most one latency is recorded for each event.
proof fn lemma_deliveries_bounded(
    before: Observed,
    receiver: Seq<char>,
    correlations: Seq<Option<u128>>,
    at: nat,
)
    ensures
        observed_all(before, receiver, correlations, at).deliveries.len()
            <= before.deliveries.len() + correlations.len(),
    decreases correlations.len(),
{
    if correlations.len() > 0 {
        lemma_deliveries_bounded(before, receiver, correlations.drop_last(), at);
    }
}

/// Takes in one event that a participant received, by the correlation identifier that it carries.
pub fn observe(
    receiver: &str,
    correlation: Option<u128>,
    at: Duration,
    ledger: &mut CorrelationLedger,
    metrics: &mut Metrics,
)
    requires
        old(ledger)@.wf(),
    ensures
        final(ledger)@.wf(),
        ({
            let before = observed_so_far(old(ledger)@, *old(metrics), 0);
            let after = observed_with(before, receiver@, correlation, at@);
            &&& final(ledger)@ == after.ledger
            &&& *final(metrics) == (Metrics {
                received_messages: metrics::raised(old(metrics).received_messages, 1),
                duplicate_messages: raised_by(old(metrics).duplicate_messages, after.duplicates),
                delivery_us: final(metrics).delivery_us,
                ..*old(metrics)
            })
            &&& before.deliveries.len() < u64::MAX ==> metrics::recorded(
                final(metrics).delivery_us,
            ) == after.deliveries
        }),
{
    proof {
        reveal_with_fuel(raised_by, 2);
    }
    metrics.received_messages = raise(metrics.received_messages, 1);
    if let Some(id) = correlation {
        match ledger.note_seen(receiver, id, at) {
            Observation::Duplicate => {
                metrics.duplicate_messages = raise(metrics.duplicate_messages, 1);
            },
            Observation::Delivered(elapsed) => {
                metrics.record_delivery(elapsed);
            },
            Observation::Unknown => {},
        }
    }
}

/// Why a received part of a stream cannot be taken in.
#[derive(Clone, Copy, Debug, PartialEq, Eq, Structural)]
pub enum ReceiveError {
    /// An event is larger than any may be.
    TooLarge,
    /// An event is not well-formed XML.
    Malformed,
    /// What was framed as an event holds none.
    NotAnEvent,
}

/// The correlation identifiers of some events.
pub open spec fn correlations_in(events: Seq<Seq<char>>) -> Seq<Option<u128>> {
    Seq::new(events.len(), |i: int| correlation_in(events[i]))
}

/// Why the text of an event is refused, if it is.
pub open spec fn text_refusal(raw: Seq<char>) -> Option<ReceiveError> {
    let document = encode_utf8(raw);
    if !xml::well_formed(document) {
        Some(ReceiveError::Malformed)
    } else if !protocol::holds_event(xml::xml_items(document)) {
        Some(ReceiveError::NotAnEvent)
    } else {
        None
    }
}

/// Whether none of the texts of some events is refused.
pub open spec fn all_accepted(events: Seq<Seq<char>>) -> bool {
    forall|i: int| 0 <= i < events.len() ==> text_refusal(#[trigger] events[i]) is None
}

/// Whether a received part of a stream was taken in as far as it could be.
///
/// A part that cannot be framed leaves everything as it was. Of the events that it completes, all
/// are taken in, or those before the first one whose text is refused.
pub open spec fn chunk_taken_in(
    buffered: Seq<u8>,
    before_ledger: LedgerView,
    after_ledger: LedgerView,
    before: Metrics,
    after: Metrics,
    receiver: Seq<char>,
    at: nat,
    result: Result<(), ReceiveError>,
) -> bool {
    let drained = framing::drain(buffered, MAX_EVENT_BYTES as nat);
    let events = framing::frame_texts(drained.frames);
    match drained.failure {
        Some(failure) => {
            &&& result == Err::<(), ReceiveError>(
                match failure {
                    FramingFailure::TooLarge => ReceiveError::TooLarge,
                    FramingFailure::Malformed => ReceiveError::Malformed,
                },
            )
            &&& after_ledger == before_ledger
            &&& after == before
        },
        None => match result {
            Ok(()) => {
                &&& all_accepted(events)
                &&& took_in(
                    before_ledger,
                    after_ledger,
                    before,
                    after,
                    receiver,
                    correlations_in(events),
                    at,
                )
            },
            Err(error) => exists|good: int|
                0 <= good < events.len() && text_refusal(#[trigger] events[good]) == Some(error)
                    && all_accepted(events.take(good)) && took_in(
                    before_ledger,
                    after_ledger,
                    before,
                    after,
                    receiver,
                    correlations_in(events).take(good),
                    at,
                ),
        },
    }
}

/// Takes in a part of the stream that a participant receives.
pub fn receive(
    decoder: &mut CotStreamDecoder,
    bytes: &[u8],
    receiver: &str,
    at: Duration,
    ledger: &mut CorrelationLedger,
    metrics: &mut Metrics,
) -> (result: Result<(), ReceiveError>)
    requires
        old(ledger)@.wf(),
        old(decoder).limit() == MAX_EVENT_BYTES,
    ensures
        final(ledger)@.wf(),
        final(decoder).limit() == MAX_EVENT_BYTES,
        final(decoder).buffered() == framing::drain(
            old(decoder).buffered() + bytes@,
            MAX_EVENT_BYTES as nat,
        ).rest,
        chunk_taken_in(
            old(decoder).buffered() + bytes@,
            old(ledger)@,
            final(ledger)@,
            *old(metrics),
            *final(metrics),
            receiver@,
            at@,
            result,
        ),
{
    let ghost drained = framing::drain(
        old(decoder).buffered() + bytes@,
        MAX_EVENT_BYTES as nat,
    );
    let raws = match decoder.push(bytes) {
        Ok(raws) => raws,
        Err(DecodeError::FrameTooLarge { .. }) => {
            return Err(ReceiveError::TooLarge);
        },
        Err(DecodeError::Xml(_)) => {
            return Err(ReceiveError::Malformed);
        },
        Err(DecodeError::NotAnEvent) => {
            return Err(ReceiveError::NotAnEvent);
        },
    };
    let ghost events = text::texts(raws@);
    let ghost correlations = correlations_in(events);
    let ghost start = observed_so_far(old(ledger)@, *old(metrics), 0);
    let mut i: usize = 0;
    proof {
        assert(events == framing::frame_texts(drained.frames));
        assert(correlations.take(0) =~= Seq::<Option<u128>>::empty());
    }
    while i < raws.len()
        invariant
            i <= raws.len(),
            ledger@.wf(),
            decoder.limit() == MAX_EVENT_BYTES,
            decoder.buffered() == drained.rest,
            drained == framing::drain(
                old(decoder).buffered() + bytes@,
                MAX_EVENT_BYTES as nat,
            ),
            drained.failure is None,
            events == text::texts(raws@),
            events == framing::frame_texts(drained.frames),
            correlations == correlations_in(events),
            start == observed_so_far(old(ledger)@, *old(metrics), 0),
            forall|k: int| 0 <= k < i ==> text_refusal(#[trigger] events[k]) is None,
            took_in(
                old(ledger)@,
                ledger@,
                *old(metrics),
                *metrics,
                receiver@,
                correlations.take(i as int),
                at@,
            ),
        decreases raws.len() - i,
    {
        let ghost so_far = correlations.take(i as int);
        let ghost was = observed_all(start, receiver@, so_far, at@);
        let ghost metrics_before = *metrics;
        let raw = raws[i].clone();
        assert(raw@ == events[i as int]);
        match inspect_event(raw) {
            Ok(event) => {
                observe(receiver, event.correlation_id, at, ledger, metrics);
                proof {
                    assert(event.correlation_id == correlations[i as int]);
                    assert(correlations.take(i + 1).drop_last() =~= so_far);
                    lemma_deliveries_bounded(start, receiver@, so_far, at@);
                    lemma_raised_apart(
                        old(metrics).duplicate_messages,
                        was.duplicates,
                        observed_with(
                            observed_so_far(was.ledger, metrics_before, 0),
                            receiver@,
                            event.correlation_id,
                            at@,
                        ).duplicates,
                    );
                    lemma_raised_apart(old(metrics).received_messages, so_far.len(), 1);
                }
            },
            Err(DecodeError::NotAnEvent) => {
                assert(text_refusal(events[i as int]) == Some(ReceiveError::NotAnEvent));
                return Err(ReceiveError::NotAnEvent);
            },
            Err(_) => {
                assert(text_refusal(events[i as int]) == Some(ReceiveError::Malformed));
                return Err(ReceiveError::Malformed);
            },
        }
        i = i + 1;
    }
    proof {
        assert(correlations.take(correlations.len() as int) =~= correlations);
    }
    Ok(())
}

/// Raising a counter twice is raising it once by the sum.
proof fn lemma_raised_apart(counter: u64, first: nat, second: nat)
    ensures
        raised_by(raised_by(counter, first), second) == raised_by(counter, first + second),
        metrics::raised(counter, 1) == raised_by(counter, 1),
        metrics::raised(raised_by(counter, first), 1) == raised_by(counter, first + 1),
    decreases second,
{
    reveal_with_fuel(raised_by, 2);
    if second > 0 {
        lemma_raised_apart(counter, first, (second - 1) as nat);
    }
}

/// What happens to a participant that reads.
#[derive(Clone, Copy, Debug, PartialEq, Eq, Structural)]
pub enum ReadEvent {
    /// The run is to stop.
    StopRequested,
    /// The deadline of the run has come.
    Deadline,
    /// Nothing came within the read timeout.
    TimedOut,
    /// Reading failed.
    Failed,
    /// The peer has closed the connection.
    Closed,
    /// Some bytes came and could be taken in.
    TakenIn,
    /// Some bytes came and could not be taken in.
    Rejected,
}

/// What a participant that reads does next.
#[derive(Clone, Copy, Debug, PartialEq, Eq, Structural)]
pub enum ReadDecision {
    /// Read on.
    Continue,
    /// End without a failure, since the run is to stop.
    EndStopped,
    /// End without a failure, since the deadline has come.
    EndDeadline,
    /// Fail, since nothing came in time.
    FailTimeout,
    /// Fail, since reading failed.
    FailRead,
    /// Fail, since the peer has closed the connection too early.
    FailClosed,
    /// Fail, since what came is not CoT.
    FailParse,
}

/// What a participant that reads does next.
pub open spec fn decision_after(event: ReadEvent, profile: Profile) -> ReadDecision {
    match event {
        ReadEvent::StopRequested => ReadDecision::EndStopped,
        ReadEvent::Deadline => ReadDecision::EndDeadline,
        ReadEvent::TimedOut => if profile == Profile::Functional {
            ReadDecision::Continue
        } else {
            ReadDecision::FailTimeout
        },
        ReadEvent::Failed => ReadDecision::FailRead,
        ReadEvent::Closed => ReadDecision::FailClosed,
        ReadEvent::TakenIn => ReadDecision::Continue,
        ReadEvent::Rejected => ReadDecision::FailParse,
    }
}

/// Reading goes on just when something was taken in, or when nothing came and the run is a
/// functional one. Only a timeout is judged by the profile, only a stop and the deadline end a
/// participant without a failure, and different failures are told apart.
pub proof fn law_only_functional_runs_wait_on(
    event: ReadEvent,
    other: ReadEvent,
    profile: Profile,
    another: Profile,
)
    ensures
        decision_after(event, profile) == ReadDecision::Continue <==> event == ReadEvent::TakenIn
            || (event == ReadEvent::TimedOut && profile == Profile::Functional),
        event != ReadEvent::TimedOut ==> decision_after(event, profile) == decision_after(
            event,
            another,
        ),
        decision_after(event, profile) == ReadDecision::EndStopped <==> event
            == ReadEvent::StopRequested,
        decision_after(event, profile) == ReadDecision::EndDeadline <==> event
            == ReadEvent::Deadline,
        decision_after(event, profile) == ReadDecision::FailTimeout <==> event
            == ReadEvent::TimedOut && profile != Profile::Functional,
        decision_after(event, profile) == ReadDecision::FailRead <==> event == ReadEvent::Failed,
        decision_after(event, profile) == ReadDecision::FailClosed <==> event == ReadEvent::Closed,
        decision_after(event, profile) == ReadDecision::FailParse <==> event
            == ReadEvent::Rejected,
        event != other && decision_after(event, profile) == decision_after(other, profile)
            ==> decision_after(event, profile) == ReadDecision::Continue,
{
}

/// Decides what a participant that reads does next. In a functional run a timeout means that no
/// message was there to observe, and reading goes on.
pub fn after_read(event: ReadEvent, profile: Profile) -> (decision: ReadDecision)
    ensures
        decision == decision_after(event, profile),
{
    match event {
        ReadEvent::StopRequested => ReadDecision::EndStopped,
        ReadEvent::Deadline => ReadDecision::EndDeadline,
        ReadEvent::TimedOut => match profile {
            Profile::Functional => ReadDecision::Continue,
            _ => ReadDecision::FailTimeout,
        },
        ReadEvent::Failed => ReadDecision::FailRead,
        ReadEvent::Closed => ReadDecision::FailClosed,
        ReadEvent::TakenIn => ReadDecision::Continue,
        ReadEvent::Rejected => ReadDecision::FailParse,
    }
}

/// What a receiver sees twice is a duplicate the second time, whatever came between.
pub proof fn law_second_sighting_is_duplicate(
    before: Observed,
    receiver: Seq<char>,
    id: u128,
    between: Seq<Option<u128>>,
    first_at: nat,
    at: nat,
    later: nat,
)
    ensures
        ({
            let first = observed_with(before, receiver, Some(id), first_at);
            let then_some = observed_all(first, receiver, between, at);
            let second = observed_with(then_some, receiver, Some(id), later);
            &&& second.duplicates == then_some.duplicates + 1
            &&& second.deliveries == then_some.deliveries
        }),
{
    let first = observed_with(before, receiver, Some(id), first_at);
    lemma_seen_stays(first, receiver, between, at, (receiver, id));
}

/// What has been seen stays seen.
proof fn lemma_seen_stays(
    before: Observed,
    receiver: Seq<char>,
    correlations: Seq<Option<u128>>,
    at: nat,
    key: (Seq<char>, u128),
)
    requires
        before.ledger.seen.contains_key(key),
    ensures
        observed_all(before, receiver, correlations, at).ledger.seen.contains_key(key),
    decreases correlations.len(),
{
    if correlations.len() > 0 {
        lemma_seen_stays(before, receiver, correlations.drop_last(), at, key);
    }
}

/// What has been observed once each of some receivers saw the same event, one after the other.
pub open spec fn seen_by_each(
    before: Observed,
    receivers: Seq<Seq<char>>,
    id: u128,
    times: Seq<nat>,
) -> Observed
    decreases receivers.len(),
{
    if receivers.len() == 0 {
        before
    } else {
        observed_with(
            seen_by_each(before, receivers.drop_last(), id, times.drop_last()),
            receivers.last(),
            Some(id),
            times.last(),
        )
    }
}

/// The first time that a receiver sees an event that was sent, exactly one latency comes in, whoever
/// else has seen the event: the microseconds since its sending, at least one, to three digits.
pub proof fn law_first_sighting_is_measured(before: Observed, receiver: Seq<char>, id: u128, at: nat)
    requires
        before.ledger.sent.contains_key(id),
        !before.ledger.seen.contains_key((receiver, id)),
        at < before.ledger.sent[id].1 + 1_073_741_824_000,
    ensures
        ({
            let after = observed_with(before, receiver, Some(id), at);
            let sent_at = before.ledger.sent[id].1;
            let elapsed = if at > sent_at {
                (at - sent_at) as nat
            } else {
                0
            };
            let micros = if elapsed < 1000 {
                1
            } else {
                elapsed / 1000
            };
            &&& exists|value: u64| #[trigger]
                before.deliveries.insert(value) == after.deliveries && value <= micros && micros
                    - value <= micros / 1024
            &&& after.deliveries.len() == before.deliveries.len() + 1
            &&& after.duplicates == before.duplicates
            &&& after.ledger.sent == before.ledger.sent
            &&& after.ledger.seen == before.ledger.seen.insert((receiver, id), at)
        }),
{
    let sent_at = before.ledger.sent[id].1;
    let elapsed = ledger::elapsed_since(sent_at, at);
    let micros = metrics::micros_of(elapsed);
    metrics::lemma_lowest_alike(micros as nat);
    let value = metrics::lowest_alike(micros as nat) as u64;
    let after = observed_with(before, receiver, Some(id), at);
    assert(before.deliveries.insert(value) == after.deliveries);
}

/// Every receiver measures its own delivery: once each of some receivers has seen an event that was
/// sent, as many latencies have come in as there are receivers, and nothing is a duplicate.
pub proof fn law_every_receiver_measures_delivery(
    before: Observed,
    receivers: Seq<Seq<char>>,
    id: u128,
    times: Seq<nat>,
)
    requires
        before.ledger.sent.contains_key(id),
        receivers.no_duplicates(),
        times.len() == receivers.len(),
        forall|i: int|
            0 <= i < receivers.len() ==> !before.ledger.seen.contains_key(
                (#[trigger] receivers[i], id),
            ),
        forall|i: int|
            0 <= i < times.len() ==> #[trigger] times[i] < before.ledger.sent[id].1
                + 1_073_741_824_000,
    ensures
        ({
            let after = seen_by_each(before, receivers, id, times);
            &&& after.deliveries.len() == before.deliveries.len() + receivers.len()
            &&& after.duplicates == before.duplicates
        }),
{
    lemma_each_measures(before, receivers, id, times);
}

/// What `law_every_receiver_measures_delivery` says, and what is not touched by it.
proof fn lemma_each_measures(
    before: Observed,
    receivers: Seq<Seq<char>>,
    id: u128,
    times: Seq<nat>,
)
    requires
        before.ledger.sent.contains_key(id),
        receivers.no_duplicates(),
        times.len() == receivers.len(),
        forall|i: int|
            0 <= i < receivers.len() ==> !before.ledger.seen.contains_key(
                (#[trigger] receivers[i], id),
            ),
        forall|i: int|
            0 <= i < times.len() ==> #[trigger] times[i] < before.ledger.sent[id].1
                + 1_073_741_824_000,
    ensures
        ({
            let after = seen_by_each(before, receivers, id, times);
            &&& after.deliveries.len() == before.deliveries.len() + receivers.len()
            &&& after.duplicates == before.duplicates
            &&& after.ledger.sent == before.ledger.sent
            &&& forall|name: Seq<char>|
                !before.ledger.seen.contains_key((name, id)) && !receivers.contains(name)
                    ==> !#[trigger] after.ledger.seen.contains_key((name, id))
        }),
    decreases receivers.len(),
{
    if receivers.len() > 0 {
        let others = receivers.drop_last();
        let earlier = times.drop_last();
        assert forall|i: int| 0 <= i < others.len() implies !before.ledger.seen.contains_key(
            (#[trigger] others[i], id),
        ) by {
            assert(others[i] == receivers[i]);
        }
        assert forall|i: int| 0 <= i < earlier.len() implies #[trigger] earlier[i]
            < before.ledger.sent[id].1 + 1_073_741_824_000 by {
            assert(earlier[i] == times[i]);
        }
        lemma_each_measures(before, others, id, earlier);
        let so_far = seen_by_each(before, others, id, earlier);
        let name = receivers.last();
        assert(name == receivers[receivers.len() - 1]);
        assert(times.last() == times[times.len() - 1]);
        assert(!others.contains(name)) by {
            if others.contains(name) {
                let k = choose|k: int| 0 <= k < others.len() && others[k] == name;
                assert(receivers[k] == receivers[receivers.len() - 1]);
            }
        }
        law_first_sighting_is_measured(so_far, name, id, times.last());
        let after = seen_by_each(before, receivers, id, times);
        assert forall|other: Seq<char>|
            !before.ledger.seen.contains_key((other, id)) && !receivers.contains(
                other,
            ) implies !#[trigger] after.ledger.seen.contains_key((other, id)) by {
            assert(receivers[receivers.len() - 1] == name);
            if others.contains(other) {
                let k = choose|k: int| 0 <= k < others.len() && others[k] == other;
                assert(receivers[k] == other);
            }
        }
    }
}

/// An event that nobody is known to have sent, or that carries no identifier, leaves no latency and
/// is no duplicate the first time.
pub proof fn law_unknown_events_are_not_measured(
    before: Observed,
    receiver: Seq<char>,
    correlation: Option<u128>,
    at: nat,
)
    requires
        correlation matches Some(id) ==> !before.ledger.sent.contains_key(id)
            && !before.ledger.seen.contains_key((receiver, id)),
    ensures
        ({
            let after = observed_with(before, receiver, correlation, at);
            &&& after.deliveries == before.deliveries
            &&& after.duplicates == before.duplicates
            &&& after.ledger.sent == before.ledger.sent
            &&& correlation is None ==> after == before
            &&& correlation matches Some(id) ==> after.ledger.seen.contains_key((receiver, id))
        }),
{
}

/// Every event of a chunk counts as received once, an event seen before as a duplicate too, and no
/// counter but these two moves.
pub proof fn law_received_events_are_counted(
    before_ledger: LedgerView,
    after_ledger: LedgerView,
    before: Metrics,
    after: Metrics,
    receiver: Seq<char>,
    correlations: Seq<Option<u128>>,
    at: nat,
)
    requires
        took_in(before_ledger, after_ledger, before, after, receiver, correlations, at),
        before.received_messages + correlations.len() <= u64::MAX,
        before.duplicate_messages + correlations.len() <= u64::MAX,
    ensures
        after.received_messages == before.received_messages + correlations.len(),
        after.duplicate_messages >= before.duplicate_messages,
        after.duplicate_messages - before.duplicate_messages <= correlations.len(),
        after.sent_messages == before.sent_messages,
        after.dropped_messages == before.dropped_messages,
        after.message_timeouts == before.message_timeouts,
        after.connection_attempts == before.connection_attempts,
        after.active_connections == before.active_connections,
        after_ledger.sent == before_ledger.sent,
        forall|i: int|
            0 <= i < correlations.len() ==> (#[trigger] correlations[i] matches Some(id)
                ==> after_ledger.seen.contains_key((receiver, id))),
{
    let start = observed_so_far(before_ledger, before, 0);
    lemma_observed_all(start, receiver, correlations, at);
    let expected = observed_all(start, receiver, correlations, at);
    lemma_raised_by(before.received_messages, correlations.len());
    lemma_raised_by(before.duplicate_messages, expected.duplicates);
}

/// Raising a counter by one several times raises it by their number.
proof fn lemma_raised_by(counter: u64, by: nat)
    requires
        counter + by <= u64::MAX,
    ensures
        raised_by(counter, by) == counter + by,
    decreases by,
{
    if by > 0 {
        lemma_raised_by(counter, (by - 1) as nat);
    }
}

/// What is observed of some events: no more duplicates than events, nothing sent, and each of them
/// seen.
proof fn lemma_observed_all(
    before: Observed,
    receiver: Seq<char>,
    correlations: Seq<Option<u128>>,
    at: nat,
)
    ensures
        ({
            let after = observed_all(before, receiver, correlations, at);
            &&& before.duplicates <= after.duplicates <= before.duplicates + correlations.len()
            &&& after.ledger.sent == before.ledger.sent
            &&& forall|key: (Seq<char>, u128)|
                before.ledger.seen.contains_key(key) ==> #[trigger] after.ledger.seen.contains_key(
                    key,
                )
            &&& forall|i: int|
                0 <= i < correlations.len() ==> (#[trigger] correlations[i] matches Some(id)
                    ==> after.ledger.seen.contains_key((receiver, id)))
        }),
    decreases correlations.len(),
{
    if correlations.len() > 0 {
        let rest = correlations.drop_last();
        lemma_observed_all(before, receiver, rest, at);
        let middle = observed_all(before, receiver, rest, at);
        let after = observed_all(before, receiver, correlations, at);
        assert forall|i: int| 0 <= i < correlations.len() implies (
        #[trigger] correlations[i] matches Some(id) ==> after.ledger.seen.contains_key(
            (receiver, id),
        )) by {
            if i < rest.len() {
                assert(rest[i] == correlations[i]);
                if let Some(id) = correlations[i] {
                    assert(middle.ledger.seen.contains_key((receiver, id)));
                }
            }
        }
    }
}

/// A chunk that cannot be framed is refused whole, and says why; nothing of it is counted.
pub proof fn law_unframed_chunks_are_refused(
    buffered: Seq<u8>,
    before_ledger: LedgerView,
    after_ledger: LedgerView,
    before: Metrics,
    after: Metrics,
    receiver: Seq<char>,
    at: nat,
    result: Result<(), ReceiveError>,
)
    requires
        chunk_taken_in(
            buffered,
            before_ledger,
            after_ledger,
            before,
            after,
            receiver,
            at,
            result,
        ),
        framing::drain(buffered, 8_388_608).failure is Some,
    ensures
        result is Err,
        after == before,
        after_ledger == before_ledger,
        framing::drain(buffered, 8_388_608).failure == Some(FramingFailure::TooLarge) ==> result
            == Err::<(), ReceiveError>(ReceiveError::TooLarge),
        framing::drain(buffered, 8_388_608).failure == Some(FramingFailure::Malformed) ==> result
            == Err::<(), ReceiveError>(ReceiveError::Malformed),
{
}

/// A text is refused just where it is not well-formed, or holds no element named `event`; the first
/// is told before the second.
pub proof fn law_only_events_are_accepted(raw: Seq<char>)
    ensures
        ({
            let items = xml::xml_items(encode_utf8(raw));
            let named = exists|i: int|
                0 <= i < items.len() && (#[trigger] items[i] matches xml::XmlItem::Element {
                    name,
                    ..
                } && name == encode_utf8("event"@));
            &&& text_refusal(raw) == Some(ReceiveError::Malformed) <==> !(items.last() is End)
            &&& text_refusal(raw) == Some(ReceiveError::NotAnEvent) <==> items.last() is End
                && !named
            &&& text_refusal(raw) is None <==> items.last() is End && named
        }),
{
    let items = xml::xml_items(encode_utf8(raw));
    if protocol::holds_event(items) {
        let i = choose|i: int|
            0 <= i < items.len() && protocol::is_event_item(#[trigger] items[i]);
        assert(items[i] matches xml::XmlItem::Element { name, .. } && name == encode_utf8("event"@));
    }
    if exists|i: int|
        0 <= i < items.len() && (#[trigger] items[i] matches xml::XmlItem::Element { name, .. }
            && name == encode_utf8("event"@)) {
        let i = choose|i: int|
            0 <= i < items.len() && (#[trigger] items[i] matches xml::XmlItem::Element { name, .. }
                && name == encode_utf8("event"@));
        assert(protocol::is_event_item(items[i]));
    }
}

} // verus!
