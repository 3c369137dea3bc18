//! Which events were sent, by whom, and who saw them.
use crate::config::RoutingAssertion;
use crate::duration::{Duration, NANOS_PER_SEC};
use crate::text::{self, same_text};
use std::collections::HashMap;
use vstd::prelude::*;
use vstd::std_specs::hash::*;
use vstd::string::*;

verus! {

broadcast use vstd::std_specs::hash::group_hash_axioms;

/// Who sent an event, and when.
#[derive(Debug)]
pub struct SentEvent {
    pub sender: String,
    pub at: Duration,
}

/// Who saw an event, and when last.
#[derive(Debug)]
pub struct Sighting {
    pub receiver: String,
    pub at: Duration,
}

/// Which events were sent, by whom, and who saw them. Times count from the start of the run.
#[derive(Debug)]
pub struct CorrelationLedger {
    order: Vec<u128>,
    sent: HashMap<u128, SentEvent>,
    seen: HashMap<u128, Vec<Sighting>>,
}

/// What the ledger makes of an event that a participant received.
#[derive(Clone, Copy, Debug, PartialEq, Eq, Structural)]
pub enum Observation {
    /// The participant has seen the event before.
    Duplicate,
    /// The participant sees the event for the first time, and so long after it was sent.
    Delivered(Duration),
    /// The participant sees the event for the first time, and nobody is known to have sent it.
    Unknown,
}

/// When a receiver is listed to have seen an event.
pub open spec fn listed_at(sightings: Seq<Sighting>, receiver: Seq<char>) -> Option<nat>
    decreases sightings.len(),
{
    if sightings.len() == 0 {
        None
    } else if sightings.last().receiver@ == receiver {
        Some(sightings.last().at@)
    } else {
        listed_at(sightings.drop_last(), receiver)
    }
}

/// How many of some identifiers pass a test.
pub open spec fn count_ids(ids: Seq<u128>, test: spec_fn(u128) -> bool) -> nat
    decreases ids.len(),
{
    if ids.len() == 0 {
        0
    } else {
        count_ids(ids.drop_last(), test) + (if test(ids.last()) {
            1nat
        } else {
            0
        })
    }
}

/// A narrower test is passed by no more identifiers.
pub proof fn lemma_count_narrower(
    ids: Seq<u128>,
    test: spec_fn(u128) -> bool,
    wider: spec_fn(u128) -> bool,
)
    requires
        forall|id: u128| #[trigger] test(id) ==> wider(id),
    ensures
        count_ids(ids, test) <= count_ids(ids, wider),
    decreases ids.len(),
{
    if ids.len() > 0 {
        lemma_count_narrower(ids.drop_last(), test, wider);
    }
}

/// What a `CorrelationLedger` holds: the events sent, in the order of their first sending; who sent
/// each of them, and when; and when which participant saw which event last.
#[verifier::ext_equal]
pub struct LedgerView {
    pub ids: Seq<u128>,
    pub sent: Map<u128, (Seq<char>, nat)>,
    pub seen: Map<(Seq<char>, u128), nat>,
}

impl LedgerView {
    /// What an empty ledger holds.
    pub open spec fn empty() -> LedgerView {
        LedgerView { ids: Seq::empty(), sent: Map::empty(), seen: Map::empty() }
    }

    /// Whether the order of sending holds each event that was sent once, and nothing else.
    pub open spec fn wf(self) -> bool {
        &&& self.ids.no_duplicates()
        &&& forall|id: u128| #[trigger] self.ids.contains(id) <==> self.sent.contains_key(id)
    }

    /// What a ledger holds once a participant has sent an event.
    pub open spec fn with_sent(self, id: u128, sender: Seq<char>, at: nat) -> LedgerView {
        LedgerView {
            ids: if self.sent.contains_key(id) {
                self.ids
            } else {
                self.ids.push(id)
            },
            sent: self.sent.insert(id, (sender, at)),
            ..self
        }
    }

    /// What a ledger holds once a participant has seen an event.
    pub open spec fn with_seen(self, receiver: Seq<char>, id: u128, at: nat) -> LedgerView {
        LedgerView { seen: self.seen.insert((receiver, id), at), ..self }
    }

    /// Whether an event was sent by the given participant.
    pub open spec fn sent_by(self, id: u128, sender: Seq<char>) -> bool {
        self.sent.contains_key(id) && self.sent[id].0 == sender
    }

    /// Whether a receiver saw an event of a sender, within a span of its sending if one is given.
    pub open spec fn observed(
        self,
        id: u128,
        sender: Seq<char>,
        receiver: Seq<char>,
        within: Option<nat>,
    ) -> bool {
        &&& self.sent_by(id, sender)
        &&& self.seen.contains_key((receiver, id))
        &&& within matches Some(span) ==> self.seen[(receiver, id)] - self.sent[id].1 <= span
    }

    /// How many events a participant sent.
    pub open spec fn sent_count(self, sender: Seq<char>) -> nat {
        count_ids(self.ids, |id: u128| self.sent_by(id, sender))
    }

    /// How many events of a sender a receiver saw.
    pub open spec fn observed_count(
        self,
        sender: Seq<char>,
        receiver: Seq<char>,
        within: Option<nat>,
    ) -> nat {
        count_ids(self.ids, |id: u128| self.observed(id, sender, receiver, within))
    }

    /// How many events of a sender all of some receivers saw, taken together.
    pub open spec fn observed_total(
        self,
        sender: Seq<char>,
        receivers: Seq<Seq<char>>,
        within: Option<nat>,
    ) -> nat
        decreases receivers.len(),
    {
        if receivers.len() == 0 {
            0
        } else {
            self.observed_total(sender, receivers.drop_last(), within) + self.observed_count(
                sender,
                receivers.last(),
                within,
            )
        }
    }
}

/// When a participant saw an event last, by the lists of sightings.
pub open spec fn sighted_at(
    sightings: Map<u128, Vec<Sighting>>,
    receiver: Seq<char>,
    id: u128,
) -> Option<nat> {
    if sightings.contains_key(id) {
        listed_at(sightings[id]@, receiver)
    } else {
        None
    }
}

/// What is to be made of an event that a participant sees: it is a duplicate where the participant
/// has seen it before, and else delivered where someone is known to have sent it.
pub open spec fn is_observation(
    ledger: LedgerView,
    receiver: Seq<char>,
    id: u128,
    at: nat,
    result: Observation,
) -> bool {
    if ledger.seen.contains_key((receiver, id)) {
        result == Observation::Duplicate
    } else if ledger.sent.contains_key(id) {
        result matches Observation::Delivered(elapsed) && elapsed@ == elapsed_since(
            ledger.sent[id].1,
            at,
        )
    } else {
        result == Observation::Unknown
    }
}

/// How long one time is after another; not at all, where it comes before it.
pub open spec fn elapsed_since(start: nat, end: nat) -> nat {
    if end > start {
        (end - start) as nat
    } else {
        0
    }
}

/// Sending an event keeps the order of sending whole.
proof fn lemma_with_sent_wf(before: LedgerView, id: u128, sender: Seq<char>, at: nat)
    requires
        before.wf(),
    ensures
        before.with_sent(id, sender, at).wf(),
{
    let after = before.with_sent(id, sender, at);
    if !before.sent.contains_key(id) {
        assert(!before.ids.contains(id));
        assert forall|other: u128| #[trigger]
            after.ids.contains(other) <==> after.sent.contains_key(other) by {
            if other == id {
                assert(after.ids[before.ids.len() as int] == id);
            } else if before.ids.contains(other) {
                let k = choose|k: int| 0 <= k < before.ids.len() && before.ids[k] == other;
                assert(after.ids[k] == other);
            } else if after.ids.contains(other) {
                let k = choose|k: int| 0 <= k < after.ids.len() && after.ids[k] == other;
                assert(before.ids[k] == other);
            }
        }
    } else {
        assert forall|other: u128| #[trigger]
            after.ids.contains(other) <==> after.sent.contains_key(other) by {
            assert(before.ids.contains(other) <==> before.sent.contains_key(other));
        }
    }
}

impl View for CorrelationLedger {
    type V = LedgerView;

    closed spec fn view(&self) -> LedgerView {
        LedgerView {
            ids: self.order@,
            sent: Map::new(
                |id: u128| self.sent@.contains_key(id),
                |id: u128| (self.sent@[id].sender@, self.sent@[id].at@),
            ),
            seen: Map::new(
                |key: (Seq<char>, u128)| sighted_at(self.seen@, key.0, key.1) is Some,
                |key: (Seq<char>, u128)| sighted_at(self.seen@, key.0, key.1)->0,
            ),
        }
    }
}

impl CorrelationLedger {
    pub fn new() -> (ledger: CorrelationLedger)
        ensures
            ledger@ == LedgerView::empty(),
            ledger@.wf(),
    {
        let ledger = CorrelationLedger {
            order: Vec::new(),
            sent: HashMap::new(),
            seen: HashMap::new(),
        };
        assert(ledger@ =~= LedgerView::empty());
        ledger
    }

    /// Notes that a participant sends an event.
    pub fn note_sent(&mut self, id: u128, sender: String, at: Duration)
        requires
            old(self)@.wf(),
        ensures
            final(self)@.wf(),
            final(self)@ == old(self)@.with_sent(id, sender@, at@),
    {
        let ghost before = self@;
        if !self.sent.contains_key(&id) {
            assert(!before.ids.contains(id));
            self.order.push(id);
        }
        self.sent.insert(id, SentEvent { sender, at });
        proof {
            assert(self@ =~= before.with_sent(id, sender@, at@));
            lemma_with_sent_wf(before, id, sender@, at@);
        }
    }

    /// Notes that a participant received an event, and tells what to make of it.
    pub fn note_seen(&mut self, receiver: &str, id: u128, at: Duration) -> (result: Observation)
        requires
            old(self)@.wf(),
        ensures
            final(self)@.wf(),
            final(self)@ == old(self)@.with_seen(receiver@, id, at@),
            is_observation(old(self)@, receiver@, id, at@, result),
    {
        let ghost before = self@;
        let ghost lists = self.seen@;
        let mut sightings: Vec<Sighting> = match self.seen.remove(&id) {
            Some(found) => found,
            None => Vec::new(),
        };
        let ghost listed = sightings@;
        let duplicate = put_sighting(&mut sightings, receiver, at);
        self.seen.insert(id, sightings);
        proof {
            assert(forall|name: Seq<char>| #[trigger]
                listed_at(listed, name) == sighted_at(lists, name, id));
            assert forall|name: Seq<char>, other: u128| #[trigger]
                sighted_at(self.seen@, name, other) == (if name == receiver@ && other == id {
                    Some(at@)
                } else {
                    sighted_at(lists, name, other)
                }) by {
                if other == id {
                    assert(sighted_at(self.seen@, name, id) == listed_at(sightings@, name));
                } else {
                    assert(self.seen@.contains_key(other) == lists.contains_key(other));
                }
            }
            assert(self@.seen =~= before.with_seen(receiver@, id, at@).seen);
            assert(self@.sent =~= before.sent);
            assert(self@ =~= before.with_seen(receiver@, id, at@));
        }
        if duplicate {
            return Observation::Duplicate;
        }
        match self.sent.get(&id) {
            Some(event) => Observation::Delivered(at.saturating_sub(event.at)),
            None => Observation::Unknown,
        }
    }

    /// When a participant saw an event last.
    fn find_seen(&self, receiver: &str, id: u128) -> (result: Option<Duration>)
        ensures
            match result {
                Some(at) => self@.seen.contains_key((receiver@, id)) && self@.seen[(
                    receiver@,
                    id,
                )] == at@,
                None => !self@.seen.contains_key((receiver@, id)),
            },
    {
        match self.seen.get(&id) {
            Some(sightings) => find_sighting(sightings, receiver),
            None => None,
        }
    }

    /// How many events a participant sent.
    pub fn count_sent(&self, sender: &str) -> (count: u64)
        ensures
            count == self@.sent_count(sender@),
    {
        let ghost test = |id: u128| self@.sent_by(id, sender@);
        let ghost ids = self@.ids;
        let mut count: u64 = 0;
        let mut i: usize = 0;
        while i < self.order.len()
            invariant
                ids == self@.ids,
                i <= self.order.len(),
                test == (|id: u128| self@.sent_by(id, sender@)),
                count == count_ids(ids.take(i as int), test),
                count <= i,
            decreases self.order.len() - i,
        {
            proof {
                assert(ids.take(i + 1).drop_last() =~= ids.take(i as int));
            }
            let id = self.order[i];
            if let Some(event) = self.sent.get(&id) {
                if same_text(event.sender.as_str(), sender) {
                    count = count + 1;
                }
            }
            i = i + 1;
        }
        assert(ids.take(ids.len() as int) =~= ids);
        count
    }

    /// How many events of a sender a receiver saw.
    pub fn count_observed(&self, sender: &str, receiver: &str, within: Option<Duration>) -> (count:
        u64)
        ensures
            count == self@.observed_count(sender@, receiver@, span_option(within)),
    {
        let ghost span = span_option(within);
        let ghost test = |id: u128| self@.observed(id, sender@, receiver@, span);
        let ghost ids = self@.ids;
        let mut count: u64 = 0;
        let mut i: usize = 0;
        while i < self.order.len()
            invariant
                ids == self@.ids,
                i <= self.order.len(),
                span == span_option(within),
                test == (|id: u128| self@.observed(id, sender@, receiver@, span)),
                count == count_ids(ids.take(i as int), test),
                count <= i,
            decreases self.order.len() - i,
        {
            proof {
                assert(ids.take(i + 1).drop_last() =~= ids.take(i as int));
            }
            let id = self.order[i];
            let mut hit = false;
            if let Some(event) = self.sent.get(&id) {
                if same_text(event.sender.as_str(), sender) {
                    if let Some(seen) = self.find_seen(receiver, id) {
                        hit = match &within {
                            Some(limit) => !seen.saturating_sub(event.at).exceeds(limit),
                            None => true,
                        };
                    }
                }
            }
            assert(hit == test(id));
            if hit {
                count = count + 1;
            }
            i = i + 1;
        }
        assert(ids.take(ids.len() as int) =~= ids);
        count
    }
}

impl Default for CorrelationLedger {
    fn default() -> (ledger: CorrelationLedger)
        ensures
            ledger@ == LedgerView::empty(),
            ledger@.wf(),
    {
        CorrelationLedger::new()
    }
}

/// The span of a duration, if there is one.
pub open spec fn span_option(duration: Option<Duration>) -> Option<nat> {
    match duration {
        Some(span) => Some(span@),
        None => None,
    }
}

/// When a receiver is listed to have seen an event.
fn find_sighting(sightings: &Vec<Sighting>, receiver: &str) -> (result: Option<Duration>)
    ensures
        result is Some <==> listed_at(sightings@, receiver@) is Some,
        result matches Some(at) ==> listed_at(sightings@, receiver@) == Some(at@),
{
    let mut left: usize = sightings.len();
    proof {
        assert(sightings@.take(left as int) =~= sightings@);
    }
    while left > 0
        invariant
            left <= sightings.len(),
            listed_at(sightings@.take(left as int), receiver@) == listed_at(
                sightings@,
                receiver@,
            ),
        decreases left,
    {
        proof {
            assert(sightings@.take(left as int).drop_last() =~= sightings@.take(left - 1));
        }
        if same_text(sightings[left - 1].receiver.as_str(), receiver) {
            return Some(sightings[left - 1].at);
        }
        left = left - 1;
    }
    None
}

/// A list that another sighting of the same receiver is put in place of tells of others what it
/// told.
proof fn lemma_replaced(sightings: Seq<Sighting>, at: int, put: Sighting)
    requires
        0 <= at < sightings.len(),
        sightings[at].receiver@ == put.receiver@,
        forall|k: int| at < k < sightings.len() ==> (#[trigger] sightings[k]).receiver@
            != put.receiver@,
    ensures
        forall|name: Seq<char>| #[trigger]
            listed_at(sightings.update(at, put), name) == (if name == put.receiver@ {
                Some(put.at@)
            } else {
                listed_at(sightings, name)
            }),
    decreases sightings.len(),
{
    let after = sightings.update(at, put);
    let last = sightings.len() - 1;
    if at == last {
        assert(after.drop_last() =~= sightings.drop_last());
    } else {
        lemma_replaced(sightings.drop_last(), at, put);
        assert(after.drop_last() =~= sightings.drop_last().update(at, put));
        assert(after.last() == sightings[last]);
        assert(sightings[last].receiver@ != put.receiver@);
    }
    assert forall|name: Seq<char>| #[trigger]
        listed_at(after, name) == (if name == put.receiver@ {
            Some(put.at@)
        } else {
            listed_at(sightings, name)
        }) by {
        assert(sightings.last() == sightings[last]);
        if at < last {
            assert(listed_at(after.drop_last(), name) == (if name == put.receiver@ {
                Some(put.at@)
            } else {
                listed_at(sightings.drop_last(), name)
            }));
        }
    }
}

/// Notes in a list when a receiver saw an event, and tells whether it was listed before.
fn put_sighting(sightings: &mut Vec<Sighting>, receiver: &str, at: Duration) -> (listed: bool)
    ensures
        listed == (listed_at(old(sightings)@, receiver@) is Some),
        forall|name: Seq<char>| #[trigger]
            listed_at(final(sightings)@, name) == (if name == receiver@ {
                Some(at@)
            } else {
                listed_at(old(sightings)@, name)
            }),
{
    let ghost before = sightings@;
    let mut left: usize = sightings.len();
    proof {
        assert(before.take(left as int) =~= before);
    }
    while left > 0
        invariant
            sightings@ == before,
            left <= before.len(),
            before == old(sightings)@,
            listed_at(before.take(left as int), receiver@) == listed_at(before, receiver@),
            forall|k: int| left <= k < before.len() ==> (#[trigger] before[k]).receiver@ != receiver@,
        decreases left,
    {
        proof {
            assert(before.take(left as int).drop_last() =~= before.take(left - 1));
        }
        if same_text(sightings[left - 1].receiver.as_str(), receiver) {
            let put = Sighting { receiver: receiver.to_owned(), at };
            proof {
                lemma_replaced(before, left - 1, put);
            }
            sightings.set(left - 1, put);
            return true;
        }
        left = left - 1;
    }
    sightings.push(Sighting { receiver: receiver.to_owned(), at });
    assert(sightings@.drop_last() =~= before);
    false
}

/// Whether an event has to be received or must not be.
#[derive(Clone, Copy, Debug, PartialEq, Eq, Structural)]
pub enum Expectation {
    Expected,
    Forbidden,
}

/// What was observed between one sender and one receiver.
#[derive(Clone, Debug)]
pub struct PairResult {
    pub sender: String,
    pub receiver: String,
    pub expectation: Expectation,
    pub passed: bool,
    pub received_count: u64,
}

/// What was observed of a routing assertion.
#[derive(Clone, Debug)]
pub struct AssertionResult {
    pub sender: String,
    pub passed: bool,
    pub expected_receivers: u64,
    pub forbidden_receivers: u64,
    pub pairs: Vec<PairResult>,
}

/// A count, no more than `u64` holds.
pub open spec fn as_count(total: nat) -> u64 {
    if total > u64::MAX {
        u64::MAX
    } else {
        total as u64
    }
}

/// How long after its sending an event counts as received: 30 seconds where an assertion does not
/// say.
pub open spec fn timeout_of(assertion: RoutingAssertion) -> nat {
    match assertion.timeout {
        Some(span) => span@,
        None => (30 * NANOS_PER_SEC) as nat,
    }
}

/// Whether what is told of a pair is what the ledger holds of it.
///
/// An expected receiver has to see every event of the sender in time. A forbidden one must not see
/// any, at whatever time.
pub open spec fn is_pair_result(
    ledger: LedgerView,
    assertion: RoutingAssertion,
    receiver: Seq<char>,
    expectation: Expectation,
    result: PairResult,
) -> bool {
    &&& result.sender@ == assertion.sender@
    &&& result.receiver@ == receiver
    &&& result.expectation == expectation
    &&& match expectation {
        Expectation::Expected => {
            &&& result.received_count == ledger.observed_count(
                assertion.sender@,
                receiver,
                Some(timeout_of(assertion)),
            )
            &&& result.passed == (result.received_count == ledger.sent_count(assertion.sender@))
        },
        Expectation::Forbidden => {
            &&& result.received_count == ledger.observed_count(assertion.sender@, receiver, None)
            &&& result.passed == (result.received_count == 0)
        },
    }
}

/// Whether what is told of an assertion is what the ledger holds of it: one result for each
/// expected receiver, then one for each forbidden one, and their sums.
pub open spec fn is_assertion_result(
    ledger: LedgerView,
    assertion: RoutingAssertion,
    result: AssertionResult,
) -> bool {
    let receivers = text::texts(assertion.receivers@);
    let forbidden = text::texts(assertion.forbidden_receivers@);
    let sender = assertion.sender@;
    let seen = ledger.observed_total(sender, receivers, Some(timeout_of(assertion)));
    let leaked = ledger.observed_total(sender, forbidden, None);
    &&& result.sender@ == sender
    &&& result.expected_receivers == as_count(seen)
    &&& result.forbidden_receivers == as_count(leaked)
    &&& result.passed == (seen == ledger.sent_count(sender) * receivers.len() && leaked == 0)
    &&& result.pairs@.len() == receivers.len() + forbidden.len()
    &&& forall|i: int|
        0 <= i < receivers.len() ==> is_pair_result(
            ledger,
            assertion,
            receivers[i],
            Expectation::Expected,
            #[trigger] result.pairs@[i],
        )
    &&& forall|i: int|
        receivers.len() <= i < result.pairs@.len() ==> is_pair_result(
            ledger,
            assertion,
            forbidden[i - receivers.len()],
            Expectation::Forbidden,
            #[trigger] result.pairs@[i],
        )
}

/// Adds to a total what was observed between a sender and one receiver.
fn raise_total(total: u128, count: u64) -> (result: u128)
    requires
        total <= u128::MAX - u64::MAX,
    ensures
        result == total + count,
{
    total + count as u128
}

/// A total as a count.
fn capped_count(total: u128) -> (count: u64)
    ensures
        count == as_count(total as nat),
{
    if total > u64::MAX as u128 {
        u64::MAX
    } else {
        total as u64
    }
}

/// Judges one routing assertion by the ledger.
fn evaluate_assertion(assertion: &RoutingAssertion, state: &CorrelationLedger) -> (result:
    AssertionResult)
    ensures
        is_assertion_result(state@, *assertion, result),
{
    let sender = assertion.sender.as_str();
    let sent = state.count_sent(sender);
    let timeout = match assertion.timeout {
        Some(span) => span,
        None => Duration::from_secs(30),
    };
    let ghost receivers = text::texts(assertion.receivers@);
    let ghost forbidden = text::texts(assertion.forbidden_receivers@);
    let ghost limit = Some(timeout_of(*assertion));
    let mut pairs: Vec<PairResult> = Vec::new();
    let mut seen: u128 = 0;
    let mut i: usize = 0;
    while i < assertion.receivers.len()
        invariant
            sender@ == assertion.sender@,
            sent == state@.sent_count(sender@),
            timeout@ == timeout_of(*assertion),
            limit == Some(timeout_of(*assertion)),
            receivers == text::texts(assertion.receivers@),
            i <= assertion.receivers.len(),
            pairs.len() == i,
            seen == state@.observed_total(sender@, receivers.take(i as int), limit),
            seen <= i * u64::MAX,
            forall|k: int|
                0 <= k < i ==> is_pair_result(
                    state@,
                    *assertion,
                    receivers[k],
                    Expectation::Expected,
                    #[trigger] pairs@[k],
                ),
        decreases assertion.receivers.len() - i,
    {
        let receiver = assertion.receivers[i].as_str();
        let count = state.count_observed(sender, receiver, Some(timeout));
        let pair = PairResult {
            sender: assertion.sender.clone(),
            receiver: assertion.receivers[i].clone(),
            expectation: Expectation::Expected,
            passed: count == sent,
            received_count: count,
        };
        proof {
            assert(receivers.take(i + 1).drop_last() =~= receivers.take(i as int));
            assert(receivers[i as int] == receiver@);
            assert(i * u64::MAX <= usize::MAX * u64::MAX) by (nonlinear_arith)
                requires
                    i <= usize::MAX,
            ;
            assert((i + 1) * u64::MAX == i * u64::MAX + u64::MAX) by (nonlinear_arith);
            assert(usize::MAX * u64::MAX <= 0xffff_ffff_ffff_ffff * 0xffff_ffff_ffff_ffff)
                by (nonlinear_arith)
                requires
                    usize::MAX <= 0xffff_ffff_ffff_ffff,
            ;
        }
        seen = raise_total(seen, count);
        let ghost before = pairs@;
        pairs.push(pair);
        proof {
            assert forall|k: int| 0 <= k < i + 1 implies is_pair_result(
                state@,
                *assertion,
                receivers[k],
                Expectation::Expected,
                #[trigger] pairs@[k],
            ) by {
                if k < i {
                    assert(pairs@[k] == before[k]);
                }
            }
        }
        i = i + 1;
    }
    let mut leaked: u128 = 0;
    let mut j: usize = 0;
    while j < assertion.forbidden_receivers.len()
        invariant
            sender@ == assertion.sender@,
            receivers == text::texts(assertion.receivers@),
            forbidden == text::texts(assertion.forbidden_receivers@),
            j <= assertion.forbidden_receivers.len(),
            pairs.len() == receivers.len() + j,
            leaked == state@.observed_total(sender@, forbidden.take(j as int), None),
            leaked <= j * u64::MAX,
            forall|k: int|
                0 <= k < receivers.len() ==> is_pair_result(
                    state@,
                    *assertion,
                    receivers[k],
                    Expectation::Expected,
                    #[trigger] pairs@[k],
                ),
            forall|k: int|
                receivers.len() <= k < pairs@.len() ==> is_pair_result(
                    state@,
                    *assertion,
                    forbidden[k - receivers.len()],
                    Expectation::Forbidden,
                    #[trigger] pairs@[k],
                ),
        decreases assertion.forbidden_receivers.len() - j,
    {
        let receiver = assertion.forbidden_receivers[j].as_str();
        let count = state.count_observed(sender, receiver, None);
        let pair = PairResult {
            sender: assertion.sender.clone(),
            receiver: assertion.forbidden_receivers[j].clone(),
            expectation: Expectation::Forbidden,
            passed: count == 0,
            received_count: count,
        };
        proof {
            assert(forbidden.take(j + 1).drop_last() =~= forbidden.take(j as int));
            assert(forbidden[j as int] == receiver@);
            assert(j * u64::MAX <= usize::MAX * u64::MAX) by (nonlinear_arith)
                requires
                    j <= usize::MAX,
            ;
            assert((j + 1) * u64::MAX == j * u64::MAX + u64::MAX) by (nonlinear_arith);
            assert(usize::MAX * u64::MAX <= 0xffff_ffff_ffff_ffff * 0xffff_ffff_ffff_ffff)
                by (nonlinear_arith)
                requires
                    usize::MAX <= 0xffff_ffff_ffff_ffff,
            ;
        }
        leaked = raise_total(leaked, count);
        let ghost before = pairs@;
        pairs.push(pair);
        proof {
            assert forall|k: int| receivers.len() <= k < pairs@.len() implies is_pair_result(
                state@,
                *assertion,
                forbidden[k - receivers.len()],
                Expectation::Forbidden,
                #[trigger] pairs@[k],
            ) by {
                if k < before.len() {
                    assert(pairs@[k] == before[k]);
                }
            }
            assert forall|k: int| 0 <= k < receivers.len() implies is_pair_result(
                state@,
                *assertion,
                receivers[k],
                Expectation::Expected,
                #[trigger] pairs@[k],
            ) by {
                assert(pairs@[k] == before[k]);
            }
        }
        j = j + 1;
    }
    proof {
        assert(receivers.take(receivers.len() as int) =~= receivers);
        assert(forbidden.take(forbidden.len() as int) =~= forbidden);
        let n = assertion.receivers@.len();
        assert(sent * n <= u64::MAX * usize::MAX) by (nonlinear_arith)
            requires
                sent <= u64::MAX,
                n <= usize::MAX,
        ;
        assert(u64::MAX * usize::MAX <= 0xffff_ffff_ffff_ffff * 0xffff_ffff_ffff_ffff)
            by (nonlinear_arith)
            requires
                usize::MAX <= 0xffff_ffff_ffff_ffff,
        ;
    }
    let owed = sent as u128 * assertion.receivers.len() as u128;
    AssertionResult {
        sender: assertion.sender.clone(),
        passed: seen == owed && leaked == 0,
        expected_receivers: capped_count(seen),
        forbidden_receivers: capped_count(leaked),
        pairs,
    }
}

/// Judges the routing assertions by the ledger.
pub fn evaluate_routing(assertions: &Vec<RoutingAssertion>, state: &CorrelationLedger) -> (results:
    Vec<AssertionResult>)
    ensures
        results.len() == assertions.len(),
        forall|i: int|
            0 <= i < assertions.len() ==> is_assertion_result(
                state@,
                assertions@[i],
                #[trigger] results@[i],
            ),
{
    let mut results: Vec<AssertionResult> = Vec::new();
    let mut i: usize = 0;
    while i < assertions.len()
        invariant
            i <= assertions.len(),
            results.len() == i,
            forall|k: int|
                0 <= k < i ==> is_assertion_result(
                    state@,
                    assertions@[k],
                    #[trigger] results@[k],
                ),
        decreases assertions.len() - i,
    {
        let ghost before = results@;
        let result = evaluate_assertion(&assertions[i], state);
        results.push(result);
        proof {
            assert forall|k: int| 0 <= k < i + 1 implies is_assertion_result(
                state@,
                assertions@[k],
                #[trigger] results@[k],
            ) by {
                if k < i {
                    assert(results@[k] == before[k]);
                }
            }
        }
        i = i + 1;
    }
    results
}

/// What some receivers saw, taken together, is all that there was just where each of them saw all
/// of it, and nothing just where none of them saw anything.
proof fn lemma_total(
    ledger: LedgerView,
    sender: Seq<char>,
    receivers: Seq<Seq<char>>,
    within: Option<nat>,
)
    ensures
        ledger.observed_total(sender, receivers, within) <= ledger.sent_count(sender)
            * receivers.len(),
        ledger.observed_total(sender, receivers, within) == ledger.sent_count(sender)
            * receivers.len() <==> forall|i: int|
            0 <= i < receivers.len() ==> ledger.observed_count(
                sender,
                #[trigger] receivers[i],
                within,
            ) == ledger.sent_count(sender),
        ledger.observed_total(sender, receivers, within) == 0 <==> forall|i: int|
            0 <= i < receivers.len() ==> ledger.observed_count(
                sender,
                #[trigger] receivers[i],
                within,
            ) == 0,
    decreases receivers.len(),
{
    let sent = ledger.sent_count(sender);
    if receivers.len() > 0 {
        let rest = receivers.drop_last();
        let last = receivers.last();
        lemma_total(ledger, sender, rest, within);
        lemma_count_narrower(
            ledger.ids,
            |id: u128| ledger.observed(id, sender, last, within),
            |id: u128| ledger.sent_by(id, sender),
        );
        assert(sent * receivers.len() == sent * rest.len() + sent) by (nonlinear_arith)
            requires
                receivers.len() == rest.len() + 1,
        ;
        assert(receivers[receivers.len() - 1] == last);
        assert(forall|i: int| 0 <= i < rest.len() ==> receivers[i] == #[trigger] rest[i]);
        let all = ledger.observed_total(sender, receivers, within);
        if all == sent * receivers.len() {
            assert forall|i: int| 0 <= i < receivers.len() implies ledger.observed_count(
                sender,
                #[trigger] receivers[i],
                within,
            ) == sent by {
                if i < rest.len() {
                    assert(ledger.observed_count(sender, rest[i], within) == sent);
                }
            }
        }
        if all == 0 {
            assert forall|i: int| 0 <= i < receivers.len() implies ledger.observed_count(
                sender,
                #[trigger] receivers[i],
                within,
            ) == 0 by {
                if i < rest.len() {
                    assert(ledger.observed_count(sender, rest[i], within) == 0);
                }
            }
        }
        if forall|i: int|
            0 <= i < receivers.len() ==> ledger.observed_count(
                sender,
                #[trigger] receivers[i],
                within,
            ) == sent {
            assert forall|i: int| 0 <= i < rest.len() implies ledger.observed_count(
                sender,
                #[trigger] rest[i],
                within,
            ) == sent by {
                assert(receivers[i] == rest[i]);
            }
        }
        if forall|i: int|
            0 <= i < receivers.len() ==> ledger.observed_count(
                sender,
                #[trigger] receivers[i],
                within,
            ) == 0 {
            assert forall|i: int| 0 <= i < rest.len() implies ledger.observed_count(
                sender,
                #[trigger] rest[i],
                within,
            ) == 0 by {
                assert(receivers[i] == rest[i]);
            }
        }
    } else {
        assert(sent * 0 == 0);
    }
}

/// A routing assertion passes just where each of its pairs does.
pub proof fn law_assertion_passes_with_its_pairs(
    ledger: LedgerView,
    assertion: RoutingAssertion,
    result: AssertionResult,
)
    requires
        is_assertion_result(ledger, assertion, result),
    ensures
        result.passed <==> forall|i: int|
            0 <= i < result.pairs@.len() ==> (#[trigger] result.pairs@[i]).passed,
{
    let receivers = text::texts(assertion.receivers@);
    let forbidden = text::texts(assertion.forbidden_receivers@);
    let sender = assertion.sender@;
    let limit = Some(timeout_of(assertion));
    let n = receivers.len() as int;
    lemma_total(ledger, sender, receivers, limit);
    lemma_total(ledger, sender, forbidden, None);
    if result.passed {
        assert forall|i: int| 0 <= i < result.pairs@.len() implies (
        #[trigger] result.pairs@[i]).passed by {
            if i < n {
                assert(ledger.observed_count(sender, receivers[i], limit) == ledger.sent_count(
                    sender,
                ));
            } else {
                assert(ledger.observed_count(sender, forbidden[i - n], None) == 0);
            }
        }
    }
    if forall|i: int| 0 <= i < result.pairs@.len() ==> (#[trigger] result.pairs@[i]).passed {
        assert forall|i: int| 0 <= i < receivers.len() implies ledger.observed_count(
            sender,
            #[trigger] receivers[i],
            limit,
        ) == ledger.sent_count(sender) by {
            assert(result.pairs@[i].passed);
        }
        assert forall|i: int| 0 <= i < forbidden.len() implies ledger.observed_count(
            sender,
            #[trigger] forbidden[i],
            None,
        ) == 0 by {
            assert(result.pairs@[i + n].passed);
            assert(forbidden[i + n - n] == forbidden[i]);
        }
    }
}

/// An assertion that passes had every event of its sender seen in time by each expected receiver,
/// and none seen by a forbidden one.
pub proof fn law_passed_assertions_hold(
    ledger: LedgerView,
    assertion: RoutingAssertion,
    result: AssertionResult,
    id: u128,
    k: int,
)
    requires
        ledger.wf(),
        is_assertion_result(ledger, assertion, result),
        result.passed,
        ledger.sent_by(id, assertion.sender@),
    ensures
        0 <= k < assertion.receivers@.len() ==> ledger.observed(
            id,
            assertion.sender@,
            assertion.receivers@[k]@,
            Some(timeout_of(assertion)),
        ),
        0 <= k < assertion.forbidden_receivers@.len() ==> !ledger.seen.contains_key(
            (assertion.forbidden_receivers@[k]@, id),
        ),
{
    let receivers = text::texts(assertion.receivers@);
    let forbidden = text::texts(assertion.forbidden_receivers@);
    let sender = assertion.sender@;
    let limit = Some(timeout_of(assertion));
    let ids = ledger.ids;
    assert(ids.contains(id));
    lemma_total(ledger, sender, receivers, limit);
    lemma_total(ledger, sender, forbidden, None);
    if 0 <= k < assertion.receivers@.len() {
        assert(receivers[k] == assertion.receivers@[k]@);
        let test = |id: u128| ledger.observed(id, sender, receivers[k], limit);
        let wider = |id: u128| ledger.sent_by(id, sender);
        lemma_equal_counts(ids, test, wider, id);
    }
    if 0 <= k < assertion.forbidden_receivers@.len() {
        assert(forbidden[k] == assertion.forbidden_receivers@[k]@);
        let test = |id: u128| ledger.observed(id, sender, forbidden[k], None);
        if ledger.seen.contains_key((forbidden[k], id)) {
            assert(test(id));
            lemma_counted(ids, test, id);
        }
    }
}

/// An identifier that passes a test is counted.
proof fn lemma_counted(ids: Seq<u128>, test: spec_fn(u128) -> bool, id: u128)
    requires
        ids.contains(id),
        test(id),
    ensures
        count_ids(ids, test) > 0,
    decreases ids.len(),
{
    if ids.last() != id {
        let k = choose|k: int| 0 <= k < ids.len() && ids[k] == id;
        assert(ids.drop_last()[k] == id);
        lemma_counted(ids.drop_last(), test, id);
    }
}

/// Where a narrower test is passed as often as a wider one, whatever passes the wider one passes
/// it too.
proof fn lemma_equal_counts(
    ids: Seq<u128>,
    test: spec_fn(u128) -> bool,
    wider: spec_fn(u128) -> bool,
    id: u128,
)
    requires
        forall|other: u128| #[trigger] test(other) ==> wider(other),
        count_ids(ids, test) == count_ids(ids, wider),
        ids.contains(id),
        wider(id),
    ensures
        test(id),
    decreases ids.len(),
{
    let rest = ids.drop_last();
    lemma_count_narrower(rest, test, wider);
    if ids.last() != id {
        let k = choose|k: int| 0 <= k < ids.len() && ids[k] == id;
        assert(rest[k] == id);
        lemma_equal_counts(rest, test, wider, id);
    }
}

/// What a ledger makes of a sighting depends on the receiver's own sightings and on the sending
/// alone: what the receiver has seen before is a duplicate, what was sent is delivered after the time
/// since then, and anything else is unknown.
pub proof fn law_sightings_are_told_apart(
    ledger: LedgerView,
    receiver: Seq<char>,
    id: u128,
    at: nat,
    result: Observation,
)
    requires
        is_observation(ledger, receiver, id, at, result),
    ensures
        result == Observation::Duplicate <==> ledger.seen.contains_key((receiver, id)),
        result == Observation::Unknown <==> !ledger.seen.contains_key((receiver, id))
            && !ledger.sent.contains_key(id),
        result matches Observation::Delivered(elapsed) ==> ledger.sent.contains_key(id) && (
        ledger.sent[id].1 <= at ==> ledger.sent[id].1 + elapsed@ == at) && (ledger.sent[id].1 > at
            ==> elapsed@ == 0),
{
}

/// A ledger remembers who sent an event and when, and who saw it when, and nothing else changes.
pub proof fn law_ledger_remembers(
    ledger: LedgerView,
    id: u128,
    name: Seq<char>,
    at: nat,
    other: u128,
    other_name: Seq<char>,
)
    ensures
        ({
            let sent = ledger.with_sent(id, name, at);
            &&& sent.sent.contains_key(id) && sent.sent[id] == (name, at)
            &&& other != id ==> sent.sent.contains_key(other) == ledger.sent.contains_key(other)
            &&& other != id && ledger.sent.contains_key(other) ==> sent.sent[other]
                == ledger.sent[other]
            &&& sent.seen == ledger.seen
        }),
        ({
            let seen = ledger.with_seen(name, id, at);
            &&& seen.seen.contains_key((name, id)) && seen.seen[(name, id)] == at
            &&& (other, other_name) != (id, name) ==> seen.seen.contains_key((other_name, other))
                == ledger.seen.contains_key((other_name, other))
            &&& (other, other_name) != (id, name) && ledger.seen.contains_key((other_name, other))
                ==> seen.seen[(other_name, other)] == ledger.seen[(other_name, other)]
            &&& seen.sent == ledger.sent
            &&& seen.ids == ledger.ids
        }),
{
}

/// Identifiers that occur once are counted as the set of those that pass the test.
proof fn lemma_count_is_set(ids: Seq<u128>, test: spec_fn(u128) -> bool, passing: Set<u128>)
    requires
        ids.no_duplicates(),
        forall|id: u128| #[trigger] passing.contains(id) <==> ids.contains(id) && test(id),
    ensures
        passing.finite(),
        passing.len() == count_ids(ids, test),
    decreases ids.len(),
{
    if ids.len() == 0 {
        assert(passing =~= Set::empty());
    } else {
        let rest = ids.drop_last();
        let last = ids.last();
        assert(ids[ids.len() - 1] == last);
        let fewer = passing.remove(last);
        assert forall|id: u128| #[trigger] fewer.contains(id) <==> rest.contains(id) && test(id) by {
            if rest.contains(id) {
                let k = choose|k: int| 0 <= k < rest.len() && rest[k] == id;
                assert(ids[k] == id);
                assert(id != last);
            }
            if ids.contains(id) && id != last {
                let k = choose|k: int| 0 <= k < ids.len() && ids[k] == id;
                assert(rest[k] == id);
            }
        }
        lemma_count_is_set(rest, test, fewer);
        if test(last) {
            assert(passing =~= fewer.insert(last));
        } else {
            assert(passing =~= fewer);
        }
    }
}

/// The events of a sender.
pub open spec fn events_of(ledger: LedgerView, sender: Seq<char>) -> Set<u128> {
    Set::new(|id: u128| ledger.sent.contains_key(id) && ledger.sent[id].0 == sender)
}

/// The events of a sender that a receiver saw, no later than a span after their sending if one is
/// given.
pub open spec fn sightings_of(
    ledger: LedgerView,
    sender: Seq<char>,
    receiver: Seq<char>,
    allowed: Option<nat>,
) -> Set<u128> {
    Set::new(
        |id: u128|
            ledger.sent.contains_key(id) && ledger.sent[id].0 == sender
                && ledger.seen.contains_key((receiver, id)) && (allowed matches Some(span)
                ==> ledger.seen[(receiver, id)] <= ledger.sent[id].1 + span),
    )
}

/// A pair is told with the number of the sender's events that its receiver saw: an expected one
/// within the time allowed, 30 seconds where none is set, a forbidden one at whatever time. It
/// passes where an expected receiver saw all of them so, and a forbidden one saw none.
pub proof fn law_pairs_count_sightings(
    ledger: LedgerView,
    assertion: RoutingAssertion,
    receiver: Seq<char>,
    expectation: Expectation,
    result: PairResult,
)
    requires
        ledger.wf(),
        is_pair_result(ledger, assertion, receiver, expectation, result),
    ensures
        ({
            let allowed = match assertion.timeout {
                Some(span) => span@,
                None => 30_000_000_000,
            };
            let sent = events_of(ledger, assertion.sender@);
            let seen = sightings_of(
                ledger,
                assertion.sender@,
                receiver,
                if expectation is Expected {
                    Some(allowed)
                } else {
                    None
                },
            );
            &&& seen.finite() && sent.finite()
            &&& result.received_count == seen.len()
            &&& expectation is Expected ==> (result.passed <==> seen == sent)
            &&& expectation is Forbidden ==> (result.passed <==> seen == Set::<u128>::empty())
        }),
{
    let sender = assertion.sender@;
    let limit = match expectation {
        Expectation::Expected => Some(timeout_of(assertion)),
        Expectation::Forbidden => None,
    };
    let sent = events_of(ledger, sender);
    let seen = sightings_of(ledger, sender, receiver, limit);
    let test = |id: u128| ledger.observed(id, sender, receiver, limit);
    let wider = |id: u128| ledger.sent_by(id, sender);
    assert forall|id: u128| #[trigger] seen.contains(id) <==> ledger.ids.contains(id) && test(id) by {
        assert(ledger.ids.contains(id) <==> ledger.sent.contains_key(id));
    }
    assert forall|id: u128| #[trigger] sent.contains(id) <==> ledger.ids.contains(id) && wider(id) by {
        assert(ledger.ids.contains(id) <==> ledger.sent.contains_key(id));
    }
    lemma_count_is_set(ledger.ids, test, seen);
    lemma_count_is_set(ledger.ids, wider, sent);
    if seen.len() == sent.len() {
        vstd::set_lib::lemma_subset_equality(seen, sent);
    }
    if seen.len() == 0 {
        assert(seen =~= Set::<u128>::empty());
    }
}

/// An assertion passes just where each expected receiver saw every event of the sender within the
/// time allowed, 30 seconds where none is set, and no forbidden one saw any.
pub proof fn law_assertions_pass_just_where_they_hold(
    ledger: LedgerView,
    assertion: RoutingAssertion,
    result: AssertionResult,
)
    requires
        ledger.wf(),
        is_assertion_result(ledger, assertion, result),
    ensures
        result.passed <==> {
            let allowed = match assertion.timeout {
                Some(span) => span@,
                None => 30_000_000_000,
            };
            &&& forall|id: u128, k: int|
                #![trigger ledger.sent.contains_key(id), assertion.receivers@[k]]
                ledger.sent.contains_key(id) && ledger.sent[id].0 == assertion.sender@ && 0 <= k
                    < assertion.receivers@.len() ==> ledger.seen.contains_key(
                    (assertion.receivers@[k]@, id),
                ) && ledger.seen[(assertion.receivers@[k]@, id)] <= ledger.sent[id].1 + allowed
            &&& forall|id: u128, k: int|
                #![trigger ledger.sent.contains_key(id), assertion.forbidden_receivers@[k]]
                ledger.sent.contains_key(id) && ledger.sent[id].0 == assertion.sender@ && 0 <= k
                    < assertion.forbidden_receivers@.len() ==> !ledger.seen.contains_key(
                    (assertion.forbidden_receivers@[k]@, id),
                )
        },
{
    let allowed = match assertion.timeout {
        Some(span) => span@,
        None => 30_000_000_000,
    };
    let receivers = text::texts(assertion.receivers@);
    let forbidden = text::texts(assertion.forbidden_receivers@);
    let sender = assertion.sender@;
    let limit = Some(timeout_of(assertion));
    let in_time = forall|id: u128, k: int|
        #![trigger ledger.sent.contains_key(id), assertion.receivers@[k]]
        ledger.sent.contains_key(id) && ledger.sent[id].0 == sender && 0 <= k
            < assertion.receivers@.len() ==> ledger.seen.contains_key(
            (assertion.receivers@[k]@, id),
        ) && ledger.seen[(assertion.receivers@[k]@, id)] <= ledger.sent[id].1 + allowed;
    let unseen = forall|id: u128, k: int|
        #![trigger ledger.sent.contains_key(id), assertion.forbidden_receivers@[k]]
        ledger.sent.contains_key(id) && ledger.sent[id].0 == sender && 0 <= k
            < assertion.forbidden_receivers@.len() ==> !ledger.seen.contains_key(
            (assertion.forbidden_receivers@[k]@, id),
        );
    lemma_total(ledger, sender, receivers, limit);
    lemma_total(ledger, sender, forbidden, None);
    if result.passed {
        assert forall|id: u128, k: int|
            #![trigger ledger.sent.contains_key(id), assertion.receivers@[k]]
            ledger.sent.contains_key(id) && ledger.sent[id].0 == sender && 0 <= k
                < assertion.receivers@.len() implies ledger.seen.contains_key(
            (assertion.receivers@[k]@, id),
        ) && ledger.seen[(assertion.receivers@[k]@, id)] <= ledger.sent[id].1 + allowed by {
            law_passed_assertions_hold(ledger, assertion, result, id, k);
        }
        assert forall|id: u128, k: int|
            #![trigger ledger.sent.contains_key(id), assertion.forbidden_receivers@[k]]
            ledger.sent.contains_key(id) && ledger.sent[id].0 == sender && 0 <= k
                < assertion.forbidden_receivers@.len() implies !ledger.seen.contains_key(
            (assertion.forbidden_receivers@[k]@, id),
        ) by {
            law_passed_assertions_hold(ledger, assertion, result, id, k);
        }
    }
    if in_time && unseen {
        assert forall|k: int| 0 <= k < receivers.len() implies ledger.observed_count(
            sender,
            #[trigger] receivers[k],
            limit,
        ) == ledger.sent_count(sender) by {
            assert(receivers[k] == assertion.receivers@[k]@);
            let test = |id: u128| ledger.observed(id, sender, receivers[k], limit);
            let wider = |id: u128| ledger.sent_by(id, sender);
            assert forall|id: u128| #[trigger] wider(id) implies test(id) by {
                assert(ledger.sent.contains_key(id));
            }
            lemma_count_narrower(ledger.ids, test, wider);
            lemma_count_narrower(ledger.ids, wider, test);
        }
        assert forall|k: int| 0 <= k < forbidden.len() implies ledger.observed_count(
            sender,
            #[trigger] forbidden[k],
            None,
        ) == 0 by {
            assert(forbidden[k] == assertion.forbidden_receivers@[k]@);
            let test = |id: u128| ledger.observed(id, sender, forbidden[k], None);
            let none = |id: u128| false;
            assert forall|id: u128| #[trigger] test(id) implies none(id) by {
                assert(ledger.sent.contains_key(id));
            }
            lemma_count_narrower(ledger.ids, test, none);
            lemma_none_counted(ledger.ids, none);
        }
    }
}

/// No identifier passes a test that nothing passes.
proof fn lemma_none_counted(ids: Seq<u128>, test: spec_fn(u128) -> bool)
    requires
        forall|id: u128| !#[trigger] test(id),
    ensures
        count_ids(ids, test) == 0,
    decreases ids.len(),
{
    if ids.len() > 0 {
        lemma_none_counted(ids.drop_last(), test);
    }
}

/// What the receivers of some pairs saw, taken together.
pub open spec fn received_in(pairs: Seq<PairResult>) -> nat
    decreases pairs.len(),
{
    if pairs.len() == 0 {
        0
    } else {
        received_in(pairs.drop_last()) + pairs.last().received_count as nat
    }
}

/// An assertion is told pair by pair, first the expected receivers and then the forbidden ones, each
/// in the order in which the assertion names them, and its two counts are the sums over these.
pub proof fn law_assertions_sum_their_pairs(
    ledger: LedgerView,
    assertion: RoutingAssertion,
    result: AssertionResult,
    index: int,
)
    requires
        is_assertion_result(ledger, assertion, result),
    ensures
        ({
            let expected = assertion.receivers@.len() as int;
            let all = expected + assertion.forbidden_receivers@.len();
            let seen = received_in(result.pairs@.take(expected));
            let leaked = received_in(result.pairs@.skip(expected));
            &&& result.sender@ == assertion.sender@
            &&& result.pairs@.len() == all
            &&& 0 <= index < expected ==> result.pairs@[index].expectation is Expected
                && result.pairs@[index].receiver@ == assertion.receivers@[index]@
            &&& expected <= index < all ==> result.pairs@[index].expectation is Forbidden
                && result.pairs@[index].receiver@ == assertion.forbidden_receivers@[index
                - expected]@
            &&& 0 <= index < all ==> result.pairs@[index].sender@ == assertion.sender@
            &&& seen <= u64::MAX ==> result.expected_receivers == seen
            &&& seen > u64::MAX ==> result.expected_receivers == u64::MAX
            &&& leaked <= u64::MAX ==> result.forbidden_receivers == leaked
            &&& leaked > u64::MAX ==> result.forbidden_receivers == u64::MAX
        }),
{
    let receivers = text::texts(assertion.receivers@);
    let forbidden = text::texts(assertion.forbidden_receivers@);
    let expected = receivers.len() as int;
    let sender = assertion.sender@;
    let first = result.pairs@.take(expected);
    let second = result.pairs@.skip(expected);
    assert forall|i: int| 0 <= i < first.len() implies (#[trigger] first[i]).received_count
        == ledger.observed_count(sender, receivers[i], Some(timeout_of(assertion))) by {
        assert(first[i] == result.pairs@[i]);
    }
    assert forall|i: int| 0 <= i < second.len() implies (#[trigger] second[i]).received_count
        == ledger.observed_count(sender, forbidden[i], None) by {
        assert(second[i] == result.pairs@[i + expected]);
    }
    lemma_received_in(ledger, sender, receivers, Some(timeout_of(assertion)), first);
    lemma_received_in(ledger, sender, forbidden, None, second);
}

/// What the receivers of some pairs saw, taken together, is the total.
proof fn lemma_received_in(
    ledger: LedgerView,
    sender: Seq<char>,
    receivers: Seq<Seq<char>>,
    within: Option<nat>,
    pairs: Seq<PairResult>,
)
    requires
        pairs.len() == receivers.len(),
        forall|i: int|
            0 <= i < pairs.len() ==> (#[trigger] pairs[i]).received_count == ledger.observed_count(
                sender,
                receivers[i],
                within,
            ),
    ensures
        received_in(pairs) == ledger.observed_total(sender, receivers, within),
    decreases pairs.len(),
{
    if pairs.len() > 0 {
        let rest = pairs.drop_last();
        let others = receivers.drop_last();
        assert forall|i: int| 0 <= i < rest.len() implies (#[trigger] rest[i]).received_count
            == ledger.observed_count(sender, others[i], within) by {
            assert(rest[i] == pairs[i]);
            assert(others[i] == receivers[i]);
        }
        lemma_received_in(ledger, sender, others, within, rest);
        assert(pairs[pairs.len() - 1] == pairs.last());
        assert(receivers[receivers.len() - 1] == receivers.last());
    }
}

} // verus!
