//! The barrier that holds senders until named participants are ready.
use crate::config::SynchronizationConfig;
use crate::duration::Duration;
use crate::text::{self, clone_texts, contains_text};
use vstd::prelude::*;
use vstd::string::*;

verus! {

/// Who has to be ready before anything is sent, and who is.
#[derive(Debug)]
pub struct Barrier {
    required: Vec<String>,
    ready: Vec<String>,
    timeout: Duration,
}

/// Whether a sender may send.
#[derive(Clone, Copy, Debug, PartialEq, Eq, Structural)]
pub enum Gate {
    /// Everyone who has to be ready is.
    Open,
    /// Someone is not ready yet.
    Wait,
    /// Someone is not ready, and the time to wait for it is over.
    TimedOut,
}

impl Barrier {
    /// Who has to be ready.
    pub closed spec fn required_ids(&self) -> Seq<Seq<char>> {
        text::texts(self.required@)
    }

    /// Who is ready.
    pub closed spec fn ready_ids(&self) -> Set<Seq<char>> {
        text::texts(self.ready@).to_set()
    }

    /// How long to wait.
    pub closed spec fn patience(&self) -> nat {
        self.timeout@
    }

    /// Whether everyone who has to be ready is.
    pub open spec fn is_open(&self) -> bool {
        forall|i: int|
            0 <= i < self.required_ids().len() ==> self.ready_ids().contains(
                #[trigger] self.required_ids()[i],
            )
    }

    /// Whether a sender may send that has waited for a time.
    pub open spec fn gate_after(&self, waited: nat) -> Gate {
        if self.is_open() {
            Gate::Open
        } else if waited >= self.patience() {
            Gate::TimedOut
        } else {
            Gate::Wait
        }
    }

    pub fn new(synchronization: &SynchronizationConfig) -> (barrier: Barrier)
        ensures
            barrier.required_ids() == text::texts(synchronization.wait_for_ready@),
            barrier.ready_ids() == Set::<Seq<char>>::empty(),
            barrier.patience() == synchronization.timeout@,
    {
        let barrier = Barrier {
            required: clone_texts(&synchronization.wait_for_ready),
            ready: Vec::new(),
            timeout: synchronization.timeout,
        };
        assert(barrier.ready_ids() =~= Set::<Seq<char>>::empty());
        barrier
    }

    /// Notes that a participant is ready.
    pub fn note_ready(&mut self, id: &str)
        ensures
            final(self).required_ids() == old(self).required_ids(),
            final(self).patience() == old(self).patience(),
            final(self).ready_ids() == old(self).ready_ids().insert(id@),
    {
        let ghost before = text::texts(self.ready@);
        if !contains_text(&self.ready, id) {
            self.ready.push(id.to_owned());
            proof {
                let after = text::texts(self.ready@);
                assert(after =~= before.push(id@));
                assert(after.to_set() =~= before.to_set().insert(id@)) by {
                    assert forall|name: Seq<char>| after.to_set().contains(name)
                        == before.to_set().insert(id@).contains(name) by {
                        if before.contains(name) {
                            let k = choose|k: int| 0 <= k < before.len() && before[k] == name;
                            assert(after[k] == name);
                        }
                        if name == id@ {
                            assert(after[before.len() as int] == name);
                        }
                        if after.contains(name) && name != id@ {
                            let k = choose|k: int| 0 <= k < after.len() && after[k] == name;
                            assert(before[k] == name);
                        }
                    }
                }
            }
        } else {
            assert(before.to_set().insert(id@) =~= before.to_set());
        }
    }

    /// Decides whether a sender may send that has waited for a time.
    pub fn gate(&self, waited: &Duration) -> (gate: Gate)
        ensures
            gate == self.gate_after(waited@),
    {
        let mut i: usize = 0;
        while i < self.required.len()
            invariant
                i <= self.required.len(),
                forall|k: int|
                    0 <= k < i ==> self.ready_ids().contains(#[trigger] self.required_ids()[k]),
            decreases self.required.len() - i,
        {
            assert(self.required_ids()[i as int] == self.required@[i as int]@);
            if !contains_text(&self.ready, self.required[i].as_str()) {
                assert(!self.ready_ids().contains(self.required_ids()[i as int]));
                return if self.timeout.exceeds(waited) {
                    Gate::Wait
                } else {
                    Gate::TimedOut
                };
            }
            assert(self.ready_ids().contains(self.required_ids()[i as int]));
            i = i + 1;
        }
        Gate::Open
    }
}

/// A barrier that waits for nobody is open.
pub proof fn law_no_names_no_wait(barrier: Barrier)
    requires
        barrier.required_ids().len() == 0,
    ensures
        barrier.is_open(),
{
}

/// A barrier that is open stays so, whoever else gets ready.
pub proof fn law_open_stays_open(before: Barrier, after: Barrier, id: Seq<char>)
    requires
        before.is_open(),
        after.required_ids() == before.required_ids(),
        after.ready_ids() == before.ready_ids().insert(id),
    ensures
        after.is_open(),
{
}

/// A sender may send just when everyone is ready who has to be, however long it has waited. Until
/// then it waits as long as it has patience, and no longer.
pub proof fn law_senders_wait_for_everyone(barrier: Barrier, waited: nat)
    ensures
        barrier.gate_after(waited) == Gate::Open <==> forall|i: int|
            0 <= i < barrier.required_ids().len() ==> barrier.ready_ids().contains(
                #[trigger] barrier.required_ids()[i],
            ),
        barrier.gate_after(waited) == Gate::Wait ==> waited < barrier.patience(),
        barrier.gate_after(waited) == Gate::TimedOut ==> waited >= barrier.patience(),
{
}

/// A barrier opens with the last of those that it waits for: while one of them is not ready it stays
/// shut, and once that one is noted and all others were ready, it is open.
pub proof fn law_the_last_one_opens(before: Barrier, after: Barrier, last: int)
    requires
        0 <= last < before.required_ids().len(),
        !before.ready_ids().contains(before.required_ids()[last]),
        forall|i: int|
            0 <= i < before.required_ids().len() && before.required_ids()[i]
                != before.required_ids()[last] ==> before.ready_ids().contains(
                #[trigger] before.required_ids()[i],
            ),
        after.required_ids() == before.required_ids(),
        after.ready_ids() == before.ready_ids().insert(before.required_ids()[last]),
    ensures
        !before.is_open(),
        after.is_open(),
{
}

} // verus!
