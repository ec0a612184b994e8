//! The task lifecycle: a task is created pending, claimed by exactly one
//! daemon per due instance, and on completion either advances to its next
//! fire time, finishes, or stops; the owning client can cancel it from any
//! non-terminal state. Every transition is conditional on the expected
//! pre-state, so racing attempts serialize to one winner.

use vstd::prelude::*;

use crate::errors::Error;
use crate::schedule::{is_next_fire, next_fire, Schedule};

verus! {

#[derive(Clone, Copy, Debug, PartialEq, Eq, Structural)]
pub enum TaskStatus {
    /// Created, waiting for its fire time.
    Pending,
    /// Its fire time was reached and one daemon holds the claim.
    Due,
    /// A one-shot task that was executed (terminal).
    Executed,
    /// A recurring task whose schedule or expiry ran out (terminal).
    Stopped,
    /// Cancelled by the owning client (terminal).
    Cancelled,
}

impl TaskStatus {
    /// Whether no further transition can leave this state.
    pub open spec fn is_terminal(self) -> bool {
        self is Executed || self is Stopped || self is Cancelled
    }
}

/// One scheduled job.
pub struct Task {
    /// The client that owns the task.
    pub owner: u64,
    /// The daemon assigned at creation or by the latest claim.
    pub daemon: u64,
    /// Task id, unique per client.
    pub id: u64,
    pub status: TaskStatus,
    /// Opaque action payload, relayed to the executor unread.
    pub payload: Vec<u8>,
    /// The recurrence; absent for a one-shot task.
    pub recurrence: Option<Schedule>,
    /// The next unconsumed fire time.
    pub exec_at: i64,
    /// Optional expiry: no fire time past it is ever consumed.
    pub stop_at: Option<i64>,
    /// How many times the task has been executed.
    pub exec_count: u64,
}

impl Task {
    pub open spec fn wf(&self) -> bool {
        match self.recurrence {
            Some(s) => s.wf(),
            None => true,
        }
    }
}

/// What one claim attempt does: only a pending, due task changes hands.
pub open spec fn claim_transition(t: Task, daemon: u64, now: int) -> (Task, Result<(), Error>) {
    if t.status is Pending {
        if now >= t.exec_at {
            (Task { status: TaskStatus::Due, daemon, ..t }, Ok(()))
        } else {
            (t, Err(Error::NotDue))
        }
    } else if t.status is Due {
        (t, Err(Error::AlreadyClaimed))
    } else {
        (t, Err(Error::NotDue))
    }
}

/// How a task looks after one completed execution: the counter is up by one
/// and the state moved on — a one-shot task is executed; a recurring one is
/// pending again at exactly the next fire time within its expiry, or stopped
/// when the schedule or the expiry ran out.
pub open spec fn advanced_from(new: Task, prev: Task) -> bool {
    &&& new.owner == prev.owner
    &&& new.daemon == prev.daemon
    &&& new.id == prev.id
    &&& new.payload == prev.payload
    &&& new.recurrence == prev.recurrence
    &&& new.stop_at == prev.stop_at
    &&& new.exec_count == prev.exec_count + 1
    &&& (prev.recurrence is None ==> new.status is Executed && new.exec_at == prev.exec_at)
    &&& (prev.recurrence matches Some(s) ==> ({
        &&& (new.status is Pending || new.status is Stopped)
        &&& (new.status is Pending ==> is_next_fire(s@, prev.exec_at as int, new.exec_at as int) && (
        prev.stop_at matches Some(e) ==> new.exec_at <= e))
        &&& (new.status is Stopped ==> new.exec_at == prev.exec_at && forall|t: int|
            is_next_fire(s@, prev.exec_at as int, t) ==> (prev.stop_at matches Some(e) && e < t))
    }))
}

impl Task {
    /// Creates a task. For a recurring task the first fire time is computed
    /// from `now`; a one-shot task fires at `fire_at`. Rejected with
    /// `InvalidSchedule` when the schedule admits no fire time or the expiry
    /// precedes the first one.
    pub fn create(
        owner: u64,
        id: u64,
        daemon: u64,
        payload: Vec<u8>,
        recurrence: Option<Schedule>,
        fire_at: i64,
        stop_at: Option<i64>,
        now: i64,
    ) -> (r: Result<Task, Error>)
        requires
            recurrence matches Some(s) ==> s.wf(),
        ensures
            r matches Ok(t) ==> ({
                &&& t.owner == owner
                &&& t.id == id
                &&& t.daemon == daemon
                &&& t.status is Pending
                &&& t.payload == payload
                &&& t.stop_at == stop_at
                &&& t.exec_count == 0
                &&& t.recurrence == recurrence
                &&& (recurrence is None ==> t.exec_at == fire_at)
                &&& (recurrence matches Some(s) ==> is_next_fire(s@, now as int, t.exec_at as int))
                &&& (stop_at matches Some(e) ==> t.exec_at <= e)
                &&& t.wf()
            }),
            r is Err ==> r == Err::<Task, Error>(Error::InvalidSchedule),
            recurrence is None ==> (r is Ok <==> (stop_at matches Some(e) ==> fire_at <= e)),
            recurrence matches Some(s) ==> (r is Err ==> forall|t: int|
                is_next_fire(s@, now as int, t) ==> (stop_at matches Some(e) && e < t)),
    {
        let exec_at: i64 = match &recurrence {
            Some(s) => {
                match next_fire(s, now) {
                    Some(t) => t,
                    None => {
                        return Err(Error::InvalidSchedule);
                    },
                }
            },
            None => fire_at,
        };
        match stop_at {
            Some(e) => {
                if e < exec_at {
                    proof {
                        if recurrence is Some {
                            let s = recurrence->Some_0;
                            assert forall|t: int| is_next_fire(s@, now as int, t) implies (
                            stop_at matches Some(e2) && e2 < t) by {
                                crate::schedule::lemma_next_fire_unique(
                                    s@,
                                    now as int,
                                    t,
                                    exec_at as int,
                                );
                            }
                        }
                    }
                    return Err(Error::InvalidSchedule);
                }
            },
            None => {},
        }
        Ok(
            Task {
                owner,
                daemon,
                id,
                status: TaskStatus::Pending,
                payload,
                recurrence,
                exec_at,
                stop_at,
                exec_count: 0,
            },
        )
    }

    /// One claim attempt by `daemon` at time `now`. Succeeds only on a
    /// pending task whose fire time has been reached; a task already claimed
    /// is refused with `AlreadyClaimed`, everything else with `NotDue`.
    pub fn claim(&mut self, daemon: u64, now: i64) -> (r: Result<(), Error>)
        ensures
            (*final(self), r) == claim_transition(*old(self), daemon, now as int),
    {
        match self.status {
            TaskStatus::Pending => {
                if now >= self.exec_at {
                    self.status = TaskStatus::Due;
                    self.daemon = daemon;
                    Ok(())
                } else {
                    Err(Error::NotDue)
                }
            },
            TaskStatus::Due => Err(Error::AlreadyClaimed),
            _ => Err(Error::NotDue),
        }
    }

    /// Consumes the claimed fire instance: a recurring task moves back to
    /// pending at its next fire time (or stops when the schedule or the
    /// expiry runs out); a one-shot task is executed.
    pub fn advance(&mut self)
        requires
            old(self).status is Due,
            old(self).wf(),
            old(self).exec_count < u64::MAX,
        ensures
            advanced_from(*final(self), *old(self)),
            final(self).wf(),
    {
        self.exec_count = self.exec_count + 1;
        let next: Option<i64> = match &self.recurrence {
            Some(s) => next_fire(s, self.exec_at),
            None => {
                self.status = TaskStatus::Executed;
                return ;
            },
        };
        let ghost s = self.recurrence->Some_0;
        match next {
            Some(t) => {
                let within = match self.stop_at {
                    Some(e) => t <= e,
                    None => true,
                };
                if within {
                    self.status = TaskStatus::Pending;
                    self.exec_at = t;
                } else {
                    self.status = TaskStatus::Stopped;
                    proof {
                        assert forall|u: int| is_next_fire(s@, old(self).exec_at as int, u) implies (
                        old(self).stop_at matches Some(e) && e < u) by {
                            crate::schedule::lemma_next_fire_unique(
                                s@,
                                old(self).exec_at as int,
                                u,
                                t as int,
                            );
                        }
                    }
                }
            },
            None => {
                self.status = TaskStatus::Stopped;
            },
        }
    }

    /// Cancels the task on behalf of `requester`: only the owning client
    /// may cancel, and only while the task is not in a terminal state.
    pub fn cancel(&mut self, requester: u64) -> (r: Result<(), Error>)
        ensures
            requester != old(self).owner ==> r == Err::<(), Error>(Error::Unauthorized)
                && *final(self) == *old(self),
            requester == old(self).owner && old(self).status.is_terminal() ==> r == Err::<(), Error>(Error::NotFound)
                && *final(self) == *old(self),
            requester == old(self).owner && !old(self).status.is_terminal() ==> r is Ok
                && *final(self) == (Task { status: TaskStatus::Cancelled, ..*old(self) }),
    {
        if requester != self.owner {
            return Err(Error::Unauthorized);
        }
        match self.status {
            TaskStatus::Pending => {
                self.status = TaskStatus::Cancelled;
                Ok(())
            },
            TaskStatus::Due => {
                self.status = TaskStatus::Cancelled;
                Ok(())
            },
            _ => Err(Error::NotFound),
        }
    }
}

/// The tasks and results of a series of claim attempts applied in order.
pub open spec fn apply_claims(t: Task, claimants: Seq<u64>, now: int) -> (Task, Seq<
    Result<(), Error>,
>)
    decreases claimants.len(),
{
    if claimants.len() == 0 {
        (t, Seq::empty())
    } else {
        let first = claim_transition(t, claimants[0], now);
        let rest = apply_claims(first.0, claimants.drop_first(), now);
        (rest.0, seq![first.1] + rest.1)
    }
}

proof fn lemma_claims_on_claimed(t: Task, claimants: Seq<u64>, now: int)
    requires
        t.status is Due,
    ensures
        apply_claims(t, claimants, now).0 == t,
        apply_claims(t, claimants, now).1.len() == claimants.len(),
        forall|i: int| 0 <= i < claimants.len() ==> apply_claims(t, claimants, now).1[i] == Err::<
            (),
            Error,
        >(Error::AlreadyClaimed),
    decreases claimants.len(),
{
    if claimants.len() > 0 {
        lemma_claims_on_claimed(t, claimants.drop_first(), now);
    }
}

/// Of any number of claim attempts racing for one due, pending task, exactly
/// the first one succeeds and is assigned the task; all the others fail with
/// `AlreadyClaimed` and change nothing.
pub proof fn lemma_claim_race(t: Task, claimants: Seq<u64>, now: int)
    requires
        t.status is Pending,
        now >= t.exec_at,
        claimants.len() > 0,
    ensures
        ({
            let (t2, rs) = apply_claims(t, claimants, now);
            &&& rs.len() == claimants.len()
            &&& rs[0] == Ok::<(), Error>(())
            &&& forall|i: int| 1 <= i < rs.len() ==> rs[i] == Err::<(), Error>(
                Error::AlreadyClaimed,
            )
            &&& t2 == Task { status: TaskStatus::Due, daemon: claimants[0], ..t }
        }),
{
    let w = claim_transition(t, claimants[0], now);
    lemma_claims_on_claimed(w.0, claimants.drop_first(), now);
}

} // verus!
