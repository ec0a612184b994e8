//! The system singletons and the operation surface: bootstrap, daemon
//! registration and heartbeats, snapshot rotation, task claiming and
//! completion with fee settlement. Every operation is a single atomic
//! transition: it either applies fully or rejects leaving everything as it
//! was.

use vstd::prelude::*;

use crate::errors::Error;
use crate::fees::{balance_of, skim_of, sum_balances, Fees};
use crate::health::{is_stale, stale_at};
use crate::task::{claim_transition, advanced_from, Task, TaskStatus};

verus! {

/// Process-wide configuration, fixed at bootstrap.
pub struct Config {
    /// The administrator identity.
    pub admin: u64,
    /// The currency reference all balances are denominated in.
    pub mint: u64,
    /// The fee a client pays per task execution.
    pub task_fee: u64,
    /// The treasury's share of each fee, in basis points.
    pub skim_bps: u64,
    /// The length of one snapshot epoch, in seconds.
    pub epoch_length: i64,
    /// How old a heartbeat may be before the daemon counts as stale.
    pub stale_threshold: i64,
}

/// One worker identity.
#[derive(Clone, Copy, Debug, PartialEq, Eq, Structural)]
pub struct Daemon {
    pub owner: u64,
    /// Fees accrued from executed tasks.
    pub balance: u64,
    /// The snapshot epoch current at registration.
    pub epoch: u64,
    /// The time of the latest heartbeat.
    pub last_seen: i64,
}

/// An immutable record of the daemon set admitted for one epoch.
pub struct Snapshot {
    pub index: u64,
    pub start: i64,
    pub end: i64,
    pub daemons: Vec<u64>,
}

/// The rotation bookkeeping singleton.
pub struct Registry {
    pub snapshot_index: u64,
    pub daemon_count: u64,
}

/// The currently eligible worker set, refreshed at each rotation.
pub struct Pool {
    pub workers: Vec<u64>,
}

/// All singleton state of one scheduler instance.
pub struct System {
    pub config: Config,
    pub registry: Registry,
    pub snapshots: Vec<Snapshot>,
    pub daemons: Vec<Daemon>,
    pub pool: Pool,
    pub fees: Fees,
}

/// The record of `owner` (the first matching one governs).
pub open spec fn daemon_of(s: Seq<Daemon>, owner: u64) -> Option<Daemon>
    decreases s.len(),
{
    if s.len() == 0 {
        None
    } else if s[0].owner == owner {
        Some(s[0])
    } else {
        daemon_of(s.drop_first(), owner)
    }
}

/// The sum of all daemon balances.
pub open spec fn sum_daemon_balances(s: Seq<Daemon>) -> int
    decreases s.len(),
{
    if s.len() == 0 {
        0
    } else {
        s[0].balance + sum_daemon_balances(s.drop_first())
    }
}

proof fn lemma_daemon_of_first(s: Seq<Daemon>, i: int)
    requires
        0 <= i < s.len(),
        forall|j: int| 0 <= j < i ==> s[j].owner != s[i].owner,
    ensures
        daemon_of(s, s[i].owner) == Some(s[i]),
    decreases i,
{
    if i > 0 {
        lemma_daemon_of_first(s.drop_first(), i - 1);
    }
}

proof fn lemma_daemon_of_absent(s: Seq<Daemon>, owner: u64)
    requires
        forall|j: int| 0 <= j < s.len() ==> s[j].owner != owner,
    ensures
        daemon_of(s, owner) is None,
    decreases s.len(),
{
    if s.len() > 0 {
        lemma_daemon_of_absent(s.drop_first(), owner);
    }
}

proof fn lemma_daemon_of_update(s: Seq<Daemon>, i: int, d: Daemon)
    requires
        0 <= i < s.len(),
        d.owner == s[i].owner,
        forall|j: int| 0 <= j < i ==> s[j].owner != s[i].owner,
    ensures
        daemon_of(s.update(i, d), s[i].owner) == Some(d),
        forall|o: u64| o != s[i].owner ==> daemon_of(s.update(i, d), o) == daemon_of(s, o),
        sum_daemon_balances(s.update(i, d)) == sum_daemon_balances(s) - s[i].balance + d.balance,
    decreases i,
{
    let t = s.update(i, d);
    if i == 0 {
        assert(t.drop_first() =~= s.drop_first());
    } else {
        assert(t.drop_first() =~= s.drop_first().update(i - 1, d));
        lemma_daemon_of_update(s.drop_first(), i - 1, d);
    }
    assert forall|o: u64| o != s[i].owner implies daemon_of(t, o) == daemon_of(s, o) by {
        assert(daemon_of(t, o) == if t[0].owner == o {
            Some(t[0])
        } else {
            daemon_of(t.drop_first(), o)
        });
        assert(daemon_of(s, o) == if s[0].owner == o {
            Some(s[0])
        } else {
            daemon_of(s.drop_first(), o)
        });
    }
    assert(daemon_of(t, s[i].owner) == if t[0].owner == s[i].owner {
        Some(t[0])
    } else {
        daemon_of(t.drop_first(), s[i].owner)
    });
    assert(sum_daemon_balances(t) == t[0].balance + sum_daemon_balances(t.drop_first()));
    assert(sum_daemon_balances(s) == s[0].balance + sum_daemon_balances(s.drop_first()));
}

proof fn lemma_daemon_of_push(s: Seq<Daemon>, d: Daemon)
    requires
        forall|j: int| 0 <= j < s.len() ==> s[j].owner != d.owner,
    ensures
        daemon_of(s.push(d), d.owner) == Some(d),
        forall|o: u64| o != d.owner ==> daemon_of(s.push(d), o) == daemon_of(s, o),
        sum_daemon_balances(s.push(d)) == sum_daemon_balances(s) + d.balance,
    decreases s.len(),
{
    let t = s.push(d);
    if s.len() == 0 {
        assert(t[0] == d);
        assert(t.drop_first() =~= Seq::<Daemon>::empty());
    } else {
        assert(t[0] == s[0]);
        assert(t.drop_first() =~= s.drop_first().push(d));
        lemma_daemon_of_push(s.drop_first(), d);
        assert(sum_daemon_balances(s) == s[0].balance + sum_daemon_balances(s.drop_first()));
    }
    assert forall|o: u64| o != d.owner implies daemon_of(t, o) == daemon_of(s, o) by {
        assert(daemon_of(t, o) == if t[0].owner == o {
            Some(t[0])
        } else {
            daemon_of(t.drop_first(), o)
        });
        if s.len() > 0 {
            assert(daemon_of(s, o) == if s[0].owner == o {
                Some(s[0])
            } else {
                daemon_of(s.drop_first(), o)
            });
        }
    }
    assert(daemon_of(t, d.owner) == if t[0].owner == d.owner {
        Some(t[0])
    } else {
        daemon_of(t.drop_first(), d.owner)
    });
    assert(sum_daemon_balances(t) == t[0].balance + sum_daemon_balances(t.drop_first()));
}

fn contains_u64(v: &Vec<u64>, x: u64) -> (b: bool)
    ensures
        b == v@.contains(x),
{
    let mut i: usize = 0;
    while i < v.len()
        invariant
            i <= v@.len(),
            forall|j: int| 0 <= j < i ==> v@[j] != x,
        decreases v@.len() - i,
    {
        if v[i] == x {
            return true;
        }
        i = i + 1;
    }
    proof {
        assert(!v@.contains(x));
    }
    false
}

impl System {
    pub open spec fn wf(&self) -> bool {
        &&& self.config.skim_bps <= 10000
        &&& self.config.epoch_length > 0
        &&& self.snapshots@.len() == self.registry.snapshot_index + 1
        &&& forall|i: int|
            0 <= i < self.snapshots@.len() ==> (#[trigger] self.snapshots@[i]).index == i
                && self.snapshots@[i].start <= self.snapshots@[i].end
        &&& self.registry.daemon_count == self.daemons@.len()
    }

    /// The epoch boundaries currently in force.
    pub open spec fn current_snapshot(&self) -> Snapshot {
        self.snapshots@.last()
    }
}

/// Creates all singletons and the genesis snapshot in one step; refused
/// with `AlreadyInitialized` when the slot already holds a system.
pub fn initialize(
    slot: &mut Option<System>,
    admin: u64,
    mint: u64,
    task_fee: u64,
    skim_bps: u64,
    epoch_length: i64,
    stale_threshold: i64,
    now: i64,
) -> (r: Result<(), Error>)
    requires
        skim_bps <= 10000,
        epoch_length > 0,
        now <= i64::MAX - epoch_length,
    ensures
        (*old(slot)) is Some ==> r == Err::<(), Error>(Error::AlreadyInitialized) && *final(slot)
            == *old(slot),
        (*old(slot)) is None ==> r is Ok && ((*final(slot)) matches Some(sys) && ({
            &&& sys.wf()
            &&& sys.config == (Config { admin, mint, task_fee, skim_bps, epoch_length, stale_threshold })
            &&& sys.registry.snapshot_index == 0
            &&& sys.registry.daemon_count == 0
            &&& sys.snapshots@.len() == 1
            &&& sys.snapshots@[0].index == 0
            &&& sys.snapshots@[0].start == now
            &&& sys.snapshots@[0].end == now + epoch_length
            &&& sys.snapshots@[0].daemons@.len() == 0
            &&& sys.daemons@.len() == 0
            &&& sys.pool.workers@.len() == 0
            &&& sys.fees.clients@.len() == 0
            &&& sys.fees.treasury == 0
        })),
{
    if slot.is_some() {
        return Err(Error::AlreadyInitialized);
    }
    let genesis = Snapshot { index: 0, start: now, end: now + epoch_length, daemons: Vec::new() };
    let mut snapshots: Vec<Snapshot> = Vec::new();
    snapshots.push(genesis);
    let sys = System {
        config: Config { admin, mint, task_fee, skim_bps, epoch_length, stale_threshold },
        registry: Registry { snapshot_index: 0, daemon_count: 0 },
        snapshots,
        daemons: Vec::new(),
        pool: Pool { workers: Vec::new() },
        fees: Fees::new(),
    };
    *slot = Some(sys);
    Ok(())
}

impl System {
    fn find_daemon(&self, owner: u64) -> (r: Option<usize>)
        ensures
            match r {
                Some(i) => i < self.daemons@.len() && self.daemons@[i as int].owner == owner
                    && daemon_of(self.daemons@, owner) == Some(self.daemons@[i as int]) && forall|
                    j: int,
                |
                    0 <= j < i ==> self.daemons@[j].owner != owner,
                None => daemon_of(self.daemons@, owner) is None && forall|j: int|
                    0 <= j < self.daemons@.len() ==> self.daemons@[j].owner != owner,
            },
    {
        let mut i: usize = 0;
        while i < self.daemons.len()
            invariant
                i <= self.daemons@.len(),
                forall|j: int| 0 <= j < i ==> self.daemons@[j].owner != owner,
            decreases self.daemons@.len() - i,
        {
            if self.daemons[i].owner == owner {
                proof {
                    lemma_daemon_of_first(self.daemons@, i as int);
                }
                return Some(i);
            }
            i = i + 1;
        }
        proof {
            lemma_daemon_of_absent(self.daemons@, owner);
        }
        None
    }

    /// The daemon record of `owner`, if one is registered.
    pub fn daemon_record(&self, owner: u64) -> (r: Option<Daemon>)
        ensures
            r == daemon_of(self.daemons@, owner),
    {
        match self.find_daemon(owner) {
            Some(i) => Some(self.daemons[i]),
            None => None,
        }
    }

    /// The client's current prepaid balance.
    pub fn client_balance(&self, owner: u64) -> (r: u64)
        ensures
            r == balance_of(self.fees.clients@, owner),
    {
        self.fees.balance(owner)
    }

    /// Registers a new daemon with zero balance and a fresh heartbeat; an
    /// owner can hold at most one daemon record, so registering an existing
    /// owner is refused with `AlreadyInitialized` (the record exists).
    pub fn register_daemon(&mut self, owner: u64, now: i64) -> (r: Result<(), Error>)
        requires
            old(self).wf(),
            old(self).daemons@.len() < u64::MAX,
        ensures
            final(self).wf(),
            daemon_of(old(self).daemons@, owner) is Some ==> r == Err::<(), Error>(
                Error::AlreadyInitialized,
            ) && *final(self) == *old(self),
            daemon_of(old(self).daemons@, owner) is None ==> r is Ok && ({
                &&& final(self).daemons@ == old(self).daemons@.push(
                    Daemon {
                        owner,
                        balance: 0,
                        epoch: old(self).registry.snapshot_index,
                        last_seen: now,
                    },
                )
                &&& daemon_of(final(self).daemons@, owner) matches Some(d) && d.balance == 0
                    && d.last_seen == now
                &&& (forall|o: u64| o != owner ==> daemon_of(final(self).daemons@, o) == daemon_of(
                    old(self).daemons@,
                    o,
                ))
                &&& sum_daemon_balances(final(self).daemons@) == sum_daemon_balances(
                    old(self).daemons@,
                )
                &&& final(self).config == old(self).config
                &&& final(self).snapshots == old(self).snapshots
                &&& final(self).pool == old(self).pool
                &&& final(self).fees == old(self).fees
                &&& final(self).registry.snapshot_index == old(self).registry.snapshot_index
            }),
    {
        match self.find_daemon(owner) {
            Some(_) => Err(Error::AlreadyInitialized),
            None => {
                let d = Daemon {
                    owner,
                    balance: 0,
                    epoch: self.registry.snapshot_index,
                    last_seen: now,
                };
                proof {
                    lemma_daemon_of_push(self.daemons@, d);
                }
                self.daemons.push(d);
                self.registry.daemon_count = self.registry.daemon_count + 1;
                Ok(())
            },
        }
    }

    /// Records a daemon heartbeat; last write wins.
    pub fn heartbeat(&mut self, owner: u64, now: i64) -> (r: Result<(), Error>)
        requires
            old(self).wf(),
        ensures
            final(self).wf(),
            daemon_of(old(self).daemons@, owner) is None ==> r == Err::<(), Error>(Error::NotFound)
                && *final(self) == *old(self),
            daemon_of(old(self).daemons@, owner) matches Some(d) ==> r is Ok && ({
                &&& daemon_of(final(self).daemons@, owner) == Some(
                    Daemon { last_seen: now, ..d },
                )
                &&& (forall|o: u64| o != owner ==> daemon_of(final(self).daemons@, o) == daemon_of(
                    old(self).daemons@,
                    o,
                ))
                &&& sum_daemon_balances(final(self).daemons@) == sum_daemon_balances(
                    old(self).daemons@,
                )
                &&& final(self).daemons@.len() == old(self).daemons@.len()
                &&& final(self).config == old(self).config
                &&& final(self).snapshots == old(self).snapshots
                &&& final(self).pool == old(self).pool
                &&& final(self).fees == old(self).fees
                &&& final(self).registry == old(self).registry
            }),
    {
        match self.find_daemon(owner) {
            None => Err(Error::NotFound),
            Some(i) => {
                let d = Daemon {
                    owner,
                    balance: self.daemons[i].balance,
                    epoch: self.daemons[i].epoch,
                    last_seen: now,
                };
                let ghost oldd = self.daemons@;
                self.daemons[i] = d;
                proof {
                    lemma_daemon_of_update(oldd, i as int, d);
                }
                Ok(())
            },
        }
    }

    /// Whether `owner` was admitted for epoch `epoch`.
    pub fn is_eligible(&self, owner: u64, epoch: u64) -> (b: bool)
        requires
            self.wf(),
        ensures
            b == (epoch <= self.registry.snapshot_index && self.snapshots@[epoch as int].daemons@
                .contains(owner)),
    {
        if epoch > self.registry.snapshot_index {
            return false;
        }
        let n = self.snapshots.len();
        proof {
            assert(epoch < self.snapshots@.len());
            assert(self.snapshots@.len() == n);
        }
        let e = epoch as usize;
        contains_u64(&self.snapshots[e].daemons, owner)
    }

    /// Rotates to the next snapshot. Before the current epoch's start the
    /// call is refused with `TooEarly`; within the epoch it is a no-op
    /// success returning the current snapshot index; at or after the
    /// epoch's end it freezes the currently registered, non-stale daemons
    /// into snapshot `index + 1` spanning `[now, now + epoch_length)` and
    /// makes that set the eligible pool.
    pub fn rotate_snapshot(&mut self, now: i64) -> (r: Result<u64, Error>)
        requires
            old(self).wf(),
            now <= i64::MAX - old(self).config.epoch_length,
            old(self).registry.snapshot_index < u64::MAX - 1,
        ensures
            final(self).wf(),
            now < old(self).current_snapshot().start ==> r == Err::<u64, Error>(Error::TooEarly)
                && *final(self) == *old(self),
            old(self).current_snapshot().start <= now < old(self).current_snapshot().end ==> r
                == Ok::<u64, Error>(old(self).current_snapshot().index) && *final(self) == *old(
                self,
            ),
            now >= old(self).current_snapshot().end ==> ({
                let thr = old(self).config.stale_threshold as int;
                let elig = old(self).daemons@.filter(
                    |d: Daemon| !stale_at(d.last_seen as int, now as int, thr),
                ).map_values(|d: Daemon| d.owner);
                &&& r == Ok::<u64, Error>((old(self).current_snapshot().index + 1) as u64)
                &&& final(self).snapshots@.len() == old(self).snapshots@.len() + 1
                &&& final(self).snapshots@.drop_last() == old(self).snapshots@
                &&& final(self).current_snapshot().index == old(self).current_snapshot().index + 1
                &&& final(self).current_snapshot().start == now
                &&& final(self).current_snapshot().end == now + old(self).config.epoch_length
                &&& final(self).current_snapshot().daemons@ == elig
                &&& final(self).pool.workers@ == elig
                &&& final(self).registry.snapshot_index == old(self).registry.snapshot_index + 1
                &&& final(self).registry.daemon_count == old(self).registry.daemon_count
                &&& final(self).daemons == old(self).daemons
                &&& final(self).fees == old(self).fees
                &&& final(self).config == old(self).config
            }),
    {
        let last = self.snapshots.len() - 1;
        let cur_start = self.snapshots[last].start;
        let cur_end = self.snapshots[last].end;
        let cur_index = self.snapshots[last].index;
        if now < cur_start {
            return Err(Error::TooEarly);
        }
        if now < cur_end {
            return Ok(cur_index);
        }
        let ghost thr = self.config.stale_threshold as int;
        let ghost pred = |d: Daemon| !stale_at(d.last_seen as int, now as int, thr);
        let mut elig: Vec<u64> = Vec::new();
        let mut i: usize = 0;
        proof {
            reveal(Seq::filter);
            assert(self.daemons@.take(0) =~= Seq::<Daemon>::empty());
        }
        while i < self.daemons.len()
            invariant
                i <= self.daemons@.len(),
                thr == self.config.stale_threshold as int,
                pred == (|d: Daemon| !stale_at(d.last_seen as int, now as int, thr)),
                elig@ == self.daemons@.take(i as int).filter(pred).map_values(
                    |d: Daemon| d.owner,
                ),
            decreases self.daemons@.len() - i,
        {
            let ghost prefix = self.daemons@.take(i as int);
            proof {
                reveal(Seq::filter);
                assert(self.daemons@.take(i as int + 1) =~= prefix.push(self.daemons@[i as int]));
                assert(self.daemons@.take(i as int + 1).drop_last() =~= prefix);
            }
            let d = &self.daemons[i];
            if !is_stale(d.last_seen, now, self.config.stale_threshold) {
                elig.push(d.owner);
                proof {
                    assert(prefix.push(self.daemons@[i as int]).filter(pred) =~= prefix.filter(
                        pred,
                    ).push(self.daemons@[i as int]));
                    assert(elig@ =~= self.daemons@.take(i as int + 1).filter(pred).map_values(
                        |d: Daemon| d.owner,
                    ));
                }
            } else {
                proof {
                    assert(prefix.push(self.daemons@[i as int]).filter(pred) =~= prefix.filter(
                        pred,
                    ));
                    assert(elig@ =~= self.daemons@.take(i as int + 1).filter(pred).map_values(
                        |d: Daemon| d.owner,
                    ));
                }
            }
            i = i + 1;
        }
        proof {
            assert(self.daemons@.take(self.daemons@.len() as int) =~= self.daemons@);
        }
        let mut workers: Vec<u64> = Vec::new();
        let mut k: usize = 0;
        while k < elig.len()
            invariant
                k <= elig@.len(),
                workers@ == elig@.take(k as int),
            decreases elig@.len() - k,
        {
            workers.push(elig[k]);
            proof {
                assert(elig@.take(k as int + 1) =~= elig@.take(k as int).push(elig@[k as int]));
            }
            k = k + 1;
        }
        proof {
            assert(elig@.take(elig@.len() as int) =~= elig@);
        }
        let snap = Snapshot {
            index: cur_index + 1,
            start: now,
            end: now + self.config.epoch_length,
            daemons: elig,
        };
        let ghost oldsnaps = self.snapshots@;
        self.snapshots.push(snap);
        self.pool = Pool { workers };
        self.registry.snapshot_index = self.registry.snapshot_index + 1;
        proof {
            assert(final(self).snapshots@.drop_last() =~= oldsnaps);
        }
        Ok(cur_index + 1)
    }

    /// One claim attempt through the daemon surface: the daemon must be in
    /// the current snapshot, then the task's own claim rule decides.
    pub fn claim_task(&self, task: &mut Task, daemon: u64, now: i64) -> (r: Result<(), Error>)
        requires
            self.wf(),
        ensures
            !self.current_snapshot().daemons@.contains(daemon) ==> r == Err::<(), Error>(
                Error::Unauthorized,
            ) && *final(task) == *old(task),
            self.current_snapshot().daemons@.contains(daemon) ==> (*final(task), r)
                == claim_transition(*old(task), daemon, now as int),
    {
        let last = self.snapshots.len() - 1;
        if !contains_u64(&self.snapshots[last].daemons, daemon) {
            return Err(Error::Unauthorized);
        }
        task.claim(daemon, now)
    }

    /// Completes a claimed task: settles the execution fee (client debit,
    /// treasury skim, daemon credit) and advances the task, all in one
    /// atomic transition. Rejected — leaving task and accounts untouched —
    /// with `NotClaimed` when the caller does not hold the claim,
    /// `NotFound` when it has no daemon record, and `InsufficientBalance`
    /// when the owning client cannot pay.
    ///
    /// Snapshot eligibility is checked when the claim is taken, not here:
    /// staleness is advisory and never aborts in-flight work, so a daemon
    /// rotated out after claiming may still report its completion.
    pub fn complete_task(&mut self, task: &mut Task, daemon: u64, now: i64) -> (r: Result<
        (),
        Error,
    >)
        requires
            old(self).wf(),
            old(task).wf(),
            old(task).exec_count < u64::MAX,
            old(self).fees.treasury + old(self).config.task_fee <= u64::MAX,
            daemon_of(old(self).daemons@, daemon) matches Some(d) ==> d.balance + old(
                self,
            ).config.task_fee <= u64::MAX,
        ensures
            final(self).wf(),
            final(task).wf(),
            !(old(task).status is Due) || old(task).daemon != daemon ==> r == Err::<(), Error>(
                Error::NotClaimed,
            ) && *final(self) == *old(self) && *final(task) == *old(task),
            old(task).status is Due && old(task).daemon == daemon && daemon_of(
                old(self).daemons@,
                daemon,
            ) is None ==> r == Err::<(), Error>(Error::NotFound) && *final(self) == *old(self)
                && *final(task) == *old(task),
            old(task).status is Due && old(task).daemon == daemon && daemon_of(
                old(self).daemons@,
                daemon,
            ) is Some ==> ({
                let fee = old(self).config.task_fee;
                let skim = skim_of(fee as int, old(self).config.skim_bps as int);
                if balance_of(old(self).fees.clients@, old(task).owner) < fee {
                    r == Err::<(), Error>(Error::InsufficientBalance) && *final(self) == *old(self)
                        && *final(task) == *old(task)
                } else {
                    &&& r is Ok
                    &&& advanced_from(*final(task), *old(task))
                    &&& balance_of(final(self).fees.clients@, old(task).owner) == balance_of(
                        old(self).fees.clients@,
                        old(task).owner,
                    ) - fee
                    &&& (forall|o: u64| o != old(task).owner ==> balance_of(
                        final(self).fees.clients@,
                        o,
                    ) == balance_of(old(self).fees.clients@, o))
                    &&& final(self).fees.treasury == old(self).fees.treasury + skim
                    &&& (daemon_of(final(self).daemons@, daemon) matches Some(nd)
                        && daemon_of(old(self).daemons@, daemon) matches Some(d)
                        && nd == (Daemon { balance: (d.balance + fee - skim) as u64, ..d }))
                    &&& (forall|o: u64| o != daemon ==> daemon_of(final(self).daemons@, o)
                        == daemon_of(old(self).daemons@, o))
                    &&& sum_balances(final(self).fees.clients@) + sum_daemon_balances(
                        final(self).daemons@,
                    ) + final(self).fees.treasury == sum_balances(old(self).fees.clients@)
                        + sum_daemon_balances(old(self).daemons@) + old(self).fees.treasury
                    &&& final(self).snapshots == old(self).snapshots
                    &&& final(self).pool == old(self).pool
                    &&& final(self).config == old(self).config
                    &&& final(self).registry == old(self).registry
                }
            }),
    {
        match task.status {
            TaskStatus::Due => {},
            _ => {
                return Err(Error::NotClaimed);
            },
        }
        if task.daemon != daemon {
            return Err(Error::NotClaimed);
        }
        let i = match self.find_daemon(daemon) {
            Some(i) => i,
            None => {
                return Err(Error::NotFound);
            },
        };
        let fee = self.config.task_fee;
        let share = match self.fees.settle(task.owner, fee, self.config.skim_bps) {
            Ok(share) => share,
            Err(e) => {
                return Err(e);
            },
        };
        let d = Daemon {
            owner: daemon,
            balance: self.daemons[i].balance + share,
            epoch: self.daemons[i].epoch,
            last_seen: self.daemons[i].last_seen,
        };
        let ghost oldd = self.daemons@;
        self.daemons[i] = d;
        proof {
            lemma_daemon_of_update(oldd, i as int, d);
        }
        task.advance();
        Ok(())
    }
}

} // verus!
