use cronos::calendar::timestamp_of;
use cronos::errors::Error;
use cronos::parse::parse;
use cronos::schedule::{fires, next_fire, upcoming, Schedule};
use cronos::system::{initialize, System};
use cronos::task::{Task, TaskStatus};

fn fresh_system(now: i64, task_fee: u64, skim_bps: u64, epoch_length: i64) -> System {
    let mut slot: Option<System> = None;
    initialize(&mut slot, 1, 2, task_fee, skim_bps, epoch_length, 600, now).unwrap();
    slot.unwrap()
}

fn client_balance(sys: &System, owner: u64) -> u64 {
    sys.client_balance(owner)
}

fn daemon_balance(sys: &System, owner: u64) -> u64 {
    match sys.daemon_record(owner) {
        Some(d) => d.balance,
        None => 0,
    }
}

#[test]
fn initialize_twice_is_rejected() {
    let now = timestamp_of(2021, 1, 1, 0, 0, 0);
    let mut slot: Option<System> = None;
    assert!(initialize(&mut slot, 1, 2, 100, 1000, 3600, 600, now).is_ok());
    assert_eq!(
        initialize(&mut slot, 1, 2, 100, 1000, 3600, 600, now),
        Err(Error::AlreadyInitialized)
    );
}

#[test]
fn register_twice_is_rejected() {
    let now = timestamp_of(2021, 1, 1, 0, 0, 0);
    let mut sys = fresh_system(now, 100, 1000, 3600);
    assert!(sys.register_daemon(7, now).is_ok());
    assert_eq!(sys.register_daemon(7, now), Err(Error::AlreadyInitialized));
}

#[test]
fn heartbeat_unknown_daemon_is_not_found() {
    let now = timestamp_of(2021, 1, 1, 0, 0, 0);
    let mut sys = fresh_system(now, 100, 1000, 3600);
    assert_eq!(sys.heartbeat(99, now), Err(Error::NotFound));
}

#[test]
fn scenario_one_shot_execution() {
    // initialize -> register daemon -> create one-shot task due in 60s ->
    // early claim fails with NotDue -> claim at the due time succeeds ->
    // completion executes the task and credits the daemon fee minus skim.
    let t0 = timestamp_of(2021, 1, 1, 0, 0, 0);
    let mut sys = fresh_system(t0, 100, 1000, 3600);
    let daemon = 7u64;
    let client = 42u64;
    sys.register_daemon(daemon, t0).unwrap();
    sys.fees.deposit(client, 1000).unwrap();
    sys.heartbeat(daemon, t0 + 3500).unwrap();
    assert_eq!(sys.rotate_snapshot(t0 + 3600), Ok(1));
    let now = t0 + 3600;
    let mut task = Task::create(
        client,
        1,
        0,
        vec![1, 2, 3],
        None,
        now + 60,
        None,
        now,
    )
    .unwrap();
    assert_eq!(task.status, TaskStatus::Pending);
    assert_eq!(sys.claim_task(&mut task, daemon, now + 30), Err(Error::NotDue));
    assert_eq!(task.status, TaskStatus::Pending);
    assert_eq!(sys.claim_task(&mut task, daemon, now + 60), Ok(()));
    assert_eq!(task.status, TaskStatus::Due);
    assert_eq!(task.daemon, daemon);
    assert_eq!(sys.complete_task(&mut task, daemon, now + 61), Ok(()));
    assert_eq!(task.status, TaskStatus::Executed);
    assert_eq!(task.exec_count, 1);
    // fee 100 at 10% skim: client pays 100, daemon earns 90, treasury keeps 10
    assert_eq!(client_balance(&sys, client), 900);
    assert_eq!(daemon_balance(&sys, daemon), 90);
    assert_eq!(sys.fees.treasury, 10);
}

#[test]
fn claim_of_ineligible_daemon_is_unauthorized() {
    let t0 = timestamp_of(2021, 1, 1, 0, 0, 0);
    let sys = fresh_system(t0, 100, 1000, 3600);
    let mut task = Task::create(42, 1, 0, vec![], None, t0 + 1, None, t0).unwrap();
    // the genesis snapshot admits nobody
    assert_eq!(sys.claim_task(&mut task, 7, t0 + 2), Err(Error::Unauthorized));
    assert_eq!(task.status, TaskStatus::Pending);
}

#[test]
fn concurrent_claims_have_one_winner() {
    // N racing claims against one due task: the first succeeds, the other
    // N-1 fail with AlreadyClaimed, and the winner keeps the assignment.
    let t0 = timestamp_of(2021, 1, 1, 0, 0, 0);
    let mut task = Task::create(42, 1, 0, vec![], None, t0 + 1, None, t0).unwrap();
    let claimants = [7u64, 8, 9, 10, 11];
    let now = t0 + 5;
    let mut outcomes = Vec::new();
    for d in claimants.iter() {
        outcomes.push(task.claim(*d, now));
    }
    assert_eq!(outcomes[0], Ok(()));
    for r in outcomes.iter().skip(1) {
        assert_eq!(*r, Err(Error::AlreadyClaimed));
    }
    assert_eq!(task.daemon, 7);
    assert_eq!(task.status, TaskStatus::Due);
}

#[test]
fn rotation_is_idempotent_within_an_epoch() {
    let t0 = timestamp_of(2021, 1, 1, 0, 0, 0);
    let mut sys = fresh_system(t0, 100, 1000, 3600);
    // before the genesis epoch even starts
    assert_eq!(sys.rotate_snapshot(t0 - 1), Err(Error::TooEarly));
    // two rapid calls at/after the boundary: exactly one new snapshot
    assert_eq!(sys.rotate_snapshot(t0 + 3600), Ok(1));
    assert_eq!(sys.snapshots.len(), 2);
    assert_eq!(sys.rotate_snapshot(t0 + 3601), Ok(1));
    assert_eq!(sys.snapshots.len(), 2);
    // a third call before the next boundary is still a no-op
    assert_eq!(sys.rotate_snapshot(t0 + 3700), Ok(1));
    assert_eq!(sys.snapshots.len(), 2);
}

#[test]
fn rotation_drops_stale_daemons() {
    let t0 = timestamp_of(2021, 1, 1, 0, 0, 0);
    let mut sys = fresh_system(t0, 100, 1000, 3600);
    sys.register_daemon(7, t0).unwrap();
    sys.register_daemon(8, t0).unwrap();
    // only daemon 8 stays within the staleness threshold of 600s
    sys.heartbeat(8, t0 + 3500).unwrap();
    assert_eq!(sys.rotate_snapshot(t0 + 3600), Ok(1));
    assert!(!sys.is_eligible(7, 1));
    assert!(sys.is_eligible(8, 1));
    assert_eq!(sys.pool.workers, vec![8]);
    // the genesis snapshot is untouched history
    assert!(!sys.is_eligible(8, 0));
}

#[test]
fn settlement_never_overdraws_a_client() {
    let t0 = timestamp_of(2021, 1, 1, 0, 0, 0);
    let mut sys = fresh_system(t0, 100, 1000, 3600);
    let daemon = 7u64;
    let client = 42u64;
    sys.register_daemon(daemon, t0).unwrap();
    sys.fees.deposit(client, 50).unwrap();
    let mut task = Task::create(client, 1, 0, vec![], None, t0 + 1, None, t0).unwrap();
    assert_eq!(task.claim(daemon, t0 + 1), Ok(()));
    // balance 50 cannot cover the fee of 100: nothing moves
    assert_eq!(
        sys.complete_task(&mut task, daemon, t0 + 2),
        Err(Error::InsufficientBalance)
    );
    assert_eq!(task.status, TaskStatus::Due);
    assert_eq!(client_balance(&sys, client), 50);
    assert_eq!(daemon_balance(&sys, daemon), 0);
    assert_eq!(sys.fees.treasury, 0);
}

#[test]
fn withdraw_respects_the_balance() {
    let t0 = timestamp_of(2021, 1, 1, 0, 0, 0);
    let mut sys = fresh_system(t0, 100, 1000, 3600);
    sys.fees.deposit(42, 30).unwrap();
    assert_eq!(sys.fees.withdraw(42, 31), Err(Error::InsufficientBalance));
    assert_eq!(sys.fees.withdraw(42, 30), Ok(()));
    assert_eq!(client_balance(&sys, 42), 0);
}

#[test]
fn completion_by_non_claimant_is_rejected() {
    let t0 = timestamp_of(2021, 1, 1, 0, 0, 0);
    let mut sys = fresh_system(t0, 100, 1000, 3600);
    sys.register_daemon(7, t0).unwrap();
    sys.register_daemon(8, t0).unwrap();
    sys.fees.deposit(42, 1000).unwrap();
    let mut task = Task::create(42, 1, 0, vec![], None, t0 + 1, None, t0).unwrap();
    assert_eq!(task.claim(7, t0 + 1), Ok(()));
    assert_eq!(sys.complete_task(&mut task, 8, t0 + 2), Err(Error::NotClaimed));
    assert_eq!(task.status, TaskStatus::Due);
}

#[test]
fn cancel_is_owner_only_and_non_terminal_only() {
    let t0 = timestamp_of(2021, 1, 1, 0, 0, 0);
    let mut task = Task::create(42, 1, 0, vec![], None, t0 + 1, None, t0).unwrap();
    assert_eq!(task.cancel(41), Err(Error::Unauthorized));
    assert_eq!(task.status, TaskStatus::Pending);
    assert_eq!(task.cancel(42), Ok(()));
    assert_eq!(task.status, TaskStatus::Cancelled);
    // terminal: a second cancel finds nothing to cancel
    assert_eq!(task.cancel(42), Err(Error::NotFound));
}

#[test]
fn invalid_schedules_are_rejected_at_creation() {
    let t0 = timestamp_of(2021, 1, 1, 0, 0, 0);
    // expiry before the one-shot fire time
    assert!(matches!(
        Task::create(42, 1, 0, vec![], None, t0 + 100, Some(t0 + 50), t0),
        Err(Error::InvalidSchedule)
    ));
    // a recurring schedule whose only year lies in the past
    let gone = parse("0 0 0 1 1 * 1999").unwrap();
    assert!(matches!(
        Task::create(42, 1, 0, vec![], Some(gone), 0, None, t0),
        Err(Error::InvalidSchedule)
    ));
}

#[test]
fn recurring_task_replays_the_engine_sequence() {
    // the round trip: a task advanced by repeated claim/complete fires at
    // exactly the times the schedule engine yields from creation time
    let expression = "0 30 9,12,15 1,15 May-Aug Mon,Wed,Fri 2018/2";
    let schedule = parse(expression).unwrap();
    let t0 = timestamp_of(2018, 1, 1, 0, 0, 0);
    let engine = upcoming(&schedule, t0, 6);
    assert_eq!(engine.len(), 6);

    let mut sys = fresh_system(t0, 10, 2500, 3600);
    let daemon = 7u64;
    let client = 42u64;
    sys.register_daemon(daemon, t0).unwrap();
    sys.fees.deposit(client, 1000).unwrap();
    let sched2 = parse(expression).unwrap();
    let mut task = Task::create(client, 1, 0, vec![], Some(sched2), 0, None, t0).unwrap();
    let mut fired = Vec::new();
    for _ in 0..6 {
        let due = task.exec_at;
        fired.push(due);
        assert_eq!(task.claim(daemon, due), Ok(()));
        assert_eq!(sys.complete_task(&mut task, daemon, due), Ok(()));
        assert_eq!(task.status, TaskStatus::Pending);
    }
    assert_eq!(fired, engine);
    assert_eq!(task.exec_count, 6);
}

#[test]
fn recurring_task_stops_at_its_expiry() {
    let t0 = timestamp_of(2021, 1, 1, 0, 0, 0);
    let mut sys = fresh_system(t0, 0, 0, 3600);
    sys.register_daemon(7, t0).unwrap();
    let hourly = parse("@hourly").unwrap();
    // expire right at the first fire time: one execution, then Stopped
    let first = next_fire(&parse("@hourly").unwrap(), t0).unwrap();
    let mut task = Task::create(42, 1, 0, vec![], Some(hourly), 0, Some(first), t0).unwrap();
    assert_eq!(task.exec_at, first);
    assert_eq!(task.claim(7, first), Ok(()));
    assert_eq!(sys.complete_task(&mut task, 7, first), Ok(()));
    assert_eq!(task.status, TaskStatus::Stopped);
}
