use durable_kv::db::{Command, KvState};
use durable_kv::error::DbError;
use durable_kv::wal::{encode_frame, read_wal};
use durable_kv::writer::{wal_task, Action, Event, Phase, WalTask, QUEUE_CAPACITY};

fn put(key: &str, value: &str) -> Command {
    Command::Put { key: key.to_string(), value: value.to_string() }
}

fn expect_append(task: &mut WalTask, cmd: Command) -> Vec<u8> {
    match task.step(Event::Received(cmd)) {
        Action::Append(bytes) => bytes,
        _ => panic!("expected an append"),
    }
}

fn expect_apply(task: &mut WalTask) -> Command {
    match task.step(Event::Appended) {
        Action::Apply(cmd) => cmd,
        _ => panic!("expected an apply"),
    }
}

/// Drives the task through one command against files held in memory.
fn run_one(task: &mut WalTask, cmd: Command, wal: &mut Vec<u8>, snap: &mut Vec<u8>, kv: &mut KvState) {
    let mut action = task.step(Event::Received(cmd));
    loop {
        action = match action {
            Action::Receive | Action::Close | Action::Stop(_) => return,
            Action::Append(bytes) => {
                wal.extend_from_slice(&bytes);
                task.step(Event::Appended)
            }
            Action::Apply(cmd) => {
                kv.apply(cmd);
                task.step(Event::Applied)
            }
            Action::Measure => task.step(Event::Measured(wal.len() as u64)),
            Action::Compact => {
                *snap = kv.serialize().unwrap();
                task.step(Event::Installed)
            }
            Action::Truncate => {
                wal.clear();
                task.step(Event::Truncated)
            }
        };
    }
}

#[test]
fn queue_holds_1024_commands() {
    assert_eq!(QUEUE_CAPACITY, 1024);
}

#[test]
fn new_task_runs() {
    let task = wal_task(1024);
    assert_eq!(task.phase(), Phase::Running);
    assert_eq!(task.max_wal_size(), 1024);
}

#[test]
fn a_mutation_is_appended_then_applied_then_measured() {
    let mut task = wal_task(1000);
    let frame = expect_append(&mut task, put("a", "1"));
    assert_eq!(frame, encode_frame(&put("a", "1")).unwrap());
    assert_eq!(expect_apply(&mut task), put("a", "1"));
    assert!(matches!(task.step(Event::Applied), Action::Measure));
    assert!(matches!(task.step(Event::Measured(1000)), Action::Receive));
    assert_eq!(task.phase(), Phase::Running);
}

#[test]
fn a_log_past_the_threshold_is_compacted_then_truncated() {
    let mut task = wal_task(10);
    expect_append(&mut task, put("a", "1"));
    expect_apply(&mut task);
    assert!(matches!(task.step(Event::Applied), Action::Measure));
    assert!(matches!(task.step(Event::Measured(11)), Action::Compact));
    assert!(matches!(task.step(Event::Installed), Action::Truncate));
    assert!(matches!(task.step(Event::Truncated), Action::Receive));
    assert_eq!(task.phase(), Phase::Running);
}

#[test]
fn commands_that_only_read_are_passed_over() {
    let mut task = wal_task(10);
    for c in [
        Command::Get { key: "a".to_string() },
        Command::Range { start: "a".to_string(), end: "b".to_string() },
        Command::Keys { needle: "a".to_string() },
        Command::Values { needle: "a".to_string() },
        Command::Amount,
        Command::DumpAll,
    ] {
        assert!(matches!(task.step(Event::Received(c)), Action::Receive));
        assert_eq!(task.phase(), Phase::Running);
    }
}

#[test]
fn a_failure_stops_the_task_with_its_error() {
    let mut task = wal_task(10);
    expect_append(&mut task, put("a", "1"));
    let failure = DbError::Io(std::io::Error::new(std::io::ErrorKind::Other, "no space"));
    match task.step(Event::Failed(failure)) {
        Action::Stop(Err(DbError::Io(e))) => assert_eq!(e.to_string(), "no space"),
        _ => panic!("expected a stop with the failure"),
    }
    assert_eq!(task.phase(), Phase::Stopped);
    assert!(matches!(task.step(Event::Received(put("b", "2"))), Action::Stop(Err(DbError::ChannelClosed))));
    assert!(matches!(task.step(Event::Appended), Action::Stop(Err(DbError::ChannelClosed))));
    assert_eq!(task.phase(), Phase::Stopped);
}

#[test]
fn a_failure_stops_the_task_at_every_stage() {
    for stage in 0..6 {
        let mut task = wal_task(0);
        let events = [
            Event::Received(put("a", "1")),
            Event::Appended,
            Event::Applied,
            Event::Measured(5),
            Event::Installed,
        ];
        for e in events.into_iter().take(stage) {
            task.step(e);
        }
        assert_eq!(task.phase(), Phase::Running);
        assert!(matches!(task.step(Event::Failed(DbError::KeyNotFound)), Action::Stop(Err(DbError::KeyNotFound))));
        assert_eq!(task.phase(), Phase::Stopped);
    }
}

#[test]
fn shutdown_drains_then_stops() {
    let mut task = wal_task(1000);
    assert!(matches!(task.step(Event::ShutdownRequested), Action::Close));
    assert_eq!(task.phase(), Phase::Draining);
    expect_append(&mut task, put("a", "1"));
    assert_eq!(expect_apply(&mut task), put("a", "1"));
    assert!(matches!(task.step(Event::Applied), Action::Measure));
    assert!(matches!(task.step(Event::Measured(1)), Action::Receive));
    assert_eq!(task.phase(), Phase::Draining);
    assert!(matches!(task.step(Event::QueueClosed), Action::Stop(Ok(()))));
    assert_eq!(task.phase(), Phase::Stopped);
}

#[test]
fn shutdown_command_closes_the_queue() {
    let mut task = wal_task(1000);
    assert!(matches!(task.step(Event::Received(Command::Shutdown)), Action::Close));
    assert_eq!(task.phase(), Phase::Draining);
    assert!(matches!(task.step(Event::ShutdownRequested), Action::Close));
    assert_eq!(task.phase(), Phase::Draining);
}

#[test]
fn closed_queue_stops_a_running_task() {
    let mut task = wal_task(1000);
    assert!(matches!(task.step(Event::QueueClosed), Action::Stop(Ok(()))));
    assert_eq!(task.phase(), Phase::Stopped);
}

#[test]
fn an_event_out_of_turn_stops_the_task() {
    let mut task = wal_task(1000);
    assert!(matches!(task.step(Event::Appended), Action::Stop(Err(DbError::ChannelClosed))));
    assert_eq!(task.phase(), Phase::Stopped);

    let mut task = wal_task(1000);
    expect_append(&mut task, put("a", "1"));
    assert!(matches!(task.step(Event::Received(put("b", "2"))), Action::Stop(Err(DbError::ChannelClosed))));
    assert_eq!(task.phase(), Phase::Stopped);

    let mut task = wal_task(1000);
    expect_append(&mut task, put("a", "1"));
    expect_apply(&mut task);
    assert!(matches!(task.step(Event::Measured(1)), Action::Stop(Err(DbError::ChannelClosed))));

    let mut task = wal_task(1000);
    expect_append(&mut task, put("a", "1"));
    assert!(matches!(task.step(Event::ShutdownRequested), Action::Stop(Err(DbError::ChannelClosed))));
}

#[test]
fn later_put_wins() {
    let mut task = wal_task(1 << 20);
    let (mut wal, mut snap, mut kv) = (Vec::new(), Vec::new(), KvState::new());
    run_one(&mut task, put("k", "1"), &mut wal, &mut snap, &mut kv);
    run_one(&mut task, put("k", "2"), &mut wal, &mut snap, &mut kv);
    assert_eq!(kv.get("k"), Some(&"2".to_string()));
    let mut replayed = KvState::new();
    read_wal(&mut replayed, &wal);
    assert_eq!(replayed.get("k"), Some(&"2".to_string()));
}

#[test]
fn driven_task_keeps_log_and_snapshot_in_step_with_the_store() {
    let mut task = wal_task(200);
    let (mut wal, mut snap, mut kv) = (Vec::new(), KvState::new().serialize().unwrap(), KvState::new());
    let mut compactions = 0;
    for i in 0..200 {
        let cmd = if i % 7 == 3 {
            Command::Delete { key: format!("key{}", i % 13) }
        } else {
            put(&format!("key{}", i % 13), &format!("value{}", i))
        };
        let before = wal.len();
        run_one(&mut task, cmd, &mut wal, &mut snap, &mut kv);
        if wal.len() < before {
            compactions += 1;
            assert!(wal.is_empty());
        }
        assert!(wal.len() <= 200);
        let mut recovered = KvState::deserialize(&snap).unwrap();
        read_wal(&mut recovered, &wal);
        assert_eq!(recovered.entries(), kv.entries());
    }
    assert!(compactions > 0);
    assert_eq!(task.phase(), Phase::Running);
}
