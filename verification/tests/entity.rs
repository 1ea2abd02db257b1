use eventsourced::binarize::Binarize;
use eventsourced::counter::{Cmd, Counter, CounterBinarize, CounterTextBinarize, Error, Evt};
use eventsourced::entity::{spawn, EventSourced, SpawnError};
use eventsourced::evt_log::{EvtLog, MemEvtLog};
use eventsourced::seq_no::SeqNo;
use eventsourced::snapshot_store::{MemSnapshotStore, SnapshotStore};

fn seq(n: u64) -> SeqNo {
    SeqNo::try_from_u64(n).unwrap()
}

/// A log holding `n` counter events for `id`, each incrementing by one.
fn log_with_increments(id: u128, n: u64) -> MemEvtLog {
    let bz = CounterBinarize;
    let mut log = MemEvtLog::new();
    let mut last: Option<SeqNo> = None;
    for i in 0..n {
        let evt = Evt::Increased { old_value: i, inc: 1 };
        let bytes = bz.evt_to_bytes(&evt).unwrap();
        last = Some(log.append("counter", &id, bytes.as_slice(), last).unwrap());
    }
    log
}

#[test]
fn test_spawn_handle_cmd() {
    // A log reporting 42 events whose handler increments by one, and a
    // snapshot pair (21, state 21): spawn replays the tail and lands on 42.
    let bz = CounterBinarize;
    let id: u128 = 1;
    let log = log_with_increments(id, 42);
    let mut store = MemSnapshotStore::new();
    let snap_state = bz.state_to_bytes(&21u64).unwrap();
    store.save(&id, seq(21), snap_state.as_slice()).unwrap();

    let mut ent = spawn::<Counter, _, _, _>(id, None, log, store, CounterBinarize).unwrap();
    assert_eq!(*ent.state(), 42);
    assert_eq!(ent.last_seq_no(), Some(seq(42)));

    let r = ent.handle_cmd(Cmd::Inc(1)).unwrap();
    assert!(r.is_ok());
    assert_eq!(*ent.state(), 43);
    assert_eq!(ent.last_seq_no(), Some(seq(43)));
}

#[test]
fn spawn_on_fresh_entity_starts_at_default() {
    let id: u128 = 2;
    let mut ent = spawn::<Counter, _, _, _>(
        id,
        None,
        MemEvtLog::new(),
        MemSnapshotStore::new(),
        CounterBinarize,
    )
    .unwrap();
    assert_eq!(*ent.state(), 0);
    assert_eq!(ent.last_seq_no(), None);
    ent.handle_cmd(Cmd::Inc(5)).unwrap().unwrap();
    assert_eq!(*ent.state(), 5);
    assert_eq!(ent.last_seq_no(), Some(seq(1)));
}

#[test]
fn replay_equals_command_built_state() {
    // The state built by submitting commands equals the fold of the
    // events the log then holds.
    let bz = CounterBinarize;
    let id: u128 = 3;
    let mut ent = spawn::<Counter, _, _, _>(
        id,
        None,
        MemEvtLog::new(),
        MemSnapshotStore::new(),
        CounterBinarize,
    )
    .unwrap();
    ent.handle_cmd(Cmd::Inc(10)).unwrap().unwrap();
    ent.handle_cmd(Cmd::Inc(7)).unwrap().unwrap();
    ent.handle_cmd(Cmd::Dec(3)).unwrap().unwrap();
    let in_memory = *ent.state();

    let evts = ent.evt_log().evts_by_id("counter", &id, seq(1)).unwrap();
    let mut replayed: u64 = Counter::default_state();
    for (_, payload) in &evts {
        let evt = bz.evt_from_bytes(payload.as_slice()).unwrap();
        replayed = Counter::handle_evt(replayed, evt);
    }
    assert_eq!(replayed, in_memory);
    assert_eq!(in_memory, 14);
}

#[test]
fn respawn_after_snapshot_matches_full_replay() {
    // Snapshot at sequence number 2, more events through 4, then spawn:
    // the same state as a full replay of a snapshot-free twin.
    let id: u128 = 4;
    let mut ent = spawn::<Counter, _, _, _>(
        id,
        Some(2),
        MemEvtLog::new(),
        MemSnapshotStore::new(),
        CounterBinarize,
    )
    .unwrap();
    for inc in [1u64, 2, 3, 4] {
        ent.handle_cmd(Cmd::Inc(inc)).unwrap().unwrap();
    }
    let before = *ent.state();
    assert_eq!(before, 10);

    let (log, store) = ent.into_parts();
    // The store holds a snapshot taken at the cadence.
    assert!(store.load(&id).unwrap().is_some());
    let ent2 = spawn::<Counter, _, _, _>(id, None, log, store, CounterBinarize).unwrap();
    assert_eq!(*ent2.state(), before);

    let (log2, _) = ent2.into_parts();
    let ent3 = spawn::<Counter, _, _, _>(
        id,
        None,
        log2,
        MemSnapshotStore::new(),
        CounterBinarize,
    )
    .unwrap();
    assert_eq!(*ent3.state(), before);
}

#[test]
fn snapshot_save_failure_is_not_fatal() {
    // The snapshot store refuses every save; the entity keeps accepting
    // commands and persisting events.
    let id: u128 = 5;
    let mut ent = spawn::<Counter, _, _, _>(
        id,
        Some(1),
        MemEvtLog::new(),
        MemSnapshotStore::failing(),
        CounterBinarize,
    )
    .unwrap();
    for _ in 0..3 {
        let r = ent.handle_cmd(Cmd::Inc(2)).unwrap();
        assert!(r.is_ok());
    }
    assert_eq!(*ent.state(), 6);
    assert!(ent.live());
    let (log, store) = ent.into_parts();
    assert_eq!(log.last_seq_no("counter", &id).unwrap(), Some(seq(3)));
    assert!(store.load(&id).unwrap().is_none());
}

#[test]
fn rejected_command_returns_domain_error_and_keeps_state() {
    let id: u128 = 6;
    let mut ent = spawn::<Counter, _, _, _>(
        id,
        None,
        MemEvtLog::new(),
        MemSnapshotStore::new(),
        CounterBinarize,
    )
    .unwrap();
    let r = ent.handle_cmd(Cmd::Dec(1)).unwrap();
    assert_eq!(r, Err(Error::Underflow { value: 0, dec: 1 }));
    assert_eq!(*ent.state(), 0);
    assert_eq!(ent.last_seq_no(), None);
    assert!(ent.live());
}

#[test]
fn spawn_rejects_snapshot_newer_than_log() {
    let id: u128 = 8;
    let mut store = MemSnapshotStore::new();
    store.save(&id, seq(5), &[0]).unwrap();
    let r = spawn::<Counter, _, _, _>(id, None, MemEvtLog::new(), store, CounterBinarize);
    assert_eq!(r.err().unwrap(), SpawnError::InvalidLastSeqNo(None, Some(seq(5))));
}

#[test]
fn spawn_rejects_undecodable_snapshot_state() {
    let id: u128 = 9;
    let mut store = MemSnapshotStore::new();
    // 0xff starts a varint that never ends: not a counter state.
    store.save(&id, seq(1), &[0xff]).unwrap();
    let log = log_with_increments(id, 1);
    let r = spawn::<Counter, _, _, _>(id, None, log, store, CounterBinarize);
    assert_eq!(r.err().unwrap(), SpawnError::LoadSnapshot);
}

#[test]
fn spawn_fails_on_undecodable_event() {
    let id: u128 = 10;
    let mut log = MemEvtLog::new();
    log.append("counter", &id, &[0xff], None).unwrap();
    let r = spawn::<Counter, _, _, _>(
        id,
        None,
        log,
        MemSnapshotStore::new(),
        CounterBinarize,
    );
    assert_eq!(r.err().unwrap(), SpawnError::NextEvt);
}

#[test]
fn runtime_hosts_the_text_codec_too() {
    let id: u128 = 12;
    let mut ent = spawn::<Counter, _, _, _>(
        id,
        Some(2),
        MemEvtLog::new(),
        MemSnapshotStore::new(),
        CounterTextBinarize,
    )
    .unwrap();
    ent.handle_cmd(Cmd::Inc(41)).unwrap().unwrap();
    ent.handle_cmd(Cmd::Inc(1)).unwrap().unwrap();
    assert_eq!(*ent.state(), 42);

    let (log, store) = ent.into_parts();
    // The log and the snapshot hold the readable text forms.
    let evts = log.evts_by_id("counter", &id, seq(1)).unwrap();
    assert_eq!(evts[0].1, b"i:0:41".to_vec());
    assert_eq!(evts[1].1, b"i:41:1".to_vec());
    let snap = store.load(&id).unwrap().unwrap();
    assert_eq!(snap.state, b"42".to_vec());

    let ent2 = spawn::<Counter, _, _, _>(id, None, log, store, CounterTextBinarize).unwrap();
    assert_eq!(*ent2.state(), 42);
}

#[test]
fn failed_append_terminates_the_entity() {
    let id: u128 = 13;
    let mut ent = spawn::<Counter, _, _, _>(
        id,
        None,
        MemEvtLog::failing(),
        MemSnapshotStore::new(),
        CounterBinarize,
    )
    .unwrap();
    assert!(ent.live());
    assert!(ent.handle_cmd(Cmd::Inc(1)).is_err());
    assert!(!ent.live());
    assert_eq!(*ent.state(), 0);
    assert_eq!(ent.last_seq_no(), None);
    // Every later command is refused, and nothing changes.
    assert!(ent.handle_cmd(Cmd::Inc(1)).is_err());
    assert_eq!(*ent.state(), 0);
}

#[test]
fn counter_rejects_overflow_and_underflow() {
    let r = Counter::handle_cmd(&1, &u64::MAX, Cmd::Inc(1));
    assert_eq!(r, Err(Error::Overflow { value: u64::MAX, inc: 1 }));
    let r = Counter::handle_cmd(&1, &3, Cmd::Dec(4));
    assert_eq!(r, Err(Error::Underflow { value: 3, dec: 4 }));
    let r = Counter::handle_cmd(&1, &3, Cmd::Inc(4));
    assert_eq!(r, Ok(Evt::Increased { old_value: 3, inc: 4 }));
}

#[test]
fn with_snapshot_after_resets_value() {
    let c = Counter::default().with_snapshot_after(7);
    assert_eq!(c.snapshot_after(), Some(7));
}
