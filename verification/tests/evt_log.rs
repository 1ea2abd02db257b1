use eventsourced::evt_log::{EvtLog, LogError, MemEvtLog};
use eventsourced::seq_no::SeqNo;

fn seq(n: u64) -> SeqNo {
    SeqNo::try_from_u64(n).unwrap()
}

#[test]
fn test_evt_log() {
    let mut log = MemEvtLog::new();
    let id: u128 = 7;

    assert_eq!(log.last_seq_no("simple", &id).unwrap(), None);

    let s1 = log.append("simple", &id, &[1], None).unwrap();
    assert_eq!(s1.as_u64(), 1);

    // A second first-write claim must fail.
    assert!(log.append("simple", &id, &[2], None).is_err());

    let s2 = log.append("simple", &id, &[2], Some(s1)).unwrap();
    assert_eq!(s2.as_u64(), 2);

    // A stale expected last sequence number is a conflict.
    let conflict = log.append("simple", &id, &[3], Some(s1));
    assert_eq!(conflict, Err(LogError::Conflict));

    let s3 = log.append("simple", &id, &[3], Some(s2)).unwrap();
    assert_eq!(s3.as_u64(), 3);
    assert_eq!(log.last_seq_no("simple", &id).unwrap(), Some(s3));

    let s4 = log.append("simple", &id, &[4], Some(s3)).unwrap();
    let s5 = log.append("simple", &id, &[5], Some(s4)).unwrap();
    assert_eq!(s5.as_u64(), 5);
    assert_eq!(log.last_seq_no("simple", &id).unwrap(), Some(s5));

    // Replay sum: the two events from sequence number 2 on are 2 and 3.
    let evts = log.evts_by_id("simple", &id, seq(2)).unwrap();
    let sum: u64 = evts.iter().take(2).map(|(_, p)| p[0] as u64).sum();
    assert_eq!(sum, 5);
}

#[test]
fn evts_by_id_is_dense_from_one() {
    let mut log = MemEvtLog::new();
    let id: u128 = 9;
    let mut last: Option<SeqNo> = None;
    for i in 1..=5u8 {
        last = Some(log.append("simple", &id, &[i], last).unwrap());
    }
    let evts = log.evts_by_id("simple", &id, seq(1)).unwrap();
    assert_eq!(evts.len(), 5);
    for (i, (s, p)) in evts.iter().enumerate() {
        assert_eq!(s.as_u64(), i as u64 + 1);
        assert_eq!(p[0] as usize, i + 1);
    }
}

#[test]
fn evts_by_type_includes_all_ids_in_order() {
    let mut log = MemEvtLog::new();
    let u1: u128 = 1;
    let u2: u128 = 2;
    let a1 = log.append("simple", &u1, &[1], None).unwrap();
    log.append("simple", &u1, &[2], Some(a1)).unwrap();
    let b1 = log.append("simple", &u2, &[3], None).unwrap();
    let b2 = log.append("simple", &u2, &[4], Some(b1)).unwrap();
    log.append("simple", &u2, &[5], Some(b2)).unwrap();

    let evts = log.evts_by_type("simple", seq(1)).unwrap();
    assert_eq!(evts.len(), 5);
    let sum: u64 = evts.iter().take(5).map(|(_, _, p)| p[0] as u64).sum();
    assert_eq!(sum, 15);

    // Per-entity sequence numbers, in log order.
    let seqs: Vec<u64> = evts.iter().map(|(s, _, _)| s.as_u64()).collect();
    assert_eq!(seqs, vec![1, 2, 1, 2, 3]);

    // The `from` bound filters on the per-entity sequence number.
    let late = log.evts_by_type("simple", seq(2)).unwrap();
    let payloads: Vec<u8> = late.iter().map(|(_, _, p)| p[0]).collect();
    assert_eq!(payloads, vec![2, 4, 5]);
}

#[test]
fn failing_log_refuses_appends() {
    let mut log = MemEvtLog::failing();
    let id: u128 = 5;
    assert_eq!(log.append("simple", &id, &[1], None), Err(LogError::Connectivity));
    assert_eq!(log.last_seq_no("simple", &id).unwrap(), None);
}

#[test]
fn logs_are_separate_per_entity_type() {
    let mut log = MemEvtLog::new();
    let id: u128 = 4;
    log.append("one", &id, &[1], None).unwrap();
    assert_eq!(log.last_seq_no("other", &id).unwrap(), None);
    let s = log.append("other", &id, &[9], None).unwrap();
    assert_eq!(s.as_u64(), 1);
}
