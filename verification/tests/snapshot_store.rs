use eventsourced::binarize::Binarize;
use eventsourced::counter::CounterBinarize;
use eventsourced::seq_no::SeqNo;
use eventsourced::snapshot_store::{MemSnapshotStore, SnapshotStore, SnapshotStoreError};

#[test]
fn test_snapshot_store() {
    let bz = CounterBinarize;
    let mut store = MemSnapshotStore::new();
    let id: u128 = 11;

    assert!(store.load(&id).unwrap().is_none());

    let seq_no = SeqNo::try_from_u64(42).unwrap();
    let state = bz.state_to_bytes(&666u64).unwrap();
    store.save(&id, seq_no, state.as_slice()).unwrap();

    let snap = store.load(&id).unwrap().unwrap();
    assert_eq!(snap.seq_no, seq_no);
    assert_eq!(bz.state_from_bytes(snap.state.as_slice()).unwrap(), 666);
}

#[test]
fn save_overwrites_earlier_pair() {
    let mut store = MemSnapshotStore::new();
    let id: u128 = 3;
    store.save(&id, SeqNo::try_from_u64(1).unwrap(), &[10]).unwrap();
    store.save(&id, SeqNo::try_from_u64(2).unwrap(), &[20]).unwrap();
    let snap = store.load(&id).unwrap().unwrap();
    assert_eq!(snap.seq_no.as_u64(), 2);
    assert_eq!(snap.state, vec![20]);
}

#[test]
fn stores_are_separate_per_id() {
    let mut store = MemSnapshotStore::new();
    store.save(&1, SeqNo::try_from_u64(5).unwrap(), &[1]).unwrap();
    assert!(store.load(&2).unwrap().is_none());
}

#[test]
fn failing_store_refuses_saves() {
    let mut store = MemSnapshotStore::failing();
    let r = store.save(&1, SeqNo::try_from_u64(1).unwrap(), &[1]);
    assert_eq!(r, Err(SnapshotStoreError::Connectivity));
    assert!(store.load(&1).unwrap().is_none());
}
