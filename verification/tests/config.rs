use eventsourced::nats;
use eventsourced::postgres;
use eventsourced::seq_no::{SeqNo, MAX_SEQ_NO};

fn seq(n: u64) -> SeqNo {
    SeqNo::try_from_u64(n).unwrap()
}

#[test]
fn nats_evt_log_config_defaults() {
    let c = nats::evt_log::Config::default();
    assert_eq!(c.server_addr, "localhost:4222");
    assert!(c.credentials.is_none());
    assert_eq!(c.evt_stream_name, "evts");
    assert_eq!(c.evt_stream_max_bytes, -1);
    assert!(!c.setup);
}

#[test]
fn nats_snapshot_store_config_defaults() {
    let c = nats::snapshot_store::Config::default();
    assert_eq!(c.server_addr, "localhost:4222");
    assert_eq!(c.bucket_name, "snapshots");
    assert_eq!(c.bucket_max_bytes, -1);
    assert!(!c.setup);
}

#[test]
fn nats_subjects() {
    assert_eq!(nats::evt_log::subject_for_id("evts", "counter", "07"), "evts.counter.07");
    assert_eq!(nats::evt_log::subject_for_type("evts", "counter"), "evts.counter.*");
    assert_eq!(nats::evt_log::subject_all("evts"), "evts.>");
}

#[test]
fn postgres_config_defaults_and_cnn_config() {
    let c = postgres::evt_log::Config::default();
    assert_eq!(c.host, "localhost");
    assert_eq!(c.port, 5432);
    assert_eq!(c.user, "postgres");
    assert_eq!(c.password, "");
    assert_eq!(c.dbname, "postgres");
    assert_eq!(c.sslmode, "prefer");
    assert_eq!(c.evts_table, "evts");
    assert_eq!(c.poll_interval, 2000);
    assert_eq!(c.id_broadcast_capacity, 1);
    assert!(!c.setup);
    assert_eq!(
        c.cnn_config(),
        "host=localhost port=5432 user=postgres password= dbname=postgres sslmode=prefer",
    );
}

#[test]
fn postgres_append_and_tail_decisions() {
    assert_eq!(postgres::evt_log::insert_seq_no(None), Some(seq(1)));
    assert_eq!(postgres::evt_log::insert_seq_no(Some(seq(41))), Some(seq(42)));
    assert_eq!(postgres::evt_log::insert_seq_no(Some(seq(MAX_SEQ_NO))), None);
    assert_eq!(postgres::evt_log::tail_resume_after(seq(5)), Some(seq(6)));
    assert_eq!(postgres::evt_log::tail_resume_after(seq(MAX_SEQ_NO)), None);
}

#[test]
fn default_fns_match_defaults() {
    assert_eq!(nats::evt_log::evt_stream_name_default(), "evts");
    assert_eq!(nats::evt_log::evt_stream_max_bytes_default(), -1);
    assert_eq!(nats::snapshot_store::bucket_name_default(), "snapshots");
    assert_eq!(nats::snapshot_store::bucket_max_bytes_default(), -1);
    assert_eq!(postgres::evt_log::evts_table_default(), "evts");
    assert_eq!(postgres::evt_log::poll_interval_default(), 2000);
    assert_eq!(postgres::evt_log::id_broadcast_capacity_default(), 1);
}
