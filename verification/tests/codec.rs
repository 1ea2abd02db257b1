use eventsourced::binarize::Binarize;
use eventsourced::counter::{CounterBinarize, CounterTextBinarize, Evt};
use eventsourced::seq_no::{SeqNo, SeqNoError, MAX_SEQ_NO};
use eventsourced::wire::{decode_snapshot, encode_snapshot, u64_to_decimal, DecodeError};

fn seq(n: u64) -> SeqNo {
    SeqNo::try_from_u64(n).unwrap()
}

#[test]
fn evt_codec_round_trips() {
    let bz = CounterBinarize;
    let evts = [
        Evt::Increased { old_value: 0, inc: 1 },
        Evt::Increased { old_value: 127, inc: 128 },
        Evt::Increased { old_value: u64::MAX - 1, inc: 1 },
        Evt::Decreased { old_value: 666, dec: 665 },
        Evt::Decreased { old_value: u64::MAX, dec: u64::MAX },
    ];
    for e in evts {
        let bytes = bz.evt_to_bytes(&e).unwrap();
        assert_eq!(bz.evt_from_bytes(bytes.as_slice()).unwrap(), e);
    }
}

#[test]
fn state_codec_round_trips() {
    let bz = CounterBinarize;
    for s in [0u64, 1, 127, 128, 300, 666, u64::MAX] {
        let bytes = bz.state_to_bytes(&s).unwrap();
        assert_eq!(bz.state_from_bytes(bytes.as_slice()).unwrap(), s);
    }
}

#[test]
fn evt_codec_rejects_garbage() {
    let bz = CounterBinarize;
    // Empty, unknown tag, truncated varint, trailing bytes.
    assert!(bz.evt_from_bytes(&[]).is_err());
    assert!(bz.evt_from_bytes(&[3, 0, 0]).is_err());
    assert!(bz.evt_from_bytes(&[1, 0xff]).is_err());
    assert!(bz.evt_from_bytes(&[1, 0, 0, 0]).is_err());
}

#[test]
fn state_codec_rejects_garbage() {
    let bz = CounterBinarize;
    assert!(bz.state_from_bytes(&[]).is_err());
    assert!(bz.state_from_bytes(&[0x80]).is_err());
    assert!(bz.state_from_bytes(&[0, 0]).is_err());
}

#[test]
fn snapshot_envelope_round_trips() {
    for (n, state) in [
        (1u64, vec![]),
        (42, vec![9u8, 1, 2, 3]),
        (300, vec![0u8; 200]),
        (MAX_SEQ_NO, vec![0xff, 0x00]),
    ] {
        let bytes = encode_snapshot(seq(n), state.as_slice());
        let (s, st) = decode_snapshot(bytes.as_slice()).unwrap();
        assert_eq!(s, seq(n));
        assert_eq!(st, state);
    }
}

#[test]
fn snapshot_envelope_rejects_malformed_bytes() {
    assert_eq!(decode_snapshot(&[]), Err(DecodeError::Malformed));
    // Wrong leading tag.
    assert_eq!(decode_snapshot(&[9, 1]), Err(DecodeError::Malformed));
    // Truncated after the sequence number.
    assert_eq!(decode_snapshot(&[8, 1]), Err(DecodeError::Malformed));
    // Wrong second tag.
    assert_eq!(decode_snapshot(&[8, 1, 0x13, 0]), Err(DecodeError::Malformed));
    // Length does not match the payload.
    assert_eq!(decode_snapshot(&[8, 1, 0x12, 2, 0]), Err(DecodeError::Malformed));
}

#[test]
fn text_codec_round_trips() {
    let bz = CounterTextBinarize;
    let evts = [
        Evt::Increased { old_value: 0, inc: 1 },
        Evt::Increased { old_value: 21, inc: 1 },
        Evt::Increased { old_value: u64::MAX - 1, inc: 1 },
        Evt::Decreased { old_value: 666, dec: 665 },
        Evt::Decreased { old_value: u64::MAX, dec: u64::MAX },
    ];
    for e in evts {
        let bytes = bz.evt_to_bytes(&e).unwrap();
        assert_eq!(bz.evt_from_bytes(bytes.as_slice()).unwrap(), e);
    }
    for s in [0u64, 9, 10, 666, u64::MAX] {
        let bytes = bz.state_to_bytes(&s).unwrap();
        assert_eq!(bz.state_from_bytes(bytes.as_slice()).unwrap(), s);
    }
}

#[test]
fn text_codec_is_readable_and_strict() {
    let bz = CounterTextBinarize;
    let evt = Evt::Increased { old_value: 3, inc: 42 };
    assert_eq!(bz.evt_to_bytes(&evt).unwrap(), b"i:3:42".to_vec());
    assert_eq!(bz.evt_from_bytes(b"d:10:7").unwrap(), Evt::Decreased { old_value: 10, dec: 7 });
    assert_eq!(bz.state_to_bytes(&666u64).unwrap(), b"666".to_vec());

    // Empty, unknown tag, missing separator, missing number, trailing junk,
    // value past 64 bits.
    assert!(bz.evt_from_bytes(b"").is_err());
    assert!(bz.evt_from_bytes(b"x:1:2").is_err());
    assert!(bz.evt_from_bytes(b"i:12").is_err());
    assert!(bz.evt_from_bytes(b"i::2").is_err());
    assert!(bz.evt_from_bytes(b"i:1:2 ").is_err());
    assert!(bz.evt_from_bytes(b"i:1:99999999999999999999").is_err());
    assert!(bz.state_from_bytes(b"").is_err());
    assert!(bz.state_from_bytes(b"12a").is_err());
    assert!(bz.state_from_bytes(b"99999999999999999999").is_err());
}

#[test]
fn exact_wire_bytes() {
    let bz = CounterBinarize;
    // 300 as a varint is 0xAC 0x02.
    assert_eq!(bz.state_to_bytes(&300u64).unwrap(), vec![0xac, 0x02]);
    // Tag 1, old value 5, increment 300.
    let evt = Evt::Increased { old_value: 5, inc: 300 };
    assert_eq!(bz.evt_to_bytes(&evt).unwrap(), vec![1, 5, 0xac, 0x02]);
    // Field 1 varint, field 2 length-delimited payload.
    assert_eq!(encode_snapshot(seq(1), &[7]), vec![8, 1, 0x12, 1, 7]);
}

#[test]
fn snapshot_envelope_rejects_zero_seq_no() {
    // A well-formed envelope carrying sequence number zero.
    assert_eq!(decode_snapshot(&[8, 0, 0x12, 0]), Err(DecodeError::InvalidSeqNo));
}

#[test]
fn seq_no_construction_and_arithmetic() {
    assert_eq!(SeqNo::try_from_u64(0), Err(SeqNoError::Zero));
    assert_eq!(SeqNo::try_from_u64(MAX_SEQ_NO + 1), Err(SeqNoError::TooLarge));
    assert_eq!(SeqNo::min().as_u64(), 1);
    assert_eq!(seq(1).next().unwrap(), seq(2));
    assert_eq!(seq(MAX_SEQ_NO).next(), None);
    assert_eq!(seq(MAX_SEQ_NO).saturating_next(), seq(MAX_SEQ_NO));
    assert_eq!(seq(41).saturating_next(), seq(42));
    assert!(seq(1) < seq(2));
}

#[test]
fn decimal_rendering() {
    assert_eq!(u64_to_decimal(0), "0");
    assert_eq!(u64_to_decimal(7), "7");
    assert_eq!(u64_to_decimal(42), "42");
    assert_eq!(u64_to_decimal(5432), "5432");
    assert_eq!(u64_to_decimal(u64::MAX), "18446744073709551615");
}
