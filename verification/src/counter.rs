//! An example event sourced entity: a counter.
//!
//! Commands increment or decrement a 64-bit value; a command that would
//! overflow or underflow is rejected with a domain error. Events record
//! the old value and the amount. The module also carries the two
//! reference codecs for the counter's events and state: a
//! length-delimited binary encoding built on the varint of
//! [`crate::wire`], and a self-describing text encoding of tagged
//! decimal numbers — both proved round-trip-safe.

use vstd::prelude::*;
use crate::binarize::{Binarize, CodecError};
use crate::entity::EventSourced;
use crate::wire::{
    decode_varint, digits_prefix_len, encode_decimal_into, encode_varint_into,
    lemma_decimal_bytes_digits, lemma_decimal_round_trip, lemma_digits_prefix_concat,
    lemma_varint_round_trip, parse_decimal_range, scan_digits, spec_decimal_bytes,
    spec_parse_decimal, spec_parse_varint, spec_varint,
};

verus! {

/// An event sourced counter: the domain type, carrying its snapshot
/// cadence.
#[derive(Debug)]
pub struct Counter {
    value: u64,
    snapshot_after: Option<u64>,
}

impl Counter {
    /// The counter's value.
    pub closed spec fn spec_value(&self) -> u64 {
        self.value
    }

    /// The snapshot cadence, if any.
    pub closed spec fn spec_snapshot_after(&self) -> Option<u64> {
        self.snapshot_after
    }

    /// A fresh counter that asks for a snapshot every `snapshot_after`
    /// applied events.
    pub fn with_snapshot_after(self, snapshot_after: u64) -> (r: Counter)
        ensures
            r.spec_value() == 0,
            r.spec_snapshot_after() == Some(snapshot_after),
    {
        Counter { snapshot_after: Some(snapshot_after), ..Default::default() }
    }

    /// The snapshot cadence, if any.
    pub fn snapshot_after(&self) -> (r: Option<u64>)
        ensures
            r == self.spec_snapshot_after(),
    {
        self.snapshot_after
    }
}

impl Default for Counter {
    /// A counter at zero that never asks for snapshots.
    fn default() -> (r: Counter)
        ensures
            r.spec_value() == 0,
            r.spec_snapshot_after() is None,
    {
        Counter { value: 0, snapshot_after: None }
    }
}

/// Commands of the counter.
#[derive(Debug, Clone, Copy, PartialEq, Eq, Structural)]
pub enum Cmd {
    Inc(u64),
    Dec(u64),
}

/// Rejected commands of the counter.
#[derive(Debug, Clone, Copy, PartialEq, Eq, Structural)]
pub enum Error {
    /// Incrementing by `inc` at `value` would exceed `u64::MAX`.
    Overflow { value: u64, inc: u64 },
    /// Decrementing by `dec` at `value` would fall below zero.
    Underflow { value: u64, dec: u64 },
}

/// Events of the counter, recording the value they applied to.
#[derive(Debug, Clone, Copy, PartialEq, Eq, Structural)]
pub enum Evt {
    Increased { old_value: u64, inc: u64 },
    Decreased { old_value: u64, dec: u64 },
}

impl EventSourced for Counter {
    type Id = u128;

    type Cmd = Cmd;

    type Evt = Evt;

    type State = u64;

    type Error = Error;

    open spec fn spec_entity_type() -> Seq<char> {
        "counter"@
    }

    fn entity_type() -> (r: &'static str)
        ensures
            r@ == Self::spec_entity_type(),
    {
        "counter"
    }

    open spec fn initial_state() -> u64 {
        0
    }

    fn default_state() -> (r: u64)
        ensures
            r == Self::initial_state(),
    {
        0
    }

    open spec fn cmd_result(id: u128, state: u64, cmd: Cmd) -> Result<Evt, Error> {
        match cmd {
            Cmd::Inc(inc) => if inc > u64::MAX - state {
                Err(Error::Overflow { value: state, inc })
            } else {
                Ok(Evt::Increased { old_value: state, inc })
            },
            Cmd::Dec(dec) => if dec > state {
                Err(Error::Underflow { value: state, dec })
            } else {
                Ok(Evt::Decreased { old_value: state, dec })
            },
        }
    }

    /// Increments are rejected exactly when they would overflow,
    /// decrements exactly when they would underflow.
    fn handle_cmd(id: &u128, state: &u64, cmd: Cmd) -> (r: Result<Evt, Error>)
        ensures
            r == Self::cmd_result(*id, *state, cmd),
    {
        match cmd {
            Cmd::Inc(inc) => if inc > u64::MAX - *state {
                Err(Error::Overflow { value: *state, inc })
            } else {
                Ok(Evt::Increased { old_value: *state, inc })
            },
            Cmd::Dec(dec) => if dec > *state {
                Err(Error::Underflow { value: *state, dec })
            } else {
                Ok(Evt::Decreased { old_value: *state, dec })
            },
        }
    }

    open spec fn apply_evt(state: u64, evt: Evt) -> u64 {
        match evt {
            Evt::Increased { old_value, inc } => vstd::wrapping::u64_specs::wrapping_add(
                state,
                inc,
            ),
            Evt::Decreased { old_value, dec } => vstd::wrapping::u64_specs::wrapping_sub(
                state,
                dec,
            ),
        }
    }

    /// Folding an event the command handler produced never wraps; on a
    /// foreign event the arithmetic wraps rather than panics.
    fn handle_evt(state: u64, evt: Evt) -> (r: u64)
        ensures
            r == Self::apply_evt(state, evt),
    {
        match evt {
            Evt::Increased { old_value: _, inc } => state.wrapping_add(inc),
            Evt::Decreased { old_value: _, dec } => state.wrapping_sub(dec),
        }
    }
}

/// The encoding of a counter event: a tag byte, then the old value and
/// the amount as varints.
pub open spec fn spec_evt_enc(e: Evt) -> Seq<u8> {
    match e {
        Evt::Increased { old_value, inc } => seq![1u8] + spec_varint(old_value as nat)
            + spec_varint(inc as nat),
        Evt::Decreased { old_value, dec } => seq![2u8] + spec_varint(old_value as nat)
            + spec_varint(dec as nat),
    }
}

/// The decoding of counter event bytes; the whole input must be
/// consumed.
pub open spec fn spec_evt_dec(b: Seq<u8>) -> Option<Evt> {
    if b.len() == 0 || (b[0] != 1 && b[0] != 2) {
        None
    } else {
        match spec_parse_varint(b.drop_first()) {
            None => None,
            Some((a, k)) => match spec_parse_varint(b.drop_first().skip(k)) {
                None => None,
                Some((c, k2)) => if b.drop_first().skip(k).len() == k2 && a <= u64::MAX && c
                    <= u64::MAX {
                    if b[0] == 1 {
                        Some(Evt::Increased { old_value: a as u64, inc: c as u64 })
                    } else {
                        Some(Evt::Decreased { old_value: a as u64, dec: c as u64 })
                    }
                } else {
                    None
                },
            },
        }
    }
}

/// The encoding of the counter state: its value as a varint.
pub open spec fn spec_state_enc(s: u64) -> Seq<u8> {
    spec_varint(s as nat)
}

/// The decoding of counter state bytes; the whole input must be
/// consumed.
pub open spec fn spec_state_dec(b: Seq<u8>) -> Option<u64> {
    match spec_parse_varint(b) {
        None => None,
        Some((v, k)) => if b.len() == k && v <= u64::MAX {
            Some(v as u64)
        } else {
            None
        },
    }
}

/// The reference byte codec for the counter: a length-delimited binary
/// encoding of events and state, deterministic and round-trip-safe.
pub struct CounterBinarize;

impl Binarize<Evt, u64> for CounterBinarize {
    open spec fn evt_enc(e: Evt) -> Seq<u8> {
        spec_evt_enc(e)
    }

    open spec fn evt_dec(b: Seq<u8>) -> Option<Evt> {
        spec_evt_dec(b)
    }

    open spec fn state_enc(s: u64) -> Seq<u8> {
        spec_state_enc(s)
    }

    open spec fn state_dec(b: Seq<u8>) -> Option<u64> {
        spec_state_dec(b)
    }

    proof fn evt_round_trip(e: Evt) {
        let (tag, a, c): (u8, u64, u64) = match e {
            Evt::Increased { old_value, inc } => (1u8, old_value, inc),
            Evt::Decreased { old_value, dec } => (2u8, old_value, dec),
        };
        let b = spec_evt_enc(e);
        assert(b =~= seq![tag] + spec_varint(a as nat) + spec_varint(c as nat));
        assert(b.drop_first() =~= spec_varint(a as nat) + spec_varint(c as nat));
        lemma_varint_round_trip(a as nat, spec_varint(c as nat));
        let k = spec_varint(a as nat).len() as int;
        assert(b.drop_first().skip(k) =~= spec_varint(c as nat));
        assert(spec_varint(c as nat) =~= spec_varint(c as nat) + Seq::<u8>::empty());
        lemma_varint_round_trip(c as nat, Seq::<u8>::empty());
    }

    proof fn state_round_trip(s: u64) {
        assert(spec_varint(s as nat) =~= spec_varint(s as nat) + Seq::<u8>::empty());
        lemma_varint_round_trip(s as nat, Seq::<u8>::empty());
    }

    /// Encoding never fails.
    fn evt_to_bytes(&self, e: &Evt) -> (r: Result<Vec<u8>, CodecError>)
        ensures
            r matches Ok(b) && b@ == Self::evt_enc(*e),
    {
        let mut out: Vec<u8> = Vec::new();
        let (tag, a, c): (u8, u64, u64) = match *e {
            Evt::Increased { old_value, inc } => (1u8, old_value, inc),
            Evt::Decreased { old_value, dec } => (2u8, old_value, dec),
        };
        out.push(tag);
        encode_varint_into(&mut out, a);
        encode_varint_into(&mut out, c);
        proof {
            assert(out@ =~= spec_evt_enc(*e));
        }
        Ok(out)
    }

    fn evt_from_bytes(&self, b: &[u8]) -> (r: Result<Evt, CodecError>)
        ensures
            match r {
                Ok(e) => Self::evt_dec(b@) == Some(e),
                Err(_) => Self::evt_dec(b@) is None,
            },
    {
        let blen = b.len();
        if blen == 0 {
            return Err(CodecError);
        }
        let tag = *vstd::slice::slice_index_get(b, 0);
        if tag != 1 && tag != 2 {
            return Err(CodecError);
        }
        proof {
            assert(b@.drop_first() =~= b@.skip(1));
        }
        let (a, j) = match decode_varint(b, 1) {
            None => {
                return Err(CodecError);
            },
            Some(p) => p,
        };
        proof {
            assert(b@.drop_first().skip(j - 1) =~= b@.skip(j as int));
        }
        let (c, j2) = match decode_varint(b, j) {
            None => {
                return Err(CodecError);
            },
            Some(p) => p,
        };
        if j2 != blen {
            return Err(CodecError);
        }
        if tag == 1 {
            Ok(Evt::Increased { old_value: a, inc: c })
        } else {
            Ok(Evt::Decreased { old_value: a, dec: c })
        }
    }

    /// Encoding never fails.
    fn state_to_bytes(&self, s: &u64) -> (r: Result<Vec<u8>, CodecError>)
        ensures
            r matches Ok(b) && b@ == Self::state_enc(*s),
    {
        let mut out: Vec<u8> = Vec::new();
        encode_varint_into(&mut out, *s);
        Ok(out)
    }

    fn state_from_bytes(&self, b: &[u8]) -> (r: Result<u64, CodecError>)
        ensures
            match r {
                Ok(s) => Self::state_dec(b@) == Some(s),
                Err(_) => Self::state_dec(b@) is None,
            },
    {
        let blen = b.len();
        let (v, k) = match decode_varint(b, 0) {
            None => {
                proof {
                    assert(b@.skip(0) =~= b@);
                }
                return Err(CodecError);
            },
            Some(p) => p,
        };
        proof {
            assert(b@.skip(0) =~= b@);
        }
        if k != blen {
            return Err(CodecError);
        }
        Ok(v)
    }
}

/// The self-describing text encoding of a counter event: a tag letter
/// (`i` or `d`), then the old value and the amount as decimal numbers,
/// the three separated by colons.
pub open spec fn spec_evt_enc_text(e: Evt) -> Seq<u8> {
    match e {
        Evt::Increased { old_value, inc } => seq![105u8, 58u8] + spec_decimal_bytes(
            old_value as nat,
        ) + seq![58u8] + spec_decimal_bytes(inc as nat),
        Evt::Decreased { old_value, dec } => seq![100u8, 58u8] + spec_decimal_bytes(
            old_value as nat,
        ) + seq![58u8] + spec_decimal_bytes(dec as nat),
    }
}

/// The decoding of the text form; the whole input must be consumed.
pub open spec fn spec_evt_dec_text(b: Seq<u8>) -> Option<Evt> {
    if b.len() < 2 || (b[0] != 105 && b[0] != 100) || b[1] != 58 {
        None
    } else {
        let rest = b.skip(2);
        let k = digits_prefix_len(rest);
        if k == 0 || k >= rest.len() || rest[k] != 58 {
            None
        } else {
            match (spec_parse_decimal(rest.take(k)), spec_parse_decimal(rest.skip(k + 1))) {
                (Some(a), Some(c)) => if a <= u64::MAX && c <= u64::MAX {
                    if b[0] == 105 {
                        Some(Evt::Increased { old_value: a as u64, inc: c as u64 })
                    } else {
                        Some(Evt::Decreased { old_value: a as u64, dec: c as u64 })
                    }
                } else {
                    None
                },
                _ => None,
            }
        }
    }
}

/// The text encoding of the counter state: its value as a decimal
/// number.
pub open spec fn spec_state_enc_text(s: u64) -> Seq<u8> {
    spec_decimal_bytes(s as nat)
}

/// The decoding of the state's text form; the whole input must be
/// consumed.
pub open spec fn spec_state_dec_text(b: Seq<u8>) -> Option<u64> {
    match spec_parse_decimal(b) {
        Some(v) => if v <= u64::MAX {
            Some(v as u64)
        } else {
            None
        },
        None => None,
    }
}

/// The self-describing text codec for the counter, deterministic and
/// round-trip-safe like its binary sibling.
pub struct CounterTextBinarize;

impl Binarize<Evt, u64> for CounterTextBinarize {
    open spec fn evt_enc(e: Evt) -> Seq<u8> {
        spec_evt_enc_text(e)
    }

    open spec fn evt_dec(b: Seq<u8>) -> Option<Evt> {
        spec_evt_dec_text(b)
    }

    open spec fn state_enc(s: u64) -> Seq<u8> {
        spec_state_enc_text(s)
    }

    open spec fn state_dec(b: Seq<u8>) -> Option<u64> {
        spec_state_dec_text(b)
    }

    proof fn evt_round_trip(e: Evt) {
        let (tag, a, c): (u8, u64, u64) = match e {
            Evt::Increased { old_value, inc } => (105u8, old_value, inc),
            Evt::Decreased { old_value, dec } => (100u8, old_value, dec),
        };
        let da = spec_decimal_bytes(a as nat);
        let dc = spec_decimal_bytes(c as nat);
        let b = spec_evt_enc_text(e);
        assert(b =~= seq![tag, 58u8] + da + seq![58u8] + dc);
        lemma_decimal_bytes_digits(a as nat);
        lemma_decimal_bytes_digits(c as nat);
        let rest = b.skip(2);
        assert(rest =~= da + (seq![58u8] + dc));
        lemma_digits_prefix_concat(da, seq![58u8] + dc);
        let k = da.len() as int;
        assert(digits_prefix_len(rest) == k);
        assert(rest.take(k) =~= da);
        lemma_decimal_round_trip(a as nat);
        assert(rest[k] == 58);
        assert(rest.skip(k + 1) =~= dc);
        lemma_decimal_round_trip(c as nat);
    }

    proof fn state_round_trip(s: u64) {
        lemma_decimal_round_trip(s as nat);
    }

    /// Encoding never fails.
    fn evt_to_bytes(&self, e: &Evt) -> (r: Result<Vec<u8>, CodecError>)
        ensures
            r matches Ok(b) && b@ == Self::evt_enc(*e),
    {
        let (tag, a, c): (u8, u64, u64) = match *e {
            Evt::Increased { old_value, inc } => (105u8, old_value, inc),
            Evt::Decreased { old_value, dec } => (100u8, old_value, dec),
        };
        let mut out: Vec<u8> = Vec::new();
        out.push(tag);
        out.push(58);
        encode_decimal_into(&mut out, a);
        out.push(58);
        encode_decimal_into(&mut out, c);
        proof {
            assert(out@ =~= spec_evt_enc_text(*e));
        }
        Ok(out)
    }

    fn evt_from_bytes(&self, b: &[u8]) -> (r: Result<Evt, CodecError>)
        ensures
            match r {
                Ok(e) => Self::evt_dec(b@) == Some(e),
                Err(_) => Self::evt_dec(b@) is None,
            },
    {
        let blen = b.len();
        if blen < 2 {
            return Err(CodecError);
        }
        let tag = *vstd::slice::slice_index_get(b, 0);
        if tag != 105 && tag != 100 {
            return Err(CodecError);
        }
        if *vstd::slice::slice_index_get(b, 1) != 58 {
            return Err(CodecError);
        }
        let ghost rest = b@.skip(2);
        let k_end = scan_digits(b, 2);
        if k_end == 2 || k_end >= blen {
            return Err(CodecError);
        }
        proof {
            assert(rest[k_end - 2] == b@[k_end as int]);
        }
        if *vstd::slice::slice_index_get(b, k_end) != 58 {
            return Err(CodecError);
        }
        proof {
            assert(b@.subrange(2, k_end as int) =~= rest.take(k_end - 2));
        }
        let a = match parse_decimal_range(b, 2, k_end) {
            None => {
                return Err(CodecError);
            },
            Some(a) => a,
        };
        proof {
            assert(b@.subrange(k_end as int + 1, blen as int) =~= rest.skip(k_end - 2 + 1));
        }
        let c = match parse_decimal_range(b, k_end + 1, blen) {
            None => {
                return Err(CodecError);
            },
            Some(c) => c,
        };
        if tag == 105 {
            Ok(Evt::Increased { old_value: a, inc: c })
        } else {
            Ok(Evt::Decreased { old_value: a, dec: c })
        }
    }

    /// Encoding never fails.
    fn state_to_bytes(&self, s: &u64) -> (r: Result<Vec<u8>, CodecError>)
        ensures
            r matches Ok(b) && b@ == Self::state_enc(*s),
    {
        let mut out: Vec<u8> = Vec::new();
        encode_decimal_into(&mut out, *s);
        Ok(out)
    }

    fn state_from_bytes(&self, b: &[u8]) -> (r: Result<u64, CodecError>)
        ensures
            match r {
                Ok(s) => Self::state_dec(b@) == Some(s),
                Err(_) => Self::state_dec(b@) is None,
            },
    {
        proof {
            assert(b@.subrange(0, b@.len() as int) =~= b@);
        }
        match parse_decimal_range(b, 0, b.len()) {
            None => Err(CodecError),
            Some(v) => Ok(v),
        }
    }
}

} // verus!
