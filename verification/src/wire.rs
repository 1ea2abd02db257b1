//! The snapshot wire record.
//!
//! A snapshot is stored in a single broker KV value as a length-delimited
//! binary envelope with two fields: the sequence number (field 1, as a
//! base-128 varint) and the state bytes (field 2, length-delimited). The
//! envelope makes the pair unambiguous inside one opaque value.

use vstd::prelude::*;
use vstd::arithmetic::div_mod::lemma_fundamental_div_mod;
use vstd::slice::{slice_index_get, slice_subrange, slice_to_vec};
use vstd::string::StringExecFns;
use crate::seq_no::{SeqNo, MAX_SEQ_NO};

verus! {

/// The base-128 varint encoding of `n`: seven value bits per byte, least
/// significant group first, high bit set on every byte but the last.
pub open spec fn spec_varint(n: nat) -> Seq<u8>
    decreases n,
{
    if n < 128 {
        seq![n as u8]
    } else {
        seq![(128 + (n % 128)) as u8] + spec_varint(n / 128)
    }
}

/// Parse a varint from the front of `b`: the value and the number of
/// bytes consumed, or `None` if `b` starts with no complete varint.
pub open spec fn spec_parse_varint(b: Seq<u8>) -> Option<(nat, int)>
    decreases b.len(),
{
    if b.len() == 0 {
        None
    } else if b[0] < 128 {
        Some((b[0] as nat, 1))
    } else {
        match spec_parse_varint(b.drop_first()) {
            Some((v, k)) => Some(((b[0] - 128) as nat + 128 * v, k + 1)),
            None => None,
        }
    }
}

/// The envelope: `0x08`, the sequence number as a varint, `0x12`, the
/// state length as a varint, the state bytes.
pub open spec fn spec_encode_snapshot(seq_no: nat, state: Seq<u8>) -> Seq<u8> {
    seq![8u8] + spec_varint(seq_no) + seq![0x12u8] + spec_varint(state.len()) + state
}

/// Parse an envelope: the sequence number and the state bytes, or `None`
/// if `b` is not an envelope. The whole input must be consumed.
pub open spec fn spec_parse_snapshot(b: Seq<u8>) -> Option<(nat, Seq<u8>)> {
    if b.len() == 0 || b[0] != 8 {
        None
    } else {
        match spec_parse_varint(b.drop_first()) {
            None => None,
            Some((s, k)) => {
                let rest = b.drop_first().skip(k);
                if rest.len() == 0 || rest[0] != 0x12 {
                    None
                } else {
                    match spec_parse_varint(rest.drop_first()) {
                        None => None,
                        Some((l, k2)) => {
                            let payload = rest.drop_first().skip(k2);
                            if payload.len() == l {
                                Some((s, payload))
                            } else {
                                None
                            }
                        },
                    }
                }
            },
        }
    }
}

/// Parsing undoes encoding for a varint, whatever follows it.
pub proof fn lemma_varint_round_trip(n: nat, rest: Seq<u8>)
    ensures
        spec_parse_varint(spec_varint(n) + rest) == Some((n, spec_varint(n).len() as int)),
    decreases n,
{
    let b = spec_varint(n) + rest;
    if n < 128 {
        assert(b[0] == n as u8);
    } else {
        lemma_varint_round_trip(n / 128, rest);
        assert(b.drop_first() =~= spec_varint(n / 128) + rest);
        assert(b[0] == (128 + (n % 128)) as u8);
        lemma_fundamental_div_mod(n as int, 128);
        assert((b[0] - 128) as nat + 128 * (n / 128) == n);
    }
}

/// A successful varint parse consumes between one byte and the whole
/// input.
pub proof fn lemma_parse_varint_consumed(b: Seq<u8>)
    ensures
        spec_parse_varint(b) matches Some((v, k)) ==> 1 <= k <= b.len(),
    decreases b.len(),
{
    if b.len() > 0 && b[0] >= 128 {
        lemma_parse_varint_consumed(b.drop_first());
    }
}

/// Parsing undoes encoding for the whole envelope.
pub proof fn lemma_snapshot_round_trip(seq_no: nat, state: Seq<u8>)
    ensures
        spec_parse_snapshot(spec_encode_snapshot(seq_no, state)) == Some((seq_no, state)),
{
    let b = spec_encode_snapshot(seq_no, state);
    let tail1 = seq![0x12u8] + spec_varint(state.len()) + state;
    assert(b.drop_first() =~= spec_varint(seq_no) + tail1);
    lemma_varint_round_trip(seq_no, tail1);
    let k = spec_varint(seq_no).len() as int;
    let rest = b.drop_first().skip(k);
    assert(rest =~= tail1);
    assert(rest.drop_first() =~= spec_varint(state.len()) + state);
    lemma_varint_round_trip(state.len(), state);
    let k2 = spec_varint(state.len()).len() as int;
    assert(rest.drop_first().skip(k2) =~= state);
}

/// A stored envelope that does not decode to a valid snapshot pair.
#[derive(Clone, Copy, Debug, PartialEq, Eq, Structural)]
pub enum DecodeError {
    /// The bytes are not an envelope.
    Malformed,
    /// The envelope carries a sequence number of zero or one beyond the
    /// representable range.
    InvalidSeqNo,
}

/// Append the varint encoding of `n` to `out`.
pub fn encode_varint_into(out: &mut Vec<u8>, n: u64)
    ensures
        final(out)@ == old(out)@ + spec_varint(n as nat),
{
    let mut m = n;
    while m >= 128
        invariant
            out@ + spec_varint(m as nat) == old(out)@ + spec_varint(n as nat),
        decreases m,
    {
        let ghost pre = m as nat;
        out.push((128 + m % 128) as u8);
        m = m / 128;
        proof {
            assert(spec_varint(pre) =~= seq![(128 + (pre % 128)) as u8] + spec_varint(pre / 128));
        }
    }
    out.push(m as u8);
    proof {
        assert(spec_varint(m as nat) =~= seq![m as u8]);
    }
}

/// Parse a varint beginning at index `i` of `b`: the value and the index
/// just past it. `None` if there is no complete varint there or its value
/// does not fit in 64 bits.
pub fn decode_varint(b: &[u8], i: usize) -> (r: Option<(u64, usize)>)
    requires
        i <= b@.len(),
    ensures
        match r {
            Some((v, j)) => {
                &&& spec_parse_varint(b@.skip(i as int)) == Some((v as nat, j - i))
                &&& i < j <= b@.len()
            },
            None => match spec_parse_varint(b@.skip(i as int)) {
                Some((v, _)) => v > u64::MAX,
                None => true,
            },
        },
    decreases b@.len() - i,
{
    if i >= b.len() {
        return None;
    }
    let c = *slice_index_get(b, i);
    if c < 128 {
        proof {
            assert(b@.skip(i as int)[0] == c);
        }
        Some((c as u64, i + 1))
    } else {
        proof {
            assert(b@.skip(i as int)[0] == c);
            assert(b@.skip(i as int).drop_first() =~= b@.skip(i as int + 1));
        }
        match decode_varint(b, i + 1) {
            None => None,
            Some((v, j)) => {
                let low = (c - 128) as u64;
                if v <= (u64::MAX - low) / 128 {
                    Some((low + 128 * v, j))
                } else {
                    None
                }
            },
        }
    }
}

/// Encode a snapshot pair as the wire envelope.
pub fn encode_snapshot(seq_no: SeqNo, state: &[u8]) -> (r: Vec<u8>)
    ensures
        r@ == spec_encode_snapshot(seq_no.as_int() as nat, state@),
{
    let mut out: Vec<u8> = Vec::new();
    out.push(8u8);
    encode_varint_into(&mut out, seq_no.as_u64());
    out.push(0x12u8);
    encode_varint_into(&mut out, state.len() as u64);
    let mut k: usize = 0;
    while k < state.len()
        invariant
            k <= state@.len(),
            out@ == seq![8u8] + spec_varint(seq_no.as_int() as nat) + seq![0x12u8]
                + spec_varint(state@.len()) + state@.take(k as int),
        decreases state@.len() - k,
    {
        out.push(*slice_index_get(state, k));
        proof {
            assert(state@.take(k as int + 1) =~= state@.take(k as int).push(state@[k as int]));
        }
        k = k + 1;
    }
    proof {
        assert(state@.take(state@.len() as int) =~= state@);
        assert(out@ =~= spec_encode_snapshot(seq_no.as_int() as nat, state@));
    }
    out
}

/// Decode a wire envelope into a snapshot pair.
///
/// Fails exactly where the bytes are not an envelope or the carried
/// sequence number lies outside `1 ..= MAX_SEQ_NO`.
pub fn decode_snapshot(b: &[u8]) -> (r: Result<(SeqNo, Vec<u8>), DecodeError>)
    ensures
        match r {
            Ok((s, st)) => spec_parse_snapshot(b@) == Some((s.as_int() as nat, st@)),
            Err(DecodeError::Malformed) => match spec_parse_snapshot(b@) {
                Some((n, _)) => n > u64::MAX,
                None => true,
            },
            Err(DecodeError::InvalidSeqNo) => match spec_parse_snapshot(b@) {
                Some((n, _)) => n == 0 || n > MAX_SEQ_NO,
                None => false,
            },
        },
{
    if b.len() == 0 || *slice_index_get(b, 0) != 8 {
        return Err(DecodeError::Malformed);
    }
    proof {
        assert(b@.drop_first() =~= b@.skip(1));
    }
    let (s, k) = match decode_varint(b, 1) {
        None => {
            return Err(DecodeError::Malformed);
        },
        Some(p) => p,
    };
    proof {
        assert(b@.drop_first().skip(k - 1) =~= b@.skip(k as int));
    }
    if k >= b.len() {
        return Err(DecodeError::Malformed);
    }
    proof {
        assert(b@.skip(k as int)[0] == b@[k as int]);
    }
    if *slice_index_get(b, k) != 0x12 {
        return Err(DecodeError::Malformed);
    }
    proof {
        assert(b@.skip(k as int).drop_first() =~= b@.skip(k as int + 1));
    }
    let blen = b.len();
    let (l, k2) = match decode_varint(b, k + 1) {
        None => {
            proof {
                assert(usize::MAX <= u64::MAX);
                assert(b@.len() == blen as int);
                if spec_parse_varint(b@.skip(k as int + 1)) is Some {
                    let (v, k2s) = spec_parse_varint(b@.skip(k as int + 1)).unwrap();
                    assert(v > u64::MAX);
                    lemma_parse_varint_consumed(b@.skip(k as int + 1));
                    assert(b@.skip(k as int).drop_first() =~= b@.skip(k as int + 1));
                    assert(b@.skip(k as int + 1).skip(k2s).len() < v);
                }
            }
            return Err(DecodeError::Malformed);
        },
        Some(p) => p,
    };
    proof {
        assert(b@.skip(k as int).drop_first().skip(k2 - k - 1) =~= b@.skip(k2 as int));
    }
    if l != (blen - k2) as u64 {
        proof {
            assert(usize::MAX <= u64::MAX);
        }
        return Err(DecodeError::Malformed);
    }
    proof {
        assert(usize::MAX <= u64::MAX);
        assert(b@.subrange(k2 as int, b@.len() as int) =~= b@.skip(k2 as int));
    }
    let payload = slice_to_vec(slice_subrange(b, k2, blen));
    match SeqNo::try_from_u64(s) {
        Ok(seq_no) => Ok((seq_no, payload)),
        Err(_) => Err(DecodeError::InvalidSeqNo),
    }
}

/// The decimal digit character for `d`.
pub open spec fn spec_digit(d: nat) -> char {
    if d == 0 {
        '0'
    } else if d == 1 {
        '1'
    } else if d == 2 {
        '2'
    } else if d == 3 {
        '3'
    } else if d == 4 {
        '4'
    } else if d == 5 {
        '5'
    } else if d == 6 {
        '6'
    } else if d == 7 {
        '7'
    } else if d == 8 {
        '8'
    } else {
        '9'
    }
}

/// The decimal rendering of `n`, most significant digit first, without
/// leading zeroes.
pub open spec fn spec_decimal(n: nat) -> Seq<char>
    decreases n,
{
    if n < 10 {
        seq![spec_digit(n)]
    } else {
        spec_decimal(n / 10) + seq![spec_digit(n % 10)]
    }
}

/// Append the decimal rendering of `n` to `out`.
pub fn append_decimal(out: &mut String, n: u64)
    ensures
        final(out)@ == old(out)@ + spec_decimal(n as nat),
    decreases n,
{
    if n >= 10 {
        append_decimal(out, n / 10);
    }
    let d = n % 10;
    let s: &str = if d == 0 {
        "0"
    } else if d == 1 {
        "1"
    } else if d == 2 {
        "2"
    } else if d == 3 {
        "3"
    } else if d == 4 {
        "4"
    } else if d == 5 {
        "5"
    } else if d == 6 {
        "6"
    } else if d == 7 {
        "7"
    } else if d == 8 {
        "8"
    } else {
        "9"
    };
    proof {
        reveal_strlit("0");
        reveal_strlit("1");
        reveal_strlit("2");
        reveal_strlit("3");
        reveal_strlit("4");
        reveal_strlit("5");
        reveal_strlit("6");
        reveal_strlit("7");
        reveal_strlit("8");
        reveal_strlit("9");
        assert(s@ =~= seq![spec_digit((n % 10) as nat)]);
    }
    out.append(s);
    proof {
        if n < 10 {
            assert(out@ =~= old(out)@ + spec_decimal(n as nat));
        } else {
            assert(out@ =~= old(out)@ + spec_decimal(n as nat));
        }
    }
}

/// The decimal rendering of `n`.
pub fn u64_to_decimal(n: u64) -> (r: String)
    ensures
        r@ == spec_decimal(n as nat),
{
    let mut out = String::new();
    append_decimal(&mut out, n);
    proof {
        assert(out@ =~= spec_decimal(n as nat));
    }
    out
}

/// The numeric value of an ASCII decimal digit byte, or `None`.
pub open spec fn spec_digit_val(b: u8) -> Option<nat> {
    if 48 <= b <= 57 {
        Some((b - 48) as nat)
    } else {
        None
    }
}

/// The decimal rendering of `n` as ASCII bytes, most significant digit
/// first, without leading zeroes.
pub open spec fn spec_decimal_bytes(n: nat) -> Seq<u8>
    decreases n,
{
    if n < 10 {
        seq![(48 + n) as u8]
    } else {
        spec_decimal_bytes(n / 10) + seq![(48 + n % 10) as u8]
    }
}

/// The value of a non-empty all-digit byte sequence; `None` on an
/// empty one or one holding a non-digit.
pub open spec fn spec_parse_decimal(b: Seq<u8>) -> Option<nat>
    decreases b.len(),
{
    if b.len() == 0 {
        None
    } else if b.len() == 1 {
        spec_digit_val(b[0])
    } else {
        match (spec_parse_decimal(b.drop_last()), spec_digit_val(b.last())) {
            (Some(v), Some(d)) => Some(v * 10 + d),
            _ => None,
        }
    }
}

/// Parsing undoes the decimal rendering.
pub proof fn lemma_decimal_round_trip(n: nat)
    ensures
        spec_parse_decimal(spec_decimal_bytes(n)) == Some(n),
    decreases n,
{
    if n >= 10 {
        lemma_decimal_round_trip(n / 10);
        lemma_decimal_bytes_digits(n / 10);
        assert(spec_decimal_bytes(n).drop_last() =~= spec_decimal_bytes(n / 10));
        assert(spec_decimal_bytes(n).last() == (48 + n % 10) as u8);
        lemma_fundamental_div_mod(n as int, 10);
    }
}

/// A decimal rendering is non-empty and holds digit bytes only.
pub proof fn lemma_decimal_bytes_digits(n: nat)
    ensures
        spec_decimal_bytes(n).len() >= 1,
        forall|i: int|
            0 <= i < spec_decimal_bytes(n).len() ==> #[trigger] spec_digit_val(
                spec_decimal_bytes(n)[i],
            ) is Some,
    decreases n,
{
    if n >= 10 {
        lemma_decimal_bytes_digits(n / 10);
        assert forall|i: int|
            0 <= i < spec_decimal_bytes(n).len() implies #[trigger] spec_digit_val(
            spec_decimal_bytes(n)[i],
        ) is Some by {
            if i < spec_decimal_bytes(n / 10).len() {
                assert(spec_decimal_bytes(n)[i] == spec_decimal_bytes(n / 10)[i]);
            }
        }
    }
}

/// A byte sequence with a non-digit anywhere has no decimal value.
pub proof fn lemma_parse_decimal_none(b: Seq<u8>, k: int)
    requires
        0 <= k < b.len(),
        spec_digit_val(b[k]) is None,
    ensures
        spec_parse_decimal(b) is None,
    decreases b.len(),
{
    if b.len() > 1 && k < b.len() - 1 {
        lemma_parse_decimal_none(b.drop_last(), k);
    }
}

/// A decimal value only grows as digits are appended: the value of a
/// non-empty prefix is bounded by the value of the whole.
pub proof fn lemma_parse_decimal_prefix(b: Seq<u8>, j: int)
    requires
        1 <= j <= b.len(),
        spec_parse_decimal(b) is Some,
    ensures
        spec_parse_decimal(b.take(j)) is Some,
        spec_parse_decimal(b.take(j)).unwrap() <= spec_parse_decimal(b).unwrap(),
    decreases b.len(),
{
    if j == b.len() {
        assert(b.take(j) =~= b);
    } else {
        assert(b.drop_last().take(j) =~= b.take(j));
        lemma_parse_decimal_prefix(b.drop_last(), j);
    }
}

/// The length of the maximal digit prefix of `b`.
pub open spec fn digits_prefix_len(b: Seq<u8>) -> int
    decreases b.len(),
{
    if b.len() == 0 {
        0
    } else if spec_digit_val(b[0]) is None {
        0
    } else {
        1 + digits_prefix_len(b.drop_first())
    }
}

/// What the maximal digit prefix means: everything before it is a
/// digit and what follows it, if anything, is not.
pub proof fn lemma_digits_prefix_char(b: Seq<u8>)
    ensures
        0 <= digits_prefix_len(b) <= b.len(),
        forall|i: int|
            0 <= i < digits_prefix_len(b) ==> #[trigger] spec_digit_val(b[i]) is Some,
        digits_prefix_len(b) < b.len() ==> spec_digit_val(b[digits_prefix_len(b)]) is None,
    decreases b.len(),
{
    if b.len() > 0 && spec_digit_val(b[0]) is Some {
        lemma_digits_prefix_char(b.drop_first());
        assert forall|i: int|
            0 <= i < digits_prefix_len(b) implies #[trigger] spec_digit_val(b[i]) is Some by {
            if i > 0 {
                assert(b.drop_first()[i - 1] == b[i]);
                assert(spec_digit_val(b.drop_first()[i - 1]) is Some);
            }
        }
        if digits_prefix_len(b) < b.len() {
            assert(b.drop_first()[digits_prefix_len(b) - 1] == b[digits_prefix_len(b)]);
        }
    }
}

/// The maximal digit prefix of a rendering followed by a non-digit is
/// exactly the rendering.
pub proof fn lemma_digits_prefix_concat(a: Seq<u8>, rest: Seq<u8>)
    requires
        forall|i: int| 0 <= i < a.len() ==> #[trigger] spec_digit_val(a[i]) is Some,
        rest.len() > 0 ==> spec_digit_val(rest[0]) is None,
    ensures
        digits_prefix_len(a + rest) == a.len(),
    decreases a.len(),
{
    if a.len() == 0 {
        assert(a + rest =~= rest);
        if rest.len() > 0 {
            assert(spec_digit_val(rest[0]) is None);
        }
    } else {
        assert((a + rest)[0] == a[0]);
        assert((a + rest).drop_first() =~= a.drop_first() + rest);
        assert forall|i: int|
            0 <= i < a.drop_first().len() implies #[trigger] spec_digit_val(
            a.drop_first()[i],
        ) is Some by {
            assert(a.drop_first()[i] == a[i + 1]);
        }
        lemma_digits_prefix_concat(a.drop_first(), rest);
    }
}

/// Append the decimal rendering of `n` to `out` as ASCII bytes.
pub fn encode_decimal_into(out: &mut Vec<u8>, n: u64)
    ensures
        final(out)@ == old(out)@ + spec_decimal_bytes(n as nat),
    decreases n,
{
    if n >= 10 {
        encode_decimal_into(out, n / 10);
    }
    out.push(48 + (n % 10) as u8);
    proof {
        if n < 10 {
            assert(out@ =~= old(out)@ + spec_decimal_bytes(n as nat));
        } else {
            assert(out@ =~= old(out)@ + spec_decimal_bytes(n as nat));
        }
    }
}

/// The index just past the maximal run of digit bytes beginning at
/// `i`.
pub fn scan_digits(b: &[u8], i: usize) -> (r: usize)
    requires
        i <= b@.len(),
    ensures
        i <= r <= b@.len(),
        r - i == digits_prefix_len(b@.skip(i as int)),
    decreases b@.len() - i,
{
    if i < b.len() {
        let c = *slice_index_get(b, i);
        proof {
            assert(b@.skip(i as int)[0] == b@[i as int]);
        }
        if 48 <= c && c <= 57 {
            proof {
                assert(b@.skip(i as int).drop_first() =~= b@.skip(i as int + 1));
            }
            return scan_digits(b, i + 1);
        }
    }
    i
}

/// Parse `b[start..end]` as a decimal number. `None` where that range
/// is empty, holds a non-digit, or exceeds 64 bits.
pub fn parse_decimal_range(b: &[u8], start: usize, end: usize) -> (r: Option<u64>)
    requires
        start <= end <= b@.len(),
    ensures
        match r {
            Some(v) => spec_parse_decimal(b@.subrange(start as int, end as int)) == Some(
                v as nat,
            ),
            None => match spec_parse_decimal(b@.subrange(start as int, end as int)) {
                Some(v) => v > u64::MAX,
                None => true,
            },
        },
{
    let ghost whole = b@.subrange(start as int, end as int);
    if start == end {
        return None;
    }
    let mut v: u64 = 0;
    let mut i = start;
    while i < end
        invariant
            start < end <= b@.len(),
            start <= i <= end,
            whole == b@.subrange(start as int, end as int),
            i > start ==> spec_parse_decimal(b@.subrange(start as int, i as int)) == Some(
                v as nat,
            ),
            i == start ==> v == 0,
        decreases end - i,
    {
        let c = *slice_index_get(b, i);
        if c < 48 || c > 57 {
            proof {
                assert(whole[i - start] == b@[i as int]);
                lemma_parse_decimal_none(whole, i - start);
            }
            return None;
        }
        let d = (c - 48) as u64;
        proof {
            assert(b@.subrange(start as int, i as int + 1).drop_last() =~= b@.subrange(
                start as int,
                i as int,
            ));
            assert(b@.subrange(start as int, i as int + 1).last() == b@[i as int]);
        }
        if i == start {
            v = d;
        } else {
            if v > (u64::MAX - d) / 10 {
                proof {
                    assert(10 * v + d > u64::MAX) by (nonlinear_arith)
                        requires
                            v > (u64::MAX - d) / 10,
                            d <= 9,
                            v <= u64::MAX,
                    ;
                    assert(spec_parse_decimal(b@.subrange(start as int, i as int + 1)) == Some(
                        (v * 10 + d) as nat,
                    ));
                    if spec_parse_decimal(whole) is Some {
                        lemma_parse_decimal_prefix(whole, i + 1 - start);
                        assert(whole.take(i + 1 - start) =~= b@.subrange(
                            start as int,
                            i as int + 1,
                        ));
                    }
                }
                return None;
            }
            v = v * 10 + d;
        }
        i = i + 1;
    }
    Some(v)
}

} // verus!
