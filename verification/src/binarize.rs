//! Conversion of events and state to and from bytes.
//!
//! Codecs are a capability set passed to the runtime as a value, so the
//! same runtime can host several encodings. A codec must be deterministic
//! and round-trip-safe for every value the handlers can produce; here that
//! duty is a proof obligation of the [`Binarize`] trait, discharged once
//! per implementation.

use vstd::prelude::*;

verus! {

/// A value could not be converted to or from bytes.
#[derive(Clone, Copy, Debug, PartialEq, Eq, Structural)]
pub struct CodecError;

/// Event and state byte codecs.
///
/// `evt_enc`/`evt_dec` (and their state counterparts) are the
/// mathematical content of the codec; the executable conversions are tied
/// to them, and `evt_round_trip`/`state_round_trip` oblige every
/// implementation to prove that decoding undoes encoding.
pub trait Binarize<Evt, State>: Sized {
    /// The encoding of an event.
    spec fn evt_enc(e: Evt) -> Seq<u8>;

    /// The decoding of event bytes, `None` on undecodable input.
    spec fn evt_dec(b: Seq<u8>) -> Option<Evt>;

    /// The encoding of a state.
    spec fn state_enc(s: State) -> Seq<u8>;

    /// The decoding of state bytes, `None` on undecodable input.
    spec fn state_dec(b: Seq<u8>) -> Option<State>;

    /// Decoding an encoded event yields the event back.
    proof fn evt_round_trip(e: Evt)
        ensures
            Self::evt_dec(Self::evt_enc(e)) == Some(e),
    ;

    /// Decoding an encoded state yields the state back.
    proof fn state_round_trip(s: State)
        ensures
            Self::state_dec(Self::state_enc(s)) == Some(s),
    ;

    /// Convert an event to bytes.
    fn evt_to_bytes(&self, e: &Evt) -> (r: Result<Vec<u8>, CodecError>)
        ensures
            r matches Ok(b) ==> b@ == Self::evt_enc(*e),
    ;

    /// Convert bytes to an event; fails exactly on undecodable input.
    fn evt_from_bytes(&self, b: &[u8]) -> (r: Result<Evt, CodecError>)
        ensures
            match r {
                Ok(e) => Self::evt_dec(b@) == Some(e),
                Err(_) => Self::evt_dec(b@) is None,
            },
    ;

    /// Convert a state to bytes.
    fn state_to_bytes(&self, s: &State) -> (r: Result<Vec<u8>, CodecError>)
        ensures
            r matches Ok(b) ==> b@ == Self::state_enc(*s),
    ;

    /// Convert bytes to a state; fails exactly on undecodable input.
    fn state_from_bytes(&self, b: &[u8]) -> (r: Result<State, CodecError>)
        ensures
            match r {
                Ok(s) => Self::state_dec(b@) == Some(s),
                Err(_) => Self::state_dec(b@) is None,
            },
    ;
}

/// For every codec and every event, decoding the encoding yields the
/// event back; likewise for states. This is the codec contract every
/// implementation has discharged once and callers may invoke anywhere.
pub proof fn lemma_codec_round_trip<Evt, State, B: Binarize<Evt, State>>(e: Evt, s: State)
    ensures
        B::evt_dec(B::evt_enc(e)) == Some(e),
        B::state_dec(B::state_enc(s)) == Some(s),
{
    B::evt_round_trip(e);
    B::state_round_trip(s);
}

/// All payloads of `ps` decode as events under `B`.
pub open spec fn all_decodable<Evt, State, B: Binarize<Evt, State>>(ps: Seq<Seq<u8>>) -> bool {
    forall|i: int| 0 <= i < ps.len() ==> #[trigger] B::evt_dec(ps[i]) is Some
}

/// The events that the payloads of `ps` decode to under `B`.
pub open spec fn decode_all<Evt, State, B: Binarize<Evt, State>>(ps: Seq<Seq<u8>>) -> Seq<Evt> {
    ps.map(|i: int, p: Seq<u8>| B::evt_dec(p).unwrap())
}

} // verus!
