//! The event log contract and an in-memory reference implementation.
//!
//! A log is an ordered, append-only sequence of records, each addressed
//! by an entity identity `(entity_type, id)` and carrying an opaque event
//! payload. Appends are guarded by an optimistic concurrency check: the
//! caller names the last per-entity sequence number it has seen, and the
//! append succeeds only if that is still the current one.
//!
//! The model of a log is the sequence of its records in append order; a
//! record is the triple `(entity_type, id, payload)`. Per-entity sequence
//! numbers are dense: the n-th record of an entity has sequence number n,
//! counting from 1.

use vstd::prelude::*;
use vstd::slice::slice_to_vec;
use crate::seq_no::{SeqNo, MAX_SEQ_NO};

verus! {

/// The payloads of the records of `log` that belong to the entity
/// `(entity_type, id)`, in log order. The n-th element (counting from 1)
/// is the payload with per-entity sequence number n.
pub open spec fn entries_for<I>(
    log: Seq<(Seq<char>, I, Seq<u8>)>,
    entity_type: Seq<char>,
    id: I,
) -> Seq<Seq<u8>>
    decreases log.len(),
{
    if log.len() == 0 {
        Seq::empty()
    } else {
        let prefix = entries_for(log.drop_last(), entity_type, id);
        if log.last().0 == entity_type && log.last().1 == id {
            prefix.push(log.last().2)
        } else {
            prefix
        }
    }
}

/// The records of `log` with type `entity_type` whose per-entity sequence
/// number is at least `from`, in log order, as triples of per-entity
/// sequence number, id and payload.
pub open spec fn type_entries_from<I>(
    log: Seq<(Seq<char>, I, Seq<u8>)>,
    entity_type: Seq<char>,
    from: int,
) -> Seq<(int, I, Seq<u8>)>
    decreases log.len(),
{
    if log.len() == 0 {
        Seq::empty()
    } else {
        let prefix = type_entries_from(log.drop_last(), entity_type, from);
        if log.last().0 == entity_type {
            let s = entries_for(log.drop_last(), entity_type, log.last().1).len() + 1;
            if s >= from {
                prefix.push((s as int, log.last().1, log.last().2))
            } else {
                prefix
            }
        } else {
            prefix
        }
    }
}

/// The optimistic concurrency check: an expected last sequence number of
/// `None` claims the entity has no events yet; `Some(n)` claims its
/// current last sequence number is exactly `n`.
pub open spec fn cas_matches(expected: Option<SeqNo>, count: nat) -> bool {
    match expected {
        None => count == 0,
        Some(n) => n.as_int() == count,
    }
}

/// Appending a record extends one entity's payloads and leaves every
/// other entity's untouched.
pub proof fn lemma_entries_for_push<I>(
    log: Seq<(Seq<char>, I, Seq<u8>)>,
    entity_type: Seq<char>,
    id: I,
    e: (Seq<char>, I, Seq<u8>),
)
    ensures
        entries_for(log.push(e), entity_type, id) == if e.0 == entity_type && e.1 == id {
            entries_for(log, entity_type, id).push(e.2)
        } else {
            entries_for(log, entity_type, id)
        },
{
    assert(log.push(e).drop_last() =~= log);
    assert(log.push(e).last() == e);
}

/// A prefix of the log holds at most the payloads of the whole log.
pub proof fn lemma_entries_for_take<I>(
    log: Seq<(Seq<char>, I, Seq<u8>)>,
    entity_type: Seq<char>,
    id: I,
    i: int,
)
    requires
        0 <= i <= log.len(),
    ensures
        entries_for(log.take(i), entity_type, id).len() <= entries_for(log, entity_type, id).len(),
    decreases log.len(),
{
    if i == log.len() {
        assert(log.take(i) =~= log);
    } else if log.len() > 0 {
        assert(log.drop_last().take(i) =~= log.take(i));
        lemma_entries_for_take(log.drop_last(), entity_type, id, i);
    }
}

/// The per-type query grows by at most the appended record.
pub proof fn lemma_type_entries_push<I>(
    log: Seq<(Seq<char>, I, Seq<u8>)>,
    entity_type: Seq<char>,
    from: int,
    e: (Seq<char>, I, Seq<u8>),
)
    ensures
        type_entries_from(log.push(e), entity_type, from) == if e.0 == entity_type
            && entries_for(log, entity_type, e.1).len() + 1 >= from {
            type_entries_from(log, entity_type, from).push(
                (entries_for(log, entity_type, e.1).len() as int + 1, e.1, e.2),
            )
        } else {
            type_entries_from(log, entity_type, from)
        },
{
    assert(log.push(e).drop_last() =~= log);
    assert(log.push(e).last() == e);
}

/// Errors surfaced by event logs.
#[derive(Clone, Copy, Debug, PartialEq, Eq, Structural)]
pub enum LogError {
    /// The backend cannot be reached.
    Connectivity,
    /// The optimistic concurrency check failed: another writer appended
    /// in the meantime.
    Conflict,
    /// An event payload could not be converted.
    Codec,
    /// A stored or computed sequence number lies outside `1 ..= MAX_SEQ_NO`.
    SeqNo,
    /// Any other backend failure.
    Fatal,
}

/// An ordered, append-only event log with per-entity streams and
/// optimistic conflict detection.
///
/// `log()` is the model: the records in append order. Implementations
/// over an external backend satisfy these contracts by construction of
/// the backend (a per-subject compare-and-set, a unique key constraint);
/// [`MemEvtLog`] satisfies them by proof.
pub trait EvtLog: Sized {
    /// Entity id type.
    type Id;

    /// Backend error type.
    type Error;

    /// The records of the log in append order.
    spec fn log(&self) -> Seq<(Seq<char>, Self::Id, Seq<u8>)>;

    /// Which errors of this log report an optimistic-concurrency
    /// conflict.
    spec fn is_conflict(e: Self::Error) -> bool;

    /// Append `payload` for `(entity_type, id)` under the optimistic check
    /// `expected_last_seq_no`, returning the new per-entity sequence
    /// number.
    ///
    /// An append can only succeed when the expected last sequence number
    /// was current; a conflict error is only reported when it was not.
    /// A failed append leaves the log unchanged.
    fn append(
        &mut self,
        entity_type: &str,
        id: &Self::Id,
        payload: &[u8],
        expected_last_seq_no: Option<SeqNo>,
    ) -> (r: Result<SeqNo, Self::Error>)
        ensures
            match r {
                Ok(n) => {
                    &&& cas_matches(
                        expected_last_seq_no,
                        entries_for(old(self).log(), entity_type@, *id).len(),
                    )
                    &&& entries_for(old(self).log(), entity_type@, *id).len() < MAX_SEQ_NO
                    &&& final(self).log() == old(self).log().push((entity_type@, *id, payload@))
                    &&& n.as_int() == entries_for(old(self).log(), entity_type@, *id).len() + 1
                },
                Err(e) => {
                    &&& final(self).log() == old(self).log()
                    &&& Self::is_conflict(e) ==> !cas_matches(
                        expected_last_seq_no,
                        entries_for(old(self).log(), entity_type@, *id).len(),
                    )
                },
            },
    ;

    /// The current last per-entity sequence number of `(entity_type, id)`,
    /// or `None` for an entity with no events.
    fn last_seq_no(&self, entity_type: &str, id: &Self::Id) -> (r: Result<
        Option<SeqNo>,
        Self::Error,
    >)
        ensures
            match r {
                Ok(o) => match o {
                    None => entries_for(self.log(), entity_type@, *id).len() == 0,
                    Some(n) => n.as_int() == entries_for(self.log(), entity_type@, *id).len(),
                },
                Err(_) => true,
            },
    ;

    /// The events of `(entity_type, id)` currently in the log with
    /// sequence number at least `from`, in order, each with its
    /// per-entity sequence number.
    ///
    /// The emitted sequence numbers are dense: the i-th returned pair
    /// carries sequence number `from + i`.
    fn evts_by_id(&self, entity_type: &str, id: &Self::Id, from: SeqNo) -> (r: Result<
        Vec<(SeqNo, Vec<u8>)>,
        Self::Error,
    >)
        ensures
            match r {
                Ok(v) => {
                    let es = entries_for(self.log(), entity_type@, *id);
                    &&& v@.len() == if from.as_int() <= es.len() {
                        es.len() + 1 - from.as_int()
                    } else {
                        0
                    }
                    &&& forall|i: int|
                        0 <= i < v@.len() ==> (#[trigger] v@[i]).0.as_int() == from.as_int() + i
                            && v@[i].1@ == es[from.as_int() - 1 + i]
                },
                Err(_) => true,
            },
    ;

    /// The events of all entities of `entity_type` whose per-entity
    /// sequence number is at least `from`, in log order.
    fn evts_by_type(&self, entity_type: &str, from: SeqNo) -> (r: Result<
        Vec<(SeqNo, Self::Id, Vec<u8>)>,
        Self::Error,
    >)
        ensures
            match r {
                Ok(v) => v@.map(
                    |i: int, t: (SeqNo, Self::Id, Vec<u8>)| (t.0.as_int(), t.1, t.2@),
                ) == type_entries_from(self.log(), entity_type@, from.as_int()),
                Err(_) => true,
            },
    ;
}

/// One record of the in-memory log.
struct MemEvt {
    entity_type: String,
    id: u128,
    payload: Vec<u8>,
}

/// An in-memory event log: the reference implementation of [`EvtLog`].
///
/// Ids are 128-bit integers, the plain value behind the UUIDs that the
/// persistent backends address their records with. Unlike a backend
/// adapter, every one of its contracts is proved; appends succeed
/// exactly when the optimistic check matches and the entity has room
/// below [`MAX_SEQ_NO`].
///
/// A log can be put into a failing mode, in which every append is
/// refused; it stands for a backend that is down, and is what shows
/// that a failed append terminates an entity.
pub struct MemEvtLog {
    evts: Vec<MemEvt>,
    fail_appends: bool,
}

impl MemEvtLog {
    /// The records in append order, for use in specifications.
    pub closed spec fn model(&self) -> Seq<(Seq<char>, u128, Seq<u8>)> {
        self.evts@.map(|i: int, e: MemEvt| (e.entity_type@, e.id, e.payload@))
    }

    /// No entity outgrows the representable sequence numbers.
    #[verifier::type_invariant]
    spec fn inv(&self) -> bool {
        forall|t: Seq<char>, id: u128|
            #[trigger] entries_for(self.model(), t, id).len() <= MAX_SEQ_NO
    }

    /// Whether every append is refused.
    pub closed spec fn fails(&self) -> bool {
        self.fail_appends
    }

    /// An empty log that accepts appends.
    pub fn new() -> (r: MemEvtLog)
        ensures
            r.log() == Seq::<(Seq<char>, u128, Seq<u8>)>::empty(),
            !r.fails(),
    {
        let evts: Vec<MemEvt> = Vec::new();
        proof {
            let m = evts@.map(|i: int, e: MemEvt| (e.entity_type@, e.id, e.payload@));
            assert(m =~= Seq::<(Seq<char>, u128, Seq<u8>)>::empty());
        }
        MemEvtLog { evts, fail_appends: false }
    }

    /// An empty log whose appends all fail.
    pub fn failing() -> (r: MemEvtLog)
        ensures
            r.log() == Seq::<(Seq<char>, u128, Seq<u8>)>::empty(),
            r.fails(),
    {
        let evts: Vec<MemEvt> = Vec::new();
        proof {
            let m = evts@.map(|i: int, e: MemEvt| (e.entity_type@, e.id, e.payload@));
            assert(m =~= Seq::<(Seq<char>, u128, Seq<u8>)>::empty());
        }
        MemEvtLog { evts, fail_appends: true }
    }

    /// The number of records for `(entity_type, id)` among the first
    /// `upto` records.
    fn count_matching(&self, entity_type: &str, id: u128, upto: usize) -> (cnt: u64)
        requires
            upto <= self.evts@.len(),
        ensures
            cnt as nat == entries_for(self.model().take(upto as int), entity_type@, id).len(),
            cnt <= upto,
    {
        let owned = entity_type.to_owned();
        let mut cnt: u64 = 0;
        let mut i: usize = 0;
        proof {
            assert(usize::MAX <= u64::MAX);
            assert(self.model().take(0) =~= Seq::<(Seq<char>, u128, Seq<u8>)>::empty());
        }
        while i < upto
            invariant
                i <= upto <= self.evts@.len(),
                owned@ == entity_type@,
                cnt as nat == entries_for(self.model().take(i as int), entity_type@, id).len(),
                cnt <= i,
                usize::MAX <= u64::MAX,
            decreases upto - i,
        {
            let e = &self.evts[i];
            proof {
                assert(self.model()[i as int] == (e.entity_type@, e.id, e.payload@));
                assert(self.model().take(i as int + 1) =~= self.model().take(i as int).push(
                    self.model()[i as int],
                ));
                lemma_entries_for_push(
                    self.model().take(i as int),
                    entity_type@,
                    id,
                    self.model()[i as int],
                );
            }
            if e.entity_type == owned && e.id == id {
                cnt = cnt + 1;
            }
            i = i + 1;
        }
        cnt
    }
}

impl EvtLog for MemEvtLog {
    type Id = u128;

    type Error = LogError;

    open spec fn log(&self) -> Seq<(Seq<char>, u128, Seq<u8>)> {
        self.model()
    }

    open spec fn is_conflict(e: LogError) -> bool {
        e == LogError::Conflict
    }

    /// While the log is not failing, appends succeed exactly when the
    /// optimistic check matches and the entity has room; a conflict is
    /// reported exactly on a mismatch.
    fn append(
        &mut self,
        entity_type: &str,
        id: &u128,
        payload: &[u8],
        expected_last_seq_no: Option<SeqNo>,
    ) -> (r: Result<SeqNo, LogError>)
        ensures
            final(self).fails() == old(self).fails(),
            ({
                let es = entries_for(old(self).log(), entity_type@, *id);
                match r {
                    Ok(n) => {
                        &&& !old(self).fails()
                        &&& cas_matches(expected_last_seq_no, es.len())
                        &&& es.len() < MAX_SEQ_NO
                        &&& final(self).log() == old(self).log().push(
                            (entity_type@, *id, payload@),
                        )
                        &&& n.as_int() == es.len() + 1
                    },
                    Err(LogError::Connectivity) => {
                        &&& old(self).fails()
                        &&& final(self).log() == old(self).log()
                    },
                    Err(LogError::Conflict) => {
                        &&& !old(self).fails()
                        &&& !cas_matches(expected_last_seq_no, es.len())
                        &&& final(self).log() == old(self).log()
                    },
                    Err(LogError::SeqNo) => {
                        &&& !old(self).fails()
                        &&& cas_matches(expected_last_seq_no, es.len())
                        &&& es.len() == MAX_SEQ_NO
                        &&& final(self).log() == old(self).log()
                    },
                    Err(_) => false,
                }
            }),
    {
        proof {
            use_type_invariant(&*self);
        }
        if self.fail_appends {
            return Err(LogError::Connectivity);
        }
        let n = self.evts.len();
        let cnt = self.count_matching(entity_type, *id, n);
        proof {
            assert(self.model().take(n as int) =~= self.model());
        }
        let matched = match expected_last_seq_no {
            None => cnt == 0,
            Some(e) => e.as_u64() == cnt,
        };
        if !matched {
            return Err(LogError::Conflict);
        }
        if cnt >= MAX_SEQ_NO {
            return Err(LogError::SeqNo);
        }
        let rec = MemEvt {
            entity_type: entity_type.to_owned(),
            id: *id,
            payload: slice_to_vec(payload),
        };
        let ghost old_model = self.model();
        let mut evts: Vec<MemEvt> = Vec::new();
        proof {
            let m = evts@.map(|i: int, e: MemEvt| (e.entity_type@, e.id, e.payload@));
            assert(m =~= Seq::<(Seq<char>, u128, Seq<u8>)>::empty());
        }
        core::mem::swap(&mut self.evts, &mut evts);
        evts.push(rec);
        proof {
            let new_model = evts@.map(|i: int, e: MemEvt| (e.entity_type@, e.id, e.payload@));
            assert(new_model =~= old_model.push((entity_type@, *id, payload@)));
            assert forall|t: Seq<char>, id2: u128|
                #[trigger] entries_for(new_model, t, id2).len() <= MAX_SEQ_NO by {
                lemma_entries_for_push(old_model, t, id2, (entity_type@, *id, payload@));
            }
        }
        self.evts = evts;
        match SeqNo::try_from_u64(cnt + 1) {
            Ok(s) => Ok(s),
            Err(_) => {
                proof {
                    assert(false);
                }
                Err(LogError::SeqNo)
            },
        }
    }

    /// The last sequence number is derived from the count of the
    /// entity's records; it is never an error here.
    fn last_seq_no(&self, entity_type: &str, id: &u128) -> (r: Result<Option<SeqNo>, LogError>)
        ensures
            ({
                let es = entries_for(self.log(), entity_type@, *id);
                match r {
                    Ok(None) => es.len() == 0,
                    Ok(Some(n)) => n.as_int() == es.len(),
                    Err(_) => false,
                }
            }),
    {
        proof {
            use_type_invariant(&*self);
        }
        let n = self.evts.len();
        let cnt = self.count_matching(entity_type, *id, n);
        proof {
            assert(self.model().take(n as int) =~= self.model());
        }
        if cnt == 0 {
            Ok(None)
        } else {
            match SeqNo::try_from_u64(cnt) {
                Ok(s) => Ok(Some(s)),
                Err(_) => {
                    proof {
                        assert(false);
                    }
                    Err(LogError::SeqNo)
                },
            }
        }
    }

    /// The per-entity stream is never an error here; it emits exactly
    /// the entity's payloads from `from` on, with dense sequence
    /// numbers.
    fn evts_by_id(&self, entity_type: &str, id: &u128, from: SeqNo) -> (r: Result<
        Vec<(SeqNo, Vec<u8>)>,
        LogError,
    >)
        ensures
            ({
                let es = entries_for(self.log(), entity_type@, *id);
                match r {
                    Ok(v) => {
                        &&& v@.len() == if from.as_int() <= es.len() {
                            es.len() + 1 - from.as_int()
                        } else {
                            0
                        }
                        &&& forall|i: int|
                            0 <= i < v@.len() ==> (#[trigger] v@[i]).0.as_int() == from.as_int()
                                + i && v@[i].1@ == es[from.as_int() - 1 + i]
                    },
                    Err(_) => false,
                }
            }),
    {
        proof {
            use_type_invariant(&*self);
            use_type_invariant(from);
            assert(self.model().take(0) =~= Seq::<(Seq<char>, u128, Seq<u8>)>::empty());
            assert(usize::MAX <= u64::MAX);
        }
        let owned = entity_type.to_owned();
        let from_raw = from.as_u64();
        let mut out: Vec<(SeqNo, Vec<u8>)> = Vec::new();
        let mut cnt: u64 = 0;
        let mut i: usize = 0;
        while i < self.evts.len()
            invariant
                i <= self.evts@.len(),
                owned@ == entity_type@,
                from_raw == from.as_int(),
                1 <= from_raw <= MAX_SEQ_NO,
                cnt as nat == entries_for(self.model().take(i as int), entity_type@, *id).len(),
                cnt <= i,
                usize::MAX <= u64::MAX,
                self.inv(),
                ({
                    let es = entries_for(self.model().take(i as int), entity_type@, *id);
                    &&& out@.len() == if from.as_int() <= es.len() {
                        es.len() + 1 - from.as_int()
                    } else {
                        0
                    }
                    &&& forall|j: int|
                        0 <= j < out@.len() ==> (#[trigger] out@[j]).0.as_int() == from.as_int()
                            + j && out@[j].1@ == es[from.as_int() - 1 + j]
                }),
            decreases self.evts@.len() - i,
        {
            let e = &self.evts[i];
            let ghost es_pre = entries_for(self.model().take(i as int), entity_type@, *id);
            proof {
                assert(self.model()[i as int] == (e.entity_type@, e.id, e.payload@));
                assert(self.model().take(i as int + 1) =~= self.model().take(i as int).push(
                    self.model()[i as int],
                ));
                lemma_entries_for_push(
                    self.model().take(i as int),
                    entity_type@,
                    *id,
                    self.model()[i as int],
                );
                lemma_entries_for_take(self.model(), entity_type@, *id, i as int + 1);
            }
            if e.entity_type == owned && e.id == *id {
                cnt = cnt + 1;
                if cnt >= from_raw {
                    let s = match SeqNo::try_from_u64(cnt) {
                        Ok(s) => s,
                        Err(_) => {
                            proof {
                                assert(false);
                            }
                            SeqNo::min()
                        },
                    };
                    out.push((s, slice_to_vec(e.payload.as_slice())));
                }
            }
            i = i + 1;
        }
        proof {
            assert(self.model().take(self.evts@.len() as int) =~= self.model());
        }
        Ok(out)
    }

    /// The per-type stream is never an error here; it emits the type's
    /// records in log order with their per-entity sequence numbers.
    fn evts_by_type(&self, entity_type: &str, from: SeqNo) -> (r: Result<
        Vec<(SeqNo, u128, Vec<u8>)>,
        LogError,
    >)
        ensures
            ({
                match r {
                    Ok(v) => v@.map(
                        |i: int, t: (SeqNo, u128, Vec<u8>)| (t.0.as_int(), t.1, t.2@),
                    ) == type_entries_from(self.log(), entity_type@, from.as_int()),
                    Err(_) => false,
                }
            }),
    {
        proof {
            use_type_invariant(&*self);
            assert(self.model().take(0) =~= Seq::<(Seq<char>, u128, Seq<u8>)>::empty());
            assert(type_entries_from(
                self.model().take(0),
                entity_type@,
                from.as_int(),
            ) =~= Seq::<(int, u128, Seq<u8>)>::empty());
            assert(usize::MAX <= u64::MAX);
        }
        let ghost f = |i: int, t: (SeqNo, u128, Vec<u8>)| (t.0.as_int(), t.1, t.2@);
        let owned = entity_type.to_owned();
        let from_raw = from.as_u64();
        let mut out: Vec<(SeqNo, u128, Vec<u8>)> = Vec::new();
        let mut i: usize = 0;
        while i < self.evts.len()
            invariant
                i <= self.evts@.len(),
                owned@ == entity_type@,
                from_raw == from.as_int(),
                usize::MAX <= u64::MAX,
                self.inv(),
                out@.map(f) == type_entries_from(
                    self.model().take(i as int),
                    entity_type@,
                    from.as_int(),
                ),
                f == (|i: int, t: (SeqNo, u128, Vec<u8>)| (t.0.as_int(), t.1, t.2@)),
            decreases self.evts@.len() - i,
        {
            let e = &self.evts[i];
            proof {
                assert(self.model()[i as int] == (e.entity_type@, e.id, e.payload@));
                assert(self.model().take(i as int + 1) =~= self.model().take(i as int).push(
                    self.model()[i as int],
                ));
                lemma_type_entries_push(
                    self.model().take(i as int),
                    entity_type@,
                    from.as_int(),
                    self.model()[i as int],
                );
                lemma_entries_for_take(self.model(), entity_type@, e.id, i as int);
            }
            if e.entity_type == owned {
                let cnt = self.count_matching(entity_type, e.id, i);
                let s_raw = cnt + 1;
                if s_raw >= from_raw {
                    let s = match SeqNo::try_from_u64(s_raw) {
                        Ok(s) => s,
                        Err(_) => {
                            proof {
                                lemma_entries_for_push(
                                    self.model().take(i as int),
                                    entity_type@,
                                    e.id,
                                    self.model()[i as int],
                                );
                                lemma_entries_for_take(
                                    self.model(),
                                    entity_type@,
                                    e.id,
                                    i as int + 1,
                                );
                                assert(false);
                            }
                            SeqNo::min()
                        },
                    };
                    out.push((s, e.id, slice_to_vec(e.payload.as_slice())));
                    proof {
                        assert(out@.map(f) =~= out@.drop_last().map(f).push(
                            f(out@.len() - 1, out@.last()),
                        ));
                    }
                }
            }
            i = i + 1;
        }
        proof {
            assert(self.model().take(self.evts@.len() as int) =~= self.model());
        }
        Ok(out)
    }
}

} // verus!
