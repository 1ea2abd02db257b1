//! The entity runtime: spawn and the command-handling step.
//!
//! An entity is a stateful object addressed by `(entity_type, id)`. Its
//! durable form is the sequence of its events in the log; its in-memory
//! state is always the fold of those events over the initial state —
//! that invariant is what [`Entity::wf`] states and every operation
//! preserves.
//!
//! `spawn` rebuilds the state: it loads a snapshot, asks the log for the
//! last sequence number, validates the pair and replays the tail of the
//! log. The command step hands a command to the domain's handler,
//! appends the produced event under the optimistic concurrency check,
//! folds it into the state and, on the configured cadence, saves a
//! snapshot — a failed snapshot save is deliberately non-fatal, while a
//! failed append terminates the entity.

use vstd::prelude::*;
use crate::binarize::{all_decodable, decode_all, Binarize};
use crate::evt_log::{entries_for, EvtLog};
use crate::seq_no::{SeqNo, MAX_SEQ_NO};
use crate::snapshot_store::SnapshotStore;

verus! {

/// Command and event handling for an event sourced entity.
///
/// `cmd_result`, `apply_evt` and `initial_state` are the mathematical
/// content of an implementation; the executable handlers are tied to
/// them, so that everything the runtime proves about replay speaks of
/// the implementation's own semantics.
pub trait EventSourced: Sized {
    /// Id type.
    type Id;

    /// Command type.
    type Cmd;

    /// Event type.
    type Evt;

    /// State type.
    type State;

    /// Error type for rejected commands.
    type Error;

    /// The entity type name, the first half of an entity's persistent
    /// identity.
    spec fn spec_entity_type() -> Seq<char>;

    /// The entity type name.
    fn entity_type() -> (r: &'static str)
        ensures
            r@ == Self::spec_entity_type(),
    ;

    /// The state an entity is born with.
    spec fn initial_state() -> Self::State;

    /// The state an entity is born with.
    fn default_state() -> (r: Self::State)
        ensures
            r == Self::initial_state(),
    ;

    /// What the command handler decides: the event to persist, or the
    /// domain error to hand back.
    spec fn cmd_result(id: Self::Id, state: Self::State, cmd: Self::Cmd) -> Result<
        Self::Evt,
        Self::Error,
    >;

    /// Command handler. Errors reject the command and leave the state
    /// untouched.
    fn handle_cmd(id: &Self::Id, state: &Self::State, cmd: Self::Cmd) -> (r: Result<
        Self::Evt,
        Self::Error,
    >)
        ensures
            r == Self::cmd_result(*id, *state, cmd),
    ;

    /// What folding one event into the state yields.
    spec fn apply_evt(state: Self::State, evt: Self::Evt) -> Self::State;

    /// Event handler.
    fn handle_evt(state: Self::State, evt: Self::Evt) -> (r: Self::State)
        ensures
            r == Self::apply_evt(state, evt),
    ;
}

/// The fold of a sequence of events into a state, first event first.
pub open spec fn fold_evts<E: EventSourced>(init: E::State, evts: Seq<E::Evt>) -> E::State
    decreases evts.len(),
{
    if evts.len() == 0 {
        init
    } else {
        E::apply_evt(fold_evts::<E>(init, evts.drop_last()), evts.last())
    }
}

/// Replay from a snapshot equals full replay: folding the events after
/// a prefix into the fold of that prefix yields the fold of the whole
/// sequence. This is why a snapshot taken at any point, followed by a
/// replay of the remaining events, reconstructs the same state as a
/// replay from the very first event.
pub proof fn lemma_fold_split<E: EventSourced>(init: E::State, evts: Seq<E::Evt>, n: int)
    requires
        0 <= n <= evts.len(),
    ensures
        fold_evts::<E>(fold_evts::<E>(init, evts.take(n)), evts.skip(n)) == fold_evts::<E>(
            init,
            evts,
        ),
    decreases evts.len(),
{
    if n == evts.len() {
        assert(evts.take(n) =~= evts);
        assert(evts.skip(n) =~= Seq::<E::Evt>::empty());
    } else {
        lemma_fold_split::<E>(init, evts.drop_last(), n);
        assert(evts.drop_last().take(n) =~= evts.take(n));
        assert(evts.drop_last().skip(n) =~= evts.skip(n).drop_last());
        assert(evts.skip(n).last() == evts.last());
        assert(evts.skip(n).len() > 0);
    }
}

/// Error from spawning an event sourced entity.
#[derive(Clone, Copy, Debug, PartialEq, Eq, Structural)]
pub enum SpawnError {
    /// A snapshot cannot be loaded from the snapshot store, or its
    /// state bytes do not decode.
    LoadSnapshot,
    /// The last sequence number reported by the log is less than the
    /// snapshot's: the stored pair is corrupt. Carries the log's last
    /// sequence number and the snapshot's.
    InvalidLastSeqNo(Option<SeqNo>, Option<SeqNo>),
    /// The last sequence number cannot be obtained from the event log.
    LastSeqNo,
    /// Events by id cannot be obtained from the event log.
    EvtsById,
    /// The next event of the replay cannot be obtained: an event
    /// payload does not decode.
    NextEvt,
}

/// A command cannot be handed to an entity, or its result cannot be
/// handed back: the entity has terminated.
#[derive(Debug)]
pub struct HandleCmdError(pub String);

/// What spawn assumes of a stored snapshot it accepts: the pair was
/// written by a run of this same entity, so if its sequence number lies
/// within the log, its state bytes decode to the fold of the log prefix
/// it names, and that prefix decodes. A snapshot lying beyond the log
/// is assumed nothing about — spawn rejects it.
pub open spec fn snapshot_trusted<E: EventSourced, B: Binarize<E::Evt, E::State>>(
    snaps: Map<E::Id, (SeqNo, Seq<u8>)>,
    log: Seq<(Seq<char>, E::Id, Seq<u8>)>,
    id: E::Id,
) -> bool {
    let ps = entries_for(log, E::spec_entity_type(), id);
    snaps.contains_key(id) ==> {
        let pair = snaps[id];
        pair.0.as_int() <= ps.len() ==> {
            &&& all_decodable::<E::Evt, E::State, B>(ps.take(pair.0.as_int()))
            &&& B::state_dec(pair.1) == Some(
                fold_evts::<E>(
                    E::initial_state(),
                    decode_all::<E::Evt, E::State, B>(ps.take(pair.0.as_int())),
                ),
            )
        }
    }
}

/// A live, addressable event sourced entity: the in-memory half of the
/// identity `(entity_type, id)`, owning its state, its position in the
/// log and the two persistence handles.
pub struct Entity<E, L, S, B> where
    E: EventSourced,
    L: EvtLog<Id = E::Id>,
    S: SnapshotStore<Id = E::Id>,
    B: Binarize<E::Evt, E::State>,
{
    id: E::Id,
    state: E::State,
    last_seq_no: Option<SeqNo>,
    evt_count: u64,
    snapshot_after: Option<u64>,
    live: bool,
    evt_log: L,
    snapshot_store: S,
    binarize: B,
}

impl<E, L, S, B> Entity<E, L, S, B> where
    E: EventSourced,
    L: EvtLog<Id = E::Id>,
    S: SnapshotStore<Id = E::Id>,
    B: Binarize<E::Evt, E::State>,
{
    /// The entity's id.
    pub closed spec fn spec_id(&self) -> E::Id {
        self.id
    }

    /// The in-memory state.
    pub closed spec fn spec_state(&self) -> E::State {
        self.state
    }

    /// The last sequence number this entity has seen of itself.
    pub closed spec fn spec_last_seq_no(&self) -> Option<SeqNo> {
        self.last_seq_no
    }

    /// Events applied since spawn.
    pub closed spec fn spec_evt_count(&self) -> u64 {
        self.evt_count
    }

    /// The snapshot cadence: save every n applied events, or never.
    pub closed spec fn spec_snapshot_after(&self) -> Option<u64> {
        self.snapshot_after
    }

    /// Whether the entity still accepts commands. A fatal persistence
    /// error clears this.
    pub closed spec fn is_live(&self) -> bool {
        self.live
    }

    /// The records of the owned event log.
    pub closed spec fn log(&self) -> Seq<(Seq<char>, E::Id, Seq<u8>)> {
        self.evt_log.log()
    }

    /// The stored pairs of the owned snapshot store.
    pub closed spec fn snaps(&self) -> Map<E::Id, (SeqNo, Seq<u8>)> {
        self.snapshot_store.snaps()
    }

    /// The entity's own payloads in the log.
    pub open spec fn own_entries(&self) -> Seq<Seq<u8>> {
        entries_for(self.log(), E::spec_entity_type(), self.spec_id())
    }

    /// The runtime invariant: the in-memory `(state, last_seq_no)` pair
    /// corresponds to the entity's full event sequence in the log — the
    /// state is the fold of those events over the initial state, and
    /// `last_seq_no` is their count.
    pub open spec fn wf(&self) -> bool {
        let ps = self.own_entries();
        &&& all_decodable::<E::Evt, E::State, B>(ps)
        &&& self.spec_state() == fold_evts::<E>(
            E::initial_state(),
            decode_all::<E::Evt, E::State, B>(ps),
        )
        &&& match self.spec_last_seq_no() {
            None => ps.len() == 0,
            Some(n) => n.as_int() == ps.len(),
        }
        &&& ps.len() <= MAX_SEQ_NO
        &&& self.spec_evt_count() <= ps.len()
        &&& match self.spec_snapshot_after() {
            None => true,
            Some(a) => a >= 1,
        }
    }

    /// The in-memory state.
    pub fn state(&self) -> (r: &E::State)
        ensures
            *r == self.spec_state(),
    {
        &self.state
    }

    /// The last sequence number this entity has seen of itself.
    pub fn last_seq_no(&self) -> (r: Option<SeqNo>)
        ensures
            r == self.spec_last_seq_no(),
    {
        self.last_seq_no
    }

    /// Whether the entity still accepts commands.
    pub fn live(&self) -> (r: bool)
        ensures
            r == self.is_live(),
    {
        self.live
    }

    /// The owned event log.
    pub fn evt_log(&self) -> (r: &L)
        ensures
            r.log() == self.log(),
    {
        &self.evt_log
    }

    /// The owned snapshot store.
    pub fn snapshot_store(&self) -> (r: &S)
        ensures
            r.snaps() == self.snaps(),
    {
        &self.snapshot_store
    }

    /// Dissolve the entity, handing back the two persistence handles —
    /// what a caller needs to spawn it again.
    pub fn into_parts(self) -> (r: (L, S))
        ensures
            r.0.log() == self.log(),
            r.1.snaps() == self.snaps(),
    {
        (self.evt_log, self.snapshot_store)
    }

    /// Handle one command, in arrival order with every other command of
    /// this entity.
    ///
    /// A rejected command returns the domain error and changes nothing.
    /// An accepted command appends its event under the optimistic
    /// concurrency check *before* the state is updated; on success the
    /// event is folded into the state and, every `snapshot_after`
    /// applied events, a snapshot is saved — a failed snapshot save is
    /// swallowed and the entity stays live. A failed append (a conflict
    /// means another writer exists for this id) terminates the entity:
    /// it answers every later command with an error and touches neither
    /// log nor state.
    pub fn handle_cmd(&mut self, cmd: E::Cmd) -> (r: Result<Result<(), E::Error>, HandleCmdError>)
        requires
            old(self).wf(),
        ensures
            final(self).wf(),
            final(self).spec_id() == old(self).spec_id(),
            final(self).spec_snapshot_after() == old(self).spec_snapshot_after(),
            !old(self).is_live() ==> r is Err && *final(self) == *old(self),
            old(self).is_live() ==> match E::cmd_result(
                old(self).spec_id(),
                old(self).spec_state(),
                cmd,
            ) {
                Err(e) => {
                    &&& r == Ok::<Result<(), E::Error>, HandleCmdError>(Err(e))
                    &&& *final(self) == *old(self)
                },
                Ok(evt) => {
                    ||| {
                        &&& r == Ok::<Result<(), E::Error>, HandleCmdError>(Ok(()))
                        &&& final(self).is_live()
                        &&& final(self).log() == old(self).log().push(
                            (E::spec_entity_type(), old(self).spec_id(), B::evt_enc(evt)),
                        )
                        &&& final(self).spec_state() == E::apply_evt(old(self).spec_state(), evt)
                        &&& final(self).spec_evt_count() == old(self).spec_evt_count() + 1
                        &&& match final(self).spec_last_seq_no() {
                            Some(n) => n.as_int() == old(self).own_entries().len() + 1,
                            None => false,
                        }
                        &&& ({
                            let hit = match old(self).spec_snapshot_after() {
                                Some(a) => (old(self).spec_evt_count() + 1) % (a as int) == 0,
                                None => false,
                            };
                            if hit {
                                final(self).snaps() == old(self).snaps() || final(self).snaps()
                                    == old(self).snaps().insert(
                                    old(self).spec_id(),
                                    (
                                        final(self).spec_last_seq_no().unwrap(),
                                        B::state_enc(final(self).spec_state()),
                                    ),
                                )
                            } else {
                                final(self).snaps() == old(self).snaps()
                            }
                        })
                    }
                    ||| {
                        &&& r is Err
                        &&& !final(self).is_live()
                        &&& final(self).log() == old(self).log()
                        &&& final(self).spec_state() == old(self).spec_state()
                        &&& final(self).snaps() == old(self).snaps()
                        &&& final(self).spec_last_seq_no() == old(self).spec_last_seq_no()
                        &&& final(self).spec_evt_count() == old(self).spec_evt_count()
                    }
                },
            },
    {
        if !self.live {
            return Err(HandleCmdError("cannot send command".to_owned()));
        }
        let evt = match E::handle_cmd(&self.id, &self.state, cmd) {
            Err(e) => {
                return Ok(Err(e));
            },
            Ok(evt) => evt,
        };
        let bytes = match self.binarize.evt_to_bytes(&evt) {
            Err(_) => {
                self.live = false;
                return Err(HandleCmdError("cannot convert event to bytes".to_owned()));
            },
            Ok(b) => b,
        };
        let appended = self.evt_log.append(
            E::entity_type(),
            &self.id,
            bytes.as_slice(),
            self.last_seq_no,
        );
        let n = match appended {
            Err(_) => {
                self.live = false;
                return Err(HandleCmdError("cannot persist event".to_owned()));
            },
            Ok(n) => n,
        };
        let ghost old_ps = entries_for(old(self).log(), E::spec_entity_type(), self.id);
        let ghost evt_g = evt;
        proof {
            B::evt_round_trip(evt_g);
            use_type_invariant(n);
            crate::evt_log::lemma_entries_for_push(
                old(self).log(),
                E::spec_entity_type(),
                self.id,
                (E::spec_entity_type(), self.id, B::evt_enc(evt_g)),
            );
        }
        self.last_seq_no = Some(n);
        let mut st = E::default_state();
        core::mem::swap(&mut st, &mut self.state);
        self.state = E::handle_evt(st, evt);
        self.evt_count = self.evt_count + 1;
        proof {
            let ps = self.own_entries();
            assert(ps =~= old_ps.push(B::evt_enc(evt_g)));
            let d_old = decode_all::<E::Evt, E::State, B>(old_ps);
            assert(decode_all::<E::Evt, E::State, B>(ps) =~= d_old.push(evt_g));
            assert(d_old.push(evt_g).drop_last() =~= d_old);
            assert(d_old.push(evt_g).last() == evt_g);
            assert(fold_evts::<E>(E::initial_state(), d_old.push(evt_g)) == E::apply_evt(
                fold_evts::<E>(E::initial_state(), d_old),
                evt_g,
            ));
            assert forall|i: int| 0 <= i < ps.len() implies #[trigger] B::evt_dec(ps[i]) is Some by {
                if i < old_ps.len() {
                    assert(B::evt_dec(old_ps[i]) is Some);
                }
            }
        }
        let hit = match self.snapshot_after {
            None => false,
            Some(a) => self.evt_count % a == 0,
        };
        if hit {
            match self.binarize.state_to_bytes(&self.state) {
                Err(_) => {},
                Ok(sb) => {
                    match self.snapshot_store.save(&self.id, n, sb.as_slice()) {
                        _ => {},
                    }
                },
            }
        }
        Ok(Ok(()))
    }
}

/// Spawn an event sourced entity: restore the latest snapshot, validate
/// it against the log, replay the remaining events and hand back the
/// live entity.
///
/// On success the entity satisfies its runtime invariant: its state is
/// the fold of all its log events over the initial state — a replay
/// from a snapshot reconstructs the same state as a full replay. A
/// snapshot newer than the log is rejected as corrupt; replay stops at
/// the tail observed at spawn time.
pub fn spawn<E, L, S, B>(
    id: E::Id,
    snapshot_after: Option<u64>,
    evt_log: L,
    snapshot_store: S,
    binarize: B,
) -> (r: Result<Entity<E, L, S, B>, SpawnError>) where
    E: EventSourced,
    L: EvtLog<Id = E::Id>,
    S: SnapshotStore<Id = E::Id>,
    B: Binarize<E::Evt, E::State>,

    requires
        snapshot_after matches Some(a) ==> a >= 1,
        snapshot_trusted::<E, B>(snapshot_store.snaps(), evt_log.log(), id),
    ensures
        match r {
            Ok(ent) => {
                &&& ent.wf()
                &&& ent.spec_id() == id
                &&& ent.is_live()
                &&& ent.spec_evt_count() == 0
                &&& ent.spec_snapshot_after() == snapshot_after
                &&& ent.log() == evt_log.log()
                &&& ent.snaps() == snapshot_store.snaps()
                &&& snapshot_store.snaps().contains_key(id)
                    ==> snapshot_store.snaps()[id].0.as_int() <= ent.own_entries().len()
            },
            Err(SpawnError::InvalidLastSeqNo(l, sn)) => {
                let ps = entries_for(evt_log.log(), E::spec_entity_type(), id);
                &&& snapshot_store.snaps().contains_key(id)
                &&& sn == Some(snapshot_store.snaps()[id].0)
                &&& match l {
                    None => ps.len() == 0,
                    Some(lv) => lv.as_int() == ps.len(),
                }
                &&& ps.len() < snapshot_store.snaps()[id].0.as_int()
            },
            Err(SpawnError::NextEvt) => !all_decodable::<E::Evt, E::State, B>(
                entries_for(evt_log.log(), E::spec_entity_type(), id),
            ),
            Err(_) => true,
        },
{
    let ghost ps = entries_for(evt_log.log(), E::spec_entity_type(), id);
    // Restore the snapshot.
    let loaded = match snapshot_store.load(&id) {
        Err(_) => {
            return Err(SpawnError::LoadSnapshot);
        },
        Ok(o) => o,
    };
    let decoded: Option<(SeqNo, E::State)> = match loaded {
        None => None,
        Some(snap) => match binarize.state_from_bytes(snap.state.as_slice()) {
            Err(_) => {
                return Err(SpawnError::LoadSnapshot);
            },
            Ok(st) => Some((snap.seq_no, st)),
        },
    };
    // Get and validate the last sequence number.
    let last = match evt_log.last_seq_no(E::entity_type(), &id) {
        Err(_) => {
            return Err(SpawnError::LastSeqNo);
        },
        Ok(o) => o,
    };
    let (snap_seq, mut state): (Option<SeqNo>, E::State) = match decoded {
        None => (None, E::default_state()),
        Some(pair) => (Some(pair.0), pair.1),
    };
    let invalid = match (last, snap_seq) {
        (None, Some(_)) => true,
        (Some(l), Some(n)) => l.lt(n),
        _ => false,
    };
    if invalid {
        proof {
            if let Some(n) = snap_seq {
                use_type_invariant(n);
            }
        }
        return Err(SpawnError::InvalidLastSeqNo(last, snap_seq));
    }
    let ghost snap_n: int = match snap_seq {
        None => 0,
        Some(n) => n.as_int(),
    };
    proof {
        if let Some(n) = snap_seq {
            use_type_invariant(n);
        }
        assert(0 <= snap_n <= ps.len());
        if decoded is None {
            assert(ps.take(0) =~= Seq::<Seq<u8>>::empty());
        }
        assert(all_decodable::<E::Evt, E::State, B>(ps.take(snap_n)));
        assert(state == fold_evts::<E>(
            E::initial_state(),
            decode_all::<E::Evt, E::State, B>(ps.take(snap_n)),
        ));
    }
    // Replay the events after the snapshot, up to the tail observed
    // above.
    let do_replay = match (snap_seq, last) {
        (None, Some(_)) => true,
        (Some(n), Some(l)) => n.lt(l),
        _ => false,
    };
    if do_replay {
        let l = match last {
            Some(l) => l,
            None => {
                proof {
                    assert(false);
                }
                SeqNo::min()
            },
        };
        let from = match snap_seq {
            None => SeqNo::min(),
            Some(n) => n.saturating_next(),
        };
        let evts = match evt_log.evts_by_id(E::entity_type(), &id, from) {
            Err(_) => {
                return Err(SpawnError::EvtsById);
            },
            Ok(v) => v,
        };
        let to_raw = l.as_u64();
        let ghost init_replay = state;
        let mut k: usize = 0;
        while k < evts.len() && evts[k].0.as_u64() <= to_raw
            invariant
                0 <= k <= evts@.len(),
                evts@.len() == ps.len() - snap_n,
                forall|j: int|
                    0 <= j < evts@.len() ==> (#[trigger] evts@[j]).0.as_int() == snap_n + 1 + j
                        && evts@[j].1@ == ps[snap_n + j],
                ps == entries_for(evt_log.log(), E::spec_entity_type(), id),
                0 <= snap_n <= ps.len(),
                to_raw == ps.len(),
                all_decodable::<E::Evt, E::State, B>(ps.subrange(snap_n, snap_n + k)),
                state == fold_evts::<E>(
                    init_replay,
                    decode_all::<E::Evt, E::State, B>(ps.subrange(snap_n, snap_n + k)),
                ),
                init_replay == fold_evts::<E>(
                    E::initial_state(),
                    decode_all::<E::Evt, E::State, B>(ps.take(snap_n)),
                ),
                all_decodable::<E::Evt, E::State, B>(ps.take(snap_n)),
            decreases evts@.len() - k,
        {
            let evt = match binarize.evt_from_bytes(evts[k].1.as_slice()) {
                Err(_) => {
                    return Err(SpawnError::NextEvt);
                },
                Ok(evt) => evt,
            };
            proof {
                assert(evts@[k as int].1@ == ps[snap_n + k]);
                assert(ps.subrange(snap_n, snap_n + k + 1) =~= ps.subrange(
                    snap_n,
                    snap_n + k,
                ).push(ps[snap_n + k]));
                let dsub = decode_all::<E::Evt, E::State, B>(ps.subrange(snap_n, snap_n + k));
                let e_dec = B::evt_dec(ps[snap_n + k]).unwrap();
                assert(decode_all::<E::Evt, E::State, B>(
                    ps.subrange(snap_n, snap_n + k + 1),
                ) =~= dsub.push(e_dec));
                assert(dsub.push(e_dec).drop_last() =~= dsub);
                assert(dsub.push(e_dec).last() == e_dec);
                assert(fold_evts::<E>(init_replay, dsub.push(e_dec)) == E::apply_evt(
                    fold_evts::<E>(init_replay, dsub),
                    e_dec,
                ));
            }
            state = E::handle_evt(state, evt);
            k = k + 1;
        }
        proof {
            if k < evts@.len() {
                assert(evts@[k as int].0.as_int() == snap_n + 1 + k);
                assert(false);
            }
            assert(ps.subrange(snap_n, ps.len() as int) =~= ps.skip(snap_n));
            assert(decode_all::<E::Evt, E::State, B>(ps).take(snap_n) =~= decode_all::<
                E::Evt,
                E::State,
                B,
            >(ps.take(snap_n)));
            assert(decode_all::<E::Evt, E::State, B>(ps).skip(snap_n) =~= decode_all::<
                E::Evt,
                E::State,
                B,
            >(ps.skip(snap_n)));
            lemma_fold_split::<E>(
                E::initial_state(),
                decode_all::<E::Evt, E::State, B>(ps),
                snap_n,
            );
            assert forall|i: int| 0 <= i < ps.len() implies #[trigger] B::evt_dec(ps[i]) is Some by {
                if i < snap_n {
                    assert(B::evt_dec(ps.take(snap_n)[i]) is Some);
                } else {
                    assert(B::evt_dec(ps.subrange(snap_n, ps.len() as int)[i - snap_n]) is Some);
                }
            }
        }
    } else {
        proof {
            assert(snap_n == ps.len());
            assert(ps.take(snap_n) =~= ps);
        }
    }
    proof {
        if let Some(l) = last {
            use_type_invariant(l);
        }
    }
    Ok(
        Entity {
            id,
            state,
            last_seq_no: last,
            evt_count: 0,
            snapshot_after,
            live: true,
            evt_log,
            snapshot_store,
            binarize,
        },
    )
}

} // verus!
