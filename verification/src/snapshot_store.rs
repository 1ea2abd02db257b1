//! The snapshot store contract and an in-memory reference
//! implementation.
//!
//! A snapshot store keeps, per entity id, the latest `(seq_no, state)`
//! pair, where `seq_no` is the last event sequence number folded into
//! `state`. Saving overwrites; loading returns the most recently saved
//! pair. The store gives no ordering guarantees across ids, and losing
//! or lagging a snapshot is never fatal: the runtime falls back to full
//! replay.

use vstd::prelude::*;
use vstd::slice::slice_to_vec;
use crate::seq_no::SeqNo;

verus! {

/// Snapshot state along with its sequence number.
pub struct Snapshot<S> {
    pub seq_no: SeqNo,
    pub state: S,
}

impl<S> Snapshot<S> {
    /// Pair a state with the sequence number it reflects.
    pub fn new(seq_no: SeqNo, state: S) -> (r: Snapshot<S>)
        ensures
            r.seq_no == seq_no,
            r.state == state,
    {
        Snapshot { seq_no, state }
    }
}

/// Errors surfaced by snapshot stores.
#[derive(Clone, Copy, Debug, PartialEq, Eq, Structural)]
pub enum SnapshotStoreError {
    /// The backend cannot be reached.
    Connectivity,
}

/// Latest-state persistence keyed by entity id.
///
/// `snaps()` is the model: the stored pair per id. A failed save may or
/// may not have reached the backend; either way the model holds one of
/// the two candidate values.
pub trait SnapshotStore: Sized {
    /// Entity id type.
    type Id;

    /// Backend error type.
    type Error;

    /// The stored `(seq_no, state)` pair per entity id.
    spec fn snaps(&self) -> Map<Self::Id, (SeqNo, Seq<u8>)>;

    /// Persist `(seq_no, state)` for `id`, overwriting any earlier pair.
    fn save(&mut self, id: &Self::Id, seq_no: SeqNo, state: &[u8]) -> (r: Result<
        (),
        Self::Error,
    >)
        ensures
            r is Ok ==> final(self).snaps() == old(self).snaps().insert(*id, (seq_no, state@)),
            r is Err ==> final(self).snaps() == old(self).snaps() || final(self).snaps() == old(
                self,
            ).snaps().insert(*id, (seq_no, state@)),
    ;

    /// The most recently saved pair for `id`, or `None`.
    fn load(&self, id: &Self::Id) -> (r: Result<Option<Snapshot<Vec<u8>>>, Self::Error>)
        ensures
            match r {
                Ok(None) => !self.snaps().contains_key(*id),
                Ok(Some(s)) => self.snaps().contains_key(*id) && self.snaps()[*id] == (
                    s.seq_no,
                    s.state@,
                ),
                Err(_) => true,
            },
    ;
}

/// The stored pairs described by a journal of saves, later saves
/// shadowing earlier ones.
pub open spec fn snaps_of(entries: Seq<(u128, SeqNo, Seq<u8>)>) -> Map<u128, (SeqNo, Seq<u8>)>
    decreases entries.len(),
{
    if entries.len() == 0 {
        Map::empty()
    } else {
        snaps_of(entries.drop_last()).insert(
            entries.last().0,
            (entries.last().1, entries.last().2),
        )
    }
}

/// Saving a pair and then loading the same id yields exactly that
/// pair, whatever the store held before: on the store model, a save is
/// an insert, and a load reads the inserted value.
pub proof fn lemma_save_then_load(
    snaps: Map<u128, (SeqNo, Seq<u8>)>,
    id: u128,
    seq_no: SeqNo,
    state: Seq<u8>,
)
    ensures
        snaps.insert(id, (seq_no, state)).contains_key(id),
        snaps.insert(id, (seq_no, state))[id] == (seq_no, state),
{
}

/// An in-memory snapshot store: the reference implementation of
/// [`SnapshotStore`], with ids as 128-bit integers.
///
/// A store can be put into a failing mode, in which every save is
/// refused; it stands for a backend that is down, and is what shows
/// that the runtime treats snapshot-save failures as non-fatal.
pub struct MemSnapshotStore {
    entries: Vec<(u128, SeqNo, Vec<u8>)>,
    fail_saves: bool,
}

impl MemSnapshotStore {
    /// The journal of saves, for use in specifications.
    pub closed spec fn model(&self) -> Seq<(u128, SeqNo, Seq<u8>)> {
        self.entries@.map(|i: int, e: (u128, SeqNo, Vec<u8>)| (e.0, e.1, e.2@))
    }

    /// Whether every save is refused.
    pub closed spec fn fails(&self) -> bool {
        self.fail_saves
    }

    /// An empty store that accepts saves.
    pub fn new() -> (r: MemSnapshotStore)
        ensures
            r.snaps() == Map::<u128, (SeqNo, Seq<u8>)>::empty(),
            !r.fails(),
    {
        let r = MemSnapshotStore { entries: Vec::new(), fail_saves: false };
        proof {
            assert(r.model() =~= Seq::<(u128, SeqNo, Seq<u8>)>::empty());
        }
        r
    }

    /// An empty store whose saves all fail.
    pub fn failing() -> (r: MemSnapshotStore)
        ensures
            r.snaps() == Map::<u128, (SeqNo, Seq<u8>)>::empty(),
            r.fails(),
    {
        let r = MemSnapshotStore { entries: Vec::new(), fail_saves: true };
        proof {
            assert(r.model() =~= Seq::<(u128, SeqNo, Seq<u8>)>::empty());
        }
        r
    }
}

impl SnapshotStore for MemSnapshotStore {
    type Id = u128;

    type Error = SnapshotStoreError;

    open spec fn snaps(&self) -> Map<u128, (SeqNo, Seq<u8>)> {
        snaps_of(self.model())
    }

    /// Saves succeed exactly while the store is not failing, and a
    /// refused save changes nothing.
    fn save(&mut self, id: &u128, seq_no: SeqNo, state: &[u8]) -> (r: Result<
        (),
        SnapshotStoreError,
    >)
        ensures
            ({
                if old(self).fails() {
                    &&& r == Err::<(), SnapshotStoreError>(SnapshotStoreError::Connectivity)
                    &&& final(self).snaps() == old(self).snaps()
                    &&& final(self).fails()
                } else {
                    &&& r is Ok
                    &&& final(self).snaps() == old(self).snaps().insert(*id, (seq_no, state@))
                    &&& !final(self).fails()
                }
            }),
    {
        if self.fail_saves {
            return Err(SnapshotStoreError::Connectivity);
        }
        let ghost old_model = self.model();
        self.entries.push((*id, seq_no, slice_to_vec(state)));
        proof {
            assert(self.model() =~= old_model.push((*id, seq_no, state@)));
            assert(self.model().drop_last() =~= old_model);
        }
        Ok(())
    }

    /// Loads never fail here; the most recent save for the id wins.
    fn load(&self, id: &u128) -> (r: Result<Option<Snapshot<Vec<u8>>>, SnapshotStoreError>)
        ensures
            match r {
                Ok(None) => !self.snaps().contains_key(*id),
                Ok(Some(s)) => self.snaps().contains_key(*id) && self.snaps()[*id] == (
                    s.seq_no,
                    s.state@,
                ),
                Err(_) => false,
            },
    {
        let mut i = self.entries.len();
        proof {
            assert(self.model().take(self.entries@.len() as int) =~= self.model());
        }
        while i > 0
            invariant
                i <= self.entries@.len(),
                snaps_of(self.model()).contains_key(*id) == snaps_of(
                    self.model().take(i as int),
                ).contains_key(*id),
                snaps_of(self.model()).contains_key(*id) ==> snaps_of(self.model())[*id]
                    == snaps_of(self.model().take(i as int))[*id],
            decreases i,
        {
            let e = &self.entries[i - 1];
            proof {
                assert(self.model()[i - 1] == (e.0, e.1, e.2@));
                assert(self.model().take(i as int).drop_last() =~= self.model().take(i - 1));
                assert(self.model().take(i as int).last() == self.model()[i - 1]);
            }
            if e.0 == *id {
                return Ok(
                    Some(Snapshot { seq_no: e.1, state: slice_to_vec(e.2.as_slice()) }),
                );
            }
            i = i - 1;
        }
        proof {
            assert(self.model().take(0) =~= Seq::<(u128, SeqNo, Seq<u8>)>::empty());
        }
        Ok(None)
    }
}

} // verus!
