//! The assembled storage engine: the versioned value store behind the
//! pruner coordinator's version frontier. Reads below the minimum
//! readable version answer `VersionUnavailable` rather than stale data.

use vstd::prelude::*;
use crate::StateStoreError;
use crate::chunk;
use crate::chunk::StateValueChunkWithProof;
use crate::pruner::PrunerCoordinator;
use crate::state_value::{StateKey, StateValue, StaleStateValueIndex};
use crate::hashing;
use crate::order;
use crate::store;
use crate::store::{Rec, StaleRec, StateStore, stale_of, value_at, has_version, latest_version};

verus! {

/// The versioned state storage: records, stale index and pruning frontier.
pub struct StateStorage {
    store: StateStore,
    coordinator: PrunerCoordinator,
}

impl StateStorage {
    /// The inner value store.
    pub closed spec fn store_spec(self) -> StateStore {
        self.store
    }

    /// The pruner coordinator.
    pub closed spec fn coordinator_spec(self) -> PrunerCoordinator {
        self.coordinator
    }

    /// The records, as their model.
    pub open spec fn recs(self) -> Seq<Rec> {
        self.store_spec().recs()
    }

    /// The stale index, as its model.
    pub open spec fn stale_entries(self) -> Seq<StaleRec> {
        self.store_spec().stale_entries()
    }

    /// The floor below which reads answer `VersionUnavailable`.
    pub open spec fn min_readable(self) -> u64 {
        self.coordinator_spec().min_readable()
    }

    /// The highest committed version.
    pub open spec fn current(self) -> u64 {
        self.coordinator_spec().current()
    }

    /// Well-formedness of the assembled storage.
    pub open spec fn wf(self) -> bool {
        self.store_spec().wf()
    }

    /// An empty storage with the given retention window.
    pub fn new(retention_window: u64) -> (r: StateStorage)
        ensures
            r.wf(),
            r.recs() == Seq::<Rec>::empty(),
            r.stale_entries() == Seq::<StaleRec>::empty(),
            r.min_readable() == 0,
            r.current() == 0,
            r.coordinator_spec().retention() == retention_window,
            store::stale_index_exact(r.recs(), r.stale_entries()),
    {
        StateStorage {
            store: StateStore::new(),
            coordinator: PrunerCoordinator::new(retention_window),
        }
    }

    /// Commits one write: appends the record, emits the stale-index entry
    /// for a superseded prior record in the same step, and advances the
    /// current version. Reusing a committed version for the key is
    /// refused and changes nothing.
    pub fn put(&mut self, key: StateKey, version: u64, value: StateValue) -> (r: Result<
        (),
        StateStoreError,
    >)
        requires
            old(self).wf(),
            forall|i: int|
                0 <= i < old(self).recs().len() && (#[trigger] old(self).recs()[i]).key == key@
                    ==> old(self).recs()[i].version <= version,
            forall|k: int|
                0 <= k < old(self).stale_entries().len()
                    ==> (#[trigger] old(self).stale_entries()[k]).stale_since_version
                        <= version,
        ensures
            final(self).wf(),
            final(self).min_readable() == old(self).min_readable(),
            final(self).coordinator_spec().retention() == old(self).coordinator_spec().retention(),
            final(self).coordinator_spec().state_pruner_spec() == old(
                self,
            ).coordinator_spec().state_pruner_spec(),
            final(self).coordinator_spec().ledger_pruner_spec() == old(
                self,
            ).coordinator_spec().ledger_pruner_spec(),
            store::stale_index_exact(old(self).recs(), old(self).stale_entries())
                ==> store::stale_index_exact(final(self).recs(), final(self).stale_entries()),
            match r {
                Ok(_) => {
                    &&& !has_version(old(self).recs(), key@, version)
                    &&& final(self).recs() == old(self).recs().push(
                        Rec { key: key@, version: version, value: value@ },
                    )
                    &&& match latest_version(old(self).recs(), key@) {
                        Some(v0) => final(self).stale_entries() == old(self).stale_entries().push(
                            StaleRec {
                                stale_since_version: version,
                                version: v0,
                                state_key: key@,
                            },
                        ),
                        None => final(self).stale_entries() == old(self).stale_entries(),
                    }
                    &&& final(self).current() == if version >= old(self).current() {
                        version
                    } else {
                        old(self).current()
                    }
                },
                Err(e) => {
                    &&& e == StateStoreError::DuplicateVersion
                    &&& has_version(old(self).recs(), key@, version)
                    &&& final(self).recs() == old(self).recs()
                    &&& final(self).stale_entries() == old(self).stale_entries()
                    &&& final(self).current() == old(self).current()
                },
            },
    {
        proof {
            assert forall|k: int|
                0 <= k < self.store.stale_entries().len()
                implies (#[trigger] self.store.stale_entries()[k]).stale_since_version
                    <= version by {
                assert(self.stale_entries()[k] == self.store.stale_entries()[k]);
            }
        }
        let result = self.store.put(key, version, value);
        match result {
            Ok(_) => {
                self.coordinator.advance_current_version(version);
                Ok(())
            },
            Err(e) => Err(e),
        }
    }

    /// Reads the value of `key` as of `version`: the latest record at or
    /// below the version answers; a version below the pruned frontier is
    /// refused as unavailable rather than answered with stale data.
    pub fn get(&self, key: &StateKey, version: u64) -> (r: Result<StateValue, StateStoreError>)
        ensures
            match r {
                Ok(v) => version >= self.min_readable() && value_at(self.recs(), key@, version)
                    == Some(v@),
                Err(e) => if version < self.min_readable() {
                    e == StateStoreError::VersionUnavailable
                } else {
                    &&& e == StateStoreError::NotFound
                    &&& value_at(self.recs(), key@, version) is None
                },
            },
    {
        if version < self.coordinator.min_readable_version() {
            return Err(StateStoreError::VersionUnavailable);
        }
        self.store.get(key, version)
    }

    /// The snapshot at `version`: each live key with the value it held,
    /// in ascending hashed-key order.
    pub fn collect_snapshot(&self, version: u64) -> (r: Vec<(StateKey, StateValue)>)
        ensures
            store::kvs_of(r@) == store::sorted_snapshot(self.recs(), version),
            store::leaves_sorted(store::kvs_of(r@)),
    {
        self.store.collect_snapshot(version)
    }

    /// Cuts one snapshot chunk: up to `max_items` pairs starting at the
    /// given ordinal, with the range proof and the snapshot's root digest.
    /// A version below the pruned frontier is refused as unavailable; a
    /// version beyond the committed history, or an ordinal past the
    /// snapshot's end, has nothing to answer.
    pub fn produce_chunk(&self, version: u64, start_index: usize, max_items: usize) -> (r: Result<
        StateValueChunkWithProof,
        StateStoreError,
    >)
        requires
            max_items >= 1,
        ensures
            match r {
                Ok(c) => {
                    let leaves = store::sorted_snapshot(self.recs(), version);
                    let end = chunk::chunk_end(
                        start_index as int,
                        max_items as int,
                        leaves.len() as int,
                    );
                    &&& self.min_readable() <= version <= self.current()
                    &&& (start_index as int) < leaves.len()
                    &&& c.first_index == start_index
                    &&& c.last_index == end - 1
                    &&& store::kvs_of(c.raw_values@) == leaves.subrange(start_index as int, end)
                    &&& c.root_hash@ == chunk::root_spec(leaves)
                    &&& c.proof.right_view() == chunk::leaf_hashes(leaves).skip(end)
                    &&& c.verifies()
                    &&& (end == leaves.len() ==> c.is_last_spec())
                    &&& store::leaves_sorted(leaves)
                    &&& (forall|t: int|
                        start_index <= t < end ==> order::bytes_le(
                            hashing::key_hash_spec((#[trigger] leaves[t]).0),
                            c.last_key@,
                        ) && order::bytes_le(
                            c.first_key@,
                            hashing::key_hash_spec(leaves[t].0),
                        ))
                    &&& (end == leaves.len() ==> forall|t: int|
                        0 <= t < leaves.len() ==> order::bytes_le(
                            hashing::key_hash_spec((#[trigger] leaves[t]).0),
                            c.last_key@,
                        ))
                },
                Err(e) => if version < self.min_readable() {
                    e == StateStoreError::VersionUnavailable
                } else if version > self.current() {
                    e == StateStoreError::NotFound
                } else {
                    &&& e == StateStoreError::NotFound
                    &&& start_index as int >= store::sorted_snapshot(self.recs(), version).len()
                },
            },
    {
        if version < self.coordinator.min_readable_version() {
            return Err(StateStoreError::VersionUnavailable);
        }
        if version > self.coordinator.current_version() {
            return Err(StateStoreError::NotFound);
        }
        let leaves = self.store.collect_snapshot(version);
        let result = chunk::produce_chunk_from_leaves(&leaves, start_index, max_items);
        proof {
            let all = store::sorted_snapshot(self.recs(), version);
            if result is Ok {
                let c = result->Ok_0;
                let end = chunk::chunk_end(start_index as int, max_items as int, all.len() as int);
                assert forall|t: int|
                    start_index <= t < end
                    implies order::bytes_le(
                        hashing::key_hash_spec((#[trigger] all[t]).0),
                        c.last_key@,
                    ) && order::bytes_le(c.first_key@, hashing::key_hash_spec(all[t].0)) by {
                    store::lemma_sorted_hash_le(all, t, end - 1);
                    store::lemma_sorted_hash_le(all, start_index as int, t);
                }
                if end == all.len() {
                    assert forall|t: int|
                        0 <= t < all.len()
                        implies order::bytes_le(
                            hashing::key_hash_spec((#[trigger] all[t]).0),
                            c.last_key@,
                        ) by {
                        store::lemma_sorted_hash_le(all, t, end - 1);
                    }
                }
            }
        }
        result
    }

    /// Raises the minimum readable version (never lowered, never past the
    /// retention window behind the current version).
    pub fn set_min_readable_version(&mut self, version: u64)
        ensures
            final(self).wf() == old(self).wf(),
            final(self).recs() == old(self).recs(),
            final(self).stale_entries() == old(self).stale_entries(),
            final(self).current() == old(self).current(),
            final(self).coordinator_spec().retention() == old(self).coordinator_spec().retention(),
            final(self).coordinator_spec().state_pruner_spec() == old(
                self,
            ).coordinator_spec().state_pruner_spec(),
            final(self).coordinator_spec().ledger_pruner_spec() == old(
                self,
            ).coordinator_spec().ledger_pruner_spec(),
            final(self).min_readable() >= old(self).min_readable(),
            final(self).min_readable() == {
                let capped = crate::pruner::min_u64(
                    version,
                    crate::pruner::sat_sub(
                        old(self).current(),
                        old(self).coordinator_spec().retention(),
                    ),
                );
                if capped >= old(self).min_readable() {
                    capped
                } else {
                    old(self).min_readable()
                }
            },
    {
        self.coordinator.set_min_readable_version(version);
    }

    /// The minimum readable version.
    pub fn min_readable_version(&self) -> (r: u64)
        ensures
            r == self.min_readable(),
    {
        self.coordinator.min_readable_version()
    }

    /// The highest committed version.
    pub fn current_version(&self) -> (r: u64)
        ensures
            r == self.current(),
    {
        self.coordinator.current_version()
    }

    /// The state pruner's durable progress mark.
    pub fn last_pruned_version(&self) -> (r: u64)
        ensures
            r == self.coordinator_spec().state_pruner_spec().last_pruned(),
    {
        self.coordinator.last_pruned_version()
    }

    /// How many stale-index entries the storage holds.
    pub fn stale_count(&self) -> (r: usize)
        ensures
            r == self.stale_entries().len(),
    {
        self.store.stale_count()
    }

    /// The stale-index entry at a position.
    pub fn stale_at(&self, i: usize) -> (r: StaleStateValueIndex)
        requires
            i < self.stale_entries().len(),
        ensures
            stale_of(r) == self.stale_entries()[i as int],
    {
        self.store.stale_at(i)
    }

    /// Runs one pruning cycle (see the coordinator): deletes up to
    /// `batch_size` prunable stale entries with their records, never
    /// touching anything readable, and advances the durable progress mark
    /// only when the scan finished and the engine committed the batch.
    pub fn run_pruning_cycle(&mut self, batch_size: usize, commit_ok: bool) -> (r: Result<
        usize,
        StateStoreError,
    >)
        requires
            old(self).wf(),
        ensures
            final(self).wf(),
            store::stale_index_exact(old(self).recs(), old(self).stale_entries())
                ==> store::stale_index_exact(final(self).recs(), final(self).stale_entries()),
            final(self).current() == old(self).current(),
            final(self).min_readable() == old(self).min_readable(),
            final(self).coordinator_spec().retention() == old(self).coordinator_spec().retention(),
            final(self).coordinator_spec().ledger_pruner_spec() == old(
                self,
            ).coordinator_spec().ledger_pruner_spec(),
            !commit_ok ==> {
                &&& r == Err::<usize, StateStoreError>(StateStoreError::BatchCommitFailed)
                &&& final(self).recs() == old(self).recs()
                &&& final(self).stale_entries() == old(self).stale_entries()
                &&& final(self).coordinator_spec().state_pruner_spec() == old(
                    self,
                ).coordinator_spec().state_pruner_spec()
            },
            commit_ok && !old(self).coordinator_spec().cycle_due() ==> {
                &&& r == Ok::<usize, StateStoreError>(0)
                &&& final(self).recs() == old(self).recs()
                &&& final(self).stale_entries() == old(self).stale_entries()
                &&& final(self).coordinator_spec().state_pruner_spec() == old(
                    self,
                ).coordinator_spec().state_pruner_spec()
            },
            commit_ok && old(self).coordinator_spec().cycle_due() ==> {
                let target = old(self).coordinator_spec().target_spec();
                let dropped = store::dropped_by_prune(
                    old(self).stale_entries(),
                    target,
                    batch_size as int,
                );
                &&& r == Ok::<usize, StateStoreError>(dropped.len() as usize)
                &&& final(self).stale_entries() == store::kept_after_prune(
                    old(self).stale_entries(),
                    target,
                    batch_size as int,
                )
                &&& final(self).recs() == store::remove_records(old(self).recs(), dropped)
                &&& (forall|k: int|
                    0 <= k < dropped.len() ==> (#[trigger] dropped[k]).stale_since_version
                        <= old(self).min_readable())
                &&& (dropped.len() < batch_size ==> {
                    &&& final(self).coordinator_spec().state_pruner_spec().state_spec()
                        == crate::pruner::PrunerState::Idle
                    &&& final(self).coordinator_spec().state_pruner_spec().last_pruned()
                        == target
                })
                &&& (dropped.len() == batch_size ==> {
                    &&& final(self).coordinator_spec().state_pruner_spec().state_spec()
                        == crate::pruner::PrunerState::Pruning
                    &&& final(self).coordinator_spec().state_pruner_spec().last_pruned()
                        == old(self).coordinator_spec().state_pruner_spec().last_pruned()
                })
                &&& (dropped.len() < batch_size ==> forall|k: int|
                    0 <= k < final(self).stale_entries().len()
                        ==> (#[trigger] final(self).stale_entries()[k]).stale_since_version
                            > target)
            },
    {
        self.coordinator.run_pruning_cycle(&mut self.store, batch_size, commit_ok)
    }
}

} // verus!
