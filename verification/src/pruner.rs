//! The pruning machinery: the state-merkle pruner's two-state machine, the
//! ledger pruner that sequences deletion requests for the external ledger
//! stores, and the coordinator that owns both, advances the prunable
//! frontier and exposes the minimum readable version.

use vstd::prelude::*;
use crate::StateStoreError;
use crate::store::{
    StateStore, StaleRec, dropped_by_prune, kept_after_prune, remove_records,
    lemma_prune_respects_target, prunable,
};

verus! {

/// `a - b`, floored at zero.
pub open spec fn sat_sub(a: u64, b: u64) -> u64 {
    if a >= b {
        (a - b) as u64
    } else {
        0
    }
}

/// The smaller of two versions.
pub open spec fn min_u64(a: u64, b: u64) -> u64 {
    if a <= b {
        a
    } else {
        b
    }
}

/// The two states of the background pruning state machine.
#[derive(Clone, Copy, Debug, PartialEq, Eq, Structural)]
pub enum PrunerState {
    /// Waiting for the next cycle.
    Idle,
    /// Actively deleting a batch.
    Pruning,
}

/// Deletes stale state records in bounded batches, advancing its durable
/// progress mark only after a batch commits.
pub struct StateMerklePruner {
    state: PrunerState,
    last_pruned_version: u64,
}

impl StateMerklePruner {
    /// The machine's state.
    pub closed spec fn state_spec(self) -> PrunerState {
        self.state
    }

    /// The highest version whose stale data is known deleted.
    pub closed spec fn last_pruned(self) -> u64 {
        self.last_pruned_version
    }

    /// A pruner that has deleted nothing yet.
    pub fn new() -> (r: StateMerklePruner)
        ensures
            r.state_spec() == PrunerState::Idle,
            r.last_pruned() == 0,
    {
        StateMerklePruner { state: PrunerState::Idle, last_pruned_version: 0 }
    }
}

/// A utility function to instantiate the state pruner.
pub fn create_state_pruner() -> (r: StateMerklePruner)
    ensures
        r.state_spec() == PrunerState::Idle,
        r.last_pruned() == 0,
{
    StateMerklePruner::new()
}

/// The external ledger-adjacent stores the ledger pruner delegates to.
#[derive(Clone, Copy, Debug, PartialEq, Eq, Structural)]
pub enum LedgerStoreKind {
    /// The event store.
    Event,
    /// The transaction store.
    Transaction,
    /// The ledger-metadata store.
    LedgerMetadata,
}

/// The store asked at each step of a ledger pruning cycle.
pub open spec fn ledger_store_at(cursor: u64) -> Option<LedgerStoreKind> {
    if cursor == 0 {
        Some(LedgerStoreKind::Event)
    } else if cursor == 1 {
        Some(LedgerStoreKind::Transaction)
    } else if cursor == 2 {
        Some(LedgerStoreKind::LedgerMetadata)
    } else {
        None
    }
}

/// Sequences bounded-batch deletions across the external event,
/// transaction and ledger-metadata stores. The stores do their own
/// physical deletion; this machine only decides whom to ask next, so a
/// cycle is safe to retry after an interruption.
pub struct LedgerPruner {
    cursor: u64,
    last_pruned_version: u64,
}

impl LedgerPruner {
    /// Which store the cycle asks next (3 when the cycle is done).
    pub closed spec fn cursor_spec(self) -> u64 {
        self.cursor
    }

    /// The highest target version every store has finished deleting to.
    pub closed spec fn last_pruned(self) -> u64 {
        self.last_pruned_version
    }

    /// A pruner at the start of a cycle, having deleted nothing yet.
    pub fn new() -> (r: LedgerPruner)
        ensures
            r.cursor_spec() == 0,
            r.last_pruned() == 0,
    {
        LedgerPruner { cursor: 0, last_pruned_version: 0 }
    }

    /// The next deletion request of this cycle: which store to ask to
    /// prune up to the target, or nothing if the cycle is done.
    pub fn next_request(&self, target_version: u64) -> (r: Option<(LedgerStoreKind, u64)>)
        ensures
            self.cursor_spec() < 3 ==> r == Some(
                (ledger_store_at(self.cursor_spec()).unwrap(), target_version),
            ),
            self.cursor_spec() >= 3 ==> r is None,
    {
        if self.cursor == 0 {
            Some((LedgerStoreKind::Event, target_version))
        } else if self.cursor == 1 {
            Some((LedgerStoreKind::Transaction, target_version))
        } else if self.cursor == 2 {
            Some((LedgerStoreKind::LedgerMetadata, target_version))
        } else {
            None
        }
    }

    /// Feeds back one store's answer: `remaining` means the store has more
    /// to delete and is asked again; otherwise the cycle moves to the next
    /// store, and when the last store finishes, the progress mark advances
    /// to the target (never backwards).
    pub fn on_store_result(&mut self, remaining: bool, target_version: u64)
        requires
            old(self).cursor_spec() < 3,
        ensures
            remaining ==> final(self).cursor_spec() == old(self).cursor_spec()
                && final(self).last_pruned() == old(self).last_pruned(),
            !remaining ==> final(self).cursor_spec() == old(self).cursor_spec() + 1,
            !remaining && old(self).cursor_spec() == 2 ==> final(self).last_pruned()
                == if target_version >= old(self).last_pruned() {
                    target_version
                } else {
                    old(self).last_pruned()
                },
            !remaining && old(self).cursor_spec() < 2 ==> final(self).last_pruned() == old(
                self,
            ).last_pruned(),
    {
        if !remaining {
            self.cursor = self.cursor + 1;
            if self.cursor == 3 && target_version >= self.last_pruned_version {
                self.last_pruned_version = target_version;
            }
        }
    }

    /// Whether every store has finished this cycle.
    pub fn cycle_done(&self) -> (r: bool)
        ensures
            r == (self.cursor_spec() >= 3),
    {
        self.cursor >= 3
    }

    /// Starts the next cycle from the first store. Retrying a finished or
    /// interrupted cycle is safe: the stores' deletions are idempotent.
    pub fn begin_cycle(&mut self)
        ensures
            final(self).cursor_spec() == 0,
            final(self).last_pruned() == old(self).last_pruned(),
    {
        self.cursor = 0;
    }
}

/// A utility function to instantiate the ledger pruner.
pub fn create_ledger_pruner() -> (r: LedgerPruner)
    ensures
        r.cursor_spec() == 0,
        r.last_pruned() == 0,
{
    LedgerPruner::new()
}

/// Owns the two pruners and the shared version frontier: the highest
/// committed version, the minimum readable version and the retention
/// window.
pub struct PrunerCoordinator {
    current_version: u64,
    min_readable_version: u64,
    retention_window: u64,
    state_pruner: StateMerklePruner,
    ledger_pruner: LedgerPruner,
}

impl PrunerCoordinator {
    /// The highest committed version.
    pub closed spec fn current(self) -> u64 {
        self.current_version
    }

    /// The floor below which no reader is guaranteed data.
    pub closed spec fn min_readable(self) -> u64 {
        self.min_readable_version
    }

    /// The number of trailing versions kept readable.
    pub closed spec fn retention(self) -> u64 {
        self.retention_window
    }

    /// The state-merkle pruner.
    pub closed spec fn state_pruner_spec(self) -> StateMerklePruner {
        self.state_pruner
    }

    /// The ledger pruner.
    pub closed spec fn ledger_pruner_spec(self) -> LedgerPruner {
        self.ledger_pruner
    }

    /// The safe-to-prune version: the retention window behind the current
    /// version, and never past the minimum readable version.
    pub open spec fn target_spec(self) -> u64 {
        min_u64(sat_sub(self.current(), self.retention()), self.min_readable())
    }

    /// Whether a cycle has work to start or to continue.
    pub open spec fn cycle_due(self) -> bool {
        self.state_pruner_spec().state_spec() == PrunerState::Pruning || sat_sub(
            self.current(),
            self.state_pruner_spec().last_pruned(),
        ) > self.retention()
    }

    /// A coordinator over an empty history.
    pub fn new(retention_window: u64) -> (r: PrunerCoordinator)
        ensures
            r.current() == 0,
            r.min_readable() == 0,
            r.retention() == retention_window,
            r.state_pruner_spec().state_spec() == PrunerState::Idle,
            r.state_pruner_spec().last_pruned() == 0,
            r.ledger_pruner_spec().cursor_spec() == 0,
            r.ledger_pruner_spec().last_pruned() == 0,
    {
        PrunerCoordinator {
            current_version: 0,
            min_readable_version: 0,
            retention_window,
            state_pruner: create_state_pruner(),
            ledger_pruner: create_ledger_pruner(),
        }
    }

    /// Called on every ledger commit: the current version only advances.
    pub fn advance_current_version(&mut self, version: u64)
        ensures
            final(self).current() == if version >= old(self).current() {
                version
            } else {
                old(self).current()
            },
            final(self).min_readable() == old(self).min_readable(),
            final(self).retention() == old(self).retention(),
            final(self).state_pruner_spec() == old(self).state_pruner_spec(),
            final(self).ledger_pruner_spec() == old(self).ledger_pruner_spec(),
    {
        if version >= self.current_version {
            self.current_version = version;
        }
    }

    /// Raises the minimum readable version, never lowering it and never
    /// past the retention window behind the current version.
    pub fn set_min_readable_version(&mut self, version: u64)
        ensures
            final(self).min_readable() == {
                let capped = min_u64(version, sat_sub(old(self).current(), old(self).retention()));
                if capped >= old(self).min_readable() {
                    capped
                } else {
                    old(self).min_readable()
                }
            },
            final(self).min_readable() >= old(self).min_readable(),
            final(self).current() == old(self).current(),
            final(self).retention() == old(self).retention(),
            final(self).state_pruner_spec() == old(self).state_pruner_spec(),
            final(self).ledger_pruner_spec() == old(self).ledger_pruner_spec(),
    {
        let window_floor = if self.current_version >= self.retention_window {
            self.current_version - self.retention_window
        } else {
            0
        };
        let capped = if version <= window_floor {
            version
        } else {
            window_floor
        };
        if capped >= self.min_readable_version {
            self.min_readable_version = capped;
        }
    }

    /// The minimum readable version.
    pub fn min_readable_version(&self) -> (r: u64)
        ensures
            r == self.min_readable(),
    {
        self.min_readable_version
    }

    /// The highest committed version.
    pub fn current_version(&self) -> (r: u64)
        ensures
            r == self.current(),
    {
        self.current_version
    }

    /// The state pruner's durable progress mark.
    pub fn last_pruned_version(&self) -> (r: u64)
        ensures
            r == self.state_pruner_spec().last_pruned(),
    {
        self.state_pruner.last_pruned_version
    }

    /// The safe-to-prune version for this cycle.
    pub fn compute_target_version(&self) -> (r: u64)
        ensures
            r == self.target_spec(),
            r <= self.min_readable(),
    {
        let window_floor = if self.current_version >= self.retention_window {
            self.current_version - self.retention_window
        } else {
            0
        };
        if window_floor <= self.min_readable_version {
            window_floor
        } else {
            self.min_readable_version
        }
    }

    /// Runs one pruning cycle against the store. `commit_ok` is the
    /// underlying engine's answer for this cycle's batch write: when the
    /// engine refuses, nothing is applied and the progress mark does not
    /// advance, so the cycle is retried later. A cycle that deletes a full
    /// batch stays in the pruning state; one that finishes its scan
    /// advances the progress mark and goes idle.
    pub fn run_pruning_cycle(&mut self, store: &mut StateStore, batch_size: usize, commit_ok: bool)
        -> (r: Result<usize, StateStoreError>)
        requires
            old(store).wf(),
        ensures
            final(store).wf(),
            crate::store::stale_index_exact(old(store).recs(), old(store).stale_entries())
                ==> crate::store::stale_index_exact(
                final(store).recs(),
                final(store).stale_entries(),
            ),
            final(self).current() == old(self).current(),
            final(self).min_readable() == old(self).min_readable(),
            final(self).retention() == old(self).retention(),
            final(self).ledger_pruner_spec() == old(self).ledger_pruner_spec(),
            !commit_ok ==> {
                &&& r == Err::<usize, StateStoreError>(StateStoreError::BatchCommitFailed)
                &&& final(store).recs() == old(store).recs()
                &&& final(store).stale_entries() == old(store).stale_entries()
                &&& final(self).state_pruner_spec() == old(self).state_pruner_spec()
            },
            commit_ok && !old(self).cycle_due() ==> {
                &&& r == Ok::<usize, StateStoreError>(0)
                &&& final(store).recs() == old(store).recs()
                &&& final(store).stale_entries() == old(store).stale_entries()
                &&& final(self).state_pruner_spec() == old(self).state_pruner_spec()
            },
            commit_ok && old(self).cycle_due() ==> {
                let target = old(self).target_spec();
                let dropped = dropped_by_prune(
                    old(store).stale_entries(),
                    target,
                    batch_size as int,
                );
                &&& r == Ok::<usize, StateStoreError>(dropped.len() as usize)
                &&& final(store).stale_entries() == kept_after_prune(
                    old(store).stale_entries(),
                    target,
                    batch_size as int,
                )
                &&& final(store).recs() == remove_records(old(store).recs(), dropped)
                &&& (forall|k: int|
                    0 <= k < dropped.len() ==> (#[trigger] dropped[k]).stale_since_version
                        <= old(self).min_readable())
                &&& (dropped.len() < batch_size ==> {
                    &&& final(self).state_pruner_spec().state_spec() == PrunerState::Idle
                    &&& final(self).state_pruner_spec().last_pruned() == target
                })
                &&& (dropped.len() == batch_size ==> {
                    &&& final(self).state_pruner_spec().state_spec() == PrunerState::Pruning
                    &&& final(self).state_pruner_spec().last_pruned() == old(
                        self,
                    ).state_pruner_spec().last_pruned()
                })
                &&& (dropped.len() < batch_size ==> forall|k: int|
                    0 <= k < final(store).stale_entries().len()
                        ==> (#[trigger] final(store).stale_entries()[k]).stale_since_version
                            > target)
            },
    {
        if !commit_ok {
            return Err(StateStoreError::BatchCommitFailed);
        }
        let continuing = match self.state_pruner.state {
            PrunerState::Pruning => true,
            PrunerState::Idle => false,
        };
        let behind = if self.current_version >= self.state_pruner.last_pruned_version {
            self.current_version - self.state_pruner.last_pruned_version
        } else {
            0
        };
        if !continuing && behind <= self.retention_window {
            return Ok(0);
        }
        let target = self.compute_target_version();
        let ghost min_readable = self.min_readable();
        self.state_pruner.state = PrunerState::Pruning;
        let n = store.prune_stale(target, batch_size);
        proof {
            lemma_prune_respects_target(
                old(store).stale_entries(),
                target,
                batch_size as int,
            );
        }
        if n < batch_size {
            self.state_pruner.last_pruned_version = target;
            self.state_pruner.state = PrunerState::Idle;
        }
        Ok(n)
    }
}

/// Law: no pruning cycle deletes a stale entry whose stale-since version
/// exceeds the minimum readable version, whatever the current version,
/// the retention window and the batch budget are.
pub proof fn lemma_cycle_never_prunes_readable(
    stale: Seq<StaleRec>,
    current: u64,
    retention: u64,
    min_readable: u64,
    budget: int,
)
    ensures
        forall|k: int|
            0 <= k < dropped_by_prune(
                stale,
                min_u64(sat_sub(current, retention), min_readable),
                budget,
            ).len() ==> (#[trigger] dropped_by_prune(
                stale,
                min_u64(sat_sub(current, retention), min_readable),
                budget,
            )[k]).stale_since_version <= min_readable,
{
    let target = min_u64(sat_sub(current, retention), min_readable);
    lemma_prune_respects_target(stale, target, budget);
    assert forall|k: int|
        0 <= k < dropped_by_prune(stale, target, budget).len()
        implies (#[trigger] dropped_by_prune(stale, target, budget)[k]).stale_since_version
            <= min_readable by {
        assert(prunable(dropped_by_prune(stale, target, budget)[k], target));
    }
}

} // verus!
