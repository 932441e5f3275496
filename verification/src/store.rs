//! The versioned value store: an append-only sequence of (key, version,
//! value) records, together with the stale index that marks each record
//! superseded by a later write to the same key, and the bounded-batch
//! deletion that the pruner drives.

use vstd::prelude::*;
use crate::StateStoreError;
use crate::hashing;
use crate::order;
use crate::state_value::{StateKey, StateValue, StaleStateValueIndex};

verus! {

/// Mathematical model of one versioned record.
pub struct Rec {
    pub key: Seq<u8>,
    pub version: u64,
    pub value: Seq<u8>,
}

/// Mathematical model of one stale-index entry.
pub struct StaleRec {
    pub stale_since_version: u64,
    pub version: u64,
    pub state_key: Seq<u8>,
}

/// One record: the value written for `key` at `version`.
#[derive(Debug)]
pub struct VersionedRecord {
    pub key: StateKey,
    pub version: u64,
    pub value: StateValue,
}

/// Model of a record.
pub open spec fn rec_of(r: VersionedRecord) -> Rec {
    Rec { key: r.key@, version: r.version, value: r.value@ }
}

/// Model of a record sequence.
pub open spec fn recs_of(s: Seq<VersionedRecord>) -> Seq<Rec> {
    s.map_values(|r: VersionedRecord| rec_of(r))
}

/// Model of a stale-index entry.
pub open spec fn stale_of(e: StaleStateValueIndex) -> StaleRec {
    StaleRec {
        stale_since_version: e.stale_since_version,
        version: e.version,
        state_key: e.state_key@,
    }
}

/// Model of a stale-index sequence.
pub open spec fn stales_of(s: Seq<StaleStateValueIndex>) -> Seq<StaleRec> {
    s.map_values(|e: StaleStateValueIndex| stale_of(e))
}

/// Records are ordered per key: a later record for the same key always
/// carries a strictly larger version.
pub open spec fn records_ordered(recs: Seq<Rec>) -> bool {
    forall|i: int, j: int|
        0 <= i < j < recs.len() && recs[i].key == recs[j].key
            ==> recs[i].version < recs[j].version
}

/// The value of `key` as of `version`: the value of the latest record for
/// the key whose version is at or below the requested one (the last match
/// in the sequence, under `records_ordered`).
pub open spec fn value_at(recs: Seq<Rec>, key: Seq<u8>, version: u64) -> Option<Seq<u8>>
    decreases recs.len(),
{
    if recs.len() == 0 {
        None
    } else if recs.last().key == key && recs.last().version <= version {
        Some(recs.last().value)
    } else {
        value_at(recs.drop_last(), key, version)
    }
}

/// Whether a record for (key, version) exists.
pub open spec fn has_version(recs: Seq<Rec>, key: Seq<u8>, version: u64) -> bool {
    exists|i: int| 0 <= i < recs.len() && recs[i].key == key && recs[i].version == version
}

/// The version of the last record for `key`, if the key was ever written.
pub open spec fn latest_version(recs: Seq<Rec>, key: Seq<u8>) -> Option<u64>
    decreases recs.len(),
{
    if recs.len() == 0 {
        None
    } else if recs.last().key == key {
        Some(recs.last().version)
    } else {
        latest_version(recs.drop_last(), key)
    }
}

/// Law: under per-key ordering, `value_at` returns exactly the value of the
/// latest write at or below the requested version; it is `None` exactly
/// when no write for the key had happened by that version.
#[verifier::rlimit(50)]
pub proof fn lemma_value_at_is_latest_write(recs: Seq<Rec>, key: Seq<u8>, version: u64)
    requires
        records_ordered(recs),
    ensures
        value_at(recs, key, version) matches Some(b) ==> exists|i: int|
            0 <= i < recs.len() && recs[i].key == key && recs[i].version <= version
                && recs[i].value == b
                && (forall|j: int|
                    0 <= j < recs.len() && recs[j].key == key && recs[j].version <= version
                        ==> recs[j].version <= recs[i].version),
        value_at(recs, key, version) is None ==> forall|i: int|
            0 <= i < recs.len() && recs[i].key == key ==> recs[i].version > version,
    decreases recs.len(),
{
    if recs.len() == 0 {
    } else if recs.last().key == key && recs.last().version <= version {
        let last = recs.len() - 1;
        assert(recs[last].key == key && recs[last].version <= version
            && recs[last].value == recs.last().value);
        assert(forall|j: int|
            0 <= j < recs.len() && recs[j].key == key && recs[j].version <= version
                ==> recs[j].version <= recs[last].version) by {
            assert forall|j: int|
                0 <= j < recs.len() && recs[j].key == key && recs[j].version <= version
                implies recs[j].version <= recs[last].version by {
                if j < last {
                    assert(recs[j].version < recs[last].version);
                }
            }
        }
    } else {
        lemma_value_at_is_latest_write(recs.drop_last(), key, version);
        let rest = recs.drop_last();
        assert(forall|i: int| 0 <= i < rest.len() ==> rest[i] == recs[i]);
        if value_at(recs, key, version) is Some {
            let b = value_at(recs, key, version)->Some_0;
            let i = choose|i: int|
                0 <= i < rest.len() && rest[i].key == key && rest[i].version <= version
                    && rest[i].value == b
                    && (forall|j: int|
                        0 <= j < rest.len() && rest[j].key == key && rest[j].version <= version
                            ==> rest[j].version <= rest[i].version);
            assert(recs[i].key == key && recs[i].version <= version && recs[i].value == b);
            assert forall|j: int|
                0 <= j < recs.len() && recs[j].key == key && recs[j].version <= version
                implies recs[j].version <= recs[i].version by {
                if j < recs.len() - 1 {
                    assert(rest[j] == recs[j]);
                }
            }
        }
    }
}

/// Properties of `latest_version` under per-key ordering: it names the
/// greatest version ever written for the key.
pub proof fn lemma_latest_version_props(recs: Seq<Rec>, key: Seq<u8>)
    requires
        records_ordered(recs),
    ensures
        latest_version(recs, key) is None ==> forall|i: int|
            0 <= i < recs.len() ==> recs[i].key != key,
        latest_version(recs, key) matches Some(v0) ==> {
            &&& exists|i: int| 0 <= i < recs.len() && recs[i].key == key && recs[i].version == v0
            &&& forall|i: int|
                0 <= i < recs.len() && recs[i].key == key ==> recs[i].version <= v0
        },
    decreases recs.len(),
{
    if recs.len() == 0 {
    } else if recs.last().key == key {
        let last = recs.len() - 1;
        assert(recs[last].key == key && recs[last].version == recs.last().version);
        assert forall|i: int|
            0 <= i < recs.len() && recs[i].key == key
            implies recs[i].version <= recs.last().version by {
            if i < last {
                assert(recs[i].version < recs[last].version);
            }
        }
    } else {
        lemma_latest_version_props(recs.drop_last(), key);
        let rest = recs.drop_last();
        assert(forall|i: int| 0 <= i < rest.len() ==> rest[i] == recs[i]);
        if latest_version(recs, key) is Some {
            let v0 = latest_version(recs, key)->Some_0;
            let i = choose|i: int|
                0 <= i < rest.len() && rest[i].key == key && rest[i].version == v0;
            assert(recs[i].key == key && recs[i].version == v0);
        }
    }
}

/// Whether a stale-index entry may be deleted once nothing needs a view
/// older than `target`.
pub open spec fn prunable(e: StaleRec, target: u64) -> bool {
    e.stale_since_version <= target
}

/// The index's stale-since versions never descend: entries are created in
/// commit order, so a range scan up to a threshold is a front scan.
pub open spec fn ssv_ascending(stale: Seq<StaleRec>) -> bool {
    forall|m1: int, m2: int|
        0 <= m1 < m2 < stale.len() ==> (#[trigger] stale[m1]).stale_since_version
            <= (#[trigger] stale[m2]).stale_since_version
}

/// The stale entries that survive one bounded pruning batch: a front scan
/// deletes prunable entries until the batch budget is exhausted, then
/// stops and keeps everything it did not reach.
pub open spec fn kept_after_prune(stale: Seq<StaleRec>, target: u64, budget: int) -> Seq<StaleRec>
    decreases stale.len(),
{
    if stale.len() == 0 || budget <= 0 {
        stale
    } else if prunable(stale.first(), target) {
        kept_after_prune(stale.drop_first(), target, budget - 1)
    } else {
        seq![stale.first()] + kept_after_prune(stale.drop_first(), target, budget)
    }
}

/// The stale entries that one bounded pruning batch deletes.
pub open spec fn dropped_by_prune(stale: Seq<StaleRec>, target: u64, budget: int) -> Seq<StaleRec>
    decreases stale.len(),
{
    if stale.len() == 0 || budget <= 0 {
        Seq::empty()
    } else if prunable(stale.first(), target) {
        seq![stale.first()] + dropped_by_prune(stale.drop_first(), target, budget - 1)
    } else {
        dropped_by_prune(stale.drop_first(), target, budget)
    }
}

/// The record sequence with the one record for (key, version) removed.
pub open spec fn remove_record_spec(recs: Seq<Rec>, key: Seq<u8>, version: u64) -> Seq<Rec>
    decreases recs.len(),
{
    if recs.len() == 0 {
        recs
    } else {
        let rest = remove_record_spec(recs.drop_last(), key, version);
        if recs.last().key == key && recs.last().version == version {
            rest
        } else {
            rest.push(recs.last())
        }
    }
}

/// The record sequence with the record of each dropped entry removed.
pub open spec fn remove_records(recs: Seq<Rec>, dropped: Seq<StaleRec>) -> Seq<Rec>
    decreases dropped.len(),
{
    if dropped.len() == 0 {
        recs
    } else {
        remove_records(
            remove_record_spec(recs, dropped.first().state_key, dropped.first().version),
            dropped.drop_first(),
        )
    }
}

/// Removing one record keeps per-key ordering, and invents no record.
pub proof fn lemma_remove_record_spec_props(recs: Seq<Rec>, key: Seq<u8>, version: u64)
    requires
        records_ordered(recs),
    ensures
        records_ordered(remove_record_spec(recs, key, version)),
        forall|k: int|
            0 <= k < remove_record_spec(recs, key, version).len()
                ==> exists|j: int|
                    0 <= j < recs.len() && recs[j] == #[trigger] remove_record_spec(
                        recs,
                        key,
                        version,
                    )[k],
    decreases recs.len(),
{
    if recs.len() == 0 {
    } else {
        let rest0 = recs.drop_last();
        assert(forall|i: int| 0 <= i < rest0.len() ==> rest0[i] == recs[i]);
        lemma_remove_record_spec_props(rest0, key, version);
        let rest = remove_record_spec(rest0, key, version);
        let out = remove_record_spec(recs, key, version);
        if recs.last().key == key && recs.last().version == version {
            assert(out == rest);
        } else {
            assert(out == rest.push(recs.last()));
            let last = recs.len() - 1;
            assert(recs[last] == recs.last());
            assert forall|i: int, j: int|
                0 <= i < j < out.len() && out[i].key == out[j].key
                implies out[i].version < out[j].version by {
                if j == out.len() - 1 {
                    assert(out[j] == recs.last());
                    let w = choose|w: int| 0 <= w < rest0.len() && rest0[w] == rest[i];
                    assert(out[i] == recs[w]);
                    assert(recs[w].version < recs[last].version);
                } else {
                    assert(out[i] == rest[i] && out[j] == rest[j]);
                }
            }
        }
    }
}

/// Removing a batch of records keeps per-key ordering.
pub proof fn lemma_remove_records_ordered(recs: Seq<Rec>, dropped: Seq<StaleRec>)
    requires
        records_ordered(recs),
    ensures
        records_ordered(remove_records(recs, dropped)),
    decreases dropped.len(),
{
    if dropped.len() == 0 {
    } else {
        lemma_remove_record_spec_props(recs, dropped.first().state_key, dropped.first().version);
        lemma_remove_records_ordered(
            remove_record_spec(recs, dropped.first().state_key, dropped.first().version),
            dropped.drop_first(),
        );
    }
}

/// Appending one more dropped entry removes its record after the others.
pub proof fn lemma_remove_records_snoc(recs: Seq<Rec>, dropped: Seq<StaleRec>, e: StaleRec)
    ensures
        remove_records(recs, dropped.push(e))
            == remove_record_spec(remove_records(recs, dropped), e.state_key, e.version),
    decreases dropped.len(),
{
    if dropped.len() == 0 {
        assert(dropped.push(e).drop_first() =~= dropped);
        assert(dropped.push(e).first() == e);
        assert(remove_records(recs, dropped.push(e)) == remove_records(
            remove_record_spec(recs, e.state_key, e.version),
            dropped,
        ));
        assert(remove_records(remove_record_spec(recs, e.state_key, e.version), dropped)
            == remove_record_spec(recs, e.state_key, e.version));
        assert(remove_records(recs, dropped) == recs);
    } else {
        let head = dropped.first();
        let peeled = remove_record_spec(recs, head.state_key, head.version);
        assert(dropped.push(e).first() == head);
        assert(dropped.push(e).drop_first() =~= dropped.drop_first().push(e));
        assert(remove_records(recs, dropped.push(e)) == remove_records(
            peeled,
            dropped.drop_first().push(e),
        ));
        lemma_remove_records_snoc(peeled, dropped.drop_first(), e);
        assert(remove_records(recs, dropped) == remove_records(peeled, dropped.drop_first()));
    }
}

/// Law: a bounded pruning batch deletes only entries whose stale-since
/// version is at or below the target, and no more entries than its budget.
pub proof fn lemma_prune_respects_target(stale: Seq<StaleRec>, target: u64, budget: int)
    ensures
        forall|k: int|
            0 <= k < dropped_by_prune(stale, target, budget).len()
                ==> prunable(#[trigger] dropped_by_prune(stale, target, budget)[k], target),
        budget >= 0 ==> dropped_by_prune(stale, target, budget).len() <= budget,
    decreases stale.len(),
{
    if stale.len() == 0 {
    } else {
        lemma_prune_respects_target(stale.drop_first(), target, budget);
        lemma_prune_respects_target(stale.drop_first(), target, budget - 1);
    }
}

/// Law: a pruning batch that stops under its budget has finished the
/// scan: nothing prunable at the target is left in the index.
pub proof fn lemma_prune_complete_scan(stale: Seq<StaleRec>, target: u64, budget: int)
    ensures
        dropped_by_prune(stale, target, budget).len() < budget ==> forall|k: int|
            0 <= k < kept_after_prune(stale, target, budget).len() ==> !prunable(
                #[trigger] kept_after_prune(stale, target, budget)[k],
                target,
            ),
    decreases stale.len(),
{
    let kept = kept_after_prune(stale, target, budget);
    let dropped = dropped_by_prune(stale, target, budget);
    if stale.len() == 0 || budget <= 0 {
    } else {
        let head = stale.first();
        let rest = stale.drop_first();
        if prunable(head, target) {
            lemma_prune_complete_scan(rest, target, budget - 1);
            assert(dropped == seq![head] + dropped_by_prune(rest, target, budget - 1));
            assert(kept == kept_after_prune(rest, target, budget - 1));
            if dropped.len() < budget {
                assert(dropped_by_prune(rest, target, budget - 1).len() < budget - 1);
                assert forall|k: int| 0 <= k < kept.len() implies !prunable(
                    #[trigger] kept[k],
                    target,
                ) by {
                    assert(kept[k] == kept_after_prune(rest, target, budget - 1)[k]);
                }
            }
        } else {
            lemma_prune_complete_scan(rest, target, budget);
            let kept_rest = kept_after_prune(rest, target, budget);
            assert(kept == seq![head] + kept_rest);
            if dropped.len() < budget {
                assert forall|k: int| 0 <= k < kept.len() implies !prunable(
                    #[trigger] kept[k],
                    target,
                ) by {
                    if k > 0 {
                        assert(kept[k] == kept_rest[k - 1]);
                    }
                }
            }
        }
    }
}

/// Law: when no stale entry is at or below the target, a pruning batch
/// deletes nothing and keeps the index unchanged.
pub proof fn lemma_prune_noop(stale: Seq<StaleRec>, target: u64, budget: int)
    requires
        forall|k: int| 0 <= k < stale.len() ==> !prunable(#[trigger] stale[k], target),
    ensures
        dropped_by_prune(stale, target, budget) == Seq::<StaleRec>::empty(),
        kept_after_prune(stale, target, budget) == stale,
    decreases stale.len(),
{
    if stale.len() == 0 {
        assert(kept_after_prune(stale, target, budget) =~= stale);
    } else {
        assert(stale.first() == stale[0]);
        assert(forall|k: int| 0 <= k < stale.drop_first().len()
            ==> stale.drop_first()[k] == stale[k + 1]);
        lemma_prune_noop(stale.drop_first(), target, budget);
        assert(kept_after_prune(stale, target, budget)
            =~= seq![stale.first()] + stale.drop_first());
        assert(seq![stale.first()] + stale.drop_first() =~= stale);
    }
}

/// The versioned value store with its stale index.
pub struct StateStore {
    records: Vec<VersionedRecord>,
    stale: Vec<StaleStateValueIndex>,
}

impl StateStore {
    /// The store's records, as their model.
    pub closed spec fn recs(self) -> Seq<Rec> {
        recs_of(self.records@)
    }

    /// The store's stale index, as its model.
    pub closed spec fn stale_entries(self) -> Seq<StaleRec> {
        stales_of(self.stale@)
    }

    /// Well-formedness: per-key version ordering, stale-since versions
    /// ascending along the index, and every stale entry marks a version
    /// below the version that superseded it.
    pub open spec fn wf(self) -> bool {
        &&& records_ordered(self.recs())
        &&& ssv_ascending(self.stale_entries())
        &&& forall|k: int|
            0 <= k < self.stale_entries().len()
                ==> (#[trigger] self.stale_entries()[k]).version
                    < self.stale_entries()[k].stale_since_version
    }

    /// An empty store.
    pub fn new() -> (r: StateStore)
        ensures
            r.wf(),
            r.recs() == Seq::<Rec>::empty(),
            r.stale_entries() == Seq::<StaleRec>::empty(),
            stale_index_exact(r.recs(), r.stale_entries()),
    {
        let r = StateStore { records: Vec::new(), stale: Vec::new() };
        proof {
            assert(r.recs() =~= Seq::<Rec>::empty());
            assert(r.stale_entries() =~= Seq::<StaleRec>::empty());
        }
        r
    }

    /// How many records the store holds.
    pub fn record_count(&self) -> (r: usize)
        ensures
            r == self.recs().len(),
    {
        self.records.len()
    }

    /// How many stale-index entries the store holds.
    pub fn stale_count(&self) -> (r: usize)
        ensures
            r == self.stale_entries().len(),
    {
        self.stale.len()
    }

    /// The stale-index entry at a position.
    pub fn stale_at(&self, i: usize) -> (r: StaleStateValueIndex)
        requires
            i < self.stale_entries().len(),
        ensures
            stale_of(r) == self.stale_entries()[i as int],
    {
        self.stale[i].clone()
    }

    /// The version of the last record for `key`, scanned from the back.
    fn find_latest_version(&self, key: &StateKey) -> (r: Option<u64>)
        ensures
            r == latest_version(self.recs(), key@),
    {
        let mut i: usize = self.records.len();
        proof {
            assert(self.recs().take(i as int) =~= self.recs());
        }
        while i > 0
            invariant
                i <= self.recs().len(),
                latest_version(self.recs(), key@) == latest_version(
                    self.recs().take(i as int),
                    key@,
                ),
            decreases i,
        {
            let ghost prefix_len: int = i as int;
            if self.records[i - 1].key.equals(key) {
                proof {
                    let pre = self.recs().take(prefix_len);
                    assert(pre.last() == self.recs()[prefix_len - 1]);
                }
                return Some(self.records[i - 1].version);
            }
            proof {
                let pre = self.recs().take(prefix_len);
                assert(pre.last() == self.recs()[prefix_len - 1]);
                assert(pre.drop_last() =~= self.recs().take(prefix_len - 1));
            }
            i = i - 1;
        }
        proof {
            assert(self.recs().take(0) =~= Seq::<Rec>::empty());
        }
        None
    }

    /// Appends a new record. If a record for the same key already exists,
    /// the write supersedes it and a stale-index entry is emitted in the
    /// same step; reusing a committed version is refused.
    pub fn put(&mut self, key: StateKey, version: u64, value: StateValue) -> (r: Result<
        (),
        StateStoreError,
    >)
        requires
            old(self).wf(),
            forall|i: int|
                0 <= i < old(self).recs().len()
                    && (#[trigger] old(self).recs()[i]).key == key@
                    ==> old(self).recs()[i].version <= version,
            forall|k: int|
                0 <= k < old(self).stale_entries().len()
                    ==> (#[trigger] old(self).stale_entries()[k]).stale_since_version
                        <= version,
        ensures
            final(self).wf(),
            stale_index_exact(old(self).recs(), old(self).stale_entries()) ==> stale_index_exact(
                final(self).recs(),
                final(self).stale_entries(),
            ),
            match r {
                Ok(_) => {
                    &&& !has_version(old(self).recs(), key@, version)
                    &&& final(self).recs() == old(self).recs().push(
                        Rec { key: key@, version: version, value: value@ },
                    )
                    &&& match latest_version(old(self).recs(), key@) {
                        Some(v0) => final(self).stale_entries() == old(self).stale_entries().push(
                            StaleRec {
                                stale_since_version: version,
                                version: v0,
                                state_key: key@,
                            },
                        ),
                        None => final(self).stale_entries() == old(self).stale_entries(),
                    }
                },
                Err(e) => {
                    &&& e == StateStoreError::DuplicateVersion
                    &&& has_version(old(self).recs(), key@, version)
                    &&& final(self).recs() == old(self).recs()
                    &&& final(self).stale_entries() == old(self).stale_entries()
                },
            },
    {
        proof {
            lemma_latest_version_props(self.recs(), key@);
        }
        let prior = self.find_latest_version(&key);
        match prior {
            Some(v0) => {
                if v0 == version {
                    return Err(StateStoreError::DuplicateVersion);
                }
                proof {
                    assert(v0 < version);
                    assert(!has_version(self.recs(), key@, version)) by {
                        if has_version(self.recs(), key@, version) {
                            let i = choose|i: int|
                                0 <= i < self.recs().len() && self.recs()[i].key == key@
                                    && self.recs()[i].version == version;
                            assert(self.recs()[i].version <= v0);
                        }
                    }
                }
                let entry = StaleStateValueIndex {
                    stale_since_version: version,
                    version: v0,
                    state_key: key.clone(),
                };
                let ghost old_recs = self.recs();
                let ghost old_stale = self.stale_entries();
                self.stale.push(entry);
                self.records.push(VersionedRecord { key, version, value });
                proof {
                    assert(self.recs() =~= old_recs.push(
                        Rec { key: key@, version: version, value: value@ },
                    ));
                    assert(self.stale_entries() =~= old_stale.push(
                        StaleRec { stale_since_version: version, version: v0, state_key: key@ },
                    ));
                    assert(ssv_ascending(self.stale_entries())) by {
                        assert forall|m1: int, m2: int|
                            0 <= m1 < m2 < self.stale_entries().len()
                            implies (#[trigger] self.stale_entries()[m1]).stale_since_version
                                <= (#[trigger] self.stale_entries()[m2]).stale_since_version by {
                            if m2 == self.stale_entries().len() - 1 {
                                assert(old_stale[m1].stale_since_version <= version);
                            } else {
                                assert(self.stale_entries()[m1] == old_stale[m1]);
                                assert(self.stale_entries()[m2] == old_stale[m2]);
                            }
                        }
                    }
                    assert(records_ordered(self.recs())) by {
                        assert forall|i: int, j: int|
                            0 <= i < j < self.recs().len()
                                && self.recs()[i].key == self.recs()[j].key
                            implies self.recs()[i].version < self.recs()[j].version by {
                            if j == self.recs().len() - 1 {
                                assert(old_recs[i].version <= v0);
                            }
                        }
                    }
                    if stale_index_exact(old_recs, old_stale) {
                        lemma_put_preserves_exact(old_recs, old_stale, key@, version, value@);
                    }
                }
                Ok(())
            },
            None => {
                proof {
                    assert(!has_version(self.recs(), key@, version)) by {
                        if has_version(self.recs(), key@, version) {
                            let i = choose|i: int|
                                0 <= i < self.recs().len() && self.recs()[i].key == key@
                                    && self.recs()[i].version == version;
                            assert(self.recs()[i].key != key@);
                        }
                    }
                }
                let ghost old_recs = self.recs();
                let ghost old_stale = self.stale_entries();
                self.records.push(VersionedRecord { key, version, value });
                proof {
                    assert(self.recs() =~= old_recs.push(
                        Rec { key: key@, version: version, value: value@ },
                    ));
                    assert(self.stale_entries() =~= old_stale);
                    assert(records_ordered(self.recs())) by {
                        assert forall|i: int, j: int|
                            0 <= i < j < self.recs().len()
                                && self.recs()[i].key == self.recs()[j].key
                            implies self.recs()[i].version < self.recs()[j].version by {
                            if j == self.recs().len() - 1 {
                                assert(old_recs[i].key == key@);
                            }
                        }
                    }
                    if stale_index_exact(old_recs, old_stale) {
                        lemma_put_preserves_exact(old_recs, old_stale, key@, version, value@);
                    }
                }
                Ok(())
            },
        }
    }

    /// The value of `key` as of `version`, if any record answers.
    pub fn get(&self, key: &StateKey, version: u64) -> (r: Result<StateValue, StateStoreError>)
        ensures
            match r {
                Ok(v) => value_at(self.recs(), key@, version) == Some(v@),
                Err(e) => {
                    &&& e == StateStoreError::NotFound
                    &&& value_at(self.recs(), key@, version) is None
                },
            },
    {
        let mut i: usize = self.records.len();
        proof {
            assert(self.recs().take(i as int) =~= self.recs());
        }
        while i > 0
            invariant
                i <= self.recs().len(),
                value_at(self.recs(), key@, version) == value_at(
                    self.recs().take(i as int),
                    key@,
                    version,
                ),
            decreases i,
        {
            let ghost prefix_len: int = i as int;
            if self.records[i - 1].key.equals(key) && self.records[i - 1].version <= version {
                proof {
                    let pre = self.recs().take(prefix_len);
                    assert(pre.last() == self.recs()[prefix_len - 1]);
                }
                return Ok(self.records[i - 1].value.clone());
            }
            proof {
                let pre = self.recs().take(prefix_len);
                assert(pre.last() == self.recs()[prefix_len - 1]);
                assert(pre.drop_last() =~= self.recs().take(prefix_len - 1));
            }
            i = i - 1;
        }
        proof {
            assert(self.recs().take(0) =~= Seq::<Rec>::empty());
        }
        Err(StateStoreError::NotFound)
    }

    /// Removes the one record for (key, version), if present.
    fn remove_record(&mut self, key: &StateKey, version: u64)
        ensures
            final(self).recs() == remove_record_spec(old(self).recs(), key@, version),
            final(self).stale_entries() == old(self).stale_entries(),
    {
        let mut kept: Vec<VersionedRecord> = Vec::new();
        let mut source: Vec<VersionedRecord> = Vec::new();
        core::mem::swap(&mut source, &mut self.records);
        let mut i: usize = 0;
        while i < source.len()
            invariant
                i <= source@.len(),
                recs_of(kept@) == remove_record_spec(recs_of(source@).take(i as int), key@, version),
            decreases source@.len() - i,
        {
            let keep = !(source[i].key.equals(key) && source[i].version == version);
            proof {
                let all = recs_of(source@);
                let pre = all.take(i + 1 as int);
                assert(pre.last() == all[i as int]);
                assert(pre.drop_last() =~= all.take(i as int));
            }
            if keep {
                let rec = VersionedRecord {
                    key: source[i].key.clone(),
                    version: source[i].version,
                    value: source[i].value.clone(),
                };
                proof {
                    assert(rec_of(rec) == recs_of(source@)[i as int]);
                }
                kept.push(rec);
                proof {
                    assert(recs_of(kept@) =~= remove_record_spec(
                        recs_of(source@).take(i + 1 as int),
                        key@,
                        version,
                    ));
                }
            }
            i = i + 1;
        }
        proof {
            assert(recs_of(source@).take(source@.len() as int) =~= recs_of(source@));
        }
        self.records = kept;
    }

    /// Deletes up to `batch_size` prunable stale entries (front scan) and,
    /// with each entry, the record it marks. A batch that deletes nothing
    /// leaves the store unchanged.
    pub fn prune_stale(&mut self, target_version: u64, batch_size: usize) -> (n: usize)
        requires
            old(self).wf(),
        ensures
            final(self).wf(),
            n == dropped_by_prune(
                old(self).stale_entries(),
                target_version,
                batch_size as int,
            ).len(),
            final(self).stale_entries() == kept_after_prune(
                old(self).stale_entries(),
                target_version,
                batch_size as int,
            ),
            final(self).recs() == remove_records(
                old(self).recs(),
                dropped_by_prune(old(self).stale_entries(), target_version, batch_size as int),
            ),
            n <= batch_size,
            n < batch_size ==> forall|k: int|
                0 <= k < final(self).stale_entries().len()
                    ==> (#[trigger] final(self).stale_entries()[k]).stale_since_version
                        > target_version,
            stale_index_exact(old(self).recs(), old(self).stale_entries()) ==> stale_index_exact(
                final(self).recs(),
                final(self).stale_entries(),
            ),
    {
        let ghost orig_recs = self.recs();
        let ghost orig_stale = self.stale_entries();
        let mut source: Vec<StaleStateValueIndex> = Vec::new();
        core::mem::swap(&mut source, &mut self.stale);
        let mut kept: Vec<StaleStateValueIndex> = Vec::new();
        let mut n: usize = 0;
        let mut i: usize = 0;
        let ghost mut dropped_so_far: Seq<StaleRec> = Seq::empty();
        proof {
            assert(stales_of(source@) == orig_stale);
            assert(remove_records(orig_recs, dropped_so_far) == orig_recs);
        }
        proof {
            assert(self.stale_entries() =~= Seq::<StaleRec>::empty());
            assert(orig_stale.skip(0) =~= orig_stale);
            assert(stales_of(kept@) =~= Seq::<StaleRec>::empty());
            assert(stales_of(kept@) + kept_after_prune(orig_stale, target_version,
                batch_size as int) =~= kept_after_prune(orig_stale, target_version,
                batch_size as int));
            assert(dropped_so_far + dropped_by_prune(orig_stale, target_version,
                batch_size as int) =~= dropped_by_prune(orig_stale, target_version,
                batch_size as int));
        }
        while i < source.len() && n < batch_size
            invariant
                self.wf(),
                records_ordered(orig_recs),
                forall|k: int|
                    0 <= k < orig_stale.len()
                        ==> (#[trigger] orig_stale[k]).version
                            < orig_stale[k].stale_since_version,
                i <= source@.len(),
                n <= batch_size,
                n == dropped_so_far.len(),
                stales_of(source@) == orig_stale,
                kept_after_prune(orig_stale, target_version, batch_size as int)
                    == stales_of(kept@) + kept_after_prune(
                        orig_stale.skip(i as int),
                        target_version,
                        batch_size - n,
                    ),
                dropped_by_prune(orig_stale, target_version, batch_size as int)
                    == dropped_so_far + dropped_by_prune(
                        orig_stale.skip(i as int),
                        target_version,
                        batch_size - n,
                    ),
                self.recs() == remove_records(orig_recs, dropped_so_far),
                self.stale_entries() == Seq::<StaleRec>::empty(),
                forall|k: int|
                    0 <= k < stales_of(kept@).len()
                        ==> (#[trigger] stales_of(kept@)[k]).version
                            < stales_of(kept@)[k].stale_since_version,
                ssv_ascending(orig_stale),
                ssv_ascending(stales_of(kept@)),
                forall|k: int|
                    0 <= k < stales_of(kept@).len() && i < source@.len()
                        ==> (#[trigger] stales_of(kept@)[k]).stale_since_version
                            <= orig_stale[i as int].stale_since_version,
            decreases source@.len() - i,
        {
            let ghost suffix = orig_stale.skip(i as int);
            proof {
                assert(suffix.first() == orig_stale[i as int]);
                assert(suffix.drop_first() =~= orig_stale.skip(i + 1 as int));
            }
            let e = &source[i];
            if e.stale_since_version <= target_version {
                let drop_key = e.state_key.clone();
                let drop_version = e.version;
                proof {
                    assert(stale_of(source@[i as int]) == orig_stale[i as int]);
                    assert(prunable(suffix.first(), target_version));
                    lemma_remove_records_snoc(orig_recs, dropped_so_far, suffix.first());
                    dropped_so_far = dropped_so_far.push(suffix.first());
                }
                self.remove_record(&drop_key, drop_version);
                proof {
                    lemma_remove_records_ordered(orig_recs, dropped_so_far);
                }
                n = n + 1;
            } else {
                let entry = source[i].clone();
                let ghost old_kept = stales_of(kept@);
                proof {
                    assert(stale_of(entry) == orig_stale[i as int]);
                    assert(!prunable(suffix.first(), target_version));
                }
                kept.push(entry);
                proof {
                    assert(stales_of(kept@) =~= old_kept.push(orig_stale[i as int]));
                    assert(old_kept.push(orig_stale[i as int]) + kept_after_prune(
                        orig_stale.skip(i + 1 as int),
                        target_version,
                        batch_size - n,
                    ) =~= old_kept + (seq![suffix.first()] + kept_after_prune(
                        suffix.drop_first(),
                        target_version,
                        batch_size - n,
                    )));
                }
            }
            i = i + 1;
        }
        proof {
            // The scan stopped either at the end or with the budget spent;
            // either way the suffix is kept whole and nothing more drops.
            if i < source@.len() {
                assert(batch_size - n == 0);
                assert(kept_after_prune(orig_stale.skip(i as int), target_version, 0)
                    == orig_stale.skip(i as int));
                assert(dropped_by_prune(orig_stale.skip(i as int), target_version, 0)
                    =~= Seq::<StaleRec>::empty());
            } else {
                assert(orig_stale.skip(i as int) =~= Seq::<StaleRec>::empty());
                assert(kept_after_prune(orig_stale.skip(i as int), target_version,
                    batch_size - n) =~= orig_stale.skip(i as int));
                assert(dropped_by_prune(orig_stale.skip(i as int), target_version,
                    batch_size - n) =~= Seq::<StaleRec>::empty());
            }
            assert(dropped_by_prune(orig_stale, target_version, batch_size as int)
                =~= dropped_so_far);
        }
        // Keep whatever the scan did not reach.
        while i < source.len()
            invariant
                self.wf(),
                forall|k: int|
                    0 <= k < orig_stale.len()
                        ==> (#[trigger] orig_stale[k]).version
                            < orig_stale[k].stale_since_version,
                i <= source@.len(),
                n <= batch_size,
                stales_of(source@) == orig_stale,
                kept_after_prune(orig_stale, target_version, batch_size as int)
                    == stales_of(kept@) + orig_stale.skip(i as int),
                n == dropped_by_prune(orig_stale, target_version, batch_size as int).len(),
                self.recs() == remove_records(
                    orig_recs,
                    dropped_by_prune(orig_stale, target_version, batch_size as int),
                ),
                self.stale_entries() == Seq::<StaleRec>::empty(),
                forall|k: int|
                    0 <= k < stales_of(kept@).len()
                        ==> (#[trigger] stales_of(kept@)[k]).version
                            < stales_of(kept@)[k].stale_since_version,
                ssv_ascending(orig_stale),
                ssv_ascending(stales_of(kept@)),
                forall|k: int|
                    0 <= k < stales_of(kept@).len() && i < source@.len()
                        ==> (#[trigger] stales_of(kept@)[k]).stale_since_version
                            <= orig_stale[i as int].stale_since_version,
            decreases source@.len() - i,
        {
            let entry = source[i].clone();
            let ghost old_kept = stales_of(kept@);
            proof {
                assert(stale_of(entry) == orig_stale[i as int]);
                assert(orig_stale.skip(i as int).first() == orig_stale[i as int]);
                assert(orig_stale.skip(i as int).drop_first() =~= orig_stale.skip(i + 1 as int));
            }
            kept.push(entry);
            proof {
                assert(stales_of(kept@) =~= old_kept.push(orig_stale[i as int]));
                assert(old_kept.push(orig_stale[i as int]) + orig_stale.skip(i + 1 as int)
                    =~= old_kept + orig_stale.skip(i as int));
            }
            i = i + 1;
        }
        proof {
            assert(orig_stale.skip(source@.len() as int) =~= Seq::<StaleRec>::empty());
            assert(stales_of(kept@) + Seq::<StaleRec>::empty() =~= stales_of(kept@));
            if stale_index_exact(orig_recs, orig_stale) {
                lemma_prune_preserves_exact(
                    orig_recs,
                    orig_stale,
                    target_version,
                    batch_size as int,
                );
            }
            lemma_prune_complete_scan(orig_stale, target_version, batch_size as int);
        }
        self.stale = kept;
        n
    }
}

/// The model of one snapshot leaf: a key and the bytes it holds.
pub open spec fn kv_of(p: (StateKey, StateValue)) -> (Seq<u8>, Seq<u8>) {
    (p.0@, p.1@)
}

/// The model of a sequence of snapshot leaves.
pub open spec fn kvs_of(s: Seq<(StateKey, StateValue)>) -> Seq<(Seq<u8>, Seq<u8>)> {
    s.map_values(|p: (StateKey, StateValue)| kv_of(p))
}

/// The record at `i` answers a read at `version`: it is at or below the
/// version, and no later record for the same key is.
pub open spec fn live_at(recs: Seq<Rec>, i: int, version: u64) -> bool {
    &&& 0 <= i < recs.len()
    &&& recs[i].version <= version
    &&& !(exists|j: int|
        i < j < recs.len() && recs[j].key == recs[i].key && recs[j].version <= version)
}

/// The live records from position `i` on, in record order, as leaves.
pub open spec fn snapshot_from(recs: Seq<Rec>, i: int, version: u64) -> Seq<(Seq<u8>, Seq<u8>)>
    decreases recs.len() - i,
{
    if i < 0 || i >= recs.len() {
        Seq::empty()
    } else if live_at(recs, i, version) {
        seq![(recs[i].key, recs[i].value)] + snapshot_from(recs, i + 1, version)
    } else {
        snapshot_from(recs, i + 1, version)
    }
}

/// The full-state snapshot at `version`: one leaf per live key.
pub open spec fn snapshot_leaves(recs: Seq<Rec>, version: u64) -> Seq<(Seq<u8>, Seq<u8>)> {
    snapshot_from(recs, 0, version)
}

/// Whether some leaf carries `key`.
pub open spec fn snapshot_has_key(s: Seq<(Seq<u8>, Seq<u8>)>, key: Seq<u8>) -> bool {
    exists|k: int| 0 <= k < s.len() && s[k].0 == key
}

/// The leaf equals some live record at or after position `lo`.
pub open spec fn leaf_matches(recs: Seq<Rec>, version: u64, leaf: (Seq<u8>, Seq<u8>), lo: int) -> bool {
    exists|j: int|
        lo <= j < recs.len() && live_at(recs, j, version) && leaf == (recs[j].key, recs[j].value)
}

/// Law: every snapshot leaf is a live record, and no two leaves share a
/// key - the snapshot holds every live key exactly once.
pub proof fn lemma_snapshot_from_exact(recs: Seq<Rec>, i: int, version: u64)
    ensures
        forall|k: int|
            0 <= k < snapshot_from(recs, i, version).len()
                ==> leaf_matches(recs, version, #[trigger] snapshot_from(recs, i, version)[k], i),
        forall|k1: int, k2: int|
            0 <= k1 < k2 < snapshot_from(recs, i, version).len()
                ==> (#[trigger] snapshot_from(recs, i, version)[k1]).0
                    != (#[trigger] snapshot_from(recs, i, version)[k2]).0,
    decreases recs.len() - i,
{
    if i < 0 || i >= recs.len() {
    } else {
        lemma_snapshot_from_exact(recs, i + 1, version);
        let snap = snapshot_from(recs, i, version);
        let rest = snapshot_from(recs, i + 1, version);
        if live_at(recs, i, version) {
            assert(snap == seq![(recs[i].key, recs[i].value)] + rest);
            assert(snap[0] == (recs[i].key, recs[i].value));
            assert(forall|k: int| 1 <= k < snap.len() ==> snap[k] == rest[k - 1]);
            assert forall|k: int|
                0 <= k < snap.len()
                implies leaf_matches(recs, version, #[trigger] snap[k], i) by {
                if k == 0 {
                    assert(live_at(recs, i, version) && snap[0] == (recs[i].key, recs[i].value));
                } else {
                    assert(leaf_matches(recs, version, rest[k - 1], i + 1));
                    let j = choose|j: int|
                        i + 1 <= j < recs.len() && live_at(recs, j, version)
                            && rest[k - 1] == (recs[j].key, recs[j].value);
                    assert(i <= j < recs.len() && live_at(recs, j, version)
                        && snap[k] == (recs[j].key, recs[j].value));
                }
            }
            assert forall|k1: int, k2: int|
                0 <= k1 < k2 < snap.len()
                implies (snap[k1]).0 != (snap[k2]).0 by {
                if k1 == 0 {
                    assert(leaf_matches(recs, version, rest[k2 - 1], i + 1));
                    let j = choose|j: int|
                        i + 1 <= j < recs.len() && live_at(recs, j, version)
                            && rest[k2 - 1] == (recs[j].key, recs[j].value);
                    if recs[j].key == recs[i].key {
                        assert(i < j < recs.len() && recs[j].key == recs[i].key
                            && recs[j].version <= version);
                        assert(!live_at(recs, i, version));
                    }
                    assert(snap[k2] == rest[k2 - 1]);
                } else {
                    assert(snap[k1] == rest[k1 - 1] && snap[k2] == rest[k2 - 1]);
                    assert(rest[k1 - 1].0 != rest[k2 - 1].0);
                }
            }
        } else {
            assert(snap == rest);
            assert forall|k: int|
                0 <= k < snap.len()
                implies leaf_matches(recs, version, #[trigger] snap[k], i) by {
                assert(leaf_matches(recs, version, rest[k], i + 1));
                let j = choose|j: int|
                    i + 1 <= j < recs.len() && live_at(recs, j, version)
                        && rest[k] == (recs[j].key, recs[j].value);
                assert(i <= j < recs.len() && live_at(recs, j, version)
                    && snap[k] == (recs[j].key, recs[j].value));
            }
            assert forall|k1: int, k2: int|
                0 <= k1 < k2 < snap.len()
                implies (snap[k1]).0 != (snap[k2]).0 by {
                assert(rest[k1].0 != rest[k2].0);
            }
        }
    }
}

/// Law: every live record's key appears in the snapshot.
pub proof fn lemma_snapshot_from_complete(recs: Seq<Rec>, i: int, version: u64, j: int)
    requires
        0 <= i <= j < recs.len(),
        live_at(recs, j, version),
    ensures
        snapshot_has_key(snapshot_from(recs, i, version), recs[j].key),
    decreases j - i,
{
    let snap = snapshot_from(recs, i, version);
    if i == j {
        assert(snap[0] == (recs[i].key, recs[i].value));
        assert(snap[0].0 == recs[j].key);
    } else {
        lemma_snapshot_from_complete(recs, i + 1, version, j);
        let rest = snapshot_from(recs, i + 1, version);
        let k = choose|k: int| 0 <= k < rest.len() && rest[k].0 == recs[j].key;
        if live_at(recs, i, version) {
            assert(snap[k + 1] == rest[k]);
            assert(snap[k + 1].0 == recs[j].key);
        } else {
            assert(snap == rest);
            assert(snap[k].0 == recs[j].key);
        }
    }
}

impl StateStore {
    /// Whether a later record for the same key also answers at `version`.
    fn superseded_after(&self, i: usize, version: u64) -> (r: bool)
        requires
            i < self.recs().len(),
        ensures
            r == exists|j: int|
                i < j < self.recs().len() && (#[trigger] self.recs()[j]).key
                    == self.recs()[i as int].key && self.recs()[j].version <= version,
    {
        let n = self.records.len();
        proof {
            assert(self.recs().len() == self.records@.len());
            assert(i < n);
        }
        let mut j: usize = i + 1;
        while j < self.records.len()
            invariant
                i < j <= self.recs().len(),
                forall|m: int|
                    i < m < j ==> !((#[trigger] self.recs()[m]).key == self.recs()[i as int].key
                        && self.recs()[m].version <= version),
            decreases self.recs().len() - j,
        {
            if self.records[j].key.equals(&self.records[i].key)
                && self.records[j].version <= version {
                proof {
                    assert(self.recs()[j as int].key == self.recs()[i as int].key
                        && self.recs()[j as int].version <= version);
                }
                return true;
            }
            j = j + 1;
        }
        false
    }

    /// The live records at `version`, in record order.
    fn collect_live(&self, version: u64) -> (r: Vec<(StateKey, StateValue)>)
        ensures
            kvs_of(r@) == snapshot_leaves(self.recs(), version),
    {
        let mut out: Vec<(StateKey, StateValue)> = Vec::new();
        let mut i: usize = 0;
        proof {
            assert(kvs_of(out@) =~= Seq::<(Seq<u8>, Seq<u8>)>::empty());
            assert(kvs_of(out@) + snapshot_from(self.recs(), 0, version)
                =~= snapshot_from(self.recs(), 0, version));
        }
        while i < self.records.len()
            invariant
                i <= self.recs().len(),
                snapshot_leaves(self.recs(), version) == kvs_of(out@) + snapshot_from(
                    self.recs(),
                    i as int,
                    version,
                ),
            decreases self.recs().len() - i,
        {
            let too_new = self.records[i].version > version;
            let superseded = if too_new {
                false
            } else {
                self.superseded_after(i, version)
            };
            if !too_new && !superseded {
                proof {
                    assert(live_at(self.recs(), i as int, version));
                }
                let pair = (self.records[i].key.clone(), self.records[i].value.clone());
                let ghost old_out = kvs_of(out@);
                proof {
                    assert(kv_of(pair)
                        == (self.recs()[i as int].key, self.recs()[i as int].value));
                }
                out.push(pair);
                proof {
                    assert(kvs_of(out@) =~= old_out.push(
                        (self.recs()[i as int].key, self.recs()[i as int].value),
                    ));
                    assert(old_out.push((self.recs()[i as int].key, self.recs()[i as int].value))
                        + snapshot_from(self.recs(), i + 1 as int, version)
                        =~= old_out + (seq![(self.recs()[i as int].key,
                            self.recs()[i as int].value)] + snapshot_from(
                            self.recs(),
                            i + 1 as int,
                            version,
                        )));
                }
            } else {
                proof {
                    assert(!live_at(self.recs(), i as int, version));
                }
            }
            i = i + 1;
        }
        proof {
            assert(snapshot_from(self.recs(), self.recs().len() as int, version)
                =~= Seq::<(Seq<u8>, Seq<u8>)>::empty());
            assert(kvs_of(out@) + Seq::<(Seq<u8>, Seq<u8>)>::empty() =~= kvs_of(out@));
        }
        out
    }

    /// The snapshot at `version`: each live key with the value it held,
    /// in ascending hashed-key order.
    pub fn collect_snapshot(&self, version: u64) -> (r: Vec<(StateKey, StateValue)>)
        ensures
            kvs_of(r@) == sorted_snapshot(self.recs(), version),
            leaves_sorted(kvs_of(r@)),
    {
        let unsorted = self.collect_live(version);
        let ghost all = kvs_of(unsorted@);
        let mut acc: Vec<(StateKey, StateValue)> = Vec::new();
        let mut j: usize = unsorted.len();
        proof {
            assert(kvs_of(acc@) =~= Seq::<(Seq<u8>, Seq<u8>)>::empty());
            assert(all.skip(j as int) =~= Seq::<(Seq<u8>, Seq<u8>)>::empty());
        }
        while j > 0
            invariant
                j <= unsorted@.len(),
                all == kvs_of(unsorted@),
                kvs_of(acc@) == sort_leaves(all.skip(j as int)),
            decreases j,
        {
            j = j - 1;
            let x = (unsorted[j].0.clone(), unsorted[j].1.clone());
            proof {
                assert(kv_of(x) == all[j as int]);
                assert(all.skip(j as int).first() == all[j as int]);
                assert(all.skip(j as int).drop_first() =~= all.skip(j + 1 as int));
            }
            acc = insert_leaf(acc, x);
        }
        proof {
            assert(all.skip(0) =~= all);
            lemma_sort_leaves_props(all);
        }
        acc
    }
}

/// Whether `a` precedes `b` in the leaf order: by hashed key, ties by the
/// key bytes.
fn leaf_less(a: &(StateKey, StateValue), b: &(StateKey, StateValue)) -> (r: bool)
    ensures
        r == leaf_lt(kv_of(*a), kv_of(*b)),
{
    let ha = a.0.hash();
    let hb = b.0.hash();
    let ha_bytes = ha.to_vec();
    let hb_bytes = hb.to_vec();
    if order::bytes_less(&ha_bytes, &hb_bytes) {
        true
    } else if ha.equals(&hb) {
        order::bytes_less(a.0.bytes(), b.0.bytes())
    } else {
        false
    }
}

/// Places one leaf into an already ordered vector.
fn insert_leaf(sorted: Vec<(StateKey, StateValue)>, x: (StateKey, StateValue)) -> (r: Vec<
    (StateKey, StateValue),
>)
    ensures
        kvs_of(r@) == sorted_insert(kvs_of(sorted@), kv_of(x)),
{
    let ghost all = kvs_of(sorted@);
    let ghost xm = kv_of(x);
    let mut out: Vec<(StateKey, StateValue)> = Vec::new();
    let mut i: usize = 0;
    proof {
        assert(kvs_of(out@) =~= Seq::<(Seq<u8>, Seq<u8>)>::empty());
        assert(all.skip(0) =~= all);
        assert(kvs_of(out@) + sorted_insert(all, xm) =~= sorted_insert(all, xm));
    }
    while i < sorted.len() && !leaf_less(&x, &sorted[i])
        invariant
            i <= sorted@.len(),
            all == kvs_of(sorted@),
            xm == kv_of(x),
            sorted_insert(all, xm) == kvs_of(out@) + sorted_insert(all.skip(i as int), xm),
        decreases sorted@.len() - i,
    {
        let ghost suffix = all.skip(i as int);
        proof {
            assert(suffix.first() == all[i as int]);
            assert(suffix.drop_first() =~= all.skip(i + 1 as int));
        }
        let e = (sorted[i].0.clone(), sorted[i].1.clone());
        let ghost old_out = kvs_of(out@);
        proof {
            assert(kv_of(e) == all[i as int]);
        }
        out.push(e);
        proof {
            assert(kvs_of(out@) =~= old_out.push(all[i as int]));
            assert(old_out.push(all[i as int]) + sorted_insert(all.skip(i + 1 as int), xm)
                =~= old_out + (seq![suffix.first()] + sorted_insert(
                suffix.drop_first(),
                xm,
            )));
        }
        i = i + 1;
    }
    let ghost before_x = kvs_of(out@);
    proof {
        let suffix = all.skip(i as int);
        if i < sorted@.len() {
            assert(suffix.first() == all[i as int]);
            assert(sorted_insert(suffix, xm) == seq![xm] + suffix);
        } else {
            assert(suffix =~= Seq::<(Seq<u8>, Seq<u8>)>::empty());
            assert(sorted_insert(suffix, xm) == seq![xm]);
            assert(seq![xm] =~= seq![xm] + suffix);
        }
    }
    out.push(x);
    proof {
        assert(kvs_of(out@) =~= before_x.push(xm));
    }
    let mut k: usize = i;
    while k < sorted.len()
        invariant
            i <= k <= sorted@.len(),
            all == kvs_of(sorted@),
            xm == kv_of(x),
            sorted_insert(all, xm) == before_x + (seq![xm] + all.skip(i as int)),
            kvs_of(out@) == before_x + seq![xm] + all.subrange(i as int, k as int),
        decreases sorted@.len() - k,
    {
        let e = (sorted[k].0.clone(), sorted[k].1.clone());
        let ghost old_out = kvs_of(out@);
        proof {
            assert(kv_of(e) == all[k as int]);
        }
        out.push(e);
        proof {
            assert(kvs_of(out@) =~= old_out.push(all[k as int]));
            assert(old_out.push(all[k as int]) =~= before_x + seq![xm] + all.subrange(
                i as int,
                k + 1 as int,
            ));
        }
        k = k + 1;
    }
    proof {
        assert(all.subrange(i as int, sorted@.len() as int) =~= all.skip(i as int));
        assert(before_x + seq![xm] + all.skip(i as int) =~= before_x + (seq![xm] + all.skip(
            i as int,
        )));
        assert(kvs_of(out@) =~= before_x + seq![xm] + all.subrange(
            i as int,
            sorted@.len() as int,
        ));
    }
    out
}


/// Removing the record for one (key, version) pair leaves no record for
/// that pair, and touches no other pair.
pub proof fn lemma_remove_record_spec_exact(
    recs: Seq<Rec>,
    key: Seq<u8>,
    version: u64,
    key2: Seq<u8>,
    version2: u64,
)
    ensures
        !has_version(remove_record_spec(recs, key, version), key, version),
        !(key2 == key && version2 == version) ==> has_version(
            remove_record_spec(recs, key, version),
            key2,
            version2,
        ) == has_version(recs, key2, version2),
    decreases recs.len(),
{
    if recs.len() == 0 {
    } else {
        let rest0 = recs.drop_last();
        lemma_remove_record_spec_exact(rest0, key, version, key2, version2);
        let rest = remove_record_spec(rest0, key, version);
        let out = remove_record_spec(recs, key, version);
        assert(forall|i: int| 0 <= i < rest0.len() ==> rest0[i] == recs[i]);
        if recs.last().key == key && recs.last().version == version {
            assert(out == rest);
        } else {
            assert(out == rest.push(recs.last()));
            assert(forall|i: int| 0 <= i < rest.len() ==> out[i] == rest[i]);
            assert(out.last() == recs.last());
        }
        // Membership in the whole splits into the prefix and the last record.
        assert(has_version(recs, key2, version2) == (has_version(rest0, key2, version2)
            || (recs.last().key == key2 && recs.last().version == version2))) by {
            if has_version(recs, key2, version2) {
                let i = choose|i: int|
                    0 <= i < recs.len() && recs[i].key == key2 && recs[i].version == version2;
                if i < recs.len() - 1 {
                    assert(rest0[i] == recs[i]);
                }
            }
            if has_version(rest0, key2, version2) {
                let i = choose|i: int|
                    0 <= i < rest0.len() && rest0[i].key == key2 && rest0[i].version == version2;
                assert(recs[i] == rest0[i]);
            }
        }
        if !(recs.last().key == key && recs.last().version == version) {
            assert(has_version(out, key2, version2) == (has_version(rest, key2, version2)
                || (out.last().key == key2 && out.last().version == version2))) by {
                if has_version(out, key2, version2) {
                    let i = choose|i: int|
                        0 <= i < out.len() && out[i].key == key2 && out[i].version == version2;
                    if i < out.len() - 1 {
                        assert(rest[i] == out[i]);
                    }
                }
                if has_version(rest, key2, version2) {
                    let i = choose|i: int|
                        0 <= i < rest.len() && rest[i].key == key2 && rest[i].version
                            == version2;
                    assert(out[i] == rest[i]);
                }
            }
        }
    }
}

/// Law: a pruning batch deletes exactly the records its dropped entries
/// mark: after the batch, no dropped entry's record remains, and every
/// record not marked by a dropped entry is exactly as it was.
pub proof fn lemma_prune_removes_exactly_marked(
    recs: Seq<Rec>,
    dropped: Seq<StaleRec>,
    key: Seq<u8>,
    version: u64,
)
    ensures
        (exists|k: int|
            0 <= k < dropped.len() && (#[trigger] dropped[k]).state_key == key
                && dropped[k].version == version) ==> !has_version(
            remove_records(recs, dropped),
            key,
            version,
        ),
        (forall|k: int|
            0 <= k < dropped.len() ==> !((#[trigger] dropped[k]).state_key == key
                && dropped[k].version == version)) ==> has_version(
            remove_records(recs, dropped),
            key,
            version,
        ) == has_version(recs, key, version),
    decreases dropped.len(),
{
    if dropped.len() == 0 {
    } else {
        let head = dropped.first();
        let peeled = remove_record_spec(recs, head.state_key, head.version);
        lemma_remove_record_spec_exact(recs, head.state_key, head.version, key, version);
        lemma_prune_removes_exactly_marked(peeled, dropped.drop_first(), key, version);
        assert(forall|k: int|
            0 <= k < dropped.drop_first().len() ==> dropped.drop_first()[k] == dropped[k + 1]);
        if exists|k: int|
            0 <= k < dropped.len() && (#[trigger] dropped[k]).state_key == key
                && dropped[k].version == version {
            let k = choose|k: int|
                0 <= k < dropped.len() && (#[trigger] dropped[k]).state_key == key
                    && dropped[k].version == version;
            if k == 0 {
                // The head removes the record; later removals never put one back.
                lemma_remove_records_never_adds(peeled, dropped.drop_first(), key, version);
            } else {
                assert(dropped.drop_first()[k - 1] == dropped[k]);
            }
        }
    }
}

/// Removing records never adds one: a pair absent before a batch is
/// absent after it.
pub proof fn lemma_remove_records_never_adds(
    recs: Seq<Rec>,
    dropped: Seq<StaleRec>,
    key: Seq<u8>,
    version: u64,
)
    requires
        !has_version(recs, key, version),
    ensures
        !has_version(remove_records(recs, dropped), key, version),
    decreases dropped.len(),
{
    if dropped.len() == 0 {
    } else {
        let head = dropped.first();
        let peeled = remove_record_spec(recs, head.state_key, head.version);
        lemma_remove_record_spec_exact(recs, head.state_key, head.version, key, version);
        assert(!has_version(peeled, key, version)) by {
            if !(key == head.state_key && version == head.version) {
            }
        }
        lemma_remove_records_never_adds(peeled, dropped.drop_first(), key, version);
    }
}

/// Membership in a sequence extended by one record.
pub proof fn lemma_has_version_push(recs: Seq<Rec>, r: Rec, key: Seq<u8>, version: u64)
    ensures
        has_version(recs.push(r), key, version) == (has_version(recs, key, version) || (r.key
            == key && r.version == version)),
{
    if has_version(recs.push(r), key, version) {
        let i = choose|i: int|
            0 <= i < recs.push(r).len() && recs.push(r)[i].key == key && recs.push(r)[i].version
                == version;
        if i < recs.len() {
            assert(recs[i] == recs.push(r)[i]);
        }
    }
    if has_version(recs, key, version) {
        let i = choose|i: int|
            0 <= i < recs.len() && recs[i].key == key && recs[i].version == version;
        assert(recs.push(r)[i] == recs[i]);
    }
    if r.key == key && r.version == version {
        assert(recs.push(r)[recs.len() as int] == r);
    }
}

/// A stale-index entry is in order with respect to the records: the
/// record it marks exists, and so does a record at the very version that
/// superseded it.
pub open spec fn entry_sound(recs: Seq<Rec>, e: StaleRec) -> bool {
    &&& has_version(recs, e.state_key, e.version)
    &&& has_version(recs, e.state_key, e.stale_since_version)
}

/// The stale index is exact for the records: every entry marks an
/// existing, superseded record; no two entries mark the same record; and
/// every superseded record is marked by an entry.
pub open spec fn stale_index_exact(recs: Seq<Rec>, stale: Seq<StaleRec>) -> bool {
    &&& forall|m: int| 0 <= m < stale.len() ==> entry_sound(recs, #[trigger] stale[m])
    &&& forall|m1: int, m2: int|
        0 <= m1 < m2 < stale.len() ==> !((#[trigger] stale[m1]).state_key
            == (#[trigger] stale[m2]).state_key && stale[m1].version == stale[m2].version)
    &&& forall|k: Seq<u8>, v1: u64, v2: u64|
        #[trigger] has_version(recs, k, v1) && #[trigger] has_version(recs, k, v2) && v1 < v2
            ==> exists|m: int|
            0 <= m < stale.len() && (#[trigger] stale[m]).state_key == k && stale[m].version
                == v1
}

/// Law: a write keeps the stale index exact: the one entry it emits marks
/// exactly the record it supersedes, and no record becomes marked twice
/// or superseded without a mark.
pub proof fn lemma_put_preserves_exact(
    recs: Seq<Rec>,
    stale: Seq<StaleRec>,
    key: Seq<u8>,
    version: u64,
    value: Seq<u8>,
)
    requires
        records_ordered(recs),
        stale_index_exact(recs, stale),
        forall|k: int|
            0 <= k < stale.len() ==> (#[trigger] stale[k]).version
                < stale[k].stale_since_version,
        forall|i: int|
            0 <= i < recs.len() && (#[trigger] recs[i]).key == key ==> recs[i].version
                <= version,
        !has_version(recs, key, version),
    ensures
        latest_version(recs, key) matches Some(v0) ==> stale_index_exact(
            recs.push(Rec { key: key, version: version, value: value }),
            stale.push(StaleRec { stale_since_version: version, version: v0, state_key: key }),
        ),
        latest_version(recs, key) is None ==> stale_index_exact(
            recs.push(Rec { key: key, version: version, value: value }),
            stale,
        ),
{
    lemma_latest_version_props(recs, key);
    let new_rec = Rec { key: key, version: version, value: value };
    let recs2 = recs.push(new_rec);
    assert(forall|k: Seq<u8>, v: u64| #[trigger] has_version(recs2, k, v) == (has_version(
        recs,
        k,
        v,
    ) || (k == key && v == version))) by {
        assert forall|k: Seq<u8>, v: u64| #[trigger] has_version(recs2, k, v) == (has_version(
            recs,
            k,
            v,
        ) || (k == key && v == version)) by {
            lemma_has_version_push(recs, new_rec, k, v);
        }
    }
    if latest_version(recs, key) is Some {
        let v0 = latest_version(recs, key)->Some_0;
        assert(v0 < version) by {
            assert(v0 <= version);
            assert(has_version(recs, key, v0));
        }
        let e_new = StaleRec { stale_since_version: version, version: v0, state_key: key };
        let stale2 = stale.push(e_new);
        assert(forall|m: int| 0 <= m < stale.len() ==> stale2[m] == stale[m]);
        assert(stale2[stale.len() as int] == e_new);
        // Soundness: old entries keep their witnesses; the new entry marks
        // the superseded latest record, superseded by the new write.
        assert forall|m: int| 0 <= m < stale2.len() implies entry_sound(
            recs2,
            #[trigger] stale2[m],
        ) by {
            if m < stale.len() {
                let e = stale[m];
                assert(entry_sound(recs, e));
                assert(has_version(recs2, e.state_key, e.version));
                assert(has_version(recs2, e.state_key, e.stale_since_version));
            } else {
                assert(stale2[m] == e_new);
                assert(has_version(recs2, key, v0));
                assert(has_version(recs2, key, version));
            }
        }
        // Uniqueness: no old entry marks the latest record.
        assert forall|m1: int, m2: int|
            0 <= m1 < m2 < stale2.len()
            implies !((#[trigger] stale2[m1]).state_key == (#[trigger] stale2[m2]).state_key
                && stale2[m1].version == stale2[m2].version) by {
            if m2 == stale.len() {
                let e = stale[m1];
                if e.state_key == key && e.version == v0 {
                    assert(has_version(recs, e.state_key, e.stale_since_version));
                    assert(e.stale_since_version <= v0);
                    assert(e.version < e.stale_since_version);
                }
            }
        }
        // Completeness: a superseded pair is either the freshly superseded
        // latest record, or was superseded before and is already marked.
        assert forall|k: Seq<u8>, v1: u64, v2: u64|
            #[trigger] has_version(recs2, k, v1) && #[trigger] has_version(recs2, k, v2) && v1
                < v2
            implies exists|m: int|
                0 <= m < stale2.len() && (#[trigger] stale2[m]).state_key == k
                    && stale2[m].version == v1 by {
            if has_version(recs, k, v1) && has_version(recs, k, v2) {
                let m = choose|m: int|
                    0 <= m < stale.len() && (#[trigger] stale[m]).state_key == k
                        && stale[m].version == v1;
                assert(stale2[m] == stale[m]);
            } else if k == key && v2 == version && has_version(recs, k, v1) {
                if v1 == v0 {
                    assert(stale2[stale.len() as int] == e_new);
                } else {
                    assert(v1 <= v0);
                    let m = choose|m: int|
                        0 <= m < stale.len() && (#[trigger] stale[m]).state_key == k
                            && stale[m].version == v1;
                    assert(stale2[m] == stale[m]);
                }
            } else {
                assert(k == key && v1 == version);
                if has_version(recs, k, v2) {
                    assert(v2 <= v0);
                }
            }
        }
    } else {
        // The key was never written: the write supersedes nothing and no
        // pair with this key existed before.
        assert forall|m: int| 0 <= m < stale.len() implies entry_sound(
            recs2,
            #[trigger] stale[m],
        ) by {
            let e = stale[m];
            assert(entry_sound(recs, e));
            assert(has_version(recs2, e.state_key, e.version));
            assert(has_version(recs2, e.state_key, e.stale_since_version));
        }
        assert forall|k: Seq<u8>, v1: u64, v2: u64|
            #[trigger] has_version(recs2, k, v1) && #[trigger] has_version(recs2, k, v2) && v1
                < v2
            implies exists|m: int|
                0 <= m < stale.len() && (#[trigger] stale[m]).state_key == k && stale[m].version
                    == v1 by {
            if k == key {
                if has_version(recs, k, v1) {
                    let i = choose|i: int|
                        0 <= i < recs.len() && recs[i].key == k && recs[i].version == v1;
                    assert(recs[i].key != key);
                }
                if has_version(recs, k, v2) {
                    let i = choose|i: int|
                        0 <= i < recs.len() && recs[i].key == k && recs[i].version == v2;
                    assert(recs[i].key != key);
                }
            }
        }
    }
}

/// Whether two stale-index entries mark the same record.
pub open spec fn marks_same(a: StaleRec, b: StaleRec) -> bool {
    a.state_key == b.state_key && a.version == b.version
}

/// Whether `e` occurs in the entry sequence.
pub open spec fn entry_in(s: Seq<StaleRec>, e: StaleRec) -> bool {
    exists|i: int| 0 <= i < s.len() && s[i] == e
}

/// Law: one pruning batch splits the stale index cleanly: every kept and
/// every dropped entry comes from the index, every index entry lands on
/// one of the two sides, the kept side stays free of double marks, and no
/// record is marked on both sides.
pub proof fn lemma_prune_split(stale: Seq<StaleRec>, target: u64, budget: int)
    requires
        forall|m1: int, m2: int|
            0 <= m1 < m2 < stale.len() ==> !marks_same(
                #[trigger] stale[m1],
                #[trigger] stale[m2],
            ),
    ensures
        forall|m: int|
            0 <= m < kept_after_prune(stale, target, budget).len() ==> #[trigger] entry_in(
                stale,
                kept_after_prune(stale, target, budget)[m],
            ),
        forall|m: int|
            0 <= m < dropped_by_prune(stale, target, budget).len() ==> #[trigger] entry_in(
                stale,
                dropped_by_prune(stale, target, budget)[m],
            ),
        forall|idx: int|
            0 <= idx < stale.len() ==> entry_in(
                kept_after_prune(stale, target, budget),
                #[trigger] stale[idx],
            ) || entry_in(dropped_by_prune(stale, target, budget), stale[idx]),
        forall|m1: int, m2: int|
            0 <= m1 < m2 < kept_after_prune(stale, target, budget).len() ==> !marks_same(
                #[trigger] kept_after_prune(stale, target, budget)[m1],
                #[trigger] kept_after_prune(stale, target, budget)[m2],
            ),
        forall|m1: int, m2: int|
            0 <= m1 < kept_after_prune(stale, target, budget).len() && 0 <= m2
                < dropped_by_prune(stale, target, budget).len() ==> !marks_same(
                #[trigger] kept_after_prune(stale, target, budget)[m1],
                #[trigger] dropped_by_prune(stale, target, budget)[m2],
            ),
    decreases stale.len(),
{
    let kept = kept_after_prune(stale, target, budget);
    let dropped = dropped_by_prune(stale, target, budget);
    if stale.len() == 0 || budget <= 0 {
        assert(kept == stale);
        assert forall|m: int| 0 <= m < kept.len() implies #[trigger] entry_in(
            stale,
            kept[m],
        ) by {
            assert(0 <= m < stale.len() && stale[m] == kept[m]);
        }
        assert forall|idx: int| 0 <= idx < stale.len() implies entry_in(
            kept,
            #[trigger] stale[idx],
        ) || entry_in(dropped, stale[idx]) by {
            assert(0 <= idx < kept.len() && kept[idx] == stale[idx]);
            assert(entry_in(kept, stale[idx]));
        }
    } else {
        let head = stale.first();
        let rest = stale.drop_first();
        assert(head == stale[0]);
        assert(forall|m: int| 0 <= m < rest.len() ==> rest[m] == stale[m + 1]);
        let sub_budget: int = if prunable(head, target) {
            budget - 1
        } else {
            budget
        };
        lemma_prune_split(rest, target, sub_budget);
        let kept_rest = kept_after_prune(rest, target, sub_budget);
        let dropped_rest = dropped_by_prune(rest, target, sub_budget);
        // Anything that occurs in the remainder occurs in the whole.
        assert forall|e: StaleRec| entry_in(rest, e) implies #[trigger] entry_in(stale, e) by {
            let i = choose|i: int| 0 <= i < rest.len() && rest[i] == e;
            assert(stale[i + 1] == e);
        }
        // An entry of the remainder never marks what the head marks.
        assert forall|m: int|
            0 <= m < rest.len()
            implies !marks_same(head, #[trigger] rest[m]) by {
            assert(rest[m] == stale[m + 1]);
        }
        if prunable(head, target) {
            assert(kept == kept_rest);
            assert(dropped == seq![head] + dropped_rest);
            assert(dropped[0] == head);
            assert(forall|m: int| 1 <= m < dropped.len() ==> dropped[m] == dropped_rest[m - 1]);
            assert forall|m: int| 0 <= m < kept.len() implies #[trigger] entry_in(
                stale,
                kept[m],
            ) by {
                assert(entry_in(rest, kept_rest[m]));
            }
            assert forall|m: int| 0 <= m < dropped.len() implies #[trigger] entry_in(
                stale,
                dropped[m],
            ) by {
                if m == 0 {
                    assert(stale[0] == dropped[0]);
                } else {
                    assert(entry_in(rest, dropped_rest[m - 1]));
                }
            }
            assert forall|idx: int| 0 <= idx < stale.len() implies entry_in(
                kept,
                #[trigger] stale[idx],
            ) || entry_in(dropped, stale[idx]) by {
                if idx == 0 {
                    assert(dropped[0] == stale[0]);
                    assert(entry_in(dropped, stale[idx]));
                } else {
                    assert(stale[idx] == rest[idx - 1]);
                    if entry_in(kept_rest, rest[idx - 1]) {
                        assert(entry_in(kept, stale[idx]));
                    } else {
                        assert(entry_in(dropped_rest, rest[idx - 1]));
                        let m = choose|m: int|
                            0 <= m < dropped_rest.len() && dropped_rest[m] == rest[idx - 1];
                        assert(dropped[m + 1] == rest[idx - 1]);
                        assert(entry_in(dropped, stale[idx]));
                    }
                }
            }
            assert forall|m1: int, m2: int|
                0 <= m1 < kept.len() && 0 <= m2 < dropped.len()
                implies !marks_same(#[trigger] kept[m1], #[trigger] dropped[m2]) by {
                if m2 == 0 {
                    assert(entry_in(rest, kept_rest[m1]));
                    let idx = choose|idx: int|
                        0 <= idx < rest.len() && rest[idx] == kept_rest[m1];
                    assert(!marks_same(head, rest[idx]));
                } else {
                    assert(dropped[m2] == dropped_rest[m2 - 1]);
                }
            }
        } else {
            assert(kept == seq![head] + kept_rest);
            assert(dropped == dropped_rest);
            assert(kept[0] == head);
            assert(forall|m: int| 1 <= m < kept.len() ==> kept[m] == kept_rest[m - 1]);
            assert forall|m: int| 0 <= m < kept.len() implies #[trigger] entry_in(
                stale,
                kept[m],
            ) by {
                if m == 0 {
                    assert(stale[0] == kept[0]);
                } else {
                    assert(entry_in(rest, kept_rest[m - 1]));
                }
            }
            assert forall|m: int| 0 <= m < dropped.len() implies #[trigger] entry_in(
                stale,
                dropped[m],
            ) by {
                assert(entry_in(rest, dropped_rest[m]));
            }
            assert forall|idx: int| 0 <= idx < stale.len() implies entry_in(
                kept,
                #[trigger] stale[idx],
            ) || entry_in(dropped, stale[idx]) by {
                if idx == 0 {
                    assert(kept[0] == stale[0]);
                    assert(entry_in(kept, stale[idx]));
                } else {
                    assert(stale[idx] == rest[idx - 1]);
                    if entry_in(kept_rest, rest[idx - 1]) {
                        let m = choose|m: int|
                            0 <= m < kept_rest.len() && kept_rest[m] == rest[idx - 1];
                        assert(kept[m + 1] == rest[idx - 1]);
                        assert(entry_in(kept, stale[idx]));
                    } else {
                        assert(entry_in(dropped_rest, rest[idx - 1]));
                        assert(entry_in(dropped, stale[idx]));
                    }
                }
            }
            assert forall|m1: int, m2: int|
                0 <= m1 < m2 < kept.len()
                implies !marks_same(#[trigger] kept[m1], #[trigger] kept[m2]) by {
                if m1 == 0 {
                    assert(entry_in(rest, kept_rest[m2 - 1]));
                    let idx = choose|idx: int|
                        0 <= idx < rest.len() && rest[idx] == kept_rest[m2 - 1];
                    assert(!marks_same(head, rest[idx]));
                    assert(kept[m2] == kept_rest[m2 - 1]);
                } else {
                    assert(kept[m1] == kept_rest[m1 - 1] && kept[m2] == kept_rest[m2 - 1]);
                }
            }
            assert forall|m1: int, m2: int|
                0 <= m1 < kept.len() && 0 <= m2 < dropped.len()
                implies !marks_same(#[trigger] kept[m1], #[trigger] dropped[m2]) by {
                if m1 == 0 {
                    assert(entry_in(rest, dropped_rest[m2]));
                    let idx = choose|idx: int|
                        0 <= idx < rest.len() && rest[idx] == dropped_rest[m2];
                    assert(!marks_same(head, rest[idx]));
                } else {
                    assert(kept[m1] == kept_rest[m1 - 1]);
                }
            }
        }
    }
}

/// Removing records only removes: whatever exists afterwards existed
/// before.
pub proof fn lemma_remove_records_monotone(
    recs: Seq<Rec>,
    dropped: Seq<StaleRec>,
    key: Seq<u8>,
    version: u64,
)
    ensures
        has_version(remove_records(recs, dropped), key, version) ==> has_version(
            recs,
            key,
            version,
        ),
{
    lemma_prune_removes_exactly_marked(recs, dropped, key, version);
    if exists|k: int|
        0 <= k < dropped.len() && (#[trigger] dropped[k]).state_key == key
            && dropped[k].version == version {
    } else {
        assert(forall|k: int|
            0 <= k < dropped.len() ==> !((#[trigger] dropped[k]).state_key == key
                && dropped[k].version == version));
    }
}

/// Law: the bounded batch is a front scan: if it deletes an entry, it has
/// already deleted every prunable entry that stands earlier in the index.
pub proof fn lemma_prune_front_scan(stale: Seq<StaleRec>, target: u64, budget: int, p1: int, p2: int)
    requires
        forall|m1: int, m2: int|
            0 <= m1 < m2 < stale.len() ==> !marks_same(
                #[trigger] stale[m1],
                #[trigger] stale[m2],
            ),
        0 <= p1 < p2 < stale.len(),
        prunable(stale[p1], target),
        entry_in(dropped_by_prune(stale, target, budget), stale[p2]),
    ensures
        entry_in(dropped_by_prune(stale, target, budget), stale[p1]),
    decreases stale.len(),
{
    let dropped = dropped_by_prune(stale, target, budget);
    if budget <= 0 {
        assert(dropped =~= Seq::<StaleRec>::empty());
        let i = choose|i: int| 0 <= i < dropped.len() && dropped[i] == stale[p2];
        assert(false);
    } else {
        let head = stale.first();
        let rest = stale.drop_first();
        assert(head == stale[0]);
        assert(forall|m: int| 0 <= m < rest.len() ==> rest[m] == stale[m + 1]);
        assert(forall|m1: int, m2: int|
            0 <= m1 < m2 < rest.len() ==> !marks_same(
                #[trigger] rest[m1],
                #[trigger] rest[m2],
            ));
        if prunable(head, target) {
            let d_rest = dropped_by_prune(rest, target, budget - 1);
            assert(dropped == seq![head] + d_rest);
            assert(dropped[0] == head);
            assert(forall|m: int| 1 <= m < dropped.len() ==> dropped[m] == d_rest[m - 1]);
            if p1 == 0 {
                assert(dropped[0] == stale[0]);
            } else {
                let m = choose|m: int| 0 <= m < dropped.len() && dropped[m] == stale[p2];
                if m == 0 {
                    assert(marks_same(stale[0], stale[p2]));
                    assert(false);
                } else {
                    assert(d_rest[m - 1] == stale[p2]);
                    assert(rest[p2 - 1] == stale[p2]);
                    assert(entry_in(d_rest, rest[p2 - 1]));
                    lemma_prune_front_scan(rest, target, budget - 1, p1 - 1, p2 - 1);
                    let mm = choose|i: int| 0 <= i < d_rest.len() && d_rest[i] == rest[p1 - 1];
                    assert(dropped[mm + 1] == stale[p1]);
                }
            }
        } else {
            assert(p1 > 0);
            let d_rest = dropped_by_prune(rest, target, budget);
            assert(dropped == d_rest);
            assert(rest[p2 - 1] == stale[p2]);
            assert(entry_in(d_rest, rest[p2 - 1]));
            lemma_prune_front_scan(rest, target, budget, p1 - 1, p2 - 1);
            assert(rest[p1 - 1] == stale[p1]);
        }
    }
}

/// Law: a pruning batch keeps the stale index exact: afterwards every
/// kept entry still marks an existing, superseded record, no record is
/// marked twice, and every still-superseded record is still marked — an
/// entry leaves the index exactly when its record leaves the store.
pub proof fn lemma_prune_preserves_exact(
    recs: Seq<Rec>,
    stale: Seq<StaleRec>,
    target: u64,
    budget: int,
)
    requires
        records_ordered(recs),
        stale_index_exact(recs, stale),
        ssv_ascending(stale),
        forall|k: int|
            0 <= k < stale.len() ==> (#[trigger] stale[k]).version
                < stale[k].stale_since_version,
    ensures
        stale_index_exact(
            remove_records(recs, dropped_by_prune(stale, target, budget)),
            kept_after_prune(stale, target, budget),
        ),
{
    let kept = kept_after_prune(stale, target, budget);
    let dropped = dropped_by_prune(stale, target, budget);
    let recs2 = remove_records(recs, dropped);
    assert(forall|m1: int, m2: int|
        0 <= m1 < m2 < stale.len() ==> !marks_same(#[trigger] stale[m1], #[trigger] stale[m2]));
    lemma_prune_split(stale, target, budget);
    // Soundness: a kept entry's record is unmarked on the dropped side, so
    // it survives; the key's newest record is never marked at all, and is
    // the surviving witness that the record stays superseded.
    assert forall|m: int| 0 <= m < kept.len() implies entry_sound(
        recs2,
        #[trigger] kept[m],
    ) by {
        let e = kept[m];
        assert(entry_in(stale, e));
        let idx = choose|idx: int| 0 <= idx < stale.len() && stale[idx] == e;
        assert(entry_sound(recs, e));
        assert forall|m2: int| 0 <= m2 < dropped.len() implies !marks_same(
            e,
            #[trigger] dropped[m2],
        ) by {
            assert(!marks_same(kept[m], dropped[m2]));
        }
        assert(forall|m2: int|
            0 <= m2 < dropped.len() ==> !((#[trigger] dropped[m2]).state_key == e.state_key
                && dropped[m2].version == e.version));
        lemma_prune_removes_exactly_marked(recs, dropped, e.state_key, e.version);
        assert(has_version(recs2, e.state_key, e.version));
        // The record at the superseding version also survives: an entry
        // marking it would stand later in the index (stale-since versions
        // ascend), and the front scan would have deleted `e` first.
        lemma_prune_respects_target(stale, target, budget);
        assert forall|m2: int|
            0 <= m2 < dropped.len()
            implies !((#[trigger] dropped[m2]).state_key == e.state_key && dropped[m2].version
                == e.stale_since_version) by {
            if dropped[m2].state_key == e.state_key && dropped[m2].version
                == e.stale_since_version {
                let d = dropped[m2];
                assert(entry_in(stale, d));
                let idx_d = choose|i: int| 0 <= i < stale.len() && stale[i] == d;
                assert(d.version < d.stale_since_version);
                assert(e.stale_since_version < d.stale_since_version);
                assert(d != e);
                assert(idx != idx_d);
                if idx_d < idx {
                    assert(stale[idx_d].stale_since_version
                        <= stale[idx].stale_since_version);
                    assert(false);
                }
                assert(prunable(dropped_by_prune(stale, target, budget)[m2], target));
                assert(prunable(e, target));
                assert(entry_in(dropped, stale[idx_d]));
                lemma_prune_front_scan(stale, target, budget, idx, idx_d);
                assert(entry_in(dropped, stale[idx]));
                let md = choose|i: int| 0 <= i < dropped.len() && dropped[i] == e;
                assert(marks_same(kept[m], dropped[md]));
                assert(false);
            }
        }
        lemma_prune_removes_exactly_marked(recs, dropped, e.state_key, e.stale_since_version);
        assert(has_version(recs2, e.state_key, e.stale_since_version));
    }
    // Completeness: a pair superseded after the batch was superseded
    // before, its mark is an index entry, and that entry cannot be on the
    // dropped side, whose records are gone.
    assert forall|k: Seq<u8>, v1: u64, v2: u64|
        #[trigger] has_version(recs2, k, v1) && #[trigger] has_version(recs2, k, v2) && v1 < v2
        implies exists|m: int|
            0 <= m < kept.len() && (#[trigger] kept[m]).state_key == k && kept[m].version
                == v1 by {
        lemma_remove_records_monotone(recs, dropped, k, v1);
        lemma_remove_records_monotone(recs, dropped, k, v2);
        let m0 = choose|m0: int|
            0 <= m0 < stale.len() && (#[trigger] stale[m0]).state_key == k && stale[m0].version
                == v1;
        if entry_in(dropped, stale[m0]) {
            let m = choose|m: int| 0 <= m < dropped.len() && dropped[m] == stale[m0];
            lemma_prune_removes_exactly_marked(recs, dropped, k, v1);
            assert(!has_version(recs2, k, v1));
        } else {
            assert(entry_in(kept, stale[m0]));
            let m = choose|m: int| 0 <= m < kept.len() && kept[m] == stale[m0];
            assert(kept[m].state_key == k && kept[m].version == v1);
        }
    }
}

/// Order of two leaves: ascending by hashed key, ties broken by the key
/// bytes themselves (live keys are unique, so this orders a snapshot
/// totally).
pub open spec fn leaf_lt(a: (Seq<u8>, Seq<u8>), b: (Seq<u8>, Seq<u8>)) -> bool {
    ||| order::bytes_lt(hashing::key_hash_spec(a.0), hashing::key_hash_spec(b.0))
    ||| (hashing::key_hash_spec(a.0) == hashing::key_hash_spec(b.0) && order::bytes_lt(a.0, b.0))
}

/// The leaves stand in ascending hashed-key order.
pub open spec fn leaves_sorted(s: Seq<(Seq<u8>, Seq<u8>)>) -> bool {
    forall|i: int, j: int|
        0 <= i < j < s.len() ==> leaf_lt(#[trigger] s[i], #[trigger] s[j]) || s[i].0 == s[j].0
}

/// No two leaves carry the same key.
pub open spec fn keys_distinct(s: Seq<(Seq<u8>, Seq<u8>)>) -> bool {
    forall|i: int, j: int| 0 <= i < j < s.len() ==> (#[trigger] s[i]).0 != (#[trigger] s[j]).0
}

/// Whether `e` occurs among the leaves.
pub open spec fn in_leaves(s: Seq<(Seq<u8>, Seq<u8>)>, e: (Seq<u8>, Seq<u8>)) -> bool {
    exists|k: int| 0 <= k < s.len() && s[k] == e
}

/// The leaf order is total over distinct keys.
pub proof fn lemma_leaf_lt_total(a: (Seq<u8>, Seq<u8>), b: (Seq<u8>, Seq<u8>))
    ensures
        leaf_lt(a, b) || leaf_lt(b, a) || a.0 == b.0,
{
    order::lemma_bytes_lt_total(hashing::key_hash_spec(a.0), hashing::key_hash_spec(b.0));
    if hashing::key_hash_spec(a.0) == hashing::key_hash_spec(b.0) {
        order::lemma_bytes_lt_total(a.0, b.0);
    }
}

/// The leaf order is transitive.
pub proof fn lemma_leaf_lt_trans(
    a: (Seq<u8>, Seq<u8>),
    b: (Seq<u8>, Seq<u8>),
    c: (Seq<u8>, Seq<u8>),
)
    requires
        leaf_lt(a, b),
        leaf_lt(b, c),
    ensures
        leaf_lt(a, c),
{
    let ha = hashing::key_hash_spec(a.0);
    let hb = hashing::key_hash_spec(b.0);
    let hc = hashing::key_hash_spec(c.0);
    if order::bytes_lt(ha, hb) && order::bytes_lt(hb, hc) {
        order::lemma_bytes_lt_trans(ha, hb, hc);
    } else if ha == hb && hb == hc {
        order::lemma_bytes_lt_trans(a.0, b.0, c.0);
    }
}

/// A leaf placed into an already ordered sequence, before the first leaf
/// it precedes.
pub open spec fn sorted_insert(s: Seq<(Seq<u8>, Seq<u8>)>, x: (Seq<u8>, Seq<u8>)) -> Seq<
    (Seq<u8>, Seq<u8>),
>
    decreases s.len(),
{
    if s.len() == 0 {
        seq![x]
    } else if leaf_lt(x, s.first()) {
        seq![x] + s
    } else {
        seq![s.first()] + sorted_insert(s.drop_first(), x)
    }
}

/// The leaves rearranged into ascending hashed-key order.
pub open spec fn sort_leaves(s: Seq<(Seq<u8>, Seq<u8>)>) -> Seq<(Seq<u8>, Seq<u8>)>
    decreases s.len(),
{
    if s.len() == 0 {
        s
    } else {
        sorted_insert(sort_leaves(s.drop_first()), s.first())
    }
}

/// The full-state snapshot at `version`, in ascending hashed-key order.
pub open spec fn sorted_snapshot(recs: Seq<Rec>, version: u64) -> Seq<(Seq<u8>, Seq<u8>)> {
    sort_leaves(snapshot_leaves(recs, version))
}

/// Placing one leaf keeps the order, the elements and their keys.
pub proof fn lemma_sorted_insert_props(s: Seq<(Seq<u8>, Seq<u8>)>, x: (Seq<u8>, Seq<u8>))
    ensures
        sorted_insert(s, x).len() == s.len() + 1,
        forall|k: int|
            0 <= k < sorted_insert(s, x).len() ==> #[trigger] sorted_insert(s, x)[k] == x
                || in_leaves(s, sorted_insert(s, x)[k]),
        in_leaves(sorted_insert(s, x), x),
        forall|idx: int| 0 <= idx < s.len() ==> in_leaves(sorted_insert(s, x), #[trigger] s[idx]),
        leaves_sorted(s) ==> leaves_sorted(sorted_insert(s, x)),
        keys_distinct(s) && (forall|k: int| 0 <= k < s.len() ==> (#[trigger] s[k]).0 != x.0)
            ==> keys_distinct(sorted_insert(s, x)),
    decreases s.len(),
{
    let out = sorted_insert(s, x);
    if s.len() == 0 {
        assert(out == seq![x]);
        assert(out[0] == x);
    } else if leaf_lt(x, s.first()) {
        assert(out == seq![x] + s);
        assert(out[0] == x);
        assert(forall|k: int| 1 <= k < out.len() ==> out[k] == s[k - 1]);
        assert forall|idx: int| 0 <= idx < s.len() implies in_leaves(
            out,
            #[trigger] s[idx],
        ) by {
            assert(out[idx + 1] == s[idx]);
        }
        if leaves_sorted(s) {
            assert forall|i: int, j: int|
                0 <= i < j < out.len()
                implies leaf_lt(#[trigger] out[i], #[trigger] out[j]) || out[i].0
                    == out[j].0 by {
                if i == 0 {
                    if j == 1 {
                    } else {
                        let sj = s[j - 1];
                        if leaf_lt(s.first(), sj) {
                            lemma_leaf_lt_trans(x, s.first(), sj);
                        } else if s.first().0 == sj.0 {
                            assert(hashing::key_hash_spec(s.first().0)
                                == hashing::key_hash_spec(sj.0));
                            assert(leaf_lt(x, sj));
                        }
                    }
                } else {
                    assert(out[i] == s[i - 1] && out[j] == s[j - 1]);
                }
            }
        }
    } else {
        let rest = s.drop_first();
        lemma_sorted_insert_props(rest, x);
        let rest_ins = sorted_insert(rest, x);
        assert(out == seq![s.first()] + rest_ins);
        assert(out[0] == s.first());
        assert(forall|k: int| 1 <= k < out.len() ==> out[k] == rest_ins[k - 1]);
        assert(forall|m: int| 0 <= m < rest.len() ==> rest[m] == s[m + 1]);
        assert forall|e: (Seq<u8>, Seq<u8>)| in_leaves(rest, e) implies #[trigger] in_leaves(
            s,
            e,
        ) by {
            let m = choose|m: int| 0 <= m < rest.len() && rest[m] == e;
            assert(s[m + 1] == e);
        }
        assert forall|k: int|
            0 <= k < out.len()
            implies #[trigger] out[k] == x || in_leaves(s, out[k]) by {
            if k == 0 {
                assert(out[0] == s[0]);
            } else {
                assert(out[k] == rest_ins[k - 1]);
            }
        }
        assert(in_leaves(rest_ins, x));
        assert forall|idx: int| 0 <= idx < s.len() implies in_leaves(
            out,
            #[trigger] s[idx],
        ) by {
            if idx == 0 {
                assert(out[0] == s[0]);
            } else {
                assert(in_leaves(rest_ins, rest[idx - 1]));
                let m = choose|m: int| 0 <= m < rest_ins.len() && rest_ins[m] == rest[idx - 1];
                assert(out[m + 1] == s[idx]);
            }
        }
        let m_x = choose|m: int| 0 <= m < rest_ins.len() && rest_ins[m] == x;
        assert(out[m_x + 1] == x);
        if leaves_sorted(s) {
            assert(leaves_sorted(rest));
            assert forall|i: int, j: int|
                0 <= i < j < out.len()
                implies leaf_lt(#[trigger] out[i], #[trigger] out[j]) || out[i].0
                    == out[j].0 by {
                if i == 0 {
                    let e = rest_ins[j - 1];
                    assert(out[j] == e);
                    if e == x {
                        lemma_leaf_lt_total(x, s.first());
                    } else {
                        assert(in_leaves(rest, e));
                        let m = choose|m: int| 0 <= m < rest.len() && rest[m] == e;
                        assert(s[m + 1] == e);
                    }
                } else {
                    assert(out[i] == rest_ins[i - 1] && out[j] == rest_ins[j - 1]);
                }
            }
        }
        if keys_distinct(s) && (forall|k: int| 0 <= k < s.len() ==> (#[trigger] s[k]).0 != x.0) {
            assert(keys_distinct(rest));
            assert(forall|k: int| 0 <= k < rest.len() ==> (#[trigger] rest[k]).0 != x.0);
            assert forall|i: int, j: int|
                0 <= i < j < out.len()
                implies (#[trigger] out[i]).0 != (#[trigger] out[j]).0 by {
                if i == 0 {
                    let e = rest_ins[j - 1];
                    assert(out[j] == e);
                    if e == x {
                        assert(s[0].0 != x.0);
                    } else {
                        assert(in_leaves(rest, e));
                        let m = choose|m: int| 0 <= m < rest.len() && rest[m] == e;
                        assert(s[0].0 != s[m + 1].0);
                    }
                } else {
                    assert(out[i] == rest_ins[i - 1] && out[j] == rest_ins[j - 1]);
                }
            }
        }
    }
}

/// Sorting keeps the leaves and their keys, and delivers the order.
pub proof fn lemma_sort_leaves_props(s: Seq<(Seq<u8>, Seq<u8>)>)
    ensures
        sort_leaves(s).len() == s.len(),
        forall|k: int|
            0 <= k < sort_leaves(s).len() ==> in_leaves(s, #[trigger] sort_leaves(s)[k]),
        forall|idx: int| 0 <= idx < s.len() ==> in_leaves(sort_leaves(s), #[trigger] s[idx]),
        leaves_sorted(sort_leaves(s)),
        keys_distinct(s) ==> keys_distinct(sort_leaves(s)),
    decreases s.len(),
{
    if s.len() == 0 {
    } else {
        let rest = s.drop_first();
        lemma_sort_leaves_props(rest);
        let sr = sort_leaves(rest);
        lemma_sorted_insert_props(sr, s.first());
        let out = sort_leaves(s);
        assert(out == sorted_insert(sr, s.first()));
        assert(forall|m: int| 0 <= m < rest.len() ==> rest[m] == s[m + 1]);
        assert forall|e: (Seq<u8>, Seq<u8>)| in_leaves(rest, e) implies #[trigger] in_leaves(
            s,
            e,
        ) by {
            let m = choose|m: int| 0 <= m < rest.len() && rest[m] == e;
            assert(s[m + 1] == e);
        }
        assert forall|k: int| 0 <= k < out.len() implies in_leaves(s, #[trigger] out[k]) by {
            if out[k] == s.first() {
                assert(s[0] == out[k]);
            } else {
                assert(in_leaves(sr, out[k]));
                let m = choose|m: int| 0 <= m < sr.len() && sr[m] == out[k];
                assert(in_leaves(rest, sr[m]));
            }
        }
        assert forall|idx: int| 0 <= idx < s.len() implies in_leaves(
            out,
            #[trigger] s[idx],
        ) by {
            if idx == 0 {
                assert(in_leaves(out, s.first()));
            } else {
                assert(in_leaves(sr, rest[idx - 1]));
                let m = choose|m: int| 0 <= m < sr.len() && sr[m] == rest[idx - 1];
                assert(in_leaves(out, sr[m]));
            }
        }
        if keys_distinct(s) {
            assert(keys_distinct(rest));
            assert forall|k: int|
                0 <= k < sr.len()
                implies (#[trigger] sr[k]).0 != s.first().0 by {
                assert(in_leaves(rest, sr[k]));
                let m = choose|m: int| 0 <= m < rest.len() && rest[m] == sr[k];
                assert(s[0].0 != s[m + 1].0);
            }
        }
    }
}

/// Under the leaf order, hashed keys ascend with position.
pub proof fn lemma_sorted_hash_le(s: Seq<(Seq<u8>, Seq<u8>)>, i: int, j: int)
    requires
        leaves_sorted(s),
        0 <= i <= j < s.len(),
    ensures
        order::bytes_le(hashing::key_hash_spec(s[i].0), hashing::key_hash_spec(s[j].0)),
{
    if i < j {
        assert(leaf_lt(s[i], s[j]) || s[i].0 == s[j].0);
    }
}

/// Law: the sorted snapshot is in ascending hashed-key order, holds one
/// leaf for each live key and none besides, each with the value the key
/// held at the version.
pub proof fn lemma_sorted_snapshot_exact(recs: Seq<Rec>, version: u64)
    ensures
        leaves_sorted(sorted_snapshot(recs, version)),
        forall|k: int|
            0 <= k < sorted_snapshot(recs, version).len() ==> leaf_matches(
                recs,
                version,
                #[trigger] sorted_snapshot(recs, version)[k],
                0,
            ),
        keys_distinct(sorted_snapshot(recs, version)),
        forall|j: int|
            0 <= j < recs.len() && live_at(recs, j, version) ==> snapshot_has_key(
                sorted_snapshot(recs, version),
                (#[trigger] recs[j]).key,
            ),
{
    let snap = snapshot_leaves(recs, version);
    let out = sorted_snapshot(recs, version);
    lemma_snapshot_from_exact(recs, 0, version);
    lemma_sort_leaves_props(snap);
    assert(keys_distinct(snap));
    assert forall|k: int| 0 <= k < out.len() implies leaf_matches(
        recs,
        version,
        #[trigger] out[k],
        0,
    ) by {
        assert(in_leaves(snap, out[k]));
        let m = choose|m: int| 0 <= m < snap.len() && snap[m] == out[k];
        assert(leaf_matches(recs, version, snap[m], 0));
    }
    assert forall|j: int|
        0 <= j < recs.len() && live_at(recs, j, version)
        implies snapshot_has_key(out, (#[trigger] recs[j]).key) by {
        lemma_snapshot_from_complete(recs, 0, version, j);
        let k = choose|k: int| 0 <= k < snap.len() && snap[k].0 == recs[j].key;
        assert(in_leaves(out, snap[k]));
        let m = choose|m: int| 0 <= m < out.len() && out[m] == snap[k];
        assert(out[m].0 == recs[j].key);
    }
}

/// Whether the full record `r` occurs in the sequence.
pub open spec fn rec_in(recs: Seq<Rec>, r: Rec) -> bool {
    exists|i: int| 0 <= i < recs.len() && recs[i] == r
}

/// A pruning batch only ever removes records that were there.
pub proof fn lemma_remove_records_members(recs: Seq<Rec>, dropped: Seq<StaleRec>)
    requires
        records_ordered(recs),
    ensures
        forall|k: int|
            0 <= k < remove_records(recs, dropped).len() ==> rec_in(
                recs,
                #[trigger] remove_records(recs, dropped)[k],
            ),
    decreases dropped.len(),
{
    if dropped.len() == 0 {
        assert forall|k: int|
            0 <= k < remove_records(recs, dropped).len()
            implies rec_in(recs, #[trigger] remove_records(recs, dropped)[k]) by {
            assert(remove_records(recs, dropped)[k] == recs[k]);
        }
    } else {
        let head = dropped.first();
        let peeled = remove_record_spec(recs, head.state_key, head.version);
        lemma_remove_record_spec_props(recs, head.state_key, head.version);
        lemma_remove_records_ordered(recs, seq![head]);
        assert(records_ordered(peeled)) by {
            lemma_remove_record_spec_props(recs, head.state_key, head.version);
        }
        lemma_remove_records_members(peeled, dropped.drop_first());
        let out = remove_records(recs, dropped);
        assert(out == remove_records(peeled, dropped.drop_first()));
        assert forall|k: int| 0 <= k < out.len() implies rec_in(recs, #[trigger] out[k]) by {
            assert(rec_in(peeled, out[k]));
            let m = choose|m: int| 0 <= m < peeled.len() && peeled[m] == out[k];
            let j = choose|j: int| 0 <= j < recs.len() && recs[j] == peeled[m];
        }
    }
}

/// Law: pruning never changes a read at or above the prune target: the
/// value of every key at every such version is the same before and after
/// a batch, whatever the batch budget.
pub proof fn lemma_prune_preserves_reads(
    recs: Seq<Rec>,
    stale: Seq<StaleRec>,
    target: u64,
    budget: int,
    key: Seq<u8>,
    version: u64,
)
    requires
        records_ordered(recs),
        stale_index_exact(recs, stale),
        forall|k: int|
            0 <= k < stale.len() ==> (#[trigger] stale[k]).version
                < stale[k].stale_since_version,
        target <= version,
    ensures
        value_at(remove_records(recs, dropped_by_prune(stale, target, budget)), key, version)
            == value_at(recs, key, version),
{
    let dropped = dropped_by_prune(stale, target, budget);
    let recs2 = remove_records(recs, dropped);
    assert(forall|m1: int, m2: int|
        0 <= m1 < m2 < stale.len() ==> !marks_same(#[trigger] stale[m1], #[trigger] stale[m2]));
    lemma_prune_split(stale, target, budget);
    lemma_prune_respects_target(stale, target, budget);
    lemma_remove_records_ordered(recs, dropped);
    lemma_remove_records_members(recs, dropped);
    lemma_value_at_is_latest_write(recs, key, version);
    lemma_value_at_is_latest_write(recs2, key, version);
    if value_at(recs, key, version) is Some {
        let b = value_at(recs, key, version)->Some_0;
        let i = choose|i: int|
            0 <= i < recs.len() && recs[i].key == key && recs[i].version <= version
                && recs[i].value == b
                && (forall|j: int|
                    0 <= j < recs.len() && recs[j].key == key && recs[j].version <= version
                        ==> recs[j].version <= recs[i].version);
        let vi = recs[i].version;
        // The answering record is not marked by any dropped entry: a mark
        // would name a superseding record at or below the target, hence at
        // or below the read version, above the answering one - against its
        // maximality.
        assert forall|m2: int|
            0 <= m2 < dropped.len()
            implies !((#[trigger] dropped[m2]).state_key == key && dropped[m2].version
                == vi) by {
            if dropped[m2].state_key == key && dropped[m2].version == vi {
                let d = dropped[m2];
                assert(entry_in(stale, d));
                let idx_d = choose|x: int| 0 <= x < stale.len() && stale[x] == d;
                assert(entry_sound(recs, stale[idx_d]));
                assert(has_version(recs, key, d.stale_since_version));
                assert(prunable(dropped_by_prune(stale, target, budget)[m2], target));
                let j = choose|j: int|
                    0 <= j < recs.len() && recs[j].key == key && recs[j].version
                        == d.stale_since_version;
                assert(recs[j].version <= version);
                assert(recs[j].version <= vi);
                assert(d.version < d.stale_since_version);
                assert(false);
            }
        }
        lemma_prune_removes_exactly_marked(recs, dropped, key, vi);
        assert(has_version(recs2, key, vi));
        if value_at(recs2, key, version) is None {
            let j2 = choose|j: int|
                0 <= j < recs2.len() && recs2[j].key == key && recs2[j].version == vi;
            assert(recs2[j2].version > version);
            assert(false);
        }
        let b2 = value_at(recs2, key, version)->Some_0;
        let i2 = choose|x: int|
            0 <= x < recs2.len() && recs2[x].key == key && recs2[x].version <= version
                && recs2[x].value == b2
                && (forall|j: int|
                    0 <= j < recs2.len() && recs2[j].key == key && recs2[j].version <= version
                        ==> recs2[j].version <= recs2[x].version);
        let j3 = choose|j: int|
            0 <= j < recs2.len() && recs2[j].key == key && recs2[j].version == vi;
        assert(recs2[j3].version <= recs2[i2].version);
        assert(rec_in(recs, recs2[i2]));
        let j4 = choose|j: int| 0 <= j < recs.len() && recs[j] == recs2[i2];
        assert(recs[j4].version <= vi);
        assert(recs2[i2].version == vi);
        assert(recs[j4] == recs2[i2]);
        if j4 != i {
            assert(recs[j4].key == recs[i].key && recs[j4].version == recs[i].version);
            if j4 < i {
                assert(recs[j4].version < recs[i].version);
            } else {
                assert(recs[i].version < recs[j4].version);
            }
            assert(false);
        }
        assert(b2 == b);
    } else {
        if value_at(recs2, key, version) is Some {
            let b2 = value_at(recs2, key, version)->Some_0;
            let i2 = choose|x: int|
                0 <= x < recs2.len() && recs2[x].key == key && recs2[x].version <= version
                    && recs2[x].value == b2;
            assert(rec_in(recs, recs2[i2]));
            let j4 = choose|j: int| 0 <= j < recs.len() && recs[j] == recs2[i2];
            assert(recs[j4].version > version);
            assert(false);
        }
    }
}

} // verus!
