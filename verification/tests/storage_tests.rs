//! End-to-end tests of the versioned state storage: reads at versions,
//! the stale index, pruning cycles, chunk proofs and the wire form.

use state_store::StateStoreError;
use state_store::state_value::{StateKey, StateValue};
use state_store::storage::StateStorage;
use state_store::pruner::{LedgerStoreKind, create_ledger_pruner, create_state_pruner};

fn key(bytes: &[u8]) -> StateKey {
    StateKey::new(bytes.to_vec())
}

fn value(bytes: &[u8]) -> StateValue {
    StateValue::new(bytes.to_vec())
}

#[test]
fn writes_then_reads_at_each_version() {
    let mut storage = StateStorage::new(10);
    storage.put(key(b"a"), 1, value(&[1, 2, 3])).unwrap();
    storage.put(key(b"a"), 2, value(&[4, 5, 6])).unwrap();

    let at1 = storage.get(&key(b"a"), 1).unwrap();
    assert_eq!(at1.bytes(), &vec![1, 2, 3]);
    let at2 = storage.get(&key(b"a"), 2).unwrap();
    assert_eq!(at2.bytes(), &vec![4, 5, 6]);

    assert_eq!(storage.stale_count(), 1);
    let entry = storage.stale_at(0);
    assert_eq!(entry.stale_since_version, 2);
    assert_eq!(entry.version, 1);
    assert_eq!(entry.state_key.bytes(), &b"a".to_vec());
}

#[test]
fn read_between_writes_answers_latest_at_or_below() {
    let mut storage = StateStorage::new(10);
    storage.put(key(b"k"), 1, value(&[10])).unwrap();
    storage.put(key(b"k"), 3, value(&[30])).unwrap();

    // A version between two writes answers with the earlier write.
    assert_eq!(storage.get(&key(b"k"), 2).unwrap().bytes(), &vec![10]);
    // A version after the last write answers with the last write.
    assert_eq!(storage.get(&key(b"k"), 9).unwrap().bytes(), &vec![30]);
    // Before the first write there is nothing.
    assert_eq!(storage.get(&key(b"k"), 0).unwrap_err(), StateStoreError::NotFound);
}

#[test]
fn missing_key_is_not_found() {
    let mut storage = StateStorage::new(10);
    storage.put(key(b"a"), 1, value(&[1])).unwrap();
    assert_eq!(storage.get(&key(b"b"), 1).unwrap_err(), StateStoreError::NotFound);
}

#[test]
fn duplicate_version_is_refused() {
    let mut storage = StateStorage::new(10);
    storage.put(key(b"a"), 1, value(&[1])).unwrap();
    let err = storage.put(key(b"a"), 1, value(&[2])).unwrap_err();
    assert_eq!(err, StateStoreError::DuplicateVersion);
    // The refused write changed nothing.
    assert_eq!(storage.get(&key(b"a"), 1).unwrap().bytes(), &vec![1]);
    assert_eq!(storage.stale_count(), 0);
}

#[test]
fn pruning_deletes_superseded_record_and_read_reports_unavailable() {
    // Retention window zero; commit through version 5.
    let mut storage = StateStorage::new(0);
    storage.put(key(b"a"), 1, value(&[1, 2, 3])).unwrap();
    storage.put(key(b"a"), 2, value(&[4, 5, 6])).unwrap();
    storage.put(key(b"b"), 3, value(&[7])).unwrap();
    storage.put(key(b"b"), 4, value(&[8])).unwrap();
    storage.put(key(b"c"), 5, value(&[9])).unwrap();
    storage.set_min_readable_version(2);
    assert_eq!(storage.min_readable_version(), 2);

    let n = storage.run_pruning_cycle(100, true).unwrap();
    // Only the version-1 record of "a" was prunable at target 2.
    assert_eq!(n, 1);
    assert_eq!(storage.stale_count(), 1); // the (4, 3, "b") entry stays
    let err = storage.get(&key(b"a"), 1).unwrap_err();
    assert_eq!(err, StateStoreError::VersionUnavailable);
    // Reads at or above the frontier still answer.
    assert_eq!(storage.get(&key(b"a"), 2).unwrap().bytes(), &vec![4, 5, 6]);
    assert_eq!(storage.get(&key(b"b"), 5).unwrap().bytes(), &vec![8]);
}

#[test]
fn rerunning_a_cycle_with_no_new_stale_data_is_a_noop() {
    let mut storage = StateStorage::new(0);
    storage.put(key(b"a"), 1, value(&[1])).unwrap();
    storage.put(key(b"a"), 2, value(&[2])).unwrap();
    storage.set_min_readable_version(2);

    let first = storage.run_pruning_cycle(100, true).unwrap();
    assert_eq!(first, 1);
    let mark = storage.last_pruned_version();

    let second = storage.run_pruning_cycle(100, true).unwrap();
    assert_eq!(second, 0);
    assert_eq!(storage.last_pruned_version(), mark);
    assert_eq!(storage.stale_count(), 0);
}

#[test]
fn bounded_batch_deletes_only_up_to_budget() {
    let mut storage = StateStorage::new(0);
    storage.put(key(b"a"), 1, value(&[1])).unwrap();
    storage.put(key(b"a"), 2, value(&[2])).unwrap();
    storage.put(key(b"a"), 3, value(&[3])).unwrap();
    storage.set_min_readable_version(3);
    assert_eq!(storage.stale_count(), 2);

    let n = storage.run_pruning_cycle(1, true).unwrap();
    assert_eq!(n, 1);
    assert_eq!(storage.stale_count(), 1);
    // The remaining entry marks version 2, stale since version 3.
    let entry = storage.stale_at(0);
    assert_eq!((entry.stale_since_version, entry.version), (3, 2));
}

#[test]
fn refused_batch_commit_changes_nothing() {
    let mut storage = StateStorage::new(0);
    storage.put(key(b"a"), 1, value(&[1])).unwrap();
    storage.put(key(b"a"), 2, value(&[2])).unwrap();
    storage.set_min_readable_version(2);

    let err = storage.run_pruning_cycle(100, false).unwrap_err();
    assert_eq!(err, StateStoreError::BatchCommitFailed);
    // Nothing was applied and the progress mark did not advance.
    assert_eq!(storage.stale_count(), 1);
    assert_eq!(storage.last_pruned_version(), 0);
    assert_eq!(storage.get(&key(b"a"), 2).unwrap().bytes(), &vec![2]);
}

#[test]
fn wire_roundtrip_recomputes_the_same_hash() {
    let original = value(&[1, 2, 3]);
    let encoded = original.serialize();
    // The wire form is the length-prefixed bytes, never the digest.
    assert_eq!(encoded, vec![3, 1, 2, 3]);
    let recovered = StateValue::deserialize(&encoded).unwrap();
    assert_eq!(recovered.bytes(), &vec![1, 2, 3]);
    assert!(recovered.hash().equals(&original.hash()));
}

#[test]
fn wire_roundtrip_of_the_empty_value() {
    let original = value(&[]);
    let encoded = original.serialize();
    assert_eq!(encoded, vec![0]);
    let recovered = StateValue::deserialize(&encoded).unwrap();
    assert_eq!(recovered.size(), 0);
    assert!(recovered.hash().equals(&original.hash()));
}

#[test]
fn digests_are_thirty_two_bytes_and_depend_on_content() {
    let a = value(&[7u8; 100]);
    let b = value(&[8u8; 100]);
    assert_eq!(a.hash().to_vec().len(), 32);
    assert_eq!(b.hash().to_vec().len(), 32);
    assert!(!a.hash().equals(&b.hash()));
    assert!(a.hash().equals(&value(&[7u8; 100]).hash()));
}

#[test]
fn chunks_verify_and_cover_every_live_key_once() {
    let mut storage = StateStorage::new(10);
    storage.put(key(b"a"), 1, value(&[1])).unwrap();
    storage.put(key(b"b"), 2, value(&[2])).unwrap();
    storage.put(key(b"c"), 3, value(&[3])).unwrap();
    storage.put(key(b"a"), 3, value(&[9])).unwrap(); // supersedes a@1

    let first = storage.produce_chunk(3, 0, 2).unwrap();
    assert!(first.verify().is_ok());
    assert_eq!((first.first_index, first.last_index), (0, 1));
    assert_eq!(first.raw_values.len(), 2);
    assert!(!first.is_last_chunk());

    let second = storage.produce_chunk(3, 2, 2).unwrap();
    assert!(second.verify().is_ok());
    assert_eq!((second.first_index, second.last_index), (2, 2));
    assert_eq!(second.raw_values.len(), 1);
    assert!(second.is_last_chunk());

    // Both chunks verify against the same root.
    assert!(first.root_hash.equals(&second.root_hash));

    // Concatenated, the chunks hold each live key exactly once, in
    // ascending hashed-key order, with the value the key held at the
    // version: "a" carries its superseding value.
    let mut pairs: Vec<(Vec<u8>, Vec<u8>)> = Vec::new();
    let mut hashed: Vec<Vec<u8>> = Vec::new();
    for (k, v) in first.raw_values.iter().chain(second.raw_values.iter()) {
        pairs.push((k.bytes().clone(), v.bytes().clone()));
        hashed.push(k.hash().to_vec());
    }
    assert_eq!(pairs.len(), 3);
    for window in hashed.windows(2) {
        assert!(window[0] < window[1]);
    }
    let mut sorted_pairs = pairs.clone();
    sorted_pairs.sort();
    assert_eq!(
        sorted_pairs,
        vec![
            (b"a".to_vec(), vec![9]),
            (b"b".to_vec(), vec![2]),
            (b"c".to_vec(), vec![3]),
        ]
    );
    // The chunk bounds are the hashed keys at the range ends.
    assert_eq!(first.first_key.to_vec(), hashed[0]);
    assert_eq!(first.last_key.to_vec(), hashed[1]);
    assert_eq!(second.last_key.to_vec(), hashed[2]);

    // Determinism: the same request cuts a byte-identical chunk.
    let again = storage.produce_chunk(3, 0, 2).unwrap();
    assert!(again.root_hash.equals(&first.root_hash));
    assert!(again.first_key.equals(&first.first_key));
    assert!(again.last_key.equals(&first.last_key));
}

#[test]
fn chunk_at_earlier_version_sees_the_earlier_state() {
    let mut storage = StateStorage::new(10);
    storage.put(key(b"a"), 1, value(&[1])).unwrap();
    storage.put(key(b"a"), 2, value(&[9])).unwrap();

    let chunk = storage.produce_chunk(1, 0, 10).unwrap();
    assert_eq!(chunk.raw_values.len(), 1);
    assert_eq!(chunk.raw_values[0].1.bytes(), &vec![1]);
    assert!(chunk.verify().is_ok());
    assert!(chunk.is_last_chunk());
}

#[test]
fn tampered_chunk_fails_verification() {
    let mut storage = StateStorage::new(10);
    storage.put(key(b"a"), 1, value(&[1])).unwrap();
    let mut chunk = storage.produce_chunk(1, 0, 10).unwrap();
    chunk.root_hash = state_store::hashing::placeholder_hash();
    assert_eq!(chunk.verify().unwrap_err(), StateStoreError::ProofVerificationFailed);
}

#[test]
fn chunk_request_below_pruned_frontier_is_unavailable() {
    let mut storage = StateStorage::new(0);
    storage.put(key(b"a"), 1, value(&[1])).unwrap();
    storage.put(key(b"a"), 2, value(&[2])).unwrap();
    storage.set_min_readable_version(2);
    storage.run_pruning_cycle(100, true).unwrap();

    let err = storage.produce_chunk(1, 0, 10).unwrap_err();
    assert_eq!(err, StateStoreError::VersionUnavailable);
}

#[test]
fn chunk_request_beyond_history_or_range_is_not_found() {
    let mut storage = StateStorage::new(10);
    storage.put(key(b"a"), 1, value(&[1])).unwrap();
    assert_eq!(storage.produce_chunk(7, 0, 10).unwrap_err(), StateStoreError::NotFound);
    assert_eq!(storage.produce_chunk(1, 5, 10).unwrap_err(), StateStoreError::NotFound);
}

#[test]
fn min_readable_version_only_rises_and_respects_the_window() {
    let mut storage = StateStorage::new(2);
    storage.put(key(b"a"), 1, value(&[1])).unwrap();
    storage.put(key(b"a"), 5, value(&[5])).unwrap();
    // Capped by current - retention = 3.
    storage.set_min_readable_version(4);
    assert_eq!(storage.min_readable_version(), 3);
    // Never lowered.
    storage.set_min_readable_version(1);
    assert_eq!(storage.min_readable_version(), 3);
}

#[test]
fn ledger_pruner_walks_the_stores_in_order() {
    let mut pruner = create_ledger_pruner();
    assert_eq!(pruner.next_request(9), Some((LedgerStoreKind::Event, 9)));
    pruner.on_store_result(true, 9); // the store has more to delete
    assert_eq!(pruner.next_request(9), Some((LedgerStoreKind::Event, 9)));
    pruner.on_store_result(false, 9);
    assert_eq!(pruner.next_request(9), Some((LedgerStoreKind::Transaction, 9)));
    pruner.on_store_result(false, 9);
    assert_eq!(pruner.next_request(9), Some((LedgerStoreKind::LedgerMetadata, 9)));
    pruner.on_store_result(false, 9);
    assert!(pruner.cycle_done());
    assert_eq!(pruner.next_request(9), None);
    pruner.begin_cycle();
    assert_eq!(pruner.next_request(11), Some((LedgerStoreKind::Event, 11)));
}

#[test]
fn state_pruner_starts_idle() {
    let _pruner = create_state_pruner();
    let storage = StateStorage::new(0);
    assert_eq!(storage.last_pruned_version(), 0);
}

#[test]
fn state_value_size_reports_byte_count() {
    assert_eq!(value(&[1, 2, 3, 4]).size(), 4);
    assert_eq!(value(&[]).size(), 0);
}
