use citrea_fullnode::chain_index::ChainIndex;
use citrea_fullnode::finality::FinalityRule;
use citrea_fullnode::ledger::{LedgerError, LedgerStore};
use citrea_fullnode::storage::{StorageError, StorageManager};
use citrea_fullnode::types::{Digest, HeadSlot, Snapshot, SnapshotKey, SnapshotStatus};

fn hash(n: u128) -> Digest {
    Digest::new(n, n + 1000)
}

fn root(n: u128) -> Digest {
    Digest::new(n + 7, n)
}

fn key(height: u64, n: u128) -> SnapshotKey {
    SnapshotKey::new(height, hash(n))
}

/// A forest with two branches above the genesis snapshot:
/// 10 - 20 - 30 and 11 - 21, the numbers naming the hashes.
fn forest() -> StorageManager {
    let mut m = StorageManager::new(key(0, 0), root(0));
    assert!(m.new_snapshot(key(0, 0), 1, hash(10), root(10)).is_ok());
    assert!(m.new_snapshot(key(0, 0), 1, hash(11), root(11)).is_ok());
    assert!(m.new_snapshot(key(1, 10), 2, hash(20), root(20)).is_ok());
    assert!(m.new_snapshot(key(1, 11), 2, hash(21), root(21)).is_ok());
    assert!(m.new_snapshot(key(2, 20), 3, hash(30), root(30)).is_ok());
    m
}

fn pending_keys(m: &StorageManager) -> Vec<SnapshotKey> {
    (0..m.pending_len()).map(|i| m.pending_at(i).key).collect()
}

#[test]
fn new_store_holds_one_final_snapshot() {
    let m = StorageManager::new(key(5, 1), root(1));
    assert_eq!(
        m.head(),
        Snapshot { key: key(5, 1), parent: None, root: root(1), status: SnapshotStatus::Finalized }
    );
    assert_eq!(m.pending_len(), 0);
}

#[test]
fn new_snapshot_returns_the_pending_snapshot() {
    let mut m = StorageManager::new(key(0, 0), root(0));
    let made = m.new_snapshot(key(0, 0), 1, hash(10), root(10));
    let expected = Snapshot {
        key: key(1, 10),
        parent: Some(key(0, 0)),
        root: root(10),
        status: SnapshotStatus::Pending,
    };
    assert_eq!(made, Ok(expected));
    assert_eq!(m.pending_snapshot(key(1, 10)), Some(expected));
    assert_eq!(m.pending_snapshot(key(1, 11)), None);
}

#[test]
fn new_snapshot_needs_a_live_parent() {
    let mut m = forest();
    assert_eq!(m.new_snapshot(key(3, 99), 4, hash(40), root(40)), Err(StorageError::MissingParent));
    assert_eq!(m.commit(key(1, 10), root(10)), Ok(()));
    // The genesis snapshot is final but no longer the head.
    assert_eq!(m.new_snapshot(key(0, 0), 1, hash(12), root(12)), Err(StorageError::MissingParent));
    assert_eq!(m.pending_len(), 2);
}

#[test]
fn new_snapshot_checks_height_and_key() {
    let mut m = forest();
    assert_eq!(m.new_snapshot(key(1, 10), 3, hash(22), root(22)), Err(StorageError::HeightMismatch));
    assert_eq!(m.new_snapshot(key(1, 10), 1, hash(22), root(22)), Err(StorageError::HeightMismatch));
    assert_eq!(m.new_snapshot(key(1, 10), 2, hash(20), root(99)), Err(StorageError::DuplicateSnapshot));
    assert_eq!(m.pending_len(), 5);
    let mut top = StorageManager::new(key(u64::MAX, 0), root(0));
    assert_eq!(top.new_snapshot(key(u64::MAX, 0), 0, hash(1), root(1)), Err(StorageError::HeightMismatch));
}

#[test]
fn discard_removes_the_snapshot_and_what_stands_above_it() {
    let mut m = forest();
    assert_eq!(m.discard(key(2, 20)), Ok(()));
    assert_eq!(pending_keys(&m), vec![key(1, 10), key(1, 11), key(2, 21)]);
    assert_eq!(m.discard(key(1, 11)), Ok(()));
    assert_eq!(pending_keys(&m), vec![key(1, 10)]);
    assert_eq!(m.head().key, key(0, 0));
}

#[test]
fn discard_refuses_final_and_unknown_snapshots() {
    let mut m = forest();
    assert_eq!(m.discard(key(0, 0)), Err(StorageError::CannotDiscardFinalized));
    assert_eq!(m.discard(key(2, 77)), Err(StorageError::UnknownSnapshot));
    assert_eq!(m.commit(key(1, 10), root(10)), Ok(()));
    assert_eq!(m.discard(key(1, 10)), Err(StorageError::CannotDiscardFinalized));
    assert_eq!(m.discard(key(0, 0)), Err(StorageError::CannotDiscardFinalized));
    assert_eq!(m.discard(key(1, 11)), Err(StorageError::UnknownSnapshot));
    assert_eq!(pending_keys(&m), vec![key(2, 20), key(3, 30)]);
}

#[test]
fn commit_promotes_the_child_of_the_head_and_prunes_its_siblings() {
    let mut m = forest();
    assert_eq!(m.commit(key(1, 10), root(10)), Ok(()));
    assert_eq!(
        m.head(),
        Snapshot {
            key: key(1, 10),
            parent: Some(key(0, 0)),
            root: root(10),
            status: SnapshotStatus::Finalized,
        }
    );
    assert_eq!(pending_keys(&m), vec![key(2, 20), key(3, 30)]);
    assert_eq!(m.commit(key(2, 20), root(20)), Ok(()));
    assert_eq!(m.commit(key(3, 30), root(30)), Ok(()));
    assert_eq!(m.pending_len(), 0);
    assert_eq!(m.head().key, key(3, 30));
}

#[test]
fn commit_out_of_order_is_refused() {
    let mut m = forest();
    assert_eq!(m.commit(key(2, 20), root(20)), Err(StorageError::OutOfOrderCommit));
    assert_eq!(m.commit(key(3, 30), root(30)), Err(StorageError::OutOfOrderCommit));
    assert_eq!(m.commit(key(1, 99), root(10)), Err(StorageError::OutOfOrderCommit));
    assert_eq!(m.commit(key(0, 0), root(0)), Err(StorageError::OutOfOrderCommit));
    assert_eq!(m.pending_len(), 5);
    assert_eq!(m.head().key, key(0, 0));
}

#[test]
fn commit_with_another_root_is_refused() {
    let mut m = forest();
    assert_eq!(m.commit(key(1, 10), root(11)), Err(StorageError::RootMismatch));
    assert_eq!(m.pending_len(), 5);
    assert_eq!(m.head().key, key(0, 0));
}

#[test]
fn finalized_storage_is_pinned_to_the_head_it_was_made_at() {
    let mut m = forest();
    assert_eq!(m.commit(key(1, 11), root(11)), Ok(()));
    let view = m.create_finalized_storage();
    assert_eq!(m.commit(key(2, 21), root(21)), Ok(()));
    assert_eq!(view.head().key, key(1, 11));
    assert_eq!(view.get_root_hash(0), Some(root(0)));
    assert_eq!(view.get_root_hash(1), Some(root(11)));
    assert_eq!(view.get_root_hash(2), None);
    let later = m.create_finalized_storage();
    assert_eq!(later.get_root_hash(2), Some(root(21)));
    assert_eq!(later.get_root_hash(3), None);
    let high = StorageManager::new(key(7, 1), root(1)).create_finalized_storage();
    assert_eq!(high.get_root_hash(6), None);
    assert_eq!(high.get_root_hash(7), Some(root(1)));
}

fn slot(height: u64, n: u128) -> HeadSlot {
    HeadSlot { height, hash: hash(n), root: root(n) }
}

#[test]
fn ledger_starts_empty_or_from_the_persisted_head() {
    let empty = LedgerStore::new(None);
    assert_eq!(empty.get_head_slot(), None);
    assert_eq!(empty.len(), 0);
    assert_eq!(empty.get_entry(0), None);
    let resumed = LedgerStore::new(Some(slot(8, 1)));
    assert_eq!(resumed.get_head_slot(), Some(slot(8, 1)));
    assert_eq!(resumed.get_entry(8), Some(slot(8, 1)));
    assert_eq!(resumed.get_entry(7), None);
    assert_eq!(resumed.get_entry(9), None);
}

#[test]
fn record_commit_appends_and_moves_the_head() {
    let mut l = LedgerStore::new(None);
    assert_eq!(l.record_commit(3, hash(3), root(3)), Ok(true));
    assert_eq!(l.record_commit(4, hash(4), root(4)), Ok(true));
    assert_eq!(l.get_head_slot(), Some(slot(4, 4)));
    assert_eq!(l.get_entry(3), Some(slot(3, 3)));
    assert_eq!(l.len(), 2);
}

#[test]
fn record_commit_is_idempotent_for_the_same_root() {
    let mut l = LedgerStore::new(None);
    assert_eq!(l.record_commit(1, hash(1), root(1)), Ok(true));
    assert_eq!(l.record_commit(2, hash(2), root(2)), Ok(true));
    assert_eq!(l.record_commit(2, hash(2), root(2)), Ok(false));
    assert_eq!(l.record_commit(1, hash(1), root(1)), Ok(false));
    assert_eq!(l.len(), 2);
    assert_eq!(l.get_head_slot(), Some(slot(2, 2)));
}

#[test]
fn record_commit_refuses_another_root_for_a_recorded_height() {
    let mut l = LedgerStore::new(None);
    assert_eq!(l.record_commit(1, hash(1), root(1)), Ok(true));
    assert_eq!(l.record_commit(1, hash(1), root(9)), Err(LedgerError::ConflictingRoot));
    assert_eq!(l.get_head_slot(), Some(slot(1, 1)));
}

#[test]
fn record_commit_refuses_gaps() {
    let mut l = LedgerStore::new(Some(slot(5, 5)));
    assert_eq!(l.record_commit(7, hash(7), root(7)), Err(LedgerError::OutOfOrder));
    assert_eq!(l.record_commit(4, hash(4), root(4)), Err(LedgerError::OutOfOrder));
    assert_eq!(l.record_commit(6, hash(6), root(6)), Ok(true));
    assert_eq!(l.len(), 2);
    let mut top = LedgerStore::new(Some(slot(u64::MAX, 1)));
    assert_eq!(top.record_commit(0, hash(0), root(0)), Err(LedgerError::OutOfOrder));
}

#[test]
fn finality_rule_by_confirmation_depth() {
    let rule = FinalityRule::Depth(4);
    assert!(rule.is_final(1, 5, 0));
    assert!(!rule.is_final(2, 5, 100));
    assert!(rule.is_final(0, 4, 0));
    assert!(!rule.is_final(0, 3, 0));
    assert!(!rule.is_final(u64::MAX, u64::MAX, 0));
    assert!(FinalityRule::Depth(0).is_final(u64::MAX, u64::MAX, 0));
    assert!(!FinalityRule::Depth(u64::MAX).is_final(1, 5, 0));
}

#[test]
fn finality_rule_by_reported_height() {
    let rule = FinalityRule::DaReported;
    assert!(rule.is_final(3, 3, 3));
    assert!(rule.is_final(2, 9, 3));
    assert!(!rule.is_final(4, 100, 3));
}

#[test]
fn confirmation_depth_takes_precedence() {
    assert_eq!(FinalityRule::resolve(true, Some(4)), Some(FinalityRule::Depth(4)));
    assert_eq!(FinalityRule::resolve(false, Some(0)), Some(FinalityRule::Depth(0)));
    assert_eq!(FinalityRule::resolve(true, None), Some(FinalityRule::DaReported));
    assert_eq!(FinalityRule::resolve(false, None), None);
}

#[test]
fn chain_index_holds_one_hash_per_height() {
    let mut ix = ChainIndex::new(3, hash(3));
    assert_eq!(ix.tip_height(), 3);
    assert!(ix.push(hash(4)));
    assert!(ix.push(hash(5)));
    assert_eq!(ix.tip_height(), 5);
    assert_eq!(ix.get(2), None);
    assert_eq!(ix.get(3), Some(hash(3)));
    assert_eq!(ix.get(5), Some(hash(5)));
    assert_eq!(ix.get(6), None);
}

#[test]
fn chain_index_changes_only_above_the_height_it_is_cut_at() {
    let mut ix = ChainIndex::new(0, hash(0));
    for n in 1..=4 {
        assert!(ix.push(hash(n)));
    }
    ix.truncate_above(2);
    assert_eq!(ix.tip_height(), 2);
    assert_eq!(ix.get(2), Some(hash(2)));
    assert_eq!(ix.get(3), None);
    ix.truncate_above(9);
    assert_eq!(ix.tip_height(), 2);
    assert!(ix.push(hash(33)));
    assert_eq!(ix.get(3), Some(hash(33)));
    let mut top = ChainIndex::new(u64::MAX, hash(1));
    assert!(!top.push(hash(2)));
    assert_eq!(top.tip_height(), u64::MAX);
}
