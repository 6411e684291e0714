use changes_runtime::memory_storage::InMemoryStorage;
use changes_runtime::prune::{
    child_index_prefix, child_root_of, child_roots, prune, AnchorBlockId,
};
use std::collections::HashSet;

fn hash(n: u8) -> Vec<u8> {
    vec![n; 32]
}

/// The key of a child-index entry: tag, block number, length-prefixed storage key.
fn child_key(block: u64, storage_key: &[u8]) -> Vec<u8> {
    let mut key = vec![3u8];
    key.extend_from_slice(&block.to_le_bytes());
    key.push((storage_key.len() as u8) << 2);
    key.extend_from_slice(storage_key);
    key
}

/// A length-prefixed encoding of a 32-byte hash.
fn encoded_hash(h: &[u8]) -> Vec<u8> {
    let mut v = vec![128u8];
    v.extend_from_slice(h);
    v
}

fn prepare_storage() -> InMemoryStorage {
    let mut storage = InMemoryStorage::new();
    storage.insert(65, hash(1), vec![(vec![10], vec![20])], vec![hash(1)]);
    storage.insert(
        66,
        hash(2),
        vec![(vec![11], vec![21]), (vec![12], vec![22])],
        vec![hash(2), hash(21), hash(22)],
    );
    storage.insert_child(hash(30), vec![(vec![110], vec![120])], vec![hash(30)]);
    storage.insert(
        67,
        hash(3),
        vec![
            (vec![13], vec![23]),
            (vec![14], vec![24]),
            (child_key(67, b"1"), encoded_hash(&hash(30))),
        ],
        vec![hash(3), hash(31)],
    );
    storage.insert(68, hash(4), vec![(vec![15], vec![25])], vec![hash(4)]);
    storage
}

fn prune_by_collect(storage: &InMemoryStorage, first: u64, last: u64, current_block: u64) -> HashSet<Vec<u8>> {
    let anchor = AnchorBlockId { hash: vec![0; 32], number: current_block };
    let mut removed = Vec::new();
    let unreadable = prune(storage, first, last, &anchor, &mut removed);
    assert!(unreadable.is_empty());
    removed.into_iter().collect()
}

/// Every node hash the store holds, roots included.
fn stored_nodes(storage: &InMemoryStorage) -> HashSet<Vec<u8>> {
    let mut all = HashSet::new();
    for trie in &storage.tries {
        all.insert(trie.root.clone());
        for n in &trie.nodes {
            all.insert(n.clone());
        }
    }
    all
}

fn remaining_after(storage: &InMemoryStorage, removed: &HashSet<Vec<u8>>) -> HashSet<Vec<u8>> {
    stored_nodes(storage).difference(removed).cloned().collect()
}

#[test]
fn prune_works() {
    let storage = prepare_storage();
    assert!(prune_by_collect(&storage, 20, 30, 90).is_empty());
    assert!(!stored_nodes(&storage).is_empty());

    let storage = prepare_storage();
    let prune60_65 = prune_by_collect(&storage, 60, 65, 90);
    assert!(!prune60_65.is_empty());
    assert!(!remaining_after(&storage, &prune60_65).is_empty());

    let storage = prepare_storage();
    let prune60_70 = prune_by_collect(&storage, 60, 70, 90);
    assert!(!prune60_70.is_empty());
    assert!(remaining_after(&storage, &prune60_70).is_empty());
}

#[test]
fn prune_of_first_block_removes_only_its_trie() {
    let storage = prepare_storage();
    let removed = prune_by_collect(&storage, 60, 65, 90);
    let expected: HashSet<Vec<u8>> = vec![hash(1)].into_iter().collect();
    assert_eq!(removed, expected);
}

#[test]
fn prune_of_range_without_tries_removes_nothing() {
    let storage = prepare_storage();
    assert!(prune_by_collect(&storage, 20, 30, 90).is_empty());
    assert!(prune_by_collect(&storage, 69, 100, 90).is_empty());
    assert!(prune_by_collect(&storage, 70, 60, 90).is_empty());
    assert!(prune_by_collect(&InMemoryStorage::new(), 0, 1000, 90).is_empty());
}

#[test]
fn prune_removes_child_trie_before_parent_root() {
    let storage = prepare_storage();
    let anchor = AnchorBlockId { hash: vec![0; 32], number: 90 };
    let mut removed = Vec::new();
    prune(&storage, 67, 67, &anchor, &mut removed);
    assert_eq!(removed, vec![hash(30), hash(30), hash(3), hash(3), hash(31)]);
}

#[test]
fn prune_goes_block_by_block_in_order() {
    let storage = prepare_storage();
    let anchor = AnchorBlockId { hash: vec![0; 32], number: 90 };
    let mut removed = vec![hash(99)];
    prune(&storage, 65, 66, &anchor, &mut removed);
    assert_eq!(
        removed,
        vec![hash(99), hash(1), hash(1), hash(2), hash(2), hash(21), hash(22)]
    );
}

#[test]
fn prune_stays_inside_range() {
    let storage = prepare_storage();
    let removed = prune_by_collect(&storage, 66, 66, 90);
    let expected: HashSet<Vec<u8>> = vec![hash(2), hash(21), hash(22)].into_iter().collect();
    assert_eq!(removed, expected);
    assert!(!removed.contains(&hash(1)));
    assert!(!removed.contains(&hash(3)));
}

#[test]
fn prune_at_end_of_number_range() {
    let mut storage = InMemoryStorage::new();
    storage.insert(u64::MAX, hash(7), vec![], vec![hash(8)]);
    let removed = prune_by_collect(&storage, u64::MAX - 1, u64::MAX, 0);
    let expected: HashSet<Vec<u8>> = vec![hash(7), hash(8)].into_iter().collect();
    assert_eq!(removed, expected);
}

#[test]
fn child_prefix_is_tag_then_block() {
    assert_eq!(child_index_prefix(67), vec![3, 67, 0, 0, 0, 0, 0, 0, 0]);
    assert_eq!(child_index_prefix(0x0102), vec![3, 2, 1, 0, 0, 0, 0, 0, 0]);
}

#[test]
fn child_root_is_decoded_from_entry() {
    let key = child_key(67, b"1");
    assert_eq!(child_root_of(&key, &encoded_hash(&hash(30))), Some(hash(30)));
}

#[test]
fn child_root_needs_child_index_key() {
    let mut key = child_key(67, b"1");
    key[0] = 1;
    assert_eq!(child_root_of(&key, &encoded_hash(&hash(30))), None);
    assert_eq!(child_root_of(&vec![3, 1, 2], &encoded_hash(&hash(30))), None);
    let truncated = vec![3, 67, 0, 0, 0, 0, 0, 0, 0, 8];
    assert_eq!(child_root_of(&truncated, &encoded_hash(&hash(30))), None);
}

#[test]
fn child_root_needs_full_hash_value() {
    let key = child_key(67, b"1");
    assert_eq!(child_root_of(&key, &vec![8, 1, 2]), None);
    assert_eq!(child_root_of(&key, &hash(30)), None);
}

#[test]
fn child_roots_keep_order() {
    let entries = vec![
        (child_key(5, b"b"), encoded_hash(&hash(2))),
        (vec![13], vec![23]),
        (child_key(5, b"a"), encoded_hash(&hash(1))),
    ];
    assert_eq!(child_roots(&entries), vec![hash(2), hash(1)]);
}

#[test]
fn unreadable_block_is_skipped_and_reported() {
    let mut storage = prepare_storage();
    storage.damage(66);
    let anchor = AnchorBlockId { hash: vec![0; 32], number: 90 };
    let mut removed = Vec::new();
    let unreadable = prune(&storage, 60, 70, &anchor, &mut removed);
    let blocks: Vec<u64> = unreadable.iter().map(|u| u.0).collect();
    assert_eq!(blocks, vec![66]);
    assert_eq!(unreadable[0].1.reason, "damaged root record");
    let removed: HashSet<Vec<u8>> = removed.into_iter().collect();
    let expected: HashSet<Vec<u8>> =
        vec![hash(1), hash(30), hash(3), hash(31), hash(4)].into_iter().collect();
    assert_eq!(removed, expected);
}

#[test]
fn re_pruning_a_pruned_range_removes_nothing() {
    let mut storage = prepare_storage();
    let anchor = AnchorBlockId { hash: vec![0; 32], number: 90 };
    let mut removed = Vec::new();
    prune(&storage, 60, 70, &anchor, &mut removed);
    assert!(!removed.is_empty());
    for h in removed {
        storage.delete_node(h);
    }
    let mut again = Vec::new();
    let unreadable = prune(&storage, 60, 70, &anchor, &mut again);
    assert!(unreadable.is_empty());
    assert!(again.is_empty());
}

#[test]
fn block_with_deleted_root_node_is_skipped() {
    let mut storage = prepare_storage();
    storage.delete_node(hash(2));
    let removed = prune_by_collect(&storage, 65, 66, 90);
    let expected: HashSet<Vec<u8>> = vec![hash(1)].into_iter().collect();
    assert_eq!(removed, expected);
}

#[test]
fn deleted_child_trie_is_not_emitted_again() {
    let mut storage = prepare_storage();
    storage.delete_node(hash(30));
    let anchor = AnchorBlockId { hash: vec![0; 32], number: 90 };
    let mut removed = Vec::new();
    prune(&storage, 67, 67, &anchor, &mut removed);
    assert_eq!(removed, vec![hash(3), hash(3), hash(31)]);
}
