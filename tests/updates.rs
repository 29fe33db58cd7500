use trie_persistence::flush::TrieTableOp;
use trie_persistence::store::TrieTables;
use trie_persistence::nibbles::{BranchNodeCompact, Nibbles, B256};
use trie_persistence::updates::{TrieKey, TrieOp, TrieUpdates};

fn path(p: &[u8]) -> Nibbles {
    Nibbles(p.to_vec())
}

fn node(b: u8) -> BranchNodeCompact {
    BranchNodeCompact(vec![b, b, b])
}

fn account(b: u8) -> B256 {
    B256([b; 32])
}

#[test]
fn trie_op_accessors() {
    let update = TrieOp::Update(node(7));
    assert!(update.is_update());
    assert_eq!(update.as_update(), Some(&node(7)));
    assert_eq!(update.into_update(), Some(node(7)));
    let delete = TrieOp::Delete;
    assert!(!delete.is_update());
    assert_eq!(delete.as_update(), None);
    assert_eq!(delete.into_update(), None);
}

#[test]
fn trie_key_accessors() {
    let a = TrieKey::AccountNode(path(&[1, 2]));
    assert_eq!(a.as_account_node_key(), Some(&path(&[1, 2])));
    assert_eq!(a.as_storage_node_key(), None);
    assert_eq!(a.as_storage_trie_key(), None);
    let s = TrieKey::StorageNode(account(3), path(&[4]));
    assert_eq!(s.as_storage_node_key(), Some((&account(3), &path(&[4]))));
    assert_eq!(s.as_account_node_key(), None);
    let t = TrieKey::StorageTrie(account(5));
    assert_eq!(t.as_storage_trie_key(), Some(&account(5)));
    assert_eq!(t.as_storage_node_key(), None);
}

#[test]
fn extend_last_write_wins() {
    let mut d1 = TrieUpdates::new();
    d1.extend(vec![
        (TrieKey::AccountNode(path(&[1])), TrieOp::Update(node(1))),
        (TrieKey::AccountNode(path(&[2])), TrieOp::Delete),
    ]);
    let mut d2 = TrieUpdates::new();
    d2.extend(vec![
        (TrieKey::AccountNode(path(&[1])), TrieOp::Delete),
        (TrieKey::AccountNode(path(&[3])), TrieOp::Update(node(3))),
    ]);
    d1.extend(d2.into_entries());
    assert_eq!(d1.len(), 3);
    let sorted = d1.sorted();
    assert_eq!(
        sorted.find_account_node(&path(&[1])),
        Some((TrieKey::AccountNode(path(&[1])), TrieOp::Delete))
    );
    assert_eq!(
        sorted.find_account_node(&path(&[2])),
        Some((TrieKey::AccountNode(path(&[2])), TrieOp::Delete))
    );
    assert_eq!(
        sorted.find_account_node(&path(&[3])),
        Some((TrieKey::AccountNode(path(&[3])), TrieOp::Update(node(3))))
    );
    assert_eq!(sorted.find_account_node(&path(&[4])), None);
}

#[test]
fn extend_within_one_batch_keeps_the_later_write() {
    let mut d = TrieUpdates::new();
    d.extend(vec![
        (TrieKey::AccountNode(path(&[9])), TrieOp::Update(node(1))),
        (TrieKey::AccountNode(path(&[9])), TrieOp::Update(node(2))),
    ]);
    assert_eq!(d.len(), 1);
    assert_eq!(
        d.sorted().find_account_node(&path(&[9])),
        Some((TrieKey::AccountNode(path(&[9])), TrieOp::Update(node(2))))
    );
}

#[test]
fn sorted_is_strictly_increasing_permutation() {
    let keys = vec![
        TrieKey::StorageTrie(account(2)),
        TrieKey::StorageNode(account(2), path(&[1])),
        TrieKey::AccountNode(path(&[5])),
        TrieKey::StorageNode(account(1), path(&[7, 7])),
        TrieKey::AccountNode(path(&[])),
        TrieKey::AccountNode(path(&[5, 0])),
        TrieKey::StorageTrie(account(1)),
        TrieKey::StorageNode(account(1), path(&[7])),
    ];
    let mut d = TrieUpdates::new();
    d.extend(keys.iter().map(|k| (k.clone(), TrieOp::Delete)).collect());
    let sorted = d.sorted();
    assert_eq!(sorted.len(), keys.len());
    for i in 1..sorted.len() {
        assert!(sorted.get(i - 1).0 < sorted.get(i).0);
    }
    for k in &keys {
        assert!((0..sorted.len()).any(|i| &sorted.get(i).0 == k));
    }
    assert_eq!(sorted.get(0).0, TrieKey::AccountNode(path(&[])));
    assert_eq!(sorted.get(7).0, TrieKey::StorageTrie(account(2)));
    let into = d.into_sorted();
    assert_eq!(into, sorted);
}

#[test]
fn finalize_state_updates_merges_in_order() {
    let mut d = TrieUpdates::new();
    d.finalize_state_updates(
        vec![TrieKey::AccountNode(path(&[1])), TrieKey::AccountNode(path(&[2]))],
        vec![(path(&[1]), node(9))],
        vec![account(4)],
    );
    let s = d.sorted();
    assert_eq!(s.len(), 3);
    assert_eq!(
        s.find_account_node(&path(&[1])),
        Some((TrieKey::AccountNode(path(&[1])), TrieOp::Update(node(9))))
    );
    assert_eq!(
        s.find_account_node(&path(&[2])),
        Some((TrieKey::AccountNode(path(&[2])), TrieOp::Delete))
    );
    assert_eq!(s.get(2), &(TrieKey::StorageTrie(account(4)), TrieOp::Delete));
}

#[test]
fn finalize_storage_updates_scopes_to_account() {
    let mut d = TrieUpdates::new();
    d.finalize_storage_updates(
        account(6),
        vec![TrieKey::StorageNode(account(6), path(&[3]))],
        vec![(path(&[3]), node(1)), (path(&[4]), node(2))],
    );
    let s = d.sorted();
    assert_eq!(s.len(), 2);
    assert_eq!(
        s.find_storage_node(&account(6), &path(&[3])),
        Some((TrieKey::StorageNode(account(6), path(&[3])), TrieOp::Update(node(1))))
    );
    assert_eq!(s.find_storage_node(&account(7), &path(&[3])), None);
}

#[test]
fn extend_with_account_updates_records_updates() {
    let mut d = TrieUpdates::new();
    d.extend_with_account_updates(vec![(path(&[2]), node(2)), (path(&[1]), node(1))]);
    let s = d.sorted();
    assert_eq!(s.get(0), &(TrieKey::AccountNode(path(&[1])), TrieOp::Update(node(1))));
    assert_eq!(s.get(1), &(TrieKey::AccountNode(path(&[2])), TrieOp::Update(node(2))));
}

#[test]
fn flush_writes_in_key_order() {
    let mut d = TrieUpdates::new();
    d.extend(vec![
        (TrieKey::StorageTrie(account(1)), TrieOp::Delete),
        (TrieKey::StorageNode(account(1), path(&[2])), TrieOp::Update(node(5))),
        (TrieKey::StorageNode(account(1), path(&[])), TrieOp::Update(node(6))),
        (TrieKey::AccountNode(path(&[])), TrieOp::Update(node(7))),
        (TrieKey::AccountNode(path(&[3])), TrieOp::Delete),
        (TrieKey::AccountNode(path(&[1])), TrieOp::Update(node(8))),
    ]);
    let writes = d.flush();
    assert_eq!(
        writes,
        vec![
            TrieTableOp::UpsertAccountNode(path(&[1]), node(8)),
            TrieTableOp::DeleteAccountNode(path(&[3])),
            TrieTableOp::DeleteStorageNode(account(1), path(&[2])),
            TrieTableOp::UpsertStorageNode(account(1), path(&[2]), node(5)),
            TrieTableOp::DeleteStorageTrie(account(1)),
        ]
    );
}

#[test]
fn flush_of_empty_delta_writes_nothing() {
    assert!(TrieUpdates::new().flush().is_empty());
    assert!(TrieUpdates::new().is_empty());
}

type Tables = (
    std::collections::BTreeMap<Vec<u8>, Vec<u8>>,
    std::collections::BTreeMap<([u8; 32], Vec<u8>), Vec<u8>>,
);

fn apply(t: &mut Tables, writes: &[TrieTableOp]) {
    for w in writes {
        match w {
            TrieTableOp::DeleteAccountNode(p) => {
                t.0.remove(&p.0);
            }
            TrieTableOp::UpsertAccountNode(p, n) => {
                t.0.insert(p.0.clone(), n.0.clone());
            }
            TrieTableOp::DeleteStorageNode(a, p) => {
                t.1.remove(&(a.0, p.0.clone()));
            }
            TrieTableOp::UpsertStorageNode(a, p, n) => {
                t.1.insert((a.0, p.0.clone()), n.0.clone());
            }
            TrieTableOp::DeleteStorageTrie(a) => t.1.retain(|k, _| k.0 != a.0),
        }
    }
}

#[test]
fn flush_twice_equals_flush_once() {
    let make = || {
        let mut d = TrieUpdates::new();
        d.extend(vec![
            (TrieKey::AccountNode(path(&[1])), TrieOp::Delete),
            (TrieKey::AccountNode(path(&[2])), TrieOp::Update(node(2))),
            (TrieKey::StorageNode(account(1), path(&[1])), TrieOp::Update(node(3))),
            (TrieKey::StorageNode(account(2), path(&[1])), TrieOp::Delete),
            (TrieKey::StorageTrie(account(3)), TrieOp::Delete),
        ]);
        d
    };
    let mut start: Tables = Default::default();
    start.0.insert(vec![1], vec![0]);
    start.0.insert(vec![2], vec![0]);
    start.1.insert(([2; 32], vec![1]), vec![0]);
    start.1.insert(([3; 32], vec![4]), vec![0]);
    start.1.insert(([3; 32], vec![5]), vec![0]);
    let writes = make().flush();
    assert_eq!(writes, make().flush());
    let mut once = start.clone();
    apply(&mut once, &writes);
    let mut twice = start.clone();
    apply(&mut twice, &writes);
    apply(&mut twice, &writes);
    assert_eq!(once, twice);
    assert_eq!(once.0.len(), 1);
    assert_eq!(once.1.len(), 1);
}

#[test]
fn store_applies_flush_idempotently() {
    let make = || {
        let mut d = TrieUpdates::new();
        d.extend(vec![
            (TrieKey::AccountNode(path(&[1])), TrieOp::Update(node(1))),
            (TrieKey::AccountNode(path(&[2])), TrieOp::Delete),
            (TrieKey::StorageNode(account(1), path(&[1])), TrieOp::Update(node(3))),
            (TrieKey::StorageTrie(account(2)), TrieOp::Delete),
        ]);
        d
    };
    let mut seed = TrieTables::new();
    seed.apply(TrieTableOp::UpsertAccountNode(path(&[2]), node(7)));
    seed.apply(TrieTableOp::UpsertStorageNode(account(2), path(&[5]), node(8)));
    assert_eq!(seed.storage(&account(2)).len(), 1);
    let mut once = seed.copy();
    once.apply_all(make().flush());
    let mut twice = seed.copy();
    twice.apply_all(make().flush());
    twice.apply_all(make().writes());
    assert_eq!(once, twice);
    assert_eq!(once.accounts().len(), 1);
    assert_eq!(once.storage(&account(1)).get(&path(&[1])), Some((path(&[1]), node(3))));
    assert_eq!(once.storage(&account(2)).len(), 0);
}
