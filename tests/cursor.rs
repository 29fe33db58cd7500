use trie_persistence::cursor::{
    InMemoryAccountTrieCursor, InMemoryStorageTrieCursor, InMemoryTrieCursorFactory,
    MemoryTrieCursorFactory, TrieCursorFactory,
};
use trie_persistence::flush::TrieTableOp;
use trie_persistence::nibbles::{BranchNodeCompact, Nibbles, B256};
use trie_persistence::store::TrieTables;
use trie_persistence::table::{MemoryTrieCursor, TrieCursor, TrieTable};
use trie_persistence::updates::{TrieKey, TrieOp, TrieUpdates};

fn path(p: &[u8]) -> Nibbles {
    Nibbles(p.to_vec())
}

fn node(b: u8) -> BranchNodeCompact {
    BranchNodeCompact(vec![b])
}

fn account(b: u8) -> B256 {
    B256([b; 32])
}

fn table(rows: &[(&[u8], u8)]) -> TrieTable {
    let mut t = TrieTable::new();
    for (p, n) in rows {
        t.upsert(path(p), node(*n));
    }
    t
}

#[test]
fn seek_exact_prefers_pending_update() {
    let durable = MemoryTrieCursor::new(table(&[(&[1], 0xA)]), None);
    let mut d = TrieUpdates::new();
    d.extend(vec![(TrieKey::AccountNode(path(&[1])), TrieOp::Update(node(0xB)))]);
    let sorted = d.into_sorted();
    let mut c = InMemoryAccountTrieCursor::new(durable, &sorted);
    assert_eq!(c.seek_exact(path(&[1])).unwrap(), Some((path(&[1]), node(0xB))));
    assert_eq!(c.current().unwrap(), Some(TrieKey::AccountNode(path(&[1]))));
}

#[test]
fn seek_exact_hides_pending_delete() {
    let durable = MemoryTrieCursor::new(table(&[(&[1], 0xA), (&[2], 0xC)]), None);
    let mut d = TrieUpdates::new();
    d.extend(vec![(TrieKey::AccountNode(path(&[1])), TrieOp::Delete)]);
    let sorted = d.into_sorted();
    let mut c = InMemoryAccountTrieCursor::new(durable, &sorted);
    assert_eq!(c.seek_exact(path(&[1])).unwrap(), None);
    assert_eq!(c.seek_exact(path(&[2])).unwrap(), Some((path(&[2]), node(0xC))));
    assert_eq!(c.seek_exact(path(&[3])).unwrap(), None);
}

#[test]
fn forward_scan_merges_and_skips_tombstones() {
    let durable = MemoryTrieCursor::new(table(&[(&[1], 1), (&[3], 3), (&[5], 5)]), None);
    let mut d = TrieUpdates::new();
    d.extend(vec![
        (TrieKey::AccountNode(path(&[2])), TrieOp::Update(node(2))),
        (TrieKey::AccountNode(path(&[4])), TrieOp::Delete),
    ]);
    let sorted = d.into_sorted();
    let mut c = InMemoryAccountTrieCursor::new(durable, &sorted);
    let mut seen = Vec::new();
    let mut from = path(&[0]);
    while let Some((p, n)) = c.seek(from.clone()).unwrap() {
        seen.push((p.0.clone(), n.0.clone()));
        from = p.successor();
    }
    assert_eq!(seen, vec![(vec![1], vec![1]), (vec![2], vec![2]), (vec![3], vec![3]), (vec![5], vec![5])]);
}

#[test]
fn seek_skips_tombstone_shadowing_durable_entry() {
    let durable = MemoryTrieCursor::new(table(&[(&[4], 4), (&[6], 6)]), None);
    let mut d = TrieUpdates::new();
    d.extend(vec![
        (TrieKey::AccountNode(path(&[4])), TrieOp::Delete),
        (TrieKey::AccountNode(path(&[5])), TrieOp::Delete),
    ]);
    let sorted = d.into_sorted();
    let mut c = InMemoryAccountTrieCursor::new(durable, &sorted);
    assert_eq!(c.seek(path(&[3])).unwrap(), Some((path(&[6]), node(6))));
    assert_eq!(c.seek(path(&[7])).unwrap(), None);
}

#[test]
fn storage_cursor_seek_backward_then_forward() {
    let durable = MemoryTrieCursor::new(table(&[(&[1], 1), (&[5], 5)]), Some(account(2)));
    let mut d = TrieUpdates::new();
    d.extend(vec![
        (TrieKey::AccountNode(path(&[3])), TrieOp::Update(node(0xEE))),
        (TrieKey::StorageNode(account(1), path(&[2])), TrieOp::Update(node(0xE1))),
        (TrieKey::StorageNode(account(2), path(&[3])), TrieOp::Update(node(3))),
        (TrieKey::StorageNode(account(2), path(&[5])), TrieOp::Delete),
        (TrieKey::StorageNode(account(3), path(&[4])), TrieOp::Update(node(0xE3))),
        (TrieKey::StorageTrie(account(2)), TrieOp::Delete),
    ]);
    let sorted = d.into_sorted();
    let mut c = InMemoryStorageTrieCursor::new(durable, account(2), &sorted);
    assert_eq!(c.seek(path(&[4])).unwrap(), None);
    assert_eq!(c.seek(path(&[0])).unwrap(), Some((path(&[1]), node(1))));
    assert_eq!(c.seek(path(&[2])).unwrap(), Some((path(&[3]), node(3))));
    assert_eq!(c.current().unwrap(), Some(TrieKey::StorageNode(account(2), path(&[3]))));
    assert_eq!(c.seek(path(&[1])).unwrap(), Some((path(&[1]), node(1))));
    assert_eq!(c.seek_exact(path(&[2])).unwrap(), None);
    assert_eq!(c.seek_exact(path(&[3])).unwrap(), Some((path(&[3]), node(3))));
    assert_eq!(c.seek_exact(path(&[5])).unwrap(), None);
}

#[test]
fn durable_table_seek_and_delete() {
    let mut t = table(&[(&[2], 2), (&[1], 1), (&[1, 0], 10)]);
    assert_eq!(t.len(), 3);
    assert_eq!(t.seek(&path(&[1, 0])), Some((path(&[1, 0]), node(10))));
    assert_eq!(t.seek(&path(&[1, 0, 0])), Some((path(&[2]), node(2))));
    t.delete(&path(&[1, 0]));
    t.delete(&path(&[9]));
    assert_eq!(t.len(), 2);
    assert_eq!(t.get(&path(&[1, 0])), None);
    t.upsert(path(&[1]), node(11));
    assert_eq!(t.get(&path(&[1])), Some((path(&[1]), node(11))));
}

#[test]
fn factory_lays_delta_over_each_trie() {
    let durable = MemoryTrieCursorFactory::new(
        table(&[(&[1], 1), (&[2], 2)]),
        vec![(account(1), table(&[(&[1], 0x11)])), (account(2), table(&[(&[1], 0x21), (&[2], 0x22)]))],
    );
    let mut d = TrieUpdates::new();
    d.extend(vec![
        (TrieKey::AccountNode(path(&[1])), TrieOp::Delete),
        (TrieKey::StorageNode(account(2), path(&[1])), TrieOp::Update(node(0x99))),
        (TrieKey::StorageNode(account(3), path(&[7])), TrieOp::Update(node(0x37))),
    ]);
    let sorted = d.into_sorted();
    let factory = InMemoryTrieCursorFactory::new(durable, &sorted);
    let mut accounts = factory.account_trie_cursor().unwrap();
    assert_eq!(accounts.seek(path(&[])).unwrap(), Some((path(&[2]), node(2))));
    let mut one = factory.storage_trie_cursor(account(1)).unwrap();
    assert_eq!(one.seek(path(&[])).unwrap(), Some((path(&[1]), node(0x11))));
    let mut two = factory.storage_trie_cursor(account(2)).unwrap();
    assert_eq!(two.seek_exact(path(&[1])).unwrap(), Some((path(&[1]), node(0x99))));
    assert_eq!(two.seek(path(&[1, 0])).unwrap(), Some((path(&[2]), node(0x22))));
    let mut three = factory.storage_trie_cursor(account(3)).unwrap();
    assert_eq!(three.seek(path(&[])).unwrap(), Some((path(&[7]), node(0x37))));
    assert_eq!(three.current().unwrap(), Some(TrieKey::StorageNode(account(3), path(&[7]))));
}

#[test]
fn overlay_reads_through_committed_tables() {
    let mut committed = TrieTables::new();
    committed.apply(TrieTableOp::UpsertAccountNode(path(&[1]), node(0xA)));
    committed.apply(TrieTableOp::UpsertAccountNode(path(&[3]), node(0xC)));
    committed.apply(TrieTableOp::UpsertStorageNode(account(5), path(&[2]), node(0x52)));
    let mut d = TrieUpdates::new();
    d.extend(vec![
        (TrieKey::AccountNode(path(&[1])), TrieOp::Update(node(0xB))),
        (TrieKey::AccountNode(path(&[3])), TrieOp::Delete),
        (TrieKey::StorageNode(account(5), path(&[1])), TrieOp::Update(node(0x51))),
    ]);
    let sorted = d.sorted();
    let factory = InMemoryTrieCursorFactory::new(committed.cursor_factory(), &sorted);
    let mut accounts = factory.account_trie_cursor().unwrap();
    assert_eq!(accounts.seek_exact(path(&[1])).unwrap(), Some((path(&[1]), node(0xB))));
    assert_eq!(accounts.seek_exact(path(&[3])).unwrap(), None);
    assert_eq!(accounts.seek(path(&[2])).unwrap(), None);
    let mut storage = factory.storage_trie_cursor(account(5)).unwrap();
    assert_eq!(storage.seek(path(&[])).unwrap(), Some((path(&[1]), node(0x51))));
    assert_eq!(storage.seek(path(&[1, 0])).unwrap(), Some((path(&[2]), node(0x52))));
    committed.apply_all(d.flush());
    let mut after = committed.cursor_factory().account_trie_cursor().unwrap();
    assert_eq!(after.seek(path(&[])).unwrap(), Some((path(&[1]), node(0xB))));
    assert_eq!(after.seek(path(&[2])).unwrap(), None);
}

#[test]
fn current_reports_last_found_key_from_either_side() {
    let durable = MemoryTrieCursor::new(table(&[(&[1], 1)]), Some(account(4)));
    let mut d = TrieUpdates::new();
    d.extend(vec![(TrieKey::StorageNode(account(4), path(&[2])), TrieOp::Update(node(2)))]);
    let sorted = d.into_sorted();
    let mut c = InMemoryStorageTrieCursor::new(durable, account(4), &sorted);
    assert_eq!(c.seek_exact(path(&[1])).unwrap(), Some((path(&[1]), node(1))));
    assert_eq!(c.current().unwrap(), Some(TrieKey::StorageNode(account(4), path(&[1]))));
    assert_eq!(c.seek_exact(path(&[2])).unwrap(), Some((path(&[2]), node(2))));
    assert_eq!(c.current().unwrap(), Some(TrieKey::StorageNode(account(4), path(&[2]))));
}
